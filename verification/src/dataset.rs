//! The tabular reader: a delimited table with a header row and an identifier
//! column, turned into a matrix under a caller-supplied cell parser.
//!
//! Axis convention. For a dataset as it is read, axis 0 of `data` runs over
//! `ids` (the columns of the source) and axis 1 runs over `row_ids` (its data
//! records): `data[c][r]` is the parsed cell of data record `r` in data
//! column `c`. [`Dataset::transpose`] swaps the two axes and leaves `ids` and
//! `row_ids` as they are.

use vstd::prelude::*;
use crate::matrix::Grid;
use crate::matrix::Matrix;
use crate::matrix::lemma_flat_index;
use crate::matrix::lemma_from_cells_wf;
use crate::matrix::lemma_transposed_twice;
use crate::matrix::lemma_transposed_wf;
use crate::records::COMMENT;
use crate::records::DELIMITER;
use crate::records::Row;
use crate::records::Table;
use crate::records::TableError;
use crate::records::Text;
use crate::records::accepts;
use crate::records::csv_records;
use crate::records::fields_view;
use crate::records::first_misfit;
use crate::records::has_header;
use crate::records::lemma_first_misfit;
use crate::records::load_records;
use crate::records::parses_to;
use crate::records::precedes;
use crate::records::rejects;
use crate::records::row_fits;
use crate::records::row_labels;
use crate::records::rows_fit;
use crate::records::table_view;
use crate::records::tail_fields;
use crate::schema::Control;

verus! {

/// A table of parsed cells with its column and row identifiers.
#[derive(Debug, PartialEq)]
pub struct Dataset<T> {
    /// The leading label of the header.
    pub first_entry: String,
    /// The column identifiers, as they follow the leading label. Duplicates
    /// are kept.
    pub ids: Vec<String>,
    /// The row identifiers, in the order of the source.
    pub row_ids: Vec<String>,
    /// The parsed cells.
    pub data: Matrix<T>,
}

/// The mathematical value of a [`Dataset`].
pub struct DatasetView<T> {
    pub first_entry: Text,
    pub ids: Row,
    pub row_ids: Row,
    pub data: Grid<T>,
}

impl<T> DatasetView<T> {
    /// The matrix is well formed and holds one element for every pair of a
    /// column identifier and a row identifier.
    pub open spec fn wf(self) -> bool {
        &&& self.data.wf()
        &&& self.data.len() == self.ids.len() * self.row_ids.len()
    }

    /// Axis 0 runs over `ids` and axis 1 over `row_ids`.
    pub open spec fn as_read(self) -> bool {
        &&& self.data.wf()
        &&& self.data.nrows == self.ids.len()
        &&& self.data.ncols == self.row_ids.len()
    }

    /// The same dataset with the axes of the matrix swapped.
    pub open spec fn transposed(self) -> DatasetView<T> {
        DatasetView {
            first_entry: self.first_entry,
            ids: self.ids,
            row_ids: self.row_ids,
            data: self.data.transposed(),
        }
    }
}

impl<T> View for Dataset<T> {
    type V = DatasetView<T>;

    open spec fn view(&self) -> DatasetView<T> {
        DatasetView {
            first_entry: self.first_entry@,
            ids: fields_view(self.ids@),
            row_ids: fields_view(self.row_ids@),
            data: self.data@,
        }
    }
}

/// Swapping the axes of a dataset twice gives the dataset back.
pub proof fn lemma_transpose_twice<T>(d: DatasetView<T>)
    requires
        d.data.wf(),
    ensures
        d.transposed().transposed() == d,
{
    lemma_transposed_twice(d.data);
}

/// Whatever dataset `d` is, transposing it twice gives a dataset of the
/// same value.
pub proof fn lemma_dataset_transpose_twice<T>(d: Dataset<T>)
    ensures
        d@.transposed().transposed() == d@,
{
    d.data.lemma_view_wf();
    lemma_transpose_twice(d@);
}

/// Swapping the axes keeps the number of elements: a well-formed dataset
/// stays well formed.
pub proof fn lemma_transpose_wf<T>(d: DatasetView<T>)
    requires
        d.wf(),
    ensures
        d.transposed().wf(),
{
    lemma_transposed_wf(d.data);
}

/// The element at row `r`, column `c` of a flat sequence of rows of `width`
/// elements each.
pub open spec fn cell_at<T>(cells: Seq<T>, width: int, r: int, c: int) -> T {
    cells[r * width + c]
}

/// Every field of a data record that is read before field `(row, col)` is
/// one that `parser` may answer a value for.
pub open spec fn accepted_before<T, F: Fn(&str) -> Option<T>>(
    parser: F,
    t: Table,
    row: int,
    col: int,
) -> bool {
    forall|r: int, c: int|
        1 <= r < t.len() && 1 <= c < t[0].len() && precedes(r, c, row, col) ==> accepts(
            parser,
            #[trigger] t[r][c],
        )
}

/// `parser` answers `None` for no field of a data record.
pub open spec fn never_rejects<T, F: Fn(&str) -> Option<T>>(parser: F, t: Table) -> bool {
    forall|r: int, c: int|
        1 <= r < t.len() && 1 <= c < t[0].len() ==> !rejects(parser, #[trigger] t[r][c])
}

/// What reading the table `t` under `parser` may give.
///
/// The records are taken in order, each one first checked against the header
/// and then parsed from left to right; the first failure ends the reading.
pub open spec fn read_outcome<T, F: Fn(&str) -> Option<T>>(
    parser: F,
    t: Table,
    result: Result<Dataset<T>, TableError>,
) -> bool {
    &&& match result {
        Ok(d) => {
            &&& has_header(t)
            &&& rows_fit(t)
            &&& d@.first_entry == t[0][0]
            &&& d@.ids == t[0].drop_first()
            &&& d@.row_ids == row_labels(t)
            &&& d@.as_read()
            &&& d@.wf()
            &&& forall|c: int, r: int|
                0 <= c < d@.ids.len() && 0 <= r < d@.row_ids.len() ==> parses_to(
                    parser,
                    t[r + 1][c + 1],
                    Some(#[trigger] d@.data.rows[c][r]),
                )
        },
        Err(TableError::RowShape { row }) => {
            if has_header(t) {
                &&& 1 <= row < t.len()
                &&& !row_fits(t, row as int)
                &&& forall|r: int| 1 <= r < row ==> row_fits(t, r)
                &&& accepted_before(parser, t, row as int, 0)
            } else {
                row == 0
            }
        },
        Err(TableError::CellParse { row, col }) => {
            &&& has_header(t)
            &&& 1 <= row < t.len()
            &&& 1 <= col < t[0].len()
            &&& forall|r: int| 1 <= r <= row ==> row_fits(t, r)
            &&& rejects(parser, t[row as int][col as int])
            &&& accepted_before(parser, t, row as int, col as int)
        },
        Err(_) => false,
    }
    &&& has_header(t) && rows_fit(t) && never_rejects(parser, t) ==> result is Ok
}

/// The dataset of the table `t` under a translator that knows an element for
/// every cell text, or the shape error of the first record that does not fit
/// the header.
pub open spec fn translated<T>(t: Table, f: spec_fn(Text) -> T) -> Result<
    DatasetView<T>,
    TableError,
> {
    if !has_header(t) {
        Err(TableError::RowShape { row: 0 })
    } else if first_misfit(t, 1) < t.len() {
        Err(TableError::RowShape { row: first_misfit(t, 1) as usize })
    } else {
        Ok(
            DatasetView {
                first_entry: t[0][0],
                ids: t[0].drop_first(),
                row_ids: row_labels(t),
                data: Grid {
                    nrows: (t[0].len() - 1) as nat,
                    ncols: (t.len() - 1) as nat,
                    rows: Seq::new(
                        (t[0].len() - 1) as nat,
                        |c: int| Seq::new((t.len() - 1) as nat, |r: int| f(t[r + 1][c + 1])),
                    ),
                },
            },
        )
    }
}

/// The dataset of a table holds one element for every pair of a column
/// identifier and a row identifier, with axis 0 over the column identifiers.
pub proof fn lemma_translated_wf<T>(t: Table, f: spec_fn(Text) -> T)
    requires
        translated(t, f) is Ok,
    ensures
        translated(t, f)->Ok_0.as_read(),
        translated(t, f)->Ok_0.wf(),
        translated(t, f)->Ok_0.data.len() == (t[0].len() - 1) * (t.len() - 1),
{
}

/// Parses the fields of `row` after the first, from left to right, up to the
/// first one that `parser` rejects.
fn parse_fields<T, F: Fn(&str) -> Option<T>>(parser: &F, row: &Vec<String>) -> (r: Result<
    Vec<T>,
    usize,
>)
    requires
        row.len() > 0,
        forall|s: &str| call_requires(*parser, (s,)),
    ensures
        match r {
            Ok(v) => {
                &&& v.len() == row.len() - 1
                &&& forall|k: int|
                    0 <= k < v.len() ==> parses_to(*parser, row[k + 1]@, Some(#[trigger] v[k]))
            },
            Err(col) => {
                &&& 1 <= col < row.len()
                &&& rejects(*parser, row[col as int]@)
                &&& forall|c: int| 1 <= c < col ==> accepts(*parser, (#[trigger] row[c])@)
            },
        },
{
    let mut out: Vec<T> = Vec::new();
    let mut c: usize = 1;
    while c < row.len()
        invariant
            1 <= c <= row.len(),
            out.len() == c - 1,
            forall|s: &str| call_requires(*parser, (s,)),
            forall|k: int|
                0 <= k < out.len() ==> parses_to(*parser, row[k + 1]@, Some(#[trigger] out[k])),
            forall|k: int| 1 <= k < c ==> accepts(*parser, (#[trigger] row[k])@),
        decreases row.len() - c,
    {
        let field = row[c].as_str();
        match (*parser)(field) {
            Some(v) => {
                assert(parses_to(*parser, row[c as int]@, Some(v)));
                out.push(v);
            },
            None => {
                assert(parses_to(*parser, row[c as int]@, None::<T>));
                return Err(c);
            },
        }
        c += 1;
    }
    Ok(out)
}

impl<T> Dataset<T> {
    /// Builds the dataset of a table that is already split into records.
    ///
    /// Record 0 is the header: its first field is the leading label, the
    /// others are the column identifiers. Every later record gives a row
    /// identifier and then one cell for each column identifier, which
    /// `parser` turns into an element.
    pub fn from_records<F: Fn(&str) -> Option<T>>(parser: F, rows: &Vec<Vec<String>>) -> (result:
        Result<Dataset<T>, TableError>)
        requires
            forall|s: &str| call_requires(parser, (s,)),
        ensures
            read_outcome(parser, table_view(rows@), result),
    {
        let ghost t = table_view(rows@);
        if rows.len() == 0 {
            return Err(TableError::RowShape { row: 0 });
        }
        let header = &rows[0];
        if header.len() == 0 {
            return Err(TableError::RowShape { row: 0 });
        }
        let first_entry = header[0].clone();
        let ids = tail_fields(header);
        let width = header.len() - 1;
        assert(t[0] == fields_view(header@));
        let mut row_ids: Vec<String> = Vec::new();
        let mut cells: Vec<T> = Vec::new();
        let mut r: usize = 1;
        while r < rows.len()
            invariant
                1 <= r <= rows.len(),
                t == table_view(rows@),
                has_header(t),
                header.len() == t[0].len(),
                width == header.len() - 1,
                row_ids.len() == r - 1,
                cells.len() == (r - 1) * width,
                forall|s: &str| call_requires(parser, (s,)),
                forall|k: int| 0 <= k < r - 1 ==> (#[trigger] row_ids[k])@ == t[k + 1][0],
                forall|k: int| 1 <= k < r ==> row_fits(t, k),
                forall|k: int, c: int|
                    0 <= k < r - 1 && 0 <= c < width ==> parses_to(
                        parser,
                        t[k + 1][c + 1],
                        Some(#[trigger] cell_at(cells@, width as int, k, c)),
                    ),
            decreases rows.len() - r,
        {
            let row = &rows[r];
            assert(t[r as int] == fields_view(row@));
            assert(t[0] == fields_view(rows[0]@));
            assert forall|k: int, c: int|
                1 <= k < r && 1 <= c < t[0].len() implies accepts(parser, #[trigger] t[k][c]) by {
                let v = cell_at(cells@, width as int, k - 1, c - 1);
                assert(parses_to(parser, t[k - 1 + 1][c - 1 + 1], Some(v)));
            }
            if row.len() != header.len() {
                assert(!row_fits(t, r as int));
                assert(accepted_before(parser, t, r as int, 0));
                return Err(TableError::RowShape { row: r });
            }
            let mut parsed = match parse_fields(&parser, row) {
                Ok(parsed) => parsed,
                Err(col) => {
                    assert forall|k: int, c: int|
                        1 <= k < t.len() && 1 <= c < t[0].len() && precedes(
                            k,
                            c,
                            r as int,
                            col as int,
                        ) implies accepts(parser, #[trigger] t[k][c]) by {
                        if k == r {
                            assert(t[k][c] == row[c]@);
                        }
                    }
                    assert(accepted_before(parser, t, r as int, col as int));
                    assert(rejects(parser, t[r as int][col as int]));
                    return Err(TableError::CellParse { row: r, col });
                },
            };
            row_ids.push(row[0].clone());
            let ghost before = cells@;
            let ghost fresh = parsed@;
            cells.append(&mut parsed);
            proof {
                assert(cells@ == before + fresh);
                assert((r - 1) * width + width == r * width) by (nonlinear_arith);
                assert forall|k: int, c: int| 0 <= k < r && 0 <= c < width implies parses_to(
                    parser,
                    t[k + 1][c + 1],
                    Some(#[trigger] cell_at(cells@, width as int, k, c)),
                ) by {
                    if k < r - 1 {
                        lemma_flat_index(r - 1, width as int, k, c);
                        assert(cell_at(cells@, width as int, k, c) == cell_at(
                            before,
                            width as int,
                            k,
                            c,
                        ));
                    } else {
                        assert(cell_at(cells@, width as int, k, c) == fresh[c]);
                        assert(t[k + 1][c + 1] == row[c + 1]@);
                    }
                }
            }
            r += 1;
        }
        let height = row_ids.len();
        let stored = Matrix::from_parts(height, width, cells);
        let data = stored.reversed_axes();
        let result = Dataset { first_entry, ids, row_ids, data };
        proof {
            let d = result@;
            lemma_from_cells_wf(height as nat, width as nat, cells@);
            lemma_transposed_wf(stored@);
            assert(d.row_ids =~= row_labels(t));
            assert(d.ids == t[0].drop_first());
            assert(height * width == width * height) by (nonlinear_arith);
            assert forall|c: int, k: int|
                0 <= c < d.ids.len() && 0 <= k < d.row_ids.len() implies parses_to(
                parser,
                t[k + 1][c + 1],
                Some(#[trigger] d.data.rows[c][k]),
            ) by {
                assert(d.data.rows[c][k] == cell_at(cells@, width as int, k, c));
            }
        }
        Ok(result)
    }

    /// Reads the delimited text `data`.
    ///
    /// The text is split into records with the given field delimiter; a line
    /// that starts with `comment` is no record. The records are then taken as
    /// [`Dataset::from_records`] takes them.
    pub fn read_csv<F: Fn(&str) -> Option<T>>(
        parser: F,
        data: &[u8],
        delimiter: u8,
        comment: u8,
    ) -> (result: Result<Dataset<T>, TableError>)
        requires
            forall|s: &str| call_requires(parser, (s,)),
        ensures
            match csv_records(data@, delimiter, comment) {
                Some(t) => read_outcome(parser, t, result),
                None => result == Err::<Dataset<T>, TableError>(TableError::Source),
            },
    {
        match load_records(data, delimiter, comment) {
            Ok(rows) => Dataset::from_records(parser, &rows),
            Err(e) => Err(e),
        }
    }

    /// The same dataset with the two axes of the matrix swapped. No element
    /// is lost or moved; `ids` and `row_ids` are unchanged.
    pub fn transpose(self) -> (r: Dataset<T>)
        ensures
            r@ == self@.transposed(),
    {
        Dataset {
            first_entry: self.first_entry,
            ids: self.ids,
            row_ids: self.row_ids,
            data: self.data.reversed_axes(),
        }
    }
}

impl Dataset<u8> {
    /// Builds the genotype matrix of a table that is already split into
    /// records: every cell is translated by [`Control::parse_geno`], which
    /// rejects none.
    pub fn from_geno_records(ctrl: &Control, rows: &Vec<Vec<String>>) -> (result: Result<
        Dataset<u8>,
        TableError,
    >)
        ensures
            match translated(table_view(rows@), |raw: Text| ctrl.genotype_code(raw)) {
                Ok(v) => result matches Ok(d) && d@ == v && d@.wf(),
                Err(e) => result == Err::<Dataset<u8>, TableError>(e),
            },
    {
        let ghost t = table_view(rows@);
        let ghost f = |raw: Text| ctrl.genotype_code(raw);
        let parser = |g: &str| -> (code: Option<u8>)
            ensures
                code == Some(ctrl.genotype_code(g@)),
            { Some(ctrl.parse_geno(g)) };
        let result = Dataset::from_records(parser, rows);
        let ghost outcome = result;
        proof {
            match outcome {
                Ok(d) => {
                    lemma_first_misfit(t, 1, t.len() as int);
                    let v = translated(t, f)->Ok_0;
                    assert(d@.data.rows.len() == v.data.rows.len());
                    assert forall|c: int| 0 <= c < v.data.nrows implies d@.data.rows[c]
                        == v.data.rows[c] by {
                        assert forall|r: int| 0 <= r < v.data.ncols implies d@.data.rows[c][r]
                            == v.data.rows[c][r] by {
                            assert(parses_to(parser, t[r + 1][c + 1], Some(d@.data.rows[c][r])));
                        }
                        assert(d@.data.rows[c] =~= v.data.rows[c]);
                    }
                    assert(d@.data.rows =~= v.data.rows);
                },
                Err(TableError::RowShape { row }) => {
                    if has_header(t) {
                        lemma_first_misfit(t, 1, row as int);
                    }
                },
                Err(_) => {},
            }
        }
        result
    }

    /// Reads a comma-separated genotype table, in which a line that starts
    /// with `#` is a comment, and translates its cells by the schema.
    pub fn read_geno_csv(ctrl: &Control, data: &[u8]) -> (result: Result<Dataset<u8>, TableError>)
        ensures
            match csv_records(data@, DELIMITER, COMMENT) {
                Some(t) => match translated(t, |raw: Text| ctrl.genotype_code(raw)) {
                    Ok(v) => result matches Ok(d) && d@ == v && d@.wf(),
                    Err(e) => result == Err::<Dataset<u8>, TableError>(e),
                },
                None => result == Err::<Dataset<u8>, TableError>(TableError::Source),
            },
    {
        match load_records(data, DELIMITER, COMMENT) {
            Ok(rows) => Dataset::from_geno_records(ctrl, &rows),
            Err(e) => Err(e),
        }
    }
}

} // verus!
