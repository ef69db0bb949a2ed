//! The raw keyed table: the cells of every record as they stand in the
//! source, kept under the record's identifier.

use vstd::prelude::*;
use crate::dict::Dict;
use crate::records::COMMENT;
use crate::records::DELIMITER;
use crate::records::Row;
use crate::records::Table;
use crate::records::TableError;
use crate::records::Text;
use crate::records::csv_records;
use crate::records::fields_view;
use crate::records::first_misfit;
use crate::records::has_header;
use crate::records::lemma_first_misfit;
use crate::records::load_records;
use crate::records::row_fits;
use crate::records::table_view;
use crate::records::tail_fields;

verus! {

/// A table of raw cells keyed by row identifier.
#[derive(Debug)]
pub struct Geno {
    /// The column identifiers, as they follow the leading label of the header.
    pub ids: Vec<String>,
    /// The cells of every record after its identifier, under that identifier.
    pub genos: Dict<Vec<String>>,
}

/// The mathematical value of a [`Geno`].
pub struct GenoView {
    pub ids: Row,
    pub genos: Map<Text, Row>,
}

impl GenoView {
    /// Every row has one cell for each column identifier.
    pub open spec fn wf(self) -> bool {
        forall|k: Text| self.genos.contains_key(k) ==> (#[trigger] self.genos[k]).len() == self.ids.len()
    }
}

impl View for Geno {
    type V = GenoView;

    open spec fn view(&self) -> GenoView {
        GenoView {
            ids: fields_view(self.ids@),
            genos: self.genos@.map_values(|cells: Vec<String>| fields_view(cells@)),
        }
    }
}

/// The rows of the first `n` records of `t` under their identifiers, the
/// header left out. Of two records with one identifier the later one stays.
pub open spec fn keyed_rows(t: Table, n: int) -> Map<Text, Row>
    decreases n,
{
    if n <= 1 {
        Map::empty()
    } else {
        keyed_rows(t, n - 1).insert(t[n - 1][0], t[n - 1].drop_first())
    }
}

/// The keyed table of `t`, or the shape error of the first record that does
/// not fit the header.
pub open spec fn keyed_table(t: Table) -> Result<GenoView, TableError> {
    if !has_header(t) {
        Err(TableError::RowShape { row: 0 })
    } else if first_misfit(t, 1) < t.len() {
        Err(TableError::RowShape { row: first_misfit(t, 1) as usize })
    } else {
        Ok(GenoView { ids: t[0].drop_first(), genos: keyed_rows(t, t.len() as int) })
    }
}

/// An identifier is a key of the keyed rows exactly when a record has it,
/// and it then stands for the cells of the last such record.
pub proof fn lemma_keyed_rows(t: Table, n: int, key: Text)
    requires
        1 <= n <= t.len(),
    ensures
        keyed_rows(t, n).contains_key(key) <==> exists|r: int| 1 <= r < n && #[trigger] t[r][0] == key,
        forall|r: int|
            1 <= r < n && #[trigger] t[r][0] == key && (forall|q: int|
                r < q < n ==> #[trigger] t[q][0] != key) ==> keyed_rows(t, n)[key]
                == t[r].drop_first(),
    decreases n,
{
    if n > 1 {
        lemma_keyed_rows(t, n - 1, key);
        if t[n - 1][0] == key {
        } else {
            assert forall|r: int|
                1 <= r < n && #[trigger] t[r][0] == key && (forall|q: int|
                    r < q < n ==> #[trigger] t[q][0] != key) implies keyed_rows(t, n)[key]
                == t[r].drop_first() by {
                assert(r < n - 1);
            }
        }
    }
}

/// Where every record fits the header, every keyed row has one cell for each
/// column identifier.
pub proof fn lemma_keyed_table_wf(t: Table)
    requires
        keyed_table(t) is Ok,
    ensures
        keyed_table(t)->Ok_0.wf(),
{
    lemma_keyed_rows_len(t, t.len() as int);
}

/// Keyed rows of records that fit the header are as long as the header's
/// column identifiers.
pub proof fn lemma_keyed_rows_len(t: Table, n: int)
    requires
        has_header(t),
        1 <= n <= t.len(),
        first_misfit(t, 1) >= n,
    ensures
        forall|k: Text|
            keyed_rows(t, n).contains_key(k) ==> (#[trigger] keyed_rows(t, n)[k]).len()
                == t[0].len() - 1,
    decreases n,
{
    if n > 1 {
        lemma_keyed_rows_len(t, n - 1);
        if !row_fits(t, n - 1) {
            lemma_misfit_bound(t, 1, n - 1);
        }
        let last = t[n - 1];
        assert(last.drop_first().len() == t[0].len() - 1);
        assert forall|k: Text| keyed_rows(t, n).contains_key(k) implies (#[trigger] keyed_rows(
            t,
            n,
        )[k]).len() == t[0].len() - 1 by {
            if k != last[0] {
                assert(keyed_rows(t, n - 1).contains_key(k));
            }
        }
    }
}

/// The first misfit from `from` on is no later than any record from there on
/// that does not fit the header.
pub proof fn lemma_misfit_bound(t: Table, from: int, row: int)
    requires
        1 <= from <= row < t.len(),
        !row_fits(t, row),
    ensures
        first_misfit(t, from) <= row,
    decreases row - from,
{
    if from < row && row_fits(t, from) {
        lemma_misfit_bound(t, from + 1, row);
    }
}

/// Record `r` has the identifier of an earlier record after the header, so
/// that it replaces that record in the keyed table.
pub open spec fn repeats(t: Table, r: int) -> bool {
    &&& 1 <= r < t.len()
    &&& t[r].len() > 0
    &&& exists|q: int| 1 <= q < r && (#[trigger] t[q]).len() > 0 && t[q][0] == t[r][0]
}

impl Geno {
    /// The first record that replaces an earlier one because it has the same
    /// identifier, or `None` where every identifier stands once. A caller
    /// can warn of such a record: the keyed table itself keeps silent.
    pub fn repeated_key(rows: &Vec<Vec<String>>) -> (found: Option<usize>)
        ensures
            match found {
                Some(r) => repeats(table_view(rows@), r as int) && forall|k: int|
                    1 <= k < r ==> !repeats(table_view(rows@), k),
                None => forall|k: int| !repeats(table_view(rows@), k),
            },
    {
        let ghost t = table_view(rows@);
        let mut seen: Dict<usize> = Dict::new();
        let mut r: usize = 1;
        while r < rows.len()
            invariant
                1 <= r,
                t == table_view(rows@),
                forall|k: int| 1 <= k < r ==> !repeats(t, k),
                forall|q: int|
                    1 <= q < r && q < t.len() && (#[trigger] t[q]).len() > 0 ==> seen@.contains_key(
                        t[q][0],
                    ),
                forall|key: Text|
                    seen@.contains_key(key) ==> 1 <= #[trigger] seen@[key] < r && seen@[key]
                        < t.len() && t[seen@[key] as int].len() > 0 && t[seen@[key] as int][0]
                        == key,
            decreases rows.len() - r,
        {
            let row = &rows[r];
            assert(t[r as int] == fields_view(row@));
            if row.len() > 0 {
                match seen.get(row[0].as_str()) {
                    Some(q) => {
                        assert(t[*q as int][0] == t[r as int][0]);
                        return Some(r);
                    },
                    None => {},
                }
                seen.insert(row[0].clone(), r);
            }
            r += 1;
        }
        None
    }

    /// Builds the keyed table of records that are already split.
    ///
    /// Record 0 is the header, whose fields after the first are the column
    /// identifiers. Every later record is kept under its first field; where
    /// two records have one identifier, the later one replaces the earlier.
    pub fn from_records(rows: &Vec<Vec<String>>) -> (result: Result<Geno, TableError>)
        ensures
            match keyed_table(table_view(rows@)) {
                Ok(v) => result matches Ok(g) && g@ == v && g@.wf(),
                Err(e) => result == Err::<Geno, TableError>(e),
            },
    {
        let ghost t = table_view(rows@);
        if rows.len() == 0 {
            return Err(TableError::RowShape { row: 0 });
        }
        let header = &rows[0];
        if header.len() == 0 {
            return Err(TableError::RowShape { row: 0 });
        }
        assert(t[0] == fields_view(header@));
        let ids = tail_fields(header);
        let mut genos: Dict<Vec<String>> = Dict::new();
        let ghost to_row = |cells: Vec<String>| fields_view(cells@);
        let mut r: usize = 1;
        assert(genos@.map_values(to_row) =~= keyed_rows(t, 1));
        while r < rows.len()
            invariant
                1 <= r <= rows.len(),
                t == table_view(rows@),
                has_header(t),
                header.len() == t[0].len(),
                to_row == |cells: Vec<String>| fields_view(cells@),
                forall|k: int| 1 <= k < r ==> row_fits(t, k),
                genos@.map_values(to_row) == keyed_rows(t, r as int),
            decreases rows.len() - r,
        {
            let row = &rows[r];
            assert(t[r as int] == fields_view(row@));
            if row.len() != header.len() {
                proof {
                    lemma_first_misfit(t, 1, r as int);
                }
                return Err(TableError::RowShape { row: r });
            }
            let key = row[0].clone();
            let cells = tail_fields(row);
            let ghost before = genos@;
            genos.insert(key, cells);
            proof {
                assert(genos@.map_values(to_row) =~= before.map_values(to_row).insert(
                    t[r as int][0],
                    t[r as int].drop_first(),
                ));
            }
            r += 1;
        }
        let result = Geno { ids, genos };
        proof {
            lemma_first_misfit(t, 1, t.len() as int);
            lemma_keyed_table_wf(t);
        }
        Ok(result)
    }

    /// Reads a comma-separated table, in which a line that starts with `#` is
    /// a comment, and keeps its cells as they stand.
    pub fn parse_transposed_geno(data: &[u8]) -> (result: Result<Geno, TableError>)
        ensures
            match csv_records(data@, DELIMITER, COMMENT) {
                Some(t) => match keyed_table(t) {
                    Ok(v) => result matches Ok(g) && g@ == v && g@.wf(),
                    Err(e) => result == Err::<Geno, TableError>(e),
                },
                None => result == Err::<Geno, TableError>(TableError::Source),
            },
    {
        match load_records(data, DELIMITER, COMMENT) {
            Ok(rows) => Geno::from_records(&rows),
            Err(e) => Err(e),
        }
    }
}

} // verus!
