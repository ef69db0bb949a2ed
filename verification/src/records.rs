//! Splitting delimited text into records, and the errors of table ingestion.

use vstd::prelude::*;

verus! {

/// The field delimiter that the readers use where none is given: a comma.
pub const DELIMITER: u8 = 0x2c;

/// The prefix of a comment line where none is given: a hash sign.
pub const COMMENT: u8 = 0x23;

/// The characters of one field.
pub type Text = Seq<char>;

/// The fields of one record, in order.
pub type Row = Seq<Text>;

/// The records of one source, in order, the header first.
pub type Table = Seq<Row>;

/// Why a table could not be ingested.
///
/// Rows and columns are counted in the table as split into records: record 0
/// is the header and field 0 of every record is its identifier. Comment lines
/// are not records and are not counted.
#[derive(Debug, Clone, Copy, PartialEq, Eq, Structural)]
pub enum TableError {
    /// The source could not be read as delimited text.
    Source,
    /// Record `row` does not have the shape that the header asks for. For
    /// `row == 0` the header itself is missing or lacks a required field.
    RowShape { row: usize },
    /// The cell parser rejected field `col` of record `row`.
    CellParse { row: usize, col: usize },
    /// The position field of record `row` is not a position.
    PositionParse { row: usize },
}

/// The character sequences of a record's fields.
pub open spec fn fields_view(row: Seq<String>) -> Row {
    Seq::new(row.len(), |i: int| row[i]@)
}

/// The character sequences of a table's records.
pub open spec fn table_view(rows: Seq<Vec<String>>) -> Table {
    Seq::new(rows.len(), |i: int| fields_view(rows[i]@))
}

/// `csv::Error`, the error of the `csv` reader. Nothing is known of what it
/// holds; it is only told apart from a success.
#[verifier::external_type_specification]
#[verifier::external_body]
pub struct ExCsvError(csv::Error);

/// The records that the `csv` reader yields for `data`, or `None` where it
/// reports an error, when it is configured with the given field delimiter and
/// comment prefix, without a header row of its own and without a check on the
/// number of fields.
pub uninterp spec fn csv_records(data: Seq<u8>, delimiter: u8, comment: u8) -> Option<Table>;

/// Reads all records of `data` with a `csv::Reader` that `csv::ReaderBuilder`
/// builds with `has_headers(false)`, `flexible(true)`, the given `delimiter`
/// and `comment(Some(comment))`, by walking `csv::Reader::records`.
///
/// Not proved: that the records handed back are the ones that
/// [`csv_records`] names for the three arguments, and that the reader fails
/// exactly where [`csv_records`] names none. The reader works on the bytes
/// in memory alone, so the same arguments always give the same records.
#[verifier::external_body]
pub(crate) fn split_records(data: &[u8], delimiter: u8, comment: u8) -> (r: Result<
    Vec<Vec<String>>,
    csv::Error,
>)
    ensures
        match r {
            Ok(rows) => csv_records(data@, delimiter, comment) == Some(table_view(rows@)),
            Err(_) => csv_records(data@, delimiter, comment) is None,
        },
{
    let mut reader = csv::ReaderBuilder::new()
        .has_headers(false)
        .flexible(true)
        .delimiter(delimiter)
        .comment(Some(comment))
        .from_reader(data);
    let mut rows: Vec<Vec<String>> = Vec::new();
    for record in reader.records() {
        rows.push(record?.iter().map(String::from).collect());
    }
    Ok(rows)
}

/// `parser` may answer `out` when it is called on a string slice that holds
/// the characters `text`.
pub open spec fn parses_to<T, F: Fn(&str) -> Option<T>>(
    parser: F,
    text: Text,
    out: Option<T>,
) -> bool {
    exists|s: &str| s@ == text && call_ensures(parser, (s,), out)
}

/// `parser` may answer some value for `text`.
pub open spec fn accepts<T, F: Fn(&str) -> Option<T>>(parser: F, text: Text) -> bool {
    exists|v: T| parses_to(parser, text, Some(v))
}

/// `parser` may answer `None` for `text`.
pub open spec fn rejects<T, F: Fn(&str) -> Option<T>>(parser: F, text: Text) -> bool {
    parses_to(parser, text, None::<T>)
}

/// The table has a header, and the header has its leading label.
pub open spec fn has_header(t: Table) -> bool {
    t.len() > 0 && t[0].len() > 0
}

/// Record `r` has as many fields as the header.
pub open spec fn row_fits(t: Table, r: int) -> bool {
    t[r].len() == t[0].len()
}

/// Every record after the header has as many fields as the header.
pub open spec fn rows_fit(t: Table) -> bool {
    forall|r: int| 1 <= r < t.len() ==> row_fits(t, r)
}

/// The identifiers of the data records: field 0 of every record after the
/// header, in order.
pub open spec fn row_labels(t: Table) -> Row {
    Seq::new((t.len() - 1) as nat, |r: int| t[r + 1][0])
}

/// The first record from `from` on that does not have as many fields as the
/// header, or the number of records where there is none.
pub open spec fn first_misfit(t: Table, from: int) -> int
    decreases t.len() - from,
{
    if from >= t.len() {
        t.len() as int
    } else if !row_fits(t, from) {
        from
    } else {
        first_misfit(t, from + 1)
    }
}

/// Where every record from `from` up to `row` fits the header, the first
/// misfit from `from` on is the first misfit from `row` on.
pub proof fn lemma_first_misfit(t: Table, from: int, row: int)
    requires
        1 <= from <= row <= t.len(),
        forall|r: int| from <= r < row ==> row_fits(t, r),
    ensures
        first_misfit(t, from) == first_misfit(t, row),
    decreases row - from,
{
    if from < row {
        lemma_first_misfit(t, from + 1, row);
    }
}

/// Field `(r, c)` comes before field `(row, col)` when a table is read
/// record by record and each record from left to right.
pub open spec fn precedes(r: int, c: int, row: int, col: int) -> bool {
    r < row || (r == row && c < col)
}

/// Splits `data` into records.
///
/// The records are those of [`csv_records`]; where the reader reports an
/// error the source counts as unreadable.
pub fn load_records(data: &[u8], delimiter: u8, comment: u8) -> (r: Result<
    Vec<Vec<String>>,
    TableError,
>)
    ensures
        match csv_records(data@, delimiter, comment) {
            Some(t) => r matches Ok(rows) && table_view(rows@) == t,
            None => r == Err::<Vec<Vec<String>>, TableError>(TableError::Source),
        },
{
    match split_records(data, delimiter, comment) {
        Ok(rows) => Ok(rows),
        Err(_) => Err(TableError::Source),
    }
}

/// Copies the fields of `row` that follow the first one.
pub(crate) fn tail_fields(row: &Vec<String>) -> (tail: Vec<String>)
    requires
        row.len() > 0,
    ensures
        fields_view(tail@) == fields_view(row@).drop_first(),
{
    let mut tail: Vec<String> = Vec::new();
    let mut i: usize = 1;
    while i < row.len()
        invariant
            1 <= i <= row.len(),
            tail.len() == i - 1,
            forall|k: int| 0 <= k < tail.len() ==> (#[trigger] tail[k])@ == row[k + 1]@,
        decreases row.len() - i,
    {
        tail.push(row[i].clone());
        i += 1;
    }
    assert(fields_view(tail@) =~= fields_view(row@).drop_first());
    tail
}

} // verus!
