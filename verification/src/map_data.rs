//! The marker map: an ordered stream of markers grouped by chromosome.
//!
//! Chromosomes stand in the order in which the stream first names them, and
//! the markers of a chromosome stand in the order of the stream. Nothing is
//! sorted by position.

use vstd::prelude::*;
use vstd::string::StringExecFns;
use crate::dict::Dict;
use crate::records::COMMENT;
use crate::records::DELIMITER;
use crate::records::Table;
use crate::records::TableError;
use crate::records::Text;
use crate::records::accepts;
use crate::records::csv_records;
use crate::records::fields_view;
use crate::records::load_records;
use crate::records::parses_to;
use crate::records::rejects;
use crate::records::row_fits;
use crate::records::rows_fit;
use crate::records::table_view;
use crate::text::str_eq;

verus! {

/// A named location on a chromosome. The unit of the position is the
/// caller's.
#[derive(Debug)]
pub struct Marker<P> {
    pub name: String,
    pub pos: P,
}

/// The markers of one chromosome as pairs of name and position.
#[derive(Debug)]
pub struct Chromosome<P> {
    pub markers: Vec<(String, P)>,
}

/// A genetic or physical map: for every chromosome its markers.
#[derive(Debug)]
pub struct MapData<P> {
    pub chromosomes: Vec<(String, Vec<Marker<P>>)>,
}

/// One record of the stream that a map is built from.
pub struct Entry<P> {
    pub marker: Text,
    pub chr: Text,
    pub pos: P,
}

/// The names and positions of markers.
pub open spec fn markers_view<P>(markers: Seq<Marker<P>>) -> Seq<(Text, P)> {
    Seq::new(markers.len(), |j: int| (markers[j].name@, markers[j].pos))
}

/// The chromosomes of a map: each label with the names and positions of its
/// markers.
pub open spec fn chromosomes_view<P>(chromosomes: Seq<(String, Vec<Marker<P>>)>) -> Seq<
    (Text, Seq<(Text, P)>),
> {
    Seq::new(chromosomes.len(), |i: int| (chromosomes[i].0@, markers_view(chromosomes[i].1@)))
}

impl<P> View for MapData<P> {
    type V = Seq<(Text, Seq<(Text, P)>)>;

    open spec fn view(&self) -> Seq<(Text, Seq<(Text, P)>)> {
        chromosomes_view(self.chromosomes@)
    }
}

/// The stream that a vector of records stands for.
pub open spec fn stream_view<P>(rows: Seq<(String, String, P)>) -> Seq<Entry<P>> {
    Seq::new(rows.len(), |i: int| Entry { marker: rows[i].0@, chr: rows[i].1@, pos: rows[i].2 })
}

/// The labels of the chromosomes, in order.
pub open spec fn labels<P>(m: Seq<(Text, Seq<(Text, P)>)>) -> Seq<Text> {
    Seq::new(m.len(), |i: int| m[i].0)
}

/// The chromosome labels of a stream, record by record.
pub open spec fn chrs<P>(rows: Seq<Entry<P>>) -> Seq<Text> {
    Seq::new(rows.len(), |i: int| rows[i].chr)
}

/// `i` is the first place at which `x` stands in `s`.
pub open spec fn is_first(s: Seq<Text>, x: Text, i: int) -> bool {
    &&& 0 <= i < s.len()
    &&& s[i] == x
    &&& forall|j: int| 0 <= j < i ==> s[j] != x
}

/// The first place at which `x` stands in `s`, or the length of `s` where it
/// stands nowhere.
pub open spec fn first_index(s: Seq<Text>, x: Text) -> int
    decreases s.len(),
{
    if s.len() == 0 {
        0
    } else {
        let i = first_index(s.drop_last(), x);
        if i < s.len() - 1 {
            i
        } else if s.last() == x {
            s.len() - 1
        } else {
            s.len() as int
        }
    }
}

/// The different members of `s`, in the order in which `s` first names them.
pub open spec fn first_seen(s: Seq<Text>) -> Seq<Text>
    decreases s.len(),
{
    if s.len() == 0 {
        Seq::empty()
    } else {
        let before = first_seen(s.drop_last());
        if before.contains(s.last()) {
            before
        } else {
            before.push(s.last())
        }
    }
}

/// The markers that the stream gives to chromosome `chr`, in the order of
/// the stream.
pub open spec fn markers_of<P>(rows: Seq<Entry<P>>, chr: Text) -> Seq<(Text, P)>
    decreases rows.len(),
{
    if rows.len() == 0 {
        Seq::empty()
    } else {
        let before = markers_of(rows.drop_last(), chr);
        if rows.last().chr == chr {
            before.push((rows.last().marker, rows.last().pos))
        } else {
            before
        }
    }
}

/// The map of a stream: one chromosome for every label, in the order of
/// first occurrence, each with its markers in the order of the stream.
pub open spec fn grouped<P>(rows: Seq<Entry<P>>) -> Seq<(Text, Seq<(Text, P)>)> {
    let order = first_seen(chrs(rows));
    Seq::new(order.len(), |i: int| (order[i], markers_of(rows, order[i])))
}

/// The map `m` after one more record: the marker goes to the end of the
/// first chromosome with the record's label, or of a new last chromosome
/// where there is none.
pub open spec fn pushed<P>(m: Seq<(Text, Seq<(Text, P)>)>, e: Entry<P>) -> Seq<
    (Text, Seq<(Text, P)>),
> {
    let i = first_index(labels(m), e.chr);
    if i < m.len() {
        m.update(i, (m[i].0, m[i].1.push((e.marker, e.pos))))
    } else {
        m.push((e.chr, Seq::<(Text, P)>::empty().push((e.marker, e.pos))))
    }
}

/// No label stands twice.
pub open spec fn distinct_labels<P>(m: Seq<(Text, Seq<(Text, P)>)>) -> bool {
    labels(m).no_duplicates()
}

/// `first_index` is the first place of `x`, and is the length exactly when
/// `x` stands nowhere.
pub proof fn lemma_first_index(s: Seq<Text>, x: Text)
    ensures
        0 <= first_index(s, x) <= s.len(),
        first_index(s, x) < s.len() ==> is_first(s, x, first_index(s, x)),
        first_index(s, x) == s.len() ==> !s.contains(x),
    decreases s.len(),
{
    if s.len() > 0 {
        lemma_first_index(s.drop_last(), x);
        let i = first_index(s.drop_last(), x);
        if i < s.len() - 1 {
            assert(s.drop_last()[i] == s[i]);
            assert forall|j: int| 0 <= j < i implies s[j] != x by {
                assert(s.drop_last()[j] == s[j]);
            }
        } else {
            assert forall|j: int| 0 <= j < s.len() - 1 implies s[j] != x by {
                assert(s.drop_last()[j] == s[j]);
                assert(s.drop_last().contains(s.drop_last()[j]));
            }
        }
    }
}

/// A place that is the first place of `x` is `first_index`.
pub proof fn lemma_first_index_unique(s: Seq<Text>, x: Text, i: int)
    requires
        is_first(s, x, i),
    ensures
        first_index(s, x) == i,
{
    lemma_first_index(s, x);
    let k = first_index(s, x);
    if k == s.len() {
        assert(s.contains(s[i]));
    }
}

/// The labels in order of first occurrence are pairwise different, and they
/// are the labels that the stream names.
pub proof fn lemma_first_seen(s: Seq<Text>)
    ensures
        first_seen(s).no_duplicates(),
        forall|x: Text| first_seen(s).contains(x) <==> s.contains(x),
    decreases s.len(),
{
    if s.len() > 0 {
        let front = s.drop_last();
        lemma_first_seen(front);
        let before = first_seen(front);
        assert forall|x: Text| first_seen(s).contains(x) <==> s.contains(x) by {
            if first_seen(s).contains(x) {
                let i = choose|i: int| 0 <= i < first_seen(s).len() && first_seen(s)[i] == x;
                if before.contains(x) {
                    assert(front.contains(x));
                    let j = choose|j: int| 0 <= j < front.len() && front[j] == x;
                    assert(s[j] == x);
                } else {
                    assert(i == before.len());
                    assert(s[s.len() - 1] == x);
                }
            }
            if s.contains(x) {
                let j = choose|j: int| 0 <= j < s.len() && s[j] == x;
                if j < s.len() - 1 {
                    assert(front[j] == x);
                    assert(front.contains(x));
                    let i = choose|i: int| 0 <= i < before.len() && before[i] == x;
                    assert(first_seen(s)[i] == x);
                } else {
                    if before.contains(x) {
                    } else {
                        assert(first_seen(s)[before.len() as int] == x);
                    }
                }
            }
        }
    }
}

/// The order of the labels is the order of their first occurrence: a label
/// that stands before another is first named before it.
pub proof fn lemma_first_seen_order(s: Seq<Text>, i: int, j: int)
    requires
        0 <= i < j < first_seen(s).len(),
    ensures
        first_index(s, first_seen(s)[i]) < first_index(s, first_seen(s)[j]) < s.len(),
    decreases s.len(),
{
    let order = first_seen(s);
    lemma_first_seen(s);
    lemma_first_index(s, order[i]);
    lemma_first_index(s, order[j]);
    assert(order.contains(order[i]));
    assert(order.contains(order[j]));
    if s.len() > 0 {
        let front = s.drop_last();
        let before = first_seen(front);
        lemma_first_seen(front);
        lemma_first_index(front, order[i]);
        assert(before[i] == order[i]);
        assert(before.contains(order[i]));
        if j < before.len() {
            lemma_first_seen_order(front, i, j);
        } else {
            assert(order[j] == s.last());
            assert(!before.contains(s.last()));
            assert(!front.contains(s.last()));
            lemma_first_index(front, order[j]);
        }
    }
}

/// A chromosome that the stream does not name has no marker.
pub proof fn lemma_markers_of_absent<P>(rows: Seq<Entry<P>>, chr: Text)
    requires
        !chrs(rows).contains(chr),
    ensures
        markers_of(rows, chr) == Seq::<(Text, P)>::empty(),
    decreases rows.len(),
{
    if rows.len() > 0 {
        let front = rows.drop_last();
        assert(chrs(rows)[rows.len() - 1] == rows.last().chr);
        assert forall|j: int| 0 <= j < front.len() implies chrs(front)[j] != chr by {
            assert(chrs(rows)[j] == chrs(front)[j]);
        }
        lemma_markers_of_absent(front, chr);
    }
}

/// In the map of a stream no chromosome label stands twice.
pub proof fn lemma_distinct_labels<P>(rows: Seq<Entry<P>>)
    ensures
        distinct_labels(grouped(rows)),
{
    lemma_first_seen(chrs(rows));
    assert(labels(grouped(rows)) =~= first_seen(chrs(rows)));
}

/// Grouping a stream with one more record is pushing that record to the
/// grouping of the stream.
pub proof fn lemma_grouped_push<P>(rows: Seq<Entry<P>>, e: Entry<P>)
    ensures
        grouped(rows.push(e)) == pushed(grouped(rows), e),
{
    let more = rows.push(e);
    let order = first_seen(chrs(rows));
    let g = grouped(rows);
    assert(more.drop_last() =~= rows);
    assert(chrs(more).drop_last() =~= chrs(rows));
    assert(chrs(more).last() == e.chr);
    assert(labels(g) =~= order);
    lemma_first_seen(chrs(rows));
    lemma_first_index(order, e.chr);
    let i = first_index(order, e.chr);
    let after = grouped(more);
    let want = pushed(g, e);
    if i < order.len() {
        assert(order.contains(e.chr));
        assert(after.len() == want.len());
        assert forall|k: int| 0 <= k < after.len() implies after[k] == want[k] by {
            if k != i {
                assert(order[k] != order[i]);
            }
        }
    } else {
        lemma_markers_of_absent(rows, e.chr);
        assert(after.len() == want.len());
        assert forall|k: int| 0 <= k < after.len() implies after[k] == want[k] by {
            if k < order.len() {
                assert(order.contains(order[k]));
            }
        }
    }
    assert(after =~= want);
}

/// Finds the chromosome with the label `chr`, appending an empty one where
/// there is none, and gives its index.
fn get_chr_vec<P>(v: &mut Vec<(String, Vec<Marker<P>>)>, chr: &str) -> (i: usize)
    ensures
        i == first_index(labels(chromosomes_view(old(v)@)), chr@),
        i < final(v).len(),
        final(v)[i as int].0@ == chr@,
        i < old(v).len() ==> final(v)@ == old(v)@,
        i == old(v).len() ==> final(v)@.drop_last() == old(v)@ && final(v)@.last().1@.len() == 0,
{
    let ghost names = labels(chromosomes_view(v@));
    let mut i: usize = 0;
    while i < v.len()
        invariant
            i <= v.len(),
            v@ == old(v)@,
            names == labels(chromosomes_view(v@)),
            forall|j: int| 0 <= j < i ==> names[j] != chr@,
        decreases v.len() - i,
    {
        if str_eq(v[i].0.as_str(), chr) {
            proof {
                assert(names[i as int] == chr@);
                lemma_first_index_unique(names, chr@, i as int);
            }
            return i;
        }
        assert(names[i as int] != chr@);
        i += 1;
    }
    proof {
        lemma_first_index(names, chr@);
        assert(first_index(names, chr@) == names.len());
    }
    v.push((String::from_str(chr), Vec::new()));
    assert(v@.drop_last() =~= old(v)@);
    i
}

/// `index` sends every chromosome label of `m` to the place of its
/// chromosome, and nothing else to anything.
pub open spec fn indexed<P>(index: Map<Text, usize>, m: Seq<(Text, Seq<(Text, P)>)>) -> bool {
    &&& forall|i: int|
        0 <= i < m.len() ==> index.contains_key(#[trigger] m[i].0) && index[m[i].0] == i
    &&& forall|k: Text|
        index.contains_key(k) ==> 0 <= #[trigger] index[k] < m.len() && m[index[k] as int].0 == k
}

/// The first column of the header that is named `name`, where no other
/// column has that name.
pub open spec fn column(header: Seq<Text>, name: Text) -> Option<int> {
    let i = first_index(header, name);
    if i < header.len() && forall|j: int| i < j < header.len() ==> header[j] != name {
        Some(i)
    } else {
        None
    }
}

/// The name of the column that holds the marker names.
pub open spec fn marker_column() -> Text {
    "marker"@
}

/// The name of the column that holds the chromosome labels.
pub open spec fn chr_column() -> Text {
    "chr"@
}

/// The name of the column that holds the positions.
pub open spec fn pos_column() -> Text {
    "pos"@
}

/// The columns of the marker names, the chromosome labels and the positions,
/// where the header names each of them exactly once.
pub open spec fn map_columns(t: Table) -> Option<(int, int, int)> {
    if t.len() == 0 {
        None
    } else {
        match (
            column(t[0], marker_column()),
            column(t[0], chr_column()),
            column(t[0], pos_column()),
        ) {
            (Some(m), Some(c), Some(p)) => Some((m, c, p)),
            _ => None,
        }
    }
}

/// The stream of the data records of `t` with the given positions.
pub open spec fn entries_of<P>(t: Table, cols: (int, int, int), positions: Seq<P>) -> Seq<
    Entry<P>,
> {
    Seq::new(
        positions.len(),
        |r: int| Entry { marker: t[r + 1][cols.0], chr: t[r + 1][cols.1], pos: positions[r] },
    )
}

/// `positions` holds, for every data record of `t`, a value that `parser`
/// may answer for its position field.
pub open spec fn positions_of<P, F: Fn(&str) -> Option<P>>(
    parser: F,
    t: Table,
    col: int,
    positions: Seq<P>,
) -> bool {
    &&& positions.len() == t.len() - 1
    &&& forall|r: int|
        0 <= r < positions.len() ==> parses_to(parser, t[r + 1][col], Some(#[trigger] positions[r]))
}

/// The position fields of the data records before record `row` are ones
/// that `parser` may answer a value for.
pub open spec fn positions_accepted<P, F: Fn(&str) -> Option<P>>(
    parser: F,
    t: Table,
    col: int,
    row: int,
) -> bool {
    forall|r: int| 1 <= r < row ==> accepts(parser, #[trigger] t[r][col])
}

/// `parser` answers `None` for no position field.
pub open spec fn no_position_rejected<P, F: Fn(&str) -> Option<P>>(
    parser: F,
    t: Table,
    col: int,
) -> bool {
    forall|r: int| 1 <= r < t.len() ==> !rejects(parser, #[trigger] t[r][col])
}

/// `m` is the map of the data records of `t`, with positions that `parser`
/// may answer for their position fields.
pub open spec fn built_from<P, F: Fn(&str) -> Option<P>>(
    parser: F,
    t: Table,
    cols: (int, int, int),
    m: Seq<(Text, Seq<(Text, P)>)>,
) -> bool {
    exists|positions: Seq<P>|
        positions_of(parser, t, cols.2, positions) && m == grouped(
            #[trigger] entries_of(t, cols, positions),
        )
}

/// What reading the map table `t` under the position parser `parser` may
/// give.
///
/// The header has to name the three columns. The records are then taken in
/// order, each one first checked against the header and then its position
/// parsed; the first failure ends the reading.
pub open spec fn map_outcome<P, F: Fn(&str) -> Option<P>>(
    parser: F,
    t: Table,
    result: Result<MapData<P>, TableError>,
) -> bool {
    match map_columns(t) {
        None => result == Err::<MapData<P>, TableError>(TableError::RowShape { row: 0 }),
        Some(cols) => {
            &&& match result {
                Ok(m) => {
                    &&& rows_fit(t)
                    &&& distinct_labels(m@)
                    &&& built_from(parser, t, cols, m@)
                },
                Err(TableError::RowShape { row }) => {
                    &&& 1 <= row < t.len()
                    &&& !row_fits(t, row as int)
                    &&& forall|r: int| 1 <= r < row ==> row_fits(t, r)
                    &&& positions_accepted(parser, t, cols.2, row as int)
                },
                Err(TableError::PositionParse { row }) => {
                    &&& 1 <= row < t.len()
                    &&& forall|r: int| 1 <= r <= row ==> row_fits(t, r)
                    &&& rejects(parser, t[row as int][cols.2])
                    &&& positions_accepted(parser, t, cols.2, row as int)
                },
                Err(_) => false,
            }
            &&& rows_fit(t) && no_position_rejected(parser, t, cols.2) ==> result is Ok
        },
    }
}

/// Looks for the one column of `header` that is named `name`.
fn find_column(header: &Vec<String>, name: &str) -> (r: Option<usize>)
    ensures
        match r {
            Some(i) => column(fields_view(header@), name@) == Some(i as int),
            None => column(fields_view(header@), name@) is None,
        },
{
    let ghost names = fields_view(header@);
    let mut found: Option<usize> = None;
    let mut i: usize = 0;
    while i < header.len()
        invariant
            i <= header.len(),
            names == fields_view(header@),
            match found {
                Some(k) => is_first(names, name@, k as int) && k < i && forall|j: int|
                    k < j < i ==> names[j] != name@,
                None => forall|j: int| 0 <= j < i ==> names[j] != name@,
            },
        decreases header.len() - i,
    {
        if str_eq(header[i].as_str(), name) {
            assert(names[i as int] == name@);
            match found {
                Some(k) => {
                    proof {
                        lemma_first_index_unique(names, name@, k as int);
                    }
                    return None;
                },
                None => {
                    found = Some(i);
                },
            }
        } else {
            assert(names[i as int] != name@);
        }
        i += 1;
    }
    proof {
        match found {
            Some(k) => {
                lemma_first_index_unique(names, name@, k as int);
            },
            None => {
                lemma_first_index(names, name@);
                assert(first_index(names, name@) == names.len());
            },
        }
    }
    found
}

impl<P> Chromosome<P> {
    /// A chromosome without markers.
    pub fn new() -> (c: Chromosome<P>)
        ensures
            c.markers@ == Seq::<(String, P)>::empty(),
    {
        Chromosome { markers: Vec::new() }
    }
}

impl<P> MapData<P> {
    /// The map without chromosomes.
    pub fn new() -> (m: MapData<P>)
        ensures
            m@ == Seq::<(Text, Seq<(Text, P)>)>::empty(),
            m@ == grouped(Seq::<Entry<P>>::empty()),
    {
        let m = MapData { chromosomes: Vec::new() };
        assert(m@ =~= Seq::<(Text, Seq<(Text, P)>)>::empty());
        assert(m@ =~= grouped(Seq::<Entry<P>>::empty()));
        m
    }

    /// The markers of the first chromosome with the label `chr`, or `None`
    /// where no chromosome has that label.
    pub fn get_chr(&self, chr: &str) -> (r: Option<&[Marker<P>]>)
        ensures
            match r {
                Some(markers) => {
                    let i = first_index(labels(self@), chr@);
                    i < self.chromosomes.len() && markers@ == self.chromosomes[i].1@
                },
                None => !labels(self@).contains(chr@),
            },
    {
        let ghost names = labels(self@);
        let mut i: usize = 0;
        while i < self.chromosomes.len()
            invariant
                i <= self.chromosomes.len(),
                names == labels(self@),
                forall|j: int| 0 <= j < i ==> names[j] != chr@,
            decreases self.chromosomes.len() - i,
        {
            if str_eq(self.chromosomes[i].0.as_str(), chr) {
                proof {
                    assert(names[i as int] == chr@);
                    lemma_first_index_unique(names, chr@, i as int);
                }
                return Some(self.chromosomes[i].1.as_slice());
            }
            assert(names[i as int] != chr@);
            i += 1;
        }
        None
    }

    /// Adds one record of the stream: the marker goes to the end of the
    /// chromosome with the label `chr`, which is appended as the last one
    /// where the map does not have it yet.
    pub fn push(&mut self, marker: String, chr: &str, pos: P)
        ensures
            final(self)@ == pushed(old(self)@, Entry { marker: marker@, chr: chr@, pos }),
    {
        let ghost before = self@;
        let i = get_chr_vec(&mut self.chromosomes, chr);
        let ghost between = self@;
        self.chromosomes[i].1.push(Marker { name: marker, pos });
        proof {
            let e = Entry { marker: marker@, chr: chr@, pos };
            let want = pushed(before, e);
            assert(self@.len() == want.len());
            assert forall|k: int| 0 <= k < want.len() implies self@[k] == want[k] by {
                if k == i {
                    assert(self@[k].1 =~= want[k].1);
                } else {
                    assert(self@[k] == between[k]);
                }
            }
            assert(self@ =~= want);
        }
    }

    /// Adds one record as [`MapData::push`] does, finding the chromosome
    /// through `index` and keeping `index` up to date.
    fn push_indexed(&mut self, index: &mut Dict<usize>, marker: String, chr: &str, pos: P)
        requires
            indexed(old(index)@, old(self)@),
        ensures
            final(self)@ == pushed(old(self)@, Entry { marker: marker@, chr: chr@, pos }),
            indexed(final(index)@, final(self)@),
    {
        let ghost before = self@;
        let ghost names = labels(before);
        let found = match index.get(chr) {
            Some(i) => Some(*i),
            None => None,
        };
        let i = match found {
            Some(i) => {
                proof {
                    assert(names[i as int] == chr@);
                    assert forall|j: int| 0 <= j < i implies names[j] != chr@ by {
                        assert(before[j].0 == names[j]);
                    }
                    lemma_first_index_unique(names, chr@, i as int);
                }
                i
            },
            None => {
                proof {
                    lemma_first_index(names, chr@);
                    let f = first_index(names, chr@);
                    if f < names.len() {
                        assert(before[f].0 == chr@);
                    }
                }
                let i = self.chromosomes.len();
                self.chromosomes.push((String::from_str(chr), Vec::new()));
                index.insert(String::from_str(chr), i);
                i
            },
        };
        let ghost between = self@;
        self.chromosomes[i].1.push(Marker { name: marker, pos });
        proof {
            let e = Entry { marker: marker@, chr: chr@, pos };
            let want = pushed(before, e);
            assert(self@.len() == want.len());
            assert forall|k: int| 0 <= k < want.len() implies self@[k] == want[k] by {
                if k == i {
                    assert(self@[k].1 =~= want[k].1);
                } else {
                    assert(self@[k] == between[k]);
                }
            }
            assert(self@ =~= want);
            assert forall|k: int| 0 <= k < self@.len() implies index@.contains_key(
                #[trigger] self@[k].0,
            ) && index@[self@[k].0] == k by {
                if k < before.len() {
                    assert(self@[k].0 == before[k].0);
                }
            }
            assert forall|k: Text| index@.contains_key(k) implies 0 <= #[trigger] index@[k]
                < self@.len() && self@[index@[k] as int].0 == k by {
                if old(index)@.contains_key(k) {
                    let at = old(index)@[k] as int;
                    assert(self@[at].0 == before[at].0);
                }
            }
        }
    }

    /// Builds the map of a stream of records, each of them a marker name, a
    /// chromosome label and a position.
    pub fn from_rows(rows: Vec<(String, String, P)>) -> (m: MapData<P>)
        ensures
            m@ == grouped(stream_view(rows@)),
            distinct_labels(m@),
    {
        let mut map: MapData<P> = MapData::new();
        let mut index: Dict<usize> = Dict::new();
        let ghost all = stream_view(rows@);
        for row in it: rows
            invariant
                all == stream_view(it.seq()),
                map@ == grouped(all.take(it.index() as int)),
                indexed(index@, map@),
        {
            proof {
                let done = all.take(it.index() as int);
                lemma_grouped_push(done, all[it.index() as int]);
                assert(all.take(it.index() + 1) =~= done.push(all[it.index() as int]));
            }
            map.push_indexed(&mut index, row.0, row.1.as_str(), row.2);
        }
        proof {
            assert(all.take(all.len() as int) =~= all);
            lemma_distinct_labels(all);
        }
        map
    }

    /// Builds the map of a table that is already split into records.
    ///
    /// Record 0 is the header, which names the columns `marker`, `chr` and
    /// `pos`, each of them once, in any order and among any others. Every
    /// later record gives one marker; `parser` turns its position field into
    /// a position.
    pub fn from_records<F: Fn(&str) -> Option<P>>(parser: F, rows: &Vec<Vec<String>>) -> (result:
        Result<MapData<P>, TableError>)
        requires
            forall|s: &str| call_requires(parser, (s,)),
        ensures
            map_outcome(parser, table_view(rows@), result),
    {
        let ghost t = table_view(rows@);
        if rows.len() == 0 {
            return Err(TableError::RowShape { row: 0 });
        }
        let header = &rows[0];
        assert(t[0] == fields_view(header@));
        let (mi, ci, pi) = match (
            find_column(header, "marker"),
            find_column(header, "chr"),
            find_column(header, "pos"),
        ) {
            (Some(mi), Some(ci), Some(pi)) => (mi, ci, pi),
            _ => {
                return Err(TableError::RowShape { row: 0 });
            },
        };
        let ghost cols = (mi as int, ci as int, pi as int);
        proof {
            assert(column(t[0], marker_column()) == Some(mi as int));
            assert(column(t[0], chr_column()) == Some(ci as int));
            assert(column(t[0], pos_column()) == Some(pi as int));
            assert(map_columns(t) == Some(cols));
        }
        let mut map: MapData<P> = MapData::new();
        let mut index: Dict<usize> = Dict::new();
        let ghost mut positions: Seq<P> = Seq::empty();
        let mut r: usize = 1;
        assert(entries_of(t, cols, positions) =~= Seq::<Entry<P>>::empty());
        while r < rows.len()
            invariant
                1 <= r <= rows.len(),
                t == table_view(rows@),
                map_columns(t) == Some(cols),
                cols == (mi as int, ci as int, pi as int),
                mi < t[0].len(),
                ci < t[0].len(),
                pi < t[0].len(),
                header.len() == t[0].len(),
                forall|s: &str| call_requires(parser, (s,)),
                forall|k: int| 1 <= k < r ==> row_fits(t, k),
                positions.len() == r - 1,
                forall|k: int|
                    0 <= k < positions.len() ==> parses_to(
                        parser,
                        t[k + 1][cols.2],
                        Some(#[trigger] positions[k]),
                    ),
                map@ == grouped(entries_of(t, cols, positions)),
                indexed(index@, map@),
            decreases rows.len() - r,
        {
            let row = &rows[r];
            assert(t[r as int] == fields_view(row@));
            assert forall|k: int| 1 <= k < r implies accepts(parser, #[trigger] t[k][cols.2]) by {
                assert(parses_to(parser, t[k - 1 + 1][cols.2], Some(positions[k - 1])));
            }
            if row.len() != header.len() {
                assert(!row_fits(t, r as int));
                return Err(TableError::RowShape { row: r });
            }
            let pos = match parser(row[pi].as_str()) {
                Some(pos) => pos,
                None => {
                    assert(parses_to(parser, t[r as int][cols.2], None::<P>));
                    return Err(TableError::PositionParse { row: r });
                },
            };
            assert(parses_to(parser, t[r as int][cols.2], Some(pos)));
            let ghost e = Entry { marker: row[mi as int]@, chr: row[ci as int]@, pos };
            proof {
                lemma_grouped_push(entries_of(t, cols, positions), e);
                assert(entries_of(t, cols, positions.push(pos)) =~= entries_of(
                    t,
                    cols,
                    positions,
                ).push(e));
                positions = positions.push(pos);
            }
            map.push_indexed(&mut index, row[mi].clone(), row[ci].as_str(), pos);
            r += 1;
        }
        proof {
            assert(rows_fit(t));
            assert(positions_of(parser, t, cols.2, positions));
            assert(map@ == grouped(entries_of(t, cols, positions)));
            assert(built_from(parser, t, cols, map@));
            lemma_distinct_labels(entries_of(t, cols, positions));
            assert(distinct_labels(map@));
        }
        Ok(map)
    }

    /// Reads a comma-separated map table, in which a line that starts with
    /// `#` is a comment.
    pub fn read_csv<F: Fn(&str) -> Option<P>>(parser: F, data: &[u8]) -> (result: Result<
        MapData<P>,
        TableError,
    >)
        requires
            forall|s: &str| call_requires(parser, (s,)),
        ensures
            match csv_records(data@, DELIMITER, COMMENT) {
                Some(t) => map_outcome(parser, t, result),
                None => result == Err::<MapData<P>, TableError>(TableError::Source),
            },
    {
        match load_records(data, DELIMITER, COMMENT) {
            Ok(rows) => MapData::from_records(parser, &rows),
            Err(e) => Err(e),
        }
    }
}

} // verus!
