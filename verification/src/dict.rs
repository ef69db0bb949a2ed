//! A dictionary keyed by strings that keeps its keys unique and in ascending
//! order, so that it is walked in one order whatever the order of insertion.

use vstd::prelude::*;
use crate::text::Precedence;
use crate::text::lemma_text_lt_asymmetric;
use crate::text::lemma_text_lt_transitive;
use crate::text::text_lt;
use crate::text::text_order;

verus! {

/// Entry `i` of `s` exists and has the key `k`.
pub open spec fn has_key<V>(s: Seq<(String, V)>, i: int, k: Seq<char>) -> bool {
    0 <= i < s.len() && s[i].0@ == k
}

/// The keys of the entries, in order.
pub open spec fn keys_of<V>(s: Seq<(String, V)>) -> Seq<Seq<char>> {
    Seq::new(s.len(), |i: int| s[i].0@)
}

/// Every key comes strictly before the keys that follow it.
pub open spec fn ascending(keys: Seq<Seq<char>>) -> bool {
    forall|i: int, j: int| 0 <= i < j < keys.len() ==> text_lt(keys[i], keys[j])
}

/// The map that sends every key among the entries to the value of an entry
/// with that key.
pub open spec fn entries_map<V>(s: Seq<(String, V)>) -> Map<Seq<char>, V> {
    Map::new(
        |k: Seq<char>| exists|i: int| has_key(s, i, k),
        |k: Seq<char>| s[choose|i: int| has_key(s, i, k)].1,
    )
}

/// Keys in ascending order are pairwise different.
pub proof fn lemma_ascending_distinct(keys: Seq<Seq<char>>)
    requires
        ascending(keys),
    ensures
        keys.no_duplicates(),
{
    assert forall|i: int, j: int| 0 <= i < keys.len() && 0 <= j < keys.len() && i != j implies keys[i]
        != keys[j] by {
        if i < j {
            lemma_text_lt_asymmetric(keys[i], keys[j]);
        } else {
            lemma_text_lt_asymmetric(keys[j], keys[i]);
        }
    }
}

/// With ascending keys, the map sends the key of entry `i` to the value of
/// entry `i`.
pub proof fn lemma_entry<V>(s: Seq<(String, V)>, i: int)
    requires
        ascending(keys_of(s)),
        0 <= i < s.len(),
    ensures
        entries_map(s).contains_key(s[i].0@),
        entries_map(s)[s[i].0@] == s[i].1,
{
    let k = s[i].0@;
    assert(has_key(s, i, k));
    let j = choose|j: int| has_key(s, j, k);
    lemma_ascending_distinct(keys_of(s));
    assert(keys_of(s)[i] == keys_of(s)[j]);
}

/// The keys of the map are the keys of the entries, and they are finitely
/// many.
pub proof fn lemma_entries_dom<V>(s: Seq<(String, V)>)
    ensures
        entries_map(s).dom() == keys_of(s).to_set(),
        entries_map(s).dom().finite(),
{
    let keys = keys_of(s);
    assert forall|k: Seq<char>| entries_map(s).dom().contains(k) <==> keys.to_set().contains(
        k,
    ) by {
        if entries_map(s).dom().contains(k) {
            let i = choose|i: int| has_key(s, i, k);
            assert(keys[i] == k);
        }
        if keys.to_set().contains(k) {
            let i = choose|i: int| 0 <= i < keys.len() && keys[i] == k;
            assert(has_key(s, i, k));
        }
    }
    assert(entries_map(s).dom() =~= keys.to_set());
    vstd::seq_lib::seq_to_set_is_finite(keys);
}

/// Entries `t` hold what entries `s` hold, but for the key `key`, which they
/// send to `value`.
pub open spec fn extends<V>(s: Seq<(String, V)>, t: Seq<(String, V)>, key: Seq<char>, value: V) -> bool {
    &&& exists|i: int| has_key(t, i, key)
    &&& forall|i: int| has_key(t, i, key) ==> t[i].1 == value
    &&& forall|i: int| #[trigger]
        has_key(s, i, s[i].0@) ==> exists|j: int| has_key(t, j, s[i].0@) && (s[i].0@ != key ==> t[j].1 == s[i].1)
    &&& forall|j: int| #[trigger]
        has_key(t, j, t[j].0@) && t[j].0@ != key ==> exists|i: int| has_key(s, i, t[j].0@)
}

/// Entries that extend others by one key stand for the map with that key
/// inserted.
pub proof fn lemma_extends<V>(s: Seq<(String, V)>, t: Seq<(String, V)>, key: Seq<char>, value: V)
    requires
        ascending(keys_of(s)),
        ascending(keys_of(t)),
        extends(s, t, key, value),
    ensures
        entries_map(t) == entries_map(s).insert(key, value),
{
    let a = entries_map(t);
    let b = entries_map(s).insert(key, value);
    assert forall|k: Seq<char>| a.contains_key(k) <==> b.contains_key(k) by {
        if a.contains_key(k) && k != key {
            let j = choose|j: int| has_key(t, j, k);
            assert(has_key(t, j, t[j].0@));
        }
        if entries_map(s).contains_key(k) {
            let i = choose|i: int| has_key(s, i, k);
            assert(has_key(s, i, s[i].0@));
        }
    }
    assert forall|k: Seq<char>| a.contains_key(k) implies a[k] == b[k] by {
        let j = choose|j: int| has_key(t, j, k);
        lemma_entry(t, j);
        if k != key {
            assert(has_key(t, j, t[j].0@));
            let i = choose|i: int| has_key(s, i, k);
            lemma_entry(s, i);
            assert(has_key(s, i, s[i].0@));
            let j2 = choose|j2: int| has_key(t, j2, s[i].0@) && (s[i].0@ != key ==> t[j2].1 == s[i].1);
            lemma_entry(t, j2);
        }
    }
    assert(a =~= b);
}

/// Where `key` stands among ascending entries: the index of the first entry
/// whose key does not come before it, and whether that entry has the key.
/// The entries are halved until the place is found.
fn locate<V>(entries: &Vec<(String, V)>, key: &str) -> (at: (usize, bool))
    requires
        ascending(keys_of(entries@)),
    ensures
        at.0 <= entries.len(),
        forall|j: int| 0 <= j < at.0 ==> text_lt(#[trigger] keys_of(entries@)[j], key@),
        at.1 ==> has_key(entries@, at.0 as int, key@),
        !at.1 ==> forall|j: int|
            at.0 <= j < entries.len() ==> text_lt(key@, #[trigger] keys_of(entries@)[j]),
        at.1 <==> exists|i: int| has_key(entries@, i, key@),
{
    let ghost keys = keys_of(entries@);
    let mut low: usize = 0;
    let mut high: usize = entries.len();
    while low < high
        invariant
            low <= high <= entries.len(),
            keys == keys_of(entries@),
            ascending(keys),
            forall|j: int| 0 <= j < low ==> text_lt(#[trigger] keys[j], key@),
            forall|j: int| high <= j < entries.len() ==> text_lt(key@, #[trigger] keys[j]),
        decreases high - low,
    {
        let mid = low + (high - low) / 2;
        assert(keys[mid as int] == entries[mid as int].0@);
        match text_order(entries[mid].0.as_str(), key) {
            Precedence::Before => {
                assert forall|j: int| 0 <= j < mid + 1 implies text_lt(#[trigger] keys[j], key@) by {
                    if j < mid {
                        lemma_text_lt_transitive(keys[j], keys[mid as int], key@);
                    }
                }
                low = mid + 1;
            },
            Precedence::Same => {
                assert(has_key(entries@, mid as int, key@));
                return (mid, true);
            },
            Precedence::After => {
                assert forall|j: int| mid <= j < entries.len() implies text_lt(
                    key@,
                    #[trigger] keys[j],
                ) by {
                    if mid < j {
                        lemma_text_lt_transitive(key@, keys[mid as int], keys[j]);
                    }
                }
                high = mid;
            },
        }
    }
    assert forall|k: int| !has_key(entries@, k, key@) by {
        if 0 <= k < entries.len() {
            assert(keys[k] == entries[k].0@);
            if k < low {
                lemma_text_lt_asymmetric(keys[k], key@);
            } else {
                lemma_text_lt_asymmetric(key@, keys[k]);
            }
        }
    }
    (low, false)
}

/// A dictionary from strings to `V`.
///
/// No key occurs twice, and the entries are kept in the ascending order of
/// their keys, which is the order of `str`.
#[derive(Debug, PartialEq, Eq)]
pub struct Dict<V> {
    entries: Vec<(String, V)>,
}

impl<V> View for Dict<V> {
    type V = Map<Seq<char>, V>;

    closed spec fn view(&self) -> Map<Seq<char>, V> {
        entries_map(self.entries@)
    }
}

impl<V> Dict<V> {
    #[verifier::type_invariant]
    spec fn inv(self) -> bool {
        ascending(keys_of(self.entries@))
    }

    /// The keys, in the order in which the dictionary is walked.
    pub closed spec fn keys(&self) -> Seq<Seq<char>> {
        keys_of(self.entries@)
    }

    /// The keys of the map are the keys of the dictionary.
    pub proof fn lemma_dom(&self)
        ensures
            self@.dom() == self.keys().to_set(),
            self@.dom().finite(),
    {
        lemma_entries_dom(self.entries@);
    }

    /// The empty dictionary.
    pub fn new() -> (d: Dict<V>)
        ensures
            d@ == Map::<Seq<char>, V>::empty(),
            d.keys() == Seq::<Seq<char>>::empty(),
    {
        let d = Dict { entries: Vec::new() };
        assert(d@ =~= Map::<Seq<char>, V>::empty());
        assert(d.keys() =~= Seq::<Seq<char>>::empty());
        d
    }

    /// The number of keys.
    pub fn len(&self) -> (n: usize)
        ensures
            n == self@.dom().len(),
            n == self.keys().len(),
            ascending(self.keys()),
    {
        proof {
            use_type_invariant(self);
            lemma_entries_dom(self.entries@);
            lemma_ascending_distinct(keys_of(self.entries@));
            keys_of(self.entries@).unique_seq_to_set();
        }
        self.entries.len()
    }

    /// Whether the dictionary has no key.
    pub fn is_empty(&self) -> (b: bool)
        ensures
            b == (self@.dom().len() == 0),
            b == (self.keys().len() == 0),
    {
        self.len() == 0
    }

    /// The value that `key` is sent to, if it is a key.
    pub fn get(&self, key: &str) -> (r: Option<&V>)
        ensures
            match r {
                Some(v) => self@.contains_key(key@) && *v == self@[key@],
                None => !self@.contains_key(key@),
            },
    {
        proof {
            use_type_invariant(self);
        }
        let (i, found) = locate(&self.entries, key);
        if found {
            proof {
                lemma_entry(self.entries@, i as int);
            }
            Some(&self.entries[i].1)
        } else {
            None
        }
    }

    /// Whether `key` is a key.
    pub fn contains_key(&self, key: &str) -> (b: bool)
        ensures
            b == self@.contains_key(key@),
    {
        self.get(key).is_some()
    }

    /// Sends `key` to `value`. Where `key` was a key already, its former
    /// value is handed back and its place in the order is kept.
    pub fn insert(&mut self, key: String, value: V) -> (former: Option<V>)
        ensures
            final(self)@ == old(self)@.insert(key@, value),
            former == if old(self)@.contains_key(key@) {
                Some(old(self)@[key@])
            } else {
                None
            },
    {
        proof {
            use_type_invariant(&*self);
        }
        let mut entries: Vec<(String, V)> = Vec::new();
        std::mem::swap(&mut entries, &mut self.entries);
        let ghost before = entries@;
        let (i, found) = locate(&entries, key.as_str());
        let ghost k = key@;
        let former = if found {
            proof {
                lemma_entry(before, i as int);
            }
            let gone = entries.remove(i);
            Some(gone.1)
        } else {
            None
        };
        entries.insert(i, (key, value));
        proof {
            let after = entries@;
            let shift = if found { 0int } else { 1int };
            assert(after.len() == before.len() + shift);
            assert(has_key(after, i as int, k));
            assert forall|a: int, b: int| 0 <= a < b < after.len() implies text_lt(
                keys_of(after)[a],
                keys_of(after)[b],
            ) by {
                let a0 = if a <= i { a } else { a - shift };
                let b0 = if b <= i { b } else { b - shift };
                assert(a != i ==> keys_of(after)[a] == keys_of(before)[a0]);
                assert(b != i ==> keys_of(after)[b] == keys_of(before)[b0]);
                assert(keys_of(after)[i as int] == k);
                if found {
                    assert(keys_of(before)[i as int] == k);
                }
            }
            assert forall|j: int| has_key(after, j, k) implies after[j].1 == value by {
                lemma_ascending_distinct(keys_of(after));
                assert(keys_of(after)[j] == keys_of(after)[i as int]);
            }
            assert forall|a: int| #[trigger] has_key(before, a, before[a].0@) implies exists|j: int|
                has_key(after, j, before[a].0@) && (before[a].0@ != k ==> after[j].1 == before[a].1) by {
                let j = if a < i { a } else if a == i && found { a } else { a + shift };
                assert(has_key(after, j, before[a].0@));
            }
            assert forall|j: int| #[trigger]
                has_key(after, j, after[j].0@) && after[j].0@ != k implies exists|a: int|
                has_key(before, a, after[j].0@) by {
                let a = if j < i { j } else { j - shift };
                assert(has_key(before, a, after[j].0@));
            }
            lemma_extends(before, after, k, value);
        }
        self.entries = entries;
        former
    }

    /// The entries in the order of their keys.
    pub fn entries(&self) -> (r: &Vec<(String, V)>)
        ensures
            keys_of(r@) == self.keys(),
            ascending(self.keys()),
            forall|i: int|
                0 <= i < r.len() ==> self@.contains_key(#[trigger] r[i].0@) && self@[r[i].0@]
                    == r[i].1,
    {
        proof {
            use_type_invariant(self);
            assert forall|i: int| 0 <= i < self.entries.len() implies self@.contains_key(
                #[trigger] self.entries[i].0@,
            ) && self@[self.entries[i].0@] == self.entries[i].1 by {
                lemma_entry(self.entries@, i);
            }
        }
        &self.entries
    }
}

} // verus!
