//! A small header mapping from normalized header names to values.
//!
//! Entries are kept in insertion order in a vector; a later entry with the
//! same name shadows an earlier one, so the abstract view is a map in which
//! the last write wins.

use vstd::prelude::*;

use crate::bytes::bytes_eq;

verus! {

/// Mapping from header names (byte strings) to header values.
pub struct HeaderMap {
    entries: Vec<(Vec<u8>, Vec<u8>)>,
}

/// The map denoted by an entry list, with the last write winning.
pub open spec fn entries_map(s: Seq<(Vec<u8>, Vec<u8>)>) -> Map<Seq<u8>, Seq<u8>>
    decreases s.len(),
{
    if s.len() == 0 {
        Map::empty()
    } else {
        entries_map(s.drop_last()).insert(s.last().0@, s.last().1@)
    }
}

impl View for HeaderMap {
    type V = Map<Seq<u8>, Seq<u8>>;

    closed spec fn view(&self) -> Map<Seq<u8>, Seq<u8>> {
        entries_map(self.entries@)
    }
}

proof fn lemma_entries_map_hit(s: Seq<(Vec<u8>, Vec<u8>)>, k: Seq<u8>, j: int)
    requires
        0 <= j < s.len(),
        s[j].0@ == k,
        forall|l: int| j < l < s.len() ==> s[l].0@ != k,
    ensures
        entries_map(s).contains_key(k),
        entries_map(s)[k] == s[j].1@,
    decreases s.len(),
{
    if j == s.len() - 1 {
    } else {
        assert(s.last().0@ != k);
        let t = s.drop_last();
        assert(forall|l: int| j < l < t.len() ==> t[l].0@ != k);
        lemma_entries_map_hit(t, k, j);
    }
}

proof fn lemma_entries_map_miss(s: Seq<(Vec<u8>, Vec<u8>)>, k: Seq<u8>)
    requires
        forall|j: int| 0 <= j < s.len() ==> s[j].0@ != k,
    ensures
        !entries_map(s).contains_key(k),
    decreases s.len(),
{
    if s.len() > 0 {
        let t = s.drop_last();
        assert(forall|j: int| 0 <= j < t.len() ==> t[j].0@ != k);
        lemma_entries_map_miss(t, k);
    }
}

impl HeaderMap {
    /// An empty mapping.
    pub fn new() -> (r: HeaderMap)
        ensures
            r@ == Map::<Seq<u8>, Seq<u8>>::empty(),
    {
        HeaderMap { entries: Vec::new() }
    }

    /// Record `value` under `key`, shadowing any earlier entry of that name.
    pub fn insert(&mut self, key: Vec<u8>, value: Vec<u8>)
        ensures
            final(self)@ == old(self)@.insert(key@, value@),
    {
        let ghost k = key@;
        let ghost v = value@;
        let ghost olde = self.entries@;
        self.entries.push((key, value));
        proof {
            assert(self.entries@.drop_last() =~= olde);
            assert(self.entries@.last().0@ == k);
            assert(self.entries@.last().1@ == v);
        }
    }

    /// Look the name `key` up, returning the value written last.
    pub fn get(&self, key: &[u8]) -> (r: Option<&Vec<u8>>)
        ensures
            match r {
                Some(v) => self@.contains_key(key@) && v@ == self@[key@],
                None => !self@.contains_key(key@),
            },
    {
        let mut i: usize = self.entries.len();
        while i > 0
            invariant
                i <= self.entries.len(),
                forall|l: int| i <= l < self.entries@.len() ==> self.entries@[l].0@ != key@,
            decreases i,
        {
            i = i - 1;
            if bytes_eq(self.entries[i].0.as_slice(), key) {
                proof {
                    lemma_entries_map_hit(self.entries@, key@, i as int);
                }
                return Some(&self.entries[i].1);
            }
        }
        proof {
            lemma_entries_map_miss(self.entries@, key@);
        }
        None
    }

    /// Whether some entry with the name `key` exists.
    pub fn contains(&self, key: &[u8]) -> (r: bool)
        ensures
            r == self@.contains_key(key@),
    {
        self.get(key).is_some()
    }
}

} // verus!
