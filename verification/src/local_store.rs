//! The transaction-local write buffer: a concurrent ordered map from key
//! bytes to value bytes, where an empty value is a deletion tombstone,
//! and a forward iterator over a bounded snapshot of it.

use vstd::prelude::*;

use std::ops::Bound;

use crate::keys::KeyBound;
use crate::keys::in_range;
use crate::keys::lex_lt;

verus! {

#[verifier::external_type_specification]
#[verifier::external_body]
#[verifier::reject_recursive_types(K)]
#[verifier::reject_recursive_types(V)]
pub struct ExSkipMap<K, V>(crossbeam_skiplist::SkipMap<K, V>);

/// A transaction's local write buffer. The skip map stays behind a
/// private field: its insert works through a shared reference, so open
/// access would let unverified code change the buffer behind the
/// contracts' back.
pub struct LocalStore {
    map: crossbeam_skiplist::SkipMap<Vec<u8>, Vec<u8>>,
}

/// The key/value pairs a local store holds.
pub uninterp spec fn store_entries(m: LocalStore) -> Map<Seq<u8>, Seq<u8>>;

/// No entries at all: what a fresh local store holds.
pub open spec fn no_entries() -> Map<Seq<u8>, Seq<u8>> {
    Map::empty()
}

/// Relies on `crossbeam_skiplist::SkipMap::new`: an empty map.
#[verifier::external_body]
pub(crate) fn store_new() -> (r: LocalStore)
    ensures
        store_entries(r) == no_entries(),
{
    LocalStore { map: crossbeam_skiplist::SkipMap::new() }
}

/// Relies on `crossbeam_skiplist::SkipMap::insert`: binds `key` to
/// `value`, replacing any existing entry with this key.
#[verifier::external_body]
pub(crate) fn store_insert(m: &mut LocalStore, key: Vec<u8>, value: Vec<u8>)
    ensures
        store_entries(*final(m)) == store_entries(*old(m)).insert(key@, value@),
{
    m.map.insert(key, value);
}

/// Relies on `crossbeam_skiplist::SkipMap::get`: the value bound to
/// `key`, if one is present.
#[verifier::external_body]
pub(crate) fn store_get(m: &LocalStore, key: &Vec<u8>) -> (r: Option<Vec<u8>>)
    ensures
        match r {
            Some(v) => store_entries(*m).contains_key(key@) && store_entries(*m)[key@] == v@,
            None => !store_entries(*m).contains_key(key@),
        },
{
    m.map.get(key).map(|e| e.value().clone())
}

/// Relies on `crossbeam_skiplist::SkipMap::range` and the documented
/// ordering of `Vec<u8>` (lexicographic): the entries whose keys lie in
/// the window, in strictly ascending key order, each bound to its value.
#[verifier::external_body]
pub(crate) fn store_snapshot(m: &LocalStore, lower: &KeyBound, upper: &KeyBound) -> (r: Vec<
    (Vec<u8>, Vec<u8>),
>)
    ensures
        forall|i: int, j: int|
            0 <= i < j < r@.len() ==> lex_lt((#[trigger] r@[i]).0@, (#[trigger] r@[j]).0@),
        forall|i: int|
            0 <= i < r@.len() ==> store_entries(*m).contains_key((#[trigger] r@[i]).0@)
                && store_entries(*m)[r@[i].0@] == r@[i].1@ && in_range(*lower, *upper, r@[i].0@),
        forall|k: Seq<u8>|
            store_entries(*m).contains_key(k) && in_range(*lower, *upper, k) ==> exists|i: int|
                0 <= i < r@.len() && (#[trigger] r@[i]).0@ == k,
{
    let lo = match lower {
        KeyBound::Included(v) => Bound::Included(v.clone()),
        KeyBound::Excluded(v) => Bound::Excluded(v.clone()),
        KeyBound::Unbounded => Bound::Unbounded,
    };
    let hi = match upper {
        KeyBound::Included(v) => Bound::Included(v.clone()),
        KeyBound::Excluded(v) => Bound::Excluded(v.clone()),
        KeyBound::Unbounded => Bound::Unbounded,
    };
    let mut out = Vec::new();
    for e in m.map.range((lo, hi)) {
        out.push((e.key().clone(), e.value().clone()));
    }
    out
}

/// A forward iterator over a bounded snapshot of a transaction's local
/// store. The current item starts as an empty-key sentinel; the first
/// advance loads the first entry, and exhaustion restores the sentinel.
/// An empty current key therefore means the iterator is not on an entry,
/// which is sound because real keys are never empty.
pub struct TxnLocalIterator {
    pub entries: Vec<(Vec<u8>, Vec<u8>)>,
    pub next_idx: usize,
    pub item: (Vec<u8>, Vec<u8>),
}

impl TxnLocalIterator {
    /// The iterator's cursor stays within its snapshot.
    pub open spec fn wf(&self) -> bool {
        self.next_idx <= self.entries@.len()
    }

    /// A fresh iterator over a snapshot, positioned before the first
    /// entry, holding the sentinel item.
    pub fn create(entries: Vec<(Vec<u8>, Vec<u8>)>) -> (r: TxnLocalIterator)
        ensures
            r.wf(),
            r.entries == entries,
            r.next_idx == 0,
            r.item.0@.len() == 0,
            r.item.1@.len() == 0,
    {
        TxnLocalIterator { entries, next_idx: 0, item: (Vec::new(), Vec::new()) }
    }

    /// The current value.
    pub fn value(&self) -> (r: &Vec<u8>)
        ensures
            r == &self.item.1,
    {
        &self.item.1
    }

    /// The current key.
    pub fn key(&self) -> (r: &Vec<u8>)
        ensures
            r == &self.item.0,
    {
        &self.item.0
    }

    /// Whether the iterator is on an entry: its exhaustion signal is the
    /// empty-key sentinel.
    pub fn is_valid(&self) -> (r: bool)
        ensures
            r == (self.item.0@.len() != 0),
    {
        self.item.0.len() != 0
    }

    /// Advance: load the next snapshot entry into the current item, or
    /// the empty-key sentinel when the snapshot is exhausted.
    pub fn next(&mut self)
        requires
            old(self).wf(),
        ensures
            final(self).wf(),
            final(self).entries == old(self).entries,
            if old(self).next_idx < old(self).entries@.len() {
                final(self).next_idx == old(self).next_idx + 1 && final(self).item.0@ == old(
                    self,
                ).entries@[old(self).next_idx as int].0@ && final(self).item.1@ == old(
                    self,
                ).entries@[old(self).next_idx as int].1@
            } else {
                final(self).next_idx == old(self).next_idx && final(self).item.0@.len() == 0
                    && final(self).item.1@.len() == 0
            },
    {
        if self.next_idx < self.entries.len() {
            let k = crate::codec::copy_range(
                &self.entries[self.next_idx].0,
                0,
                self.entries[self.next_idx].0.len(),
            );
            let v = crate::codec::copy_range(
                &self.entries[self.next_idx].1,
                0,
                self.entries[self.next_idx].1.len(),
            );
            proof {
                assert(k@ =~= self.entries@[self.next_idx as int].0@);
                assert(v@ =~= self.entries@[self.next_idx as int].1@);
            }
            self.item = (k, v);
            self.next_idx = self.next_idx + 1;
        } else {
            self.item = (Vec::new(), Vec::new());
        }
    }
}

} // verus!
