//! Optimistic snapshot transactions: reads at a fixed snapshot timestamp
//! through a local write buffer, buffered writes, and a conflict-checked
//! commit that applies the buffer atomically.

use vstd::prelude::*;

use crate::engine::CommittedTxnData;
use crate::engine::StorageEngine;
use crate::engine::VersionView;
use crate::engine::WriteBatchRecord;
use crate::engine::prune_below;
use crate::engine::record_version;
use crate::engine::spec_conflict;
use crate::engine::spec_get_with_ts;
use crate::engine::versions_view;
use crate::fingerprint::FingerprintSet;
use crate::fingerprint::hash32;
use crate::fingerprint::hash32_of;
use crate::keys::KeyBound;
use crate::keys::in_range;
use crate::keys::lex_lt;
use crate::local_store::LocalStore;
use crate::local_store::store_entries;
use crate::local_store::store_get;
use crate::local_store::store_insert;
use crate::local_store::store_new;
use crate::local_store::store_snapshot;
use crate::pairs::has_key;
use crate::pairs::pairs_sorted;
use crate::pairs::pairs_view;

verus! {

/// A failure of a transaction operation.
#[derive(Clone, Copy, Debug, PartialEq, Eq, Structural)]
pub enum TxnError {
    /// The transaction was already committed; it must not be reused.
    AlreadyCommitted,
    /// Commit validation found a committed transaction whose write set
    /// intersects this transaction's read set.
    Conflict,
}

/// What a read through a transaction returns: the local buffer shadows
/// the engine's snapshot, and a locally buffered empty value (tombstone)
/// reads as absence.
pub open spec fn spec_txn_get(
    local: Map<Seq<u8>, Seq<u8>>,
    vs: Seq<VersionView>,
    read_ts: u64,
    key: Seq<u8>,
) -> Option<Seq<u8>> {
    if local.contains_key(key) {
        if local[key].len() == 0 {
            None
        } else {
            Some(local[key])
        }
    } else {
        spec_get_with_ts(vs, key, read_ts)
    }
}

/// A key written and then deleted within one uncommitted transaction
/// reads as absent, whatever the shared store holds.
pub proof fn lemma_write_delete_read(
    local: Map<Seq<u8>, Seq<u8>>,
    vs: Seq<VersionView>,
    read_ts: u64,
    key: Seq<u8>,
    value: Seq<u8>,
)
    ensures
        spec_txn_get(local.insert(key, value).insert(key, Seq::empty()), vs, read_ts, key)
            is None,
{
}

/// A committed transaction's timestamp lies strictly above every commit
/// timestamp already recorded: each commit yields a strictly increasing
/// commit timestamp.
pub proof fn lemma_commit_ts_strictly_increases(e: StorageEngine, i: int)
    requires
        e.wf(),
        e.latest_commit_ts < u64::MAX,
        0 <= i < e.committed_txns@.len(),
    ensures
        e.committed_txns@[i].commit_ts < e.latest_commit_ts + 1,
{
}

/// Once a transaction is disposed, a read timestamp registered only by it
/// no longer appears among the active readers.
pub proof fn lemma_disposed_reader_gone(olds: Seq<u64>, news: Seq<u64>, ts: u64, i: int)
    requires
        0 <= i < olds.len(),
        olds[i] == ts,
        forall|j: int| 0 <= j < olds.len() && olds[j] == ts ==> j == i,
        news == olds.remove(i),
    ensures
        !news.contains(ts),
{
    if news.contains(ts) {
        let j = choose|j: int| 0 <= j < news.len() && news[j] == ts;
        if j < i {
            assert(olds[j] == ts);
        } else {
            assert(olds[j + 1] == ts);
        }
    }
}

/// Whether `p` lists exactly the entries of `local`, in strictly
/// ascending key order: every pair is an entry, every key of `local`
/// appears, and the strict order leaves each key exactly one pair.
pub open spec fn batch_of_local(local: Map<Seq<u8>, Seq<u8>>, p: Seq<(Seq<u8>, Seq<u8>)>) -> bool {
    &&& pairs_sorted(p)
    &&& forall|i: int|
        0 <= i < p.len() ==> local.contains_key((#[trigger] p[i]).0) && local[p[i].0] == p[i].1
    &&& forall|k: Seq<u8>| local.contains_key(k) ==> has_key(p, k)
}

/// The versions that a batch of pairs becomes at commit timestamp `ts`.
pub open spec fn batch_versions(p: Seq<(Seq<u8>, Seq<u8>)>, ts: u64) -> Seq<VersionView> {
    p.map_values(|pair: (Seq<u8>, Seq<u8>)| VersionView { key: pair.0, ts, value: pair.1 })
}

/// A successful commit extends the versions by exactly the local entries
/// of the transaction, all at the assigned commit timestamp.
pub open spec fn commit_applies_local(
    local: Map<Seq<u8>, Seq<u8>>,
    old_vs: Seq<VersionView>,
    new_vs: Seq<VersionView>,
    ts: u64,
) -> bool {
    exists|p: Seq<(Seq<u8>, Seq<u8>)>|
        #[trigger] batch_of_local(local, p) && new_vs == old_vs + batch_versions(p, ts)
}

/// Whether `d` is the history record of a commit with write set `ws` and
/// the given interval.
pub open spec fn committed_data_matches(
    d: CommittedTxnData,
    ws: Set<u32>,
    read_ts: u64,
    commit_ts: u64,
) -> bool {
    d.key_hashes@ == ws && d.read_ts == read_ts && d.commit_ts == commit_ts
}

/// A tracked commit pushes its record onto the history and prunes the
/// entries below the watermark.
pub open spec fn history_records_commit(
    old_hist: Seq<CommittedTxnData>,
    new_hist: Seq<CommittedTxnData>,
    ws: Set<u32>,
    read_ts: u64,
    commit_ts: u64,
    wm: u64,
) -> bool {
    exists|d: CommittedTxnData|
        #[trigger] committed_data_matches(d, ws, read_ts, commit_ts) && new_hist == prune_below(
            old_hist.push(d),
            wm,
        )
}

/// An optimistic snapshot transaction: a fixed read timestamp, a local
/// write buffer that shadows the engine, a one-shot committed flag, and,
/// when conflict detection is on, the write-set and read-set
/// fingerprints.
pub struct Transaction {
    pub read_ts: u64,
    pub local_storage: LocalStore,
    pub committed: bool,
    pub key_hashes: Option<(FingerprintSet, FingerprintSet)>,
}

impl Transaction {
    /// Every buffered key is non-empty: an empty key is reserved as the
    /// iterator exhaustion sentinel.
    pub open spec fn wf(&self) -> bool {
        forall|k: Seq<u8>| store_entries(self.local_storage).contains_key(k) ==> k.len() > 0
    }

    /// The buffered writes.
    pub open spec fn local(&self) -> Map<Seq<u8>, Seq<u8>> {
        store_entries(self.local_storage)
    }

    /// Whether conflict detection is on for this transaction.
    pub open spec fn tracking(&self) -> bool {
        self.key_hashes is Some
    }

    /// The write-set fingerprints; meaningful only when tracking.
    pub open spec fn write_set(&self) -> Set<u32> {
        self.key_hashes.unwrap().0@
    }

    /// The read-set fingerprints; meaningful only when tracking.
    pub open spec fn read_set(&self) -> Set<u32> {
        self.key_hashes.unwrap().1@
    }

    /// Begin a transaction: its snapshot timestamp is the latest commit
    /// timestamp, and it registers as an active reader so the history it
    /// may need is kept.
    pub fn new(storage: &mut StorageEngine) -> (t: Transaction)
        ensures
            t.wf(),
            t.read_ts == old(storage).latest_commit_ts,
            t.local() == crate::local_store::no_entries(),
            !t.committed,
            t.tracking() == old(storage).serializable,
            old(storage).serializable ==> t.write_set() == Set::<u32>::empty() && t.read_set()
                == Set::<u32>::empty(),
            final(storage).readers@ == old(storage).readers@.push(old(storage).latest_commit_ts),
            final(storage).versions == old(storage).versions,
            final(storage).latest_commit_ts == old(storage).latest_commit_ts,
            final(storage).committed_txns == old(storage).committed_txns,
            final(storage).serializable == old(storage).serializable,
    {
        let read_ts = storage.latest_commit_ts();
        storage.add_reader(read_ts);
        let key_hashes = if storage.serializable {
            Some((FingerprintSet::new(), FingerprintSet::new()))
        } else {
            None
        };
        Transaction { read_ts, local_storage: store_new(), committed: false, key_hashes }
    }

    /// Read `key`: the local buffer shadows the engine's snapshot at the
    /// transaction's read timestamp, and a buffered tombstone reads as
    /// absence. When tracking, the key joins the read set. Fails only on
    /// a committed transaction.
    pub fn get(&mut self, storage: &StorageEngine, key: &[u8]) -> (r: Result<
        Option<Vec<u8>>,
        TxnError,
    >)
        ensures
            final(self).read_ts == old(self).read_ts,
            final(self).committed == old(self).committed,
            final(self).local() == old(self).local(),
            old(self).committed ==> r == Err::<Option<Vec<u8>>, TxnError>(
                TxnError::AlreadyCommitted,
            ) && final(self).key_hashes == old(self).key_hashes,
            !old(self).committed ==> match r {
                Ok(Some(v)) => spec_txn_get(
                    old(self).local(),
                    versions_view(storage.versions@),
                    old(self).read_ts,
                    key@,
                ) == Some(v@),
                Ok(None) => spec_txn_get(
                    old(self).local(),
                    versions_view(storage.versions@),
                    old(self).read_ts,
                    key@,
                ) is None,
                Err(_) => false,
            },
            !old(self).committed ==> final(self).tracking() == old(self).tracking() && (old(self).tracking() ==> final(self).write_set() == old(self).write_set() && final(self).read_set() == old(self).read_set().insert(hash32_of(key@))) && (!old(self).tracking() ==> final(self).key_hashes == old(self).key_hashes),
    {
        if self.committed {
            return Err(TxnError::AlreadyCommitted);
        }
        let h = hash32(key);
        match &mut self.key_hashes {
            Some(hs) => {
                hs.1.insert(h);
            },
            None => {},
        }
        let key_vec = crate::codec::slice_to_vec(key);
        match store_get(&self.local_storage, &key_vec) {
            Some(v) => {
                if v.len() == 0 {
                    Ok(None)
                } else {
                    Ok(Some(v))
                }
            },
            None => Ok(storage.get_with_ts(key, self.read_ts)),
        }
    }

    /// Buffer a write of `key` to `value`, visible to this transaction's
    /// later reads and to no other transaction until commit. When
    /// tracking, the key joins the write set. Fails only on a committed
    /// transaction.
    pub fn put(&mut self, key: &[u8], value: &[u8]) -> (r: Result<(), TxnError>)
        requires
            old(self).wf(),
            key@.len() > 0,
        ensures
            final(self).wf(),
            final(self).read_ts == old(self).read_ts,
            final(self).committed == old(self).committed,
            old(self).committed ==> r == Err::<(), TxnError>(TxnError::AlreadyCommitted) && final(self).key_hashes == old(self).key_hashes && final(self).local() == old(self).local(),
            !old(self).committed ==> r is Ok && final(self).local() == old(self).local().insert(
                key@,
                value@,
            ) && final(self).tracking() == old(self).tracking() && (old(self).tracking() ==> final(self).write_set() == old(self).write_set().insert(hash32_of(key@)) && final(self).read_set()
                == old(self).read_set()) && (!old(self).tracking() ==> final(self).key_hashes
                == old(self).key_hashes),
    {
        if self.committed {
            return Err(TxnError::AlreadyCommitted);
        }
        let h = hash32(key);
        match &mut self.key_hashes {
            Some(hs) => {
                hs.0.insert(h);
            },
            None => {},
        }
        let key_vec = crate::codec::slice_to_vec(key);
        let value_vec = crate::codec::slice_to_vec(value);
        store_insert(&mut self.local_storage, key_vec, value_vec);
        Ok(())
    }

    /// Buffer a delete of `key`: a tombstone (empty value) that shadows
    /// any engine-visible value. When tracking, the key joins the write
    /// set. Fails only on a committed transaction.
    pub fn delete(&mut self, key: &[u8]) -> (r: Result<(), TxnError>)
        requires
            old(self).wf(),
            key@.len() > 0,
        ensures
            final(self).wf(),
            final(self).read_ts == old(self).read_ts,
            final(self).committed == old(self).committed,
            old(self).committed ==> r == Err::<(), TxnError>(TxnError::AlreadyCommitted) && final(self).key_hashes == old(self).key_hashes && final(self).local() == old(self).local(),
            !old(self).committed ==> r is Ok && final(self).local() == old(self).local().insert(
                key@,
                Seq::empty(),
            ) && final(self).tracking() == old(self).tracking() && (old(self).tracking() ==> final(self).write_set() == old(self).write_set().insert(hash32_of(key@)) && final(self).read_set()
                == old(self).read_set()) && (!old(self).tracking() ==> final(self).key_hashes
                == old(self).key_hashes),
    {
        if self.committed {
            return Err(TxnError::AlreadyCommitted);
        }
        let h = hash32(key);
        match &mut self.key_hashes {
            Some(hs) => {
                hs.0.insert(h);
            },
            None => {},
        }
        let key_vec = crate::codec::slice_to_vec(key);
        store_insert(&mut self.local_storage, key_vec, Vec::new());
        Ok(())
    }

    /// Commit: under the engine-wide commit serialization, validate the
    /// read set against transactions committed since this one's snapshot,
    /// mark the transaction committed, apply the buffered writes as one
    /// atomic batch at a fresh commit timestamp, and, when tracking,
    /// record the write set in the history and prune entries below the
    /// watermark. Aborts with a conflict when a committed write set
    /// intersects this read set; fails fast on a committed transaction.
    pub fn commit(&mut self, storage: &mut StorageEngine) -> (r: Result<(), TxnError>)
        requires
            old(self).wf(),
            old(storage).wf(),
            old(storage).latest_commit_ts < u64::MAX,
        ensures
            final(self).wf(),
            final(storage).wf(),
            final(self).read_ts == old(self).read_ts,
            final(self).local() == old(self).local(),
            final(self).key_hashes == old(self).key_hashes,
            final(storage).readers == old(storage).readers,
            final(storage).serializable == old(storage).serializable,
            old(self).committed ==> r == Err::<(), TxnError>(TxnError::AlreadyCommitted) && final(self).committed && *final(storage) == *old(storage),
            (!old(self).committed && old(self).tracking() && old(self).write_set()
                != Set::<u32>::empty() && spec_conflict(
                old(storage).committed_txns@,
                old(self).read_ts,
                old(storage).latest_commit_ts + 1,
                old(self).read_set(),
            )) ==> r == Err::<(), TxnError>(TxnError::Conflict) && !final(self).committed && *final(storage) == *old(storage),
            (!old(self).committed && (!old(self).tracking() || old(self).write_set()
                == Set::<u32>::empty() || !spec_conflict(
                old(storage).committed_txns@,
                old(self).read_ts,
                old(storage).latest_commit_ts + 1,
                old(self).read_set(),
            ))) ==> {
                &&& r is Ok
                &&& final(self).committed
                &&& final(storage).latest_commit_ts == old(storage).latest_commit_ts + 1
                &&& commit_applies_local(
                    old(self).local(),
                    versions_view(old(storage).versions@),
                    versions_view(final(storage).versions@),
                    (old(storage).latest_commit_ts + 1) as u64,
                )
                &&& old(self).tracking() ==> history_records_commit(
                    old(storage).committed_txns@,
                    final(storage).committed_txns@,
                    old(self).write_set(),
                    old(self).read_ts,
                    (old(storage).latest_commit_ts + 1) as u64,
                    final(storage).spec_watermark(),
                )
                &&& !old(self).tracking() ==> final(storage).committed_txns == old(storage).committed_txns
            },
    {
        if self.committed {
            return Err(TxnError::AlreadyCommitted);
        }
        let do_validate = match &self.key_hashes {
            Some(hs) => !hs.0.is_empty(),
            None => false,
        };
        if do_validate {
            let conflict = match &self.key_hashes {
                Some(hs) => storage.has_conflict(self.read_ts, &hs.1),
                None => false,
            };
            if conflict {
                return Err(TxnError::Conflict);
            }
        }
        self.committed = true;
        let snapshot = store_snapshot(
            &self.local_storage,
            &KeyBound::Unbounded,
            &KeyBound::Unbounded,
        );
        let ghost p = pairs_view(snapshot@);
        let ghost snap_ghost = snapshot@;
        let total = snapshot.len();
        let ghost pairs_len = snapshot@.len();
        proof {
            assert(p.len() == pairs_len);
        }
        let mut rest = snapshot;
        let mut records: Vec<WriteBatchRecord> = Vec::new();
        let mut consumed: usize = 0;
        while rest.len() > 0
            invariant
                consumed + rest@.len() == total,
                p.len() == total,
                forall|a: int|
                    0 <= a < rest@.len() ==> pairs_view(rest@)[a] == p[consumed + a],
                records@.len() == consumed,
                forall|i: int|
                    0 <= i < p.len() ==> (#[trigger] p[i]).0.len() > 0,
                forall|i: int, ts: u64|
                    0 <= i < consumed ==> #[trigger] record_version(records@[i], ts)
                        == (VersionView { key: p[i].0, ts, value: p[i].1 }),
                forall|i: int|
                    0 <= i < consumed ==> crate::engine::record_key(#[trigger] records@[i]).len()
                        > 0,
            decreases rest@.len(),
        {
            let ghost old_rest = rest@;
            let (k, v) = rest.remove(0);
            proof {
                assert(pairs_view(old_rest)[0] == p[consumed as int]);
                assert(pairs_view(old_rest)[0] == (k@, v@));
                assert forall|a: int| 0 <= a < rest@.len() implies pairs_view(rest@)[a] == p[
                    consumed + 1 + a] by {
                    assert(pairs_view(rest@)[a] == (rest@[a].0@, rest@[a].1@));
                    assert(rest@[a] == old_rest[a + 1]);
                    assert(pairs_view(old_rest)[a + 1] == (old_rest[a + 1].0@, old_rest[a
                        + 1].1@));
                }
            }
            let ghost vv = v@;
            if v.len() == 0 {
                records.push(WriteBatchRecord::Del(k));
            } else {
                records.push(WriteBatchRecord::Put(k, v));
            }
            proof {
                assert forall|ts: u64| #[trigger] record_version(records@[consumed as int], ts)
                    == (VersionView {
                    key: p[consumed as int].0,
                    ts,
                    value: p[consumed as int].1,
                }) by {
                    if vv.len() == 0 {
                        assert(vv =~= Seq::<u8>::empty());
                    }
                }
            }
            consumed = consumed + 1;
        }
        let ghost recs_final = records@;
        let commit_ts = storage.write_batch_inner(records);
        proof {
            let mapped = p.map_values(
                |pair: (Seq<u8>, Seq<u8>)| VersionView { key: pair.0, ts: commit_ts, value: pair.1 },
            );
            let rec_mapped = recs_final.map_values(
                |rec: WriteBatchRecord| record_version(rec, commit_ts),
            );
            assert forall|i: int| 0 <= i < p.len() implies mapped[i] == rec_mapped[i] by {
                assert(rec_mapped[i] == record_version(recs_final[i], commit_ts));
                assert(mapped[i] == (VersionView { key: p[i].0, ts: commit_ts, value: p[i].1 }));
            }
            assert(versions_view(storage.versions@) =~= versions_view(old(storage).versions@)
                + mapped);
            assert forall|k: Seq<u8>| old(self).local().contains_key(k) implies has_key(p, k) by {
                assert(in_range(KeyBound::Unbounded, KeyBound::Unbounded, k));
                let w = choose|w: int|
                    0 <= w < pairs_len && (#[trigger] snap_ghost[w]).0@ == k;
                assert(p[w] == (snap_ghost[w].0@, snap_ghost[w].1@));
            }
            assert forall|i: int|
                0 <= i < p.len() implies old(self).local().contains_key((#[trigger] p[i]).0) && old(self).local()[p[i].0] == p[i].1 by {
                assert(p[i] == (snap_ghost[i].0@, snap_ghost[i].1@));
            }
            assert forall|i: int, j: int| 0 <= i < j < p.len() implies lex_lt(
                (#[trigger] p[i]).0,
                (#[trigger] p[j]).0,
            ) by {
                assert(p[i] == (snap_ghost[i].0@, snap_ghost[i].1@));
                assert(p[j] == (snap_ghost[j].0@, snap_ghost[j].1@));
            }
            assert(batch_of_local(old(self).local(), p));
            assert forall|i: int| 0 <= i < p.len() implies batch_versions(p, commit_ts)[i]
                == mapped[i] by {}
            assert(batch_versions(p, commit_ts) =~= mapped);
            assert(commit_applies_local(
                old(self).local(),
                versions_view(old(storage).versions@),
                versions_view(storage.versions@),
                commit_ts,
            ));
        }
        match &self.key_hashes {
            Some(hs) => {
                let data = CommittedTxnData {
                    key_hashes: hs.0.duplicate(),
                    read_ts: self.read_ts,
                    commit_ts,
                };
                let ghost dg = data;
                storage.record_committed(data);
                storage.prune_history();
                proof {
                    assert(committed_data_matches(
                        dg,
                        old(self).write_set(),
                        old(self).read_ts,
                        commit_ts,
                    ));
                    assert(history_records_commit(
                        old(storage).committed_txns@,
                        storage.committed_txns@,
                        old(self).write_set(),
                        old(self).read_ts,
                        commit_ts,
                        storage.spec_watermark(),
                    ));
                }
            },
            None => {},
        }
        Ok(())
    }

    /// Build a merged forward iterator over `[lower, upper]`: the
    /// engine's snapshot scan at the read timestamp overlaid with the
    /// local buffer, the buffer winning on key collision. Buffered
    /// tombstones are skipped when the iterator is built and on each
    /// advance, so callers only ever observe live key/value pairs. Fails
    /// only on a committed transaction.
    pub fn scan(&self, storage: &StorageEngine, lower: &KeyBound, upper: &KeyBound) -> (r: Result<
        TxnIterator,
        TxnError,
    >)
        ensures
            self.committed ==> r == Err::<TxnIterator, TxnError>(TxnError::AlreadyCommitted),
            !self.committed ==> match r {
                Ok(it) => {
                    &&& it.wf()
                    &&& it.num_active == 2
                    &&& forall|j: int|
                        0 <= j < it.index ==> (#[trigger] pairs_view(it.entries@)[j]).1.len() == 0
                    &&& it.index < it.entries@.len() ==> pairs_view(it.entries@)[
                        it.index as int].1.len() != 0
                    &&& pairs_sorted(pairs_view(it.entries@))
                    &&& forall|a: int|
                        0 <= a < it.entries@.len() ==> {
                            let pr = #[trigger] pairs_view(it.entries@)[a];
                            &&& in_range(*lower, *upper, pr.0)
                            &&& self.local().contains_key(pr.0) ==> pr.1 == self.local()[pr.0]
                            &&& !self.local().contains_key(pr.0) ==> spec_get_with_ts(
                                versions_view(storage.versions@),
                                pr.0,
                                self.read_ts,
                            ) == Some(pr.1)
                        }
                    &&& forall|k: Seq<u8>|
                        in_range(*lower, *upper, k) && (self.local().contains_key(k) || !(
                        spec_get_with_ts(versions_view(storage.versions@), k, self.read_ts)
                            is None)) ==> has_key(pairs_view(it.entries@), k)
                },
                Err(_) => false,
            },
    {
        if self.committed {
            return Err(TxnError::AlreadyCommitted);
        }
        let base = storage.scan_with_ts(lower, upper, self.read_ts);
        let overlay = store_snapshot(&self.local_storage, lower, upper);
        let ghost ov = pairs_view(overlay@);
        let ghost ov_vec = overlay@;
        let ghost base_p = pairs_view(base@);
        let out = crate::pairs::pairs_overlay(base, &overlay);
        proof {
            assert forall|a: int| 0 <= a < ov.len() implies #[trigger] ov[a] == (ov_vec[a].0@,
            ov_vec[a].1@) by {}
            assert forall|a: int|
                0 <= a < out@.len() implies {
                let pr = #[trigger] pairs_view(out@)[a];
                &&& in_range(*lower, *upper, pr.0)
                &&& self.local().contains_key(pr.0) ==> pr.1 == self.local()[pr.0]
                &&& !self.local().contains_key(pr.0) ==> spec_get_with_ts(
                    versions_view(storage.versions@),
                    pr.0,
                    self.read_ts,
                ) == Some(pr.1)
            } by {
                let pr = pairs_view(out@)[a];
                if crate::pairs::pair_in(ov, pr) {
                    let j = choose|j: int| 0 <= j < ov.len() && ov[j] == pr;
                    assert(ov_vec[j].0@ == pr.0 && ov_vec[j].1@ == pr.1);
                } else {
                    let j = choose|j: int| 0 <= j < base_p.len() && base_p[j] == pr;
                    assert(in_range(*lower, *upper, pr.0));
                    if self.local().contains_key(pr.0) {
                        let m = choose|m: int|
                            0 <= m < ov_vec.len() && (#[trigger] ov_vec[m]).0@ == pr.0;
                        assert(ov[m].0 == pr.0);
                        assert(has_key(ov, pr.0));
                    }
                }
            }
            assert forall|k: Seq<u8>|
                in_range(*lower, *upper, k) && (self.local().contains_key(k) || !(spec_get_with_ts(
                    versions_view(storage.versions@),
                    k,
                    self.read_ts,
                ) is None)) implies has_key(pairs_view(out@), k) by {
                if self.local().contains_key(k) {
                    let m = choose|m: int|
                        0 <= m < ov_vec.len() && (#[trigger] ov_vec[m]).0@ == k;
                    assert(ov[m] == (ov_vec[m].0@, ov_vec[m].1@));
                    let a = choose|a: int| 0 <= a < pairs_view(out@).len() && pairs_view(out@)[a]
                        == ov[m];
                    assert(pairs_view(out@)[a].0 == k);
                } else {
                    assert(has_key(base_p, k));
                    let j = choose|j: int| 0 <= j < base_p.len() && (#[trigger] base_p[j]).0 == k;
                    if has_key(ov, k) {
                        let m = choose|m: int| 0 <= m < ov.len() && (#[trigger] ov[m]).0 == k;
                        let a = choose|a: int|
                            0 <= a < pairs_view(out@).len() && pairs_view(out@)[a] == ov[m];
                        assert(pairs_view(out@)[a].0 == k);
                    } else {
                        let a = choose|a: int|
                            0 <= a < pairs_view(out@).len() && pairs_view(out@)[a] == base_p[j];
                        assert(pairs_view(out@)[a].0 == k);
                    }
                }
            }
        }
        Ok(TxnIterator::create(out, 2))
    }

    /// Deregister this transaction's read timestamp from the active
    /// readers, exactly once, whatever its commit outcome. Every
    /// transaction must be disposed when it goes out of use.
    pub fn dispose(self, storage: &mut StorageEngine)
        ensures
            final(storage).versions == old(storage).versions,
            final(storage).latest_commit_ts == old(storage).latest_commit_ts,
            final(storage).committed_txns == old(storage).committed_txns,
            final(storage).serializable == old(storage).serializable,
            old(storage).readers@.contains(self.read_ts) ==> exists|i: int|
                0 <= i < old(storage).readers@.len() && old(storage).readers@[i] == self.read_ts
                    && (forall|j: int| 0 <= j < i ==> old(storage).readers@[j] != self.read_ts)
                    && final(storage).readers@ == old(storage).readers@.remove(i),
            !old(storage).readers@.contains(self.read_ts) ==> final(storage).readers@ == old(storage).readers@,
    {
        storage.remove_reader(self.read_ts);
    }
}


/// A forward iterator over a transaction's merged view of a key range:
/// the local buffer overlaid on the engine's snapshot scan. Creation and
/// every advance skip buffered tombstones, so callers only ever observe
/// live entries; advancing also records the key left behind into the
/// read set (when tracking).
pub struct TxnIterator {
    pub entries: Vec<(Vec<u8>, Vec<u8>)>,
    pub index: usize,
    pub num_active: usize,
}

impl TxnIterator {
    /// The cursor stays within the merged entries.
    pub open spec fn wf(&self) -> bool {
        self.index <= self.entries@.len()
    }

    /// Wrap merged entries as an iterator positioned on the first live
    /// entry: leading tombstones are skipped, so a fresh iterator never
    /// exposes one.
    pub fn create(entries: Vec<(Vec<u8>, Vec<u8>)>, num_active: usize) -> (r: TxnIterator)
        ensures
            r.wf(),
            r.entries == entries,
            r.num_active == num_active,
            forall|j: int|
                0 <= j < r.index ==> (#[trigger] pairs_view(entries@)[j]).1.len() == 0,
            r.index < entries@.len() ==> pairs_view(entries@)[r.index as int].1.len() != 0,
    {
        let mut index: usize = 0;
        while index < entries.len() && entries[index].1.len() == 0
            invariant
                index <= entries@.len(),
                forall|j: int|
                    0 <= j < index ==> (#[trigger] pairs_view(entries@)[j]).1.len() == 0,
            decreases entries@.len() - index,
        {
            proof {
                assert(pairs_view(entries@)[index as int] == (
                    entries@[index as int].0@,
                    entries@[index as int].1@,
                ));
            }
            index = index + 1;
        }
        proof {
            if index < entries@.len() {
                assert(pairs_view(entries@)[index as int] == (
                    entries@[index as int].0@,
                    entries@[index as int].1@,
                ));
            }
        }
        TxnIterator { entries, index, num_active }
    }

    /// The current key.
    pub fn key(&self) -> (r: &Vec<u8>)
        requires
            self.wf(),
            self.index < self.entries@.len(),
        ensures
            r@ == pairs_view(self.entries@)[self.index as int].0,
    {
        proof {
            assert(pairs_view(self.entries@)[self.index as int] == (
                self.entries@[self.index as int].0@,
                self.entries@[self.index as int].1@,
            ));
        }
        &self.entries[self.index].0
    }

    /// The current value.
    pub fn value(&self) -> (r: &Vec<u8>)
        requires
            self.wf(),
            self.index < self.entries@.len(),
        ensures
            r@ == pairs_view(self.entries@)[self.index as int].1,
    {
        proof {
            assert(pairs_view(self.entries@)[self.index as int] == (
                self.entries@[self.index as int].0@,
                self.entries@[self.index as int].1@,
            ));
        }
        &self.entries[self.index].1
    }

    /// Whether the iterator is on an entry.
    pub fn is_valid(&self) -> (r: bool)
        ensures
            r == (self.index < self.entries@.len()),
    {
        self.index < self.entries.len()
    }

    /// Advance: record the key being left behind into the transaction's
    /// read set when tracking, step forward, and skip tombstones so only
    /// live entries remain visible.
    pub fn next(&mut self, txn: &mut Transaction)
        requires
            old(self).wf(),
            old(self).index < old(self).entries@.len(),
        ensures
            final(self).wf(),
            final(self).entries == old(self).entries,
            final(self).num_active == old(self).num_active,
            old(self).index < final(self).index <= old(self).entries@.len(),
            forall|j: int|
                old(self).index < j < final(self).index ==> (#[trigger] pairs_view(
                    old(self).entries@,
                )[j]).1.len() == 0,
            final(self).index < old(self).entries@.len() ==> pairs_view(old(self).entries@)[final(self).index as int].1.len() != 0,
            final(txn).read_ts == old(txn).read_ts,
            final(txn).committed == old(txn).committed,
            final(txn).local() == old(txn).local(),
            final(txn).tracking() == old(txn).tracking(),
            old(txn).tracking() ==> final(txn).write_set() == old(txn).write_set() && final(txn).read_set() == old(txn).read_set().insert(
                hash32_of(pairs_view(old(self).entries@)[old(self).index as int].0),
            ),
            !old(txn).tracking() ==> final(txn).key_hashes == old(txn).key_hashes,
    {
        let n = self.entries.len();
        proof {
            assert(pairs_view(self.entries@)[self.index as int] == (
                self.entries@[self.index as int].0@,
                self.entries@[self.index as int].1@,
            ));
        }
        let h = hash32(self.entries[self.index].0.as_slice());
        match &mut txn.key_hashes {
            Some(hs) => {
                hs.1.insert(h);
            },
            None => {},
        }
        self.index = self.index + 1;
        while self.index < self.entries.len() && self.entries[self.index].1.len() == 0
            invariant
                old(self).index < self.index <= self.entries@.len(),
                self.entries == old(self).entries,
                self.num_active == old(self).num_active,
                forall|j: int|
                    old(self).index < j < self.index ==> (#[trigger] pairs_view(
                        old(self).entries@,
                    )[j]).1.len() == 0,
            decreases self.entries@.len() - self.index,
        {
            proof {
                assert(pairs_view(self.entries@)[self.index as int] == (
                    self.entries@[self.index as int].0@,
                    self.entries@[self.index as int].1@,
                ));
            }
            self.index = self.index + 1;
        }
        proof {
            if self.index < self.entries@.len() {
                assert(pairs_view(self.entries@)[self.index as int] == (
                    self.entries@[self.index as int].0@,
                    self.entries@[self.index as int].1@,
                ));
            }
        }
    }

    /// The number of active underlying iterators, for callers'
    /// resource accounting.
    pub fn num_active_iterators(&self) -> (r: usize)
        ensures
            r == self.num_active,
    {
        self.num_active
    }
}

} // verus!
