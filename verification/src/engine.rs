//! The shared storage engine a transaction runs against: a multi-version
//! key/value store with snapshot reads at a timestamp, a commit-timestamp
//! counter, the watermark registry of active readers, and the history of
//! committed transactions kept for conflict detection.

use vstd::prelude::*;

use crate::codec::copy_range;
use crate::fingerprint::FingerprintSet;
use crate::keys::KeyBound;
use crate::keys::KeyOrdering;
use crate::keys::in_range;
use crate::keys::key_compare;
use crate::keys::key_within_bounds;
use crate::pairs::has_key;
use crate::pairs::pairs_has_key;
use crate::pairs::pairs_insert_sorted;
use crate::pairs::pairs_sorted;
use crate::pairs::pairs_view;

verus! {

/// One version of one key: the value written at a commit timestamp.
/// An empty value is a deletion tombstone.
pub struct VersionedEntry {
    pub key: Vec<u8>,
    pub ts: u64,
    pub value: Vec<u8>,
}

/// Mathematical image of a [`VersionedEntry`].
pub ghost struct VersionView {
    pub key: Seq<u8>,
    pub ts: u64,
    pub value: Seq<u8>,
}

impl View for VersionedEntry {
    type V = VersionView;

    open spec fn view(&self) -> VersionView {
        VersionView { key: self.key@, ts: self.ts, value: self.value@ }
    }
}

/// The views of a sequence of versions.
pub open spec fn versions_view(s: Seq<VersionedEntry>) -> Seq<VersionView> {
    s.map_values(|e: VersionedEntry| e@)
}

/// The version of `key` visible at `read_ts`: the one with the largest
/// timestamp at or below `read_ts`, later entries winning a tie.
pub open spec fn visible_version(vs: Seq<VersionView>, key: Seq<u8>, read_ts: u64) -> Option<
    VersionView,
>
    decreases vs.len(),
{
    if vs.len() == 0 {
        None
    } else {
        let e = vs.last();
        let rest = visible_version(vs.drop_last(), key, read_ts);
        if e.key == key && e.ts <= read_ts {
            match rest {
                Some(r) => if r.ts <= e.ts {
                    Some(e)
                } else {
                    Some(r)
                },
                None => Some(e),
            }
        } else {
            rest
        }
    }
}

/// The value of `key` a snapshot at `read_ts` observes: the visible
/// version's value, with a tombstone read as absence.
pub open spec fn spec_get_with_ts(vs: Seq<VersionView>, key: Seq<u8>, read_ts: u64) -> Option<
    Seq<u8>,
> {
    match visible_version(vs, key, read_ts) {
        Some(v) => if v.value.len() == 0 {
            None
        } else {
            Some(v.value)
        },
        None => None,
    }
}

/// What the visible version is: it belongs to the store, matches the key,
/// lies at or below the read timestamp, and no version of the key at or
/// below the read timestamp is newer. When none is visible, no version of
/// the key lies at or below the read timestamp. Writes committed after
/// `read_ts` are never observed.
pub proof fn lemma_visible_version(vs: Seq<VersionView>, key: Seq<u8>, read_ts: u64)
    ensures
        match visible_version(vs, key, read_ts) {
            Some(v) => {
                &&& v.key == key
                &&& v.ts <= read_ts
                &&& exists|i: int| 0 <= i < vs.len() && vs[i] == v
                &&& forall|i: int|
                    0 <= i < vs.len() && (#[trigger] vs[i]).key == key && vs[i].ts <= read_ts
                        ==> vs[i].ts <= v.ts
            },
            None => forall|i: int|
                0 <= i < vs.len() ==> !((#[trigger] vs[i]).key == key && vs[i].ts <= read_ts),
        },
    decreases vs.len(),
{
    if vs.len() > 0 {
        lemma_visible_version(vs.drop_last(), key, read_ts);
        assert(vs.drop_last().len() == vs.len() - 1);
        assert(forall|i: int| 0 <= i < vs.len() - 1 ==> #[trigger] vs[i] == vs.drop_last()[i]);
        assert(vs.last() == vs[vs.len() - 1]);
        match visible_version(vs.drop_last(), key, read_ts) {
            Some(r) => {
                let j = choose|j: int|
                    0 <= j < vs.drop_last().len() && vs.drop_last()[j] == r;
                assert(vs[j] == r);
            },
            None => {},
        }
    }
}

/// A transaction that committed at `read_ts` or earlier is observed at
/// `read_ts`: if version `i` of `key` is the newest at or below the read
/// timestamp, and no other version shares its timestamp, the snapshot
/// read returns exactly that version.
pub proof fn lemma_snapshot_observes(vs: Seq<VersionView>, key: Seq<u8>, read_ts: u64, i: int)
    requires
        0 <= i < vs.len(),
        vs[i].key == key,
        vs[i].ts <= read_ts,
        forall|j: int|
            0 <= j < vs.len() && (#[trigger] vs[j]).key == key && vs[j].ts <= read_ts ==> vs[j].ts
                <= vs[i].ts,
        forall|j: int|
            0 <= j < vs.len() && j != i ==> !((#[trigger] vs[j]).key == key && vs[j].ts
                == vs[i].ts),
    ensures
        visible_version(vs, key, read_ts) == Some(vs[i]),
    decreases vs.len(),
{
    assert(forall|j: int| 0 <= j < vs.len() - 1 ==> vs[j] == #[trigger] vs.drop_last()[j]);
    if i == vs.len() - 1 {
        lemma_visible_version(vs.drop_last(), key, read_ts);
        assert(vs.last() == vs[i]);
    } else {
        lemma_snapshot_observes(vs.drop_last(), key, read_ts, i);
        if vs.last().key == key && vs.last().ts <= read_ts {
            assert(vs[vs.len() - 1] == vs.last());
            assert(vs.last().ts <= vs[i].ts);
            assert(vs.last().ts != vs[i].ts);
        }
    }
}

/// What a committed transaction leaves in the shared history: its write
/// set and the interval in which its writes must be checked against
/// later transactions' read sets.
pub struct CommittedTxnData {
    pub key_hashes: FingerprintSet,
    pub read_ts: u64,
    pub commit_ts: u64,
}

/// One record of an atomic write batch.
pub enum WriteBatchRecord {
    Put(Vec<u8>, Vec<u8>),
    Del(Vec<u8>),
}

/// The version a batch record becomes at commit timestamp `ts`.
pub open spec fn record_version(rec: WriteBatchRecord, ts: u64) -> VersionView {
    match rec {
        WriteBatchRecord::Put(k, v) => VersionView { key: k@, ts, value: v@ },
        WriteBatchRecord::Del(k) => VersionView { key: k@, ts, value: Seq::empty() },
    }
}

/// The key of a batch record.
pub open spec fn record_key(rec: WriteBatchRecord) -> Seq<u8> {
    match rec {
        WriteBatchRecord::Put(k, _) => k@,
        WriteBatchRecord::Del(k) => k@,
    }
}

/// The least element of a non-empty sequence of timestamps.
pub open spec fn seq_min(s: Seq<u64>) -> u64
    recommends
        s.len() > 0,
    decreases s.len(),
{
    if s.len() <= 1 {
        s[0]
    } else {
        let m = seq_min(s.drop_last());
        if s.last() < m {
            s.last()
        } else {
            m
        }
    }
}

/// The committed history at or above the watermark: the retained suffix
/// of a history ordered by commit timestamp.
pub open spec fn prune_below(s: Seq<CommittedTxnData>, wm: u64) -> Seq<CommittedTxnData>
    decreases s.len(),
{
    if s.len() == 0 {
        Seq::empty()
    } else if s[0].commit_ts < wm {
        prune_below(s.drop_first(), wm)
    } else {
        s
    }
}

/// Whether the committed history holds a transaction whose commit
/// timestamp lies in `[read_ts, expected_commit_ts)` and whose write set
/// intersects `read_set`.
pub open spec fn spec_conflict(
    committed: Seq<CommittedTxnData>,
    read_ts: u64,
    expected_commit_ts: int,
    read_set: Set<u32>,
) -> bool {
    exists|i: int|
        0 <= i < committed.len() && read_ts <= (#[trigger] committed[i]).commit_ts
            && committed[i].commit_ts < expected_commit_ts && exists|h: u32|
            committed[i].key_hashes@.contains(h) && read_set.contains(h)
}

/// The shared engine state: the multi-version store, the commit-timestamp
/// counter, the committed-transaction history ordered by commit
/// timestamp, and the active readers whose minimum read timestamp is the
/// watermark.
pub struct StorageEngine {
    pub versions: Vec<VersionedEntry>,
    pub latest_commit_ts: u64,
    pub committed_txns: Vec<CommittedTxnData>,
    pub readers: Vec<u64>,
    pub serializable: bool,
}

impl StorageEngine {
    /// The history is ordered by commit timestamp, below the counter;
    /// every stored version was written by a commit, under a non-empty
    /// key.
    pub open spec fn wf(&self) -> bool {
        &&& forall|i: int, j: int|
            0 <= i < j < self.committed_txns@.len() ==> (#[trigger] self.committed_txns@[i]).commit_ts
                < (#[trigger] self.committed_txns@[j]).commit_ts
        &&& forall|i: int|
            0 <= i < self.committed_txns@.len() ==> (#[trigger] self.committed_txns@[i]).commit_ts
                <= self.latest_commit_ts
        &&& forall|i: int|
            0 <= i < self.versions@.len() ==> (#[trigger] self.versions@[i]).ts
                <= self.latest_commit_ts
        &&& forall|i: int|
            0 <= i < self.versions@.len() ==> (#[trigger] self.versions@[i]).key@.len() > 0
    }

    /// A fresh engine with no versions, no history, no readers, and the
    /// commit counter at zero.
    pub fn new(serializable: bool) -> (r: StorageEngine)
        ensures
            r.wf(),
            r.versions@.len() == 0,
            r.latest_commit_ts == 0,
            r.committed_txns@.len() == 0,
            r.readers@.len() == 0,
            r.serializable == serializable,
    {
        StorageEngine {
            versions: Vec::new(),
            latest_commit_ts: 0,
            committed_txns: Vec::new(),
            readers: Vec::new(),
            serializable,
        }
    }

    /// The latest commit timestamp.
    pub fn latest_commit_ts(&self) -> (r: u64)
        ensures
            r == self.latest_commit_ts,
    {
        self.latest_commit_ts
    }

    /// Register an active reader at `ts`, so garbage collection keeps the
    /// history it may still need.
    pub fn add_reader(&mut self, ts: u64)
        ensures
            final(self).readers@ == old(self).readers@.push(ts),
            final(self).versions == old(self).versions,
            final(self).latest_commit_ts == old(self).latest_commit_ts,
            final(self).committed_txns == old(self).committed_txns,
            final(self).serializable == old(self).serializable,
    {
        self.readers.push(ts);
    }

    /// Deregister one active reader at `ts`: the first registration with
    /// that timestamp is removed; with none present, nothing changes.
    pub fn remove_reader(&mut self, ts: u64)
        ensures
            final(self).versions == old(self).versions,
            final(self).latest_commit_ts == old(self).latest_commit_ts,
            final(self).committed_txns == old(self).committed_txns,
            final(self).serializable == old(self).serializable,
            old(self).readers@.contains(ts) ==> exists|i: int|
                0 <= i < old(self).readers@.len() && old(self).readers@[i] == ts && (forall|j: int|
                    0 <= j < i ==> old(self).readers@[j] != ts) && final(self).readers@ == old(
                    self,
                ).readers@.remove(i),
            !old(self).readers@.contains(ts) ==> final(self).readers@ == old(self).readers@,
    {
        let mut i: usize = 0;
        while i < self.readers.len()
            invariant
                i <= self.readers@.len(),
                self.readers == old(self).readers,
                self.versions == old(self).versions,
                self.latest_commit_ts == old(self).latest_commit_ts,
                self.committed_txns == old(self).committed_txns,
                self.serializable == old(self).serializable,
                forall|j: int| 0 <= j < i ==> old(self).readers@[j] != ts,
            decreases self.readers@.len() - i,
        {
            if self.readers[i] == ts {
                self.readers.remove(i);
                proof {
                    assert(old(self).readers@.contains(ts));
                }
                return ;
            }
            i = i + 1;
        }
        proof {
            if old(self).readers@.contains(ts) {
                let j = choose|j: int|
                    0 <= j < old(self).readers@.len() && old(self).readers@[j] == ts;
                assert(false);
            }
        }
    }

    /// The minimum active reader timestamp; the latest commit timestamp
    /// when no reader is active.
    pub open spec fn spec_watermark(&self) -> u64 {
        if self.readers@.len() == 0 {
            self.latest_commit_ts
        } else {
            seq_min(self.readers@)
        }
    }

    /// Compute the watermark.
    pub fn watermark(&self) -> (r: u64)
        ensures
            r == self.spec_watermark(),
    {
        if self.readers.len() == 0 {
            return self.latest_commit_ts;
        }
        let mut m = self.readers[0];
        let mut i: usize = 1;
        proof {
            assert(self.readers@.take(1) =~= seq![self.readers@[0]]);
        }
        while i < self.readers.len()
            invariant
                1 <= i <= self.readers@.len(),
                m == seq_min(self.readers@.take(i as int)),
            decreases self.readers@.len() - i,
        {
            proof {
                assert(self.readers@.take(i as int + 1).drop_last() =~= self.readers@.take(
                    i as int,
                ));
                assert(self.readers@.take(i as int + 1).last() == self.readers@[i as int]);
            }
            if self.readers[i] < m {
                m = self.readers[i];
            }
            i = i + 1;
        }
        proof {
            assert(self.readers@.take(self.readers@.len() as int) =~= self.readers@);
        }
        m
    }

    /// Read `key` at snapshot timestamp `read_ts`: the latest version at
    /// or below `read_ts`, with a tombstone read as absence.
    pub fn get_with_ts(&self, key: &[u8], read_ts: u64) -> (r: Option<Vec<u8>>)
        ensures
            match r {
                Some(v) => spec_get_with_ts(versions_view(self.versions@), key@, read_ts) == Some(
                    v@,
                ),
                None => spec_get_with_ts(versions_view(self.versions@), key@, read_ts) is None,
            },
    {
        let ghost vs = versions_view(self.versions@);
        let mut best: Option<usize> = None;
        let mut i: usize = 0;
        proof {
            assert(vs.take(0) =~= Seq::<VersionView>::empty());
        }
        while i < self.versions.len()
            invariant
                i <= self.versions@.len(),
                vs == versions_view(self.versions@),
                match best {
                    Some(b) => b < i && visible_version(vs.take(i as int), key@, read_ts) == Some(
                        vs[b as int],
                    ),
                    None => visible_version(vs.take(i as int), key@, read_ts) is None,
                },
            decreases self.versions@.len() - i,
        {
            proof {
                assert(vs.take(i as int + 1).drop_last() =~= vs.take(i as int));
                assert(vs.take(i as int + 1).last() == vs[i as int]);
                assert(vs[i as int] == self.versions@[i as int]@);
            }
            let e = &self.versions[i];
            if e.ts <= read_ts && matches!(
                key_compare(e.key.as_slice(), key),
                KeyOrdering::Equal
            ) {
                match best {
                    Some(b) => {
                        if self.versions[b].ts <= e.ts {
                            best = Some(i);
                        }
                    },
                    None => {
                        best = Some(i);
                    },
                }
            }
            i = i + 1;
        }
        proof {
            assert(vs.take(self.versions@.len() as int) =~= vs);
        }
        match best {
            Some(b) => {
                let v = &self.versions[b].value;
                if v.len() == 0 {
                    None
                } else {
                    let out = copy_range(v, 0, v.len());
                    proof {
                        assert(out@ =~= self.versions@[b as int]@.value);
                    }
                    Some(out)
                }
            },
            None => None,
        }
    }

    /// Scan the snapshot at `read_ts`: every live (non-tombstone) key in
    /// the window with its visible value, in ascending key order.
    pub fn scan_with_ts(&self, lower: &KeyBound, upper: &KeyBound, read_ts: u64) -> (r: Vec<
        (Vec<u8>, Vec<u8>),
    >)
        ensures
            pairs_sorted(pairs_view(r@)),
            forall|i: int|
                0 <= i < r@.len() ==> in_range(*lower, *upper, (#[trigger] pairs_view(r@)[i]).0)
                    && spec_get_with_ts(
                    versions_view(self.versions@),
                    pairs_view(r@)[i].0,
                    read_ts,
                ) == Some(pairs_view(r@)[i].1),
            forall|k: Seq<u8>|
                in_range(*lower, *upper, k) && !(spec_get_with_ts(
                    versions_view(self.versions@),
                    k,
                    read_ts,
                ) is None) ==> has_key(pairs_view(r@), k),
    {
        let ghost vs = versions_view(self.versions@);
        let mut out: Vec<(Vec<u8>, Vec<u8>)> = Vec::new();
        let mut i: usize = 0;
        while i < self.versions.len()
            invariant
                i <= self.versions@.len(),
                vs == versions_view(self.versions@),
                pairs_sorted(pairs_view(out@)),
                forall|a: int|
                    0 <= a < out@.len() ==> in_range(
                        *lower,
                        *upper,
                        (#[trigger] pairs_view(out@)[a]).0,
                    ) && spec_get_with_ts(vs, pairs_view(out@)[a].0, read_ts) == Some(
                        pairs_view(out@)[a].1,
                    ),
                forall|j: int|
                    0 <= j < i && in_range(*lower, *upper, (#[trigger] vs[j]).key) && !(
                    spec_get_with_ts(vs, vs[j].key, read_ts) is None) ==> has_key(
                        pairs_view(out@),
                        vs[j].key,
                    ),
            decreases self.versions@.len() - i,
        {
            proof {
                assert(vs[i as int] == self.versions@[i as int]@);
            }
            let ghost prev = out@;
            let key = &self.versions[i].key;
            if key_within_bounds(lower, upper, key.as_slice()) {
                if !pairs_has_key(&out, key.as_slice()) {
                    match self.get_with_ts(key.as_slice(), read_ts) {
                        Some(value) => {
                            let key_copy = copy_range(key, 0, key.len());
                            proof {
                                assert(key_copy@ =~= key@);
                            }
                            pairs_insert_sorted(&mut out, key_copy, value);
                            proof {
                                assert forall|a: int|
                                    0 <= a < out@.len() implies in_range(
                                    *lower,
                                    *upper,
                                    (#[trigger] pairs_view(out@)[a]).0,
                                ) && spec_get_with_ts(vs, pairs_view(out@)[a].0, read_ts) == Some(
                                    pairs_view(out@)[a].1,
                                ) by {
                                    if pairs_view(out@)[a] != (key@, value@) {
                                        let b = choose|b: int|
                                            0 <= b < prev.len() && pairs_view(prev)[b]
                                                == pairs_view(out@)[a];
                                    }
                                }
                            }
                        },
                        None => {},
                    }
                }
            }
            proof {
                assert forall|j: int|
                    0 <= j < i + 1 && in_range(*lower, *upper, (#[trigger] vs[j]).key) && !(
                spec_get_with_ts(vs, vs[j].key, read_ts) is None) implies has_key(
                    pairs_view(out@),
                    vs[j].key,
                ) by {
                    if j < i {
                        if has_key(pairs_view(prev), vs[j].key) {
                            let b = choose|b: int|
                                0 <= b < prev.len() && (#[trigger] pairs_view(prev)[b]).0
                                    == vs[j].key;
                        }
                    }
                }
            }
            i = i + 1;
        }
        proof {
            assert forall|k: Seq<u8>|
                in_range(*lower, *upper, k) && !(spec_get_with_ts(vs, k, read_ts)
                    is None) implies has_key(pairs_view(out@), k) by {
                lemma_visible_version(vs, k, read_ts);
                let w = choose|w: int| 0 <= w < vs.len() && vs[w] == visible_version(
                    vs,
                    k,
                    read_ts,
                ).unwrap();
                assert(vs[w].key == k);
            }
        }
        out
    }

    /// Apply a write batch atomically: every record becomes a version at
    /// the next commit timestamp, which the counter advances to and the
    /// call returns.
    pub fn write_batch_inner(&mut self, records: Vec<WriteBatchRecord>) -> (r: u64)
        requires
            old(self).wf(),
            old(self).latest_commit_ts < u64::MAX,
            forall|i: int| 0 <= i < records@.len() ==> record_key(#[trigger] records@[i]).len() > 0,
        ensures
            final(self).wf(),
            r == old(self).latest_commit_ts + 1,
            final(self).latest_commit_ts == r,
            versions_view(final(self).versions@) == versions_view(old(self).versions@)
                + records@.map_values(|rec: WriteBatchRecord| record_version(rec, r)),
            final(self).committed_txns == old(self).committed_txns,
            final(self).readers == old(self).readers,
            final(self).serializable == old(self).serializable,
    {
        let commit_ts = self.latest_commit_ts + 1;
        let total = records.len();
        let ghost recs = records@;
        let ghost old_len = old(self).versions@.len();
        let mut rest = records;
        let mut consumed: usize = 0;
        while rest.len() > 0
            invariant
                consumed <= total,
                consumed + rest@.len() == total,
                recs.len() == total,
                rest@ == recs.skip(consumed as int),
                self.latest_commit_ts == old(self).latest_commit_ts,
                self.committed_txns == old(self).committed_txns,
                self.readers == old(self).readers,
                self.serializable == old(self).serializable,
                old(self).wf(),
                commit_ts == old(self).latest_commit_ts + 1,
                forall|i: int| 0 <= i < recs.len() ==> record_key(#[trigger] recs[i]).len() > 0,
                self.versions@.len() == old_len + consumed,
                forall|i: int| 0 <= i < old_len ==> self.versions@[i] == old(self).versions@[i],
                forall|i: int|
                    old_len <= i < old_len + consumed ==> (#[trigger] self.versions@[i])@
                        == record_version(recs[i - old_len], commit_ts),
            decreases rest@.len(),
        {
            let rec = rest.remove(0);
            proof {
                assert(recs.skip(consumed as int)[0] == recs[consumed as int]);
                assert(rest@ =~= recs.skip(consumed as int + 1));
            }
            let entry = match rec {
                WriteBatchRecord::Put(k, v) => VersionedEntry { key: k, ts: commit_ts, value: v },
                WriteBatchRecord::Del(k) => VersionedEntry {
                    key: k,
                    ts: commit_ts,
                    value: Vec::new(),
                },
            };
            proof {
                assert(entry@ == record_version(recs[consumed as int], commit_ts));
            }
            self.versions.push(entry);
            consumed = consumed + 1;
        }
        self.latest_commit_ts = commit_ts;
        proof {
            let mapped = recs.map_values(|rec: WriteBatchRecord| record_version(rec, commit_ts));
            let target = versions_view(old(self).versions@) + mapped;
            assert forall|i: int| 0 <= i < self.versions@.len() implies versions_view(
                self.versions@,
            )[i] == target[i] by {
                assert(versions_view(self.versions@)[i] == self.versions@[i]@);
                if i < old_len {
                    assert(target[i] == old(self).versions@[i]@);
                } else {
                    assert(target[i] == mapped[i - old_len]);
                    assert(mapped[i - old_len] == record_version(recs[i - old_len], commit_ts));
                }
            }
            assert(versions_view(self.versions@) =~= target);
        }
        commit_ts
    }

    /// Whether committing now, against this history, would conflict: some
    /// transaction committed in `[read_ts, latest_commit_ts + 1)` has a
    /// write set intersecting `read_set`.
    pub fn has_conflict(&self, read_ts: u64, read_set: &FingerprintSet) -> (r: bool)
        requires
            self.wf(),
            self.latest_commit_ts < u64::MAX,
        ensures
            r == spec_conflict(
                self.committed_txns@,
                read_ts,
                self.latest_commit_ts + 1,
                read_set@,
            ),
    {
        let expected_commit_ts = self.latest_commit_ts + 1;
        let mut i: usize = 0;
        while i < self.committed_txns.len()
            invariant
                i <= self.committed_txns@.len(),
                self.wf(),
                expected_commit_ts == self.latest_commit_ts + 1,
                forall|j: int|
                    0 <= j < i ==> !(read_ts <= (#[trigger] self.committed_txns@[j]).commit_ts
                        && self.committed_txns@[j].commit_ts < expected_commit_ts && exists|h: u32|
                        self.committed_txns@[j].key_hashes@.contains(h) && read_set@.contains(h)),
            decreases self.committed_txns@.len() - i,
        {
            let c = &self.committed_txns[i];
            if read_ts <= c.commit_ts && c.commit_ts < expected_commit_ts {
                if c.key_hashes.intersects(read_set) {
                    return true;
                }
            }
            i = i + 1;
        }
        false
    }

    /// Record a committed transaction in the history. Its commit
    /// timestamp must lie above the recorded ones, which the protocol
    /// guarantees: it is the counter value just assigned.
    pub fn record_committed(&mut self, data: CommittedTxnData)
        requires
            old(self).wf(),
            forall|i: int|
                0 <= i < old(self).committed_txns@.len()
                    ==> (#[trigger] old(self).committed_txns@[i]).commit_ts < data.commit_ts,
            data.commit_ts <= old(self).latest_commit_ts,
        ensures
            final(self).wf(),
            final(self).committed_txns@ == old(self).committed_txns@.push(data),
            final(self).versions == old(self).versions,
            final(self).latest_commit_ts == old(self).latest_commit_ts,
            final(self).readers == old(self).readers,
            final(self).serializable == old(self).serializable,
    {
        self.committed_txns.push(data);
    }

    /// Drop every history entry whose commit timestamp is below the
    /// current watermark: it can no longer matter for conflict checks.
    pub fn prune_history(&mut self)
        requires
            old(self).wf(),
        ensures
            final(self).wf(),
            final(self).committed_txns@ == prune_below(
                old(self).committed_txns@,
                old(self).spec_watermark(),
            ),
            final(self).versions == old(self).versions,
            final(self).latest_commit_ts == old(self).latest_commit_ts,
            final(self).readers == old(self).readers,
            final(self).serializable == old(self).serializable,
    {
        let wm = self.watermark();
        let total = self.committed_txns.len();
        let ghost orig = self.committed_txns@;
        proof {
            assert(orig.skip(0) =~= orig);
        }
        let mut removed: usize = 0;
        while self.committed_txns.len() > 0 && self.committed_txns[0].commit_ts < wm
            invariant
                removed <= total,
                orig.len() == total,
                self.committed_txns@ == orig.skip(removed as int),
                prune_below(orig, wm) == prune_below(orig.skip(removed as int), wm),
                self.versions == old(self).versions,
                self.latest_commit_ts == old(self).latest_commit_ts,
                self.readers == old(self).readers,
                self.serializable == old(self).serializable,
                wm == old(self).spec_watermark(),
                forall|i: int, j: int|
                    0 <= i < j < self.committed_txns@.len()
                        ==> (#[trigger] self.committed_txns@[i]).commit_ts
                        < (#[trigger] self.committed_txns@[j]).commit_ts,
                forall|i: int|
                    0 <= i < self.committed_txns@.len()
                        ==> (#[trigger] self.committed_txns@[i]).commit_ts
                        <= self.latest_commit_ts,
            decreases self.committed_txns@.len(),
        {
            proof {
                assert(orig.skip(removed as int).drop_first() =~= orig.skip(removed as int + 1));
            }
            self.committed_txns.remove(0);
            proof {
                assert(self.committed_txns@ =~= orig.skip(removed as int + 1));
            }
            removed = removed + 1;
        }
    }
}

} // verus!
