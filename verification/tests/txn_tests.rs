use lsm_core::engine::CommittedTxnData;
use lsm_core::engine::StorageEngine;
use lsm_core::fingerprint::FingerprintSet;
use lsm_core::keys::KeyBound;
use lsm_core::txn::Transaction;
use lsm_core::txn::TxnError;

#[test]
fn write_then_delete_reads_absent() {
    let mut engine = StorageEngine::new(true);
    let mut txn = Transaction::new(&mut engine);
    txn.put(b"k", b"v").unwrap();
    assert_eq!(txn.get(&engine, b"k").unwrap(), Some(b"v".to_vec()));
    txn.delete(b"k").unwrap();
    assert_eq!(txn.get(&engine, b"k").unwrap(), None);
    txn.dispose(&mut engine);
}

#[test]
fn snapshot_isolation_across_commits() {
    let mut engine = StorageEngine::new(false);
    let mut early = Transaction::new(&mut engine);
    let mut writer = Transaction::new(&mut engine);
    writer.put(b"a", b"1").unwrap();
    writer.commit(&mut engine).unwrap();
    writer.dispose(&mut engine);
    // A transaction whose snapshot predates the commit never sees it.
    assert_eq!(early.get(&engine, b"a").unwrap(), None);
    early.dispose(&mut engine);
    // A transaction begun after the commit observes the write.
    let mut late = Transaction::new(&mut engine);
    assert_eq!(late.get(&engine, b"a").unwrap(), Some(b"1".to_vec()));
    late.dispose(&mut engine);
}

#[test]
fn committed_tombstone_hides_older_version() {
    let mut engine = StorageEngine::new(false);
    let mut w1 = Transaction::new(&mut engine);
    w1.put(b"a", b"1").unwrap();
    w1.commit(&mut engine).unwrap();
    w1.dispose(&mut engine);
    let mut w2 = Transaction::new(&mut engine);
    w2.delete(b"a").unwrap();
    w2.commit(&mut engine).unwrap();
    w2.dispose(&mut engine);
    let mut reader = Transaction::new(&mut engine);
    assert_eq!(reader.get(&engine, b"a").unwrap(), None);
    reader.dispose(&mut engine);
}

#[test]
fn conflicting_commit_aborts_disjoint_succeeds() {
    let mut engine = StorageEngine::new(true);
    let mut t1 = Transaction::new(&mut engine);
    let mut t2 = Transaction::new(&mut engine);
    // t1 writes the key t2 reads, and commits first.
    t1.put(b"k1", b"a").unwrap();
    t1.commit(&mut engine).unwrap();
    assert_eq!(engine.latest_commit_ts(), 1);
    t1.dispose(&mut engine);
    assert_eq!(t2.get(&engine, b"k1").unwrap(), None);
    t2.put(b"k2", b"b").unwrap();
    assert_eq!(t2.commit(&mut engine).unwrap_err(), TxnError::Conflict);
    t2.dispose(&mut engine);
    // A disjoint transaction commits, with a strictly increasing timestamp.
    let mut t3 = Transaction::new(&mut engine);
    t3.put(b"k3", b"c").unwrap();
    t3.commit(&mut engine).unwrap();
    assert_eq!(engine.latest_commit_ts(), 2);
    t3.dispose(&mut engine);
}

#[test]
fn read_only_transaction_commits_without_validation() {
    let mut engine = StorageEngine::new(true);
    let mut t1 = Transaction::new(&mut engine);
    let mut t2 = Transaction::new(&mut engine);
    t1.put(b"k", b"v").unwrap();
    t1.commit(&mut engine).unwrap();
    t1.dispose(&mut engine);
    // t2 read the conflicting key but wrote nothing: commit succeeds.
    assert_eq!(t2.get(&engine, b"k").unwrap(), None);
    t2.commit(&mut engine).unwrap();
    t2.dispose(&mut engine);
}

#[test]
fn operations_on_committed_transaction_fail() {
    let mut engine = StorageEngine::new(true);
    let mut txn = Transaction::new(&mut engine);
    txn.put(b"k", b"v").unwrap();
    txn.commit(&mut engine).unwrap();
    assert_eq!(
        txn.get(&engine, b"k").unwrap_err(),
        TxnError::AlreadyCommitted
    );
    assert_eq!(txn.put(b"k", b"w").unwrap_err(), TxnError::AlreadyCommitted);
    assert_eq!(txn.delete(b"k").unwrap_err(), TxnError::AlreadyCommitted);
    assert_eq!(
        txn.commit(&mut engine).unwrap_err(),
        TxnError::AlreadyCommitted
    );
    txn.dispose(&mut engine);
}

#[test]
fn watermark_pruning_keeps_recent_history() {
    let mut entry3 = FingerprintSet::new();
    entry3.insert(11);
    let mut entry7 = FingerprintSet::new();
    entry7.insert(22);
    let mut engine = StorageEngine {
        versions: Vec::new(),
        latest_commit_ts: 7,
        committed_txns: vec![
            CommittedTxnData { key_hashes: entry3, read_ts: 2, commit_ts: 3 },
            CommittedTxnData { key_hashes: entry7, read_ts: 5, commit_ts: 7 },
        ],
        readers: vec![5, 6],
        serializable: true,
    };
    // The watermark is the minimum active reader.
    assert_eq!(engine.watermark(), 5);
    engine.remove_reader(5);
    assert_eq!(engine.watermark(), 6);
    // A commit prunes history below the watermark: 3 goes, 7 stays.
    let mut txn = Transaction::new(&mut engine);
    txn.put(b"x", b"y").unwrap();
    txn.commit(&mut engine).unwrap();
    txn.dispose(&mut engine);
    let remaining: Vec<u64> = engine.committed_txns.iter().map(|c| c.commit_ts).collect();
    assert_eq!(remaining, vec![7, 8]);
}

#[test]
fn disposed_reader_leaves_active_set() {
    let mut engine = StorageEngine::new(false);
    let txn = Transaction::new(&mut engine);
    assert_eq!(engine.readers, vec![0]);
    txn.dispose(&mut engine);
    assert!(engine.readers.is_empty());
    assert_eq!(engine.watermark(), engine.latest_commit_ts());
}

#[test]
fn scan_merges_local_over_snapshot() {
    let mut engine = StorageEngine::new(true);
    let mut w = Transaction::new(&mut engine);
    w.put(b"a", b"old-a").unwrap();
    w.put(b"c", b"old-c").unwrap();
    w.commit(&mut engine).unwrap();
    w.dispose(&mut engine);

    let mut txn = Transaction::new(&mut engine);
    // Insert out of key order: the local store keeps key order.
    txn.put(b"b", b"new-b").unwrap();
    txn.delete(b"a").unwrap();
    let mut iter = txn
        .scan(&engine, &KeyBound::Unbounded, &KeyBound::Unbounded)
        .unwrap();
    assert_eq!(iter.num_active_iterators(), 2);
    // The locally deleted "a" is never observed: the iterator starts on
    // the first live entry, the local write for "b".
    assert!(iter.is_valid());
    assert_eq!(iter.key().as_slice(), b"b");
    assert_eq!(iter.value().as_slice(), b"new-b");
    iter.next(&mut txn);
    assert!(iter.is_valid());
    assert_eq!(iter.key().as_slice(), b"c");
    assert_eq!(iter.value().as_slice(), b"old-c");
    iter.next(&mut txn);
    assert!(!iter.is_valid());
    txn.dispose(&mut engine);
}

#[test]
fn scan_skips_tombstone_on_advance() {
    let mut engine = StorageEngine::new(false);
    let mut txn = Transaction::new(&mut engine);
    txn.put(b"a", b"1").unwrap();
    txn.delete(b"b").unwrap();
    txn.put(b"c", b"3").unwrap();
    let mut iter = txn
        .scan(&engine, &KeyBound::Unbounded, &KeyBound::Unbounded)
        .unwrap();
    assert_eq!(iter.key().as_slice(), b"a");
    // The advance from "a" jumps over the tombstone at "b".
    iter.next(&mut txn);
    assert!(iter.is_valid());
    assert_eq!(iter.key().as_slice(), b"c");
    txn.dispose(&mut engine);
}

#[test]
fn scan_respects_bounds() {
    let mut engine = StorageEngine::new(false);
    let mut txn = Transaction::new(&mut engine);
    txn.put(b"a", b"1").unwrap();
    txn.put(b"b", b"2").unwrap();
    txn.put(b"c", b"3").unwrap();
    let iter = txn
        .scan(
            &engine,
            &KeyBound::Excluded(b"a".to_vec()),
            &KeyBound::Excluded(b"c".to_vec()),
        )
        .unwrap();
    assert!(iter.is_valid());
    assert_eq!(iter.key().as_slice(), b"b");
    txn.dispose(&mut engine);
}

#[test]
fn get_on_engine_committed_value_through_scan_state() {
    let mut engine = StorageEngine::new(false);
    let mut w = Transaction::new(&mut engine);
    w.put(b"k", b"v1").unwrap();
    w.commit(&mut engine).unwrap();
    w.dispose(&mut engine);
    let mut w2 = Transaction::new(&mut engine);
    w2.put(b"k", b"v2").unwrap();
    w2.commit(&mut engine).unwrap();
    w2.dispose(&mut engine);
    // The latest committed version at or below the snapshot wins.
    let mut r = Transaction::new(&mut engine);
    assert_eq!(r.get(&engine, b"k").unwrap(), Some(b"v2".to_vec()));
    r.dispose(&mut engine);
}

#[test]
fn local_iterator_protocol() {
    let entries = vec![
        (b"a".to_vec(), b"1".to_vec()),
        (b"b".to_vec(), Vec::new()),
        (b"c".to_vec(), b"3".to_vec()),
    ];
    let mut iter = lsm_core::local_store::TxnLocalIterator::create(entries);
    // Fresh iterators hold the empty-key sentinel until first advanced.
    assert!(!iter.is_valid());
    iter.next();
    assert!(iter.is_valid());
    assert_eq!(iter.key().as_slice(), b"a");
    assert_eq!(iter.value().as_slice(), b"1");
    iter.next();
    // The local iterator surfaces tombstones; merging layers skip them.
    assert!(iter.is_valid());
    assert_eq!(iter.key().as_slice(), b"b");
    assert_eq!(iter.value().as_slice(), b"");
    iter.next();
    assert_eq!(iter.key().as_slice(), b"c");
    iter.next();
    // Exhaustion restores the sentinel.
    assert!(!iter.is_valid());
    iter.next();
    assert!(!iter.is_valid());
}
