//! The versioned store: commits, reads at log positions, compaction and recovery.

use kvstore::config::Config;
use kvstore::error::KvError;
use kvstore::store::{
    CommitOutcome, CompactPlan, CompactStart, Got, History, SnapshotData, Store, Version,
};
use kvstore::wal::{WalEntry, WalOp};

/// A store with the files that back it kept in memory.
struct Kv {
    store: Store,
    disk: Disk,
}

#[derive(Clone, Default)]
struct Disk {
    snapshot: Option<(u64, Vec<(Vec<u8>, History)>)>,
    log: Vec<WalEntry>,
}

impl Disk {
    fn log_size(&self) -> u64 {
        self.log.len() as u64 * 64
    }
}

fn config(threshold: i64) -> Config {
    Config {
        data_dir: "mem".into(),
        listen_addr: "127.0.0.1:0".into(),
        max_key_bytes: 1024,
        max_value_bytes: 1024,
        max_txn_ops: 64,
        compaction_threshold_bytes: threshold as u64,
    }
}

fn open_disk(disk: Disk, threshold: i64) -> Result<Kv, KvError> {
    let snapshot = match disk.snapshot.clone() {
        Some((lsn, keys)) => Some(SnapshotData::new(lsn, keys)),
        None => None,
    };
    let store = Store::open(config(threshold), snapshot, disk.log.clone(), disk.log_size())?;
    Ok(Kv { store, disk })
}

fn open(threshold: i64) -> Kv {
    open_disk(Disk::default(), threshold).unwrap()
}

fn put(key: &str, val: &[u8]) -> (Vec<u8>, WalOp) {
    (key.as_bytes().to_vec(), WalOp::Put(val.to_vec()))
}

fn del(key: &str) -> (Vec<u8>, WalOp) {
    (key.as_bytes().to_vec(), WalOp::Delete)
}

fn cas(key: &str, expected: Option<&[u8]>, value: &[u8]) -> (Vec<u8>, WalOp) {
    (
        key.as_bytes().to_vec(),
        WalOp::Cas {
            expected: expected.map(|e| e.to_vec()),
            value: value.to_vec(),
        },
    )
}

impl Kv {
    fn commit(&mut self, ops: Vec<(Vec<u8>, WalOp)>) -> Result<CommitOutcome, KvError> {
        let mutation = self.store.build_mutation(ops)?;
        let entry = self.store.prepare(mutation)?;
        self.disk.log.push(entry.clone());
        let (out, start) = self.store.commit(&entry, self.disk.log_size());
        if start {
            self.run_compaction();
            self.store.end_compaction();
        }
        Ok(out)
    }

    fn publish(&mut self, snap: &SnapshotData) {
        let mut keys = Vec::new();
        for i in 0..snap.len() {
            let (k, h) = snap.at(i);
            keys.push((k.clone(), h.clone()));
        }
        self.disk.snapshot = Some((snap.lsn(), keys));
    }

    fn rewrite_log(&mut self, lsn: u64) {
        self.disk.log = self.store.kept_entries(lsn);
        self.store.finish_compaction(lsn, self.disk.log_size());
    }

    fn run_compaction(&mut self) -> u64 {
        match self.store.compact_locked() {
            CompactPlan::NothingNewer(lsn) => lsn,
            CompactPlan::Write(snap) => {
                self.publish(&snap);
                self.rewrite_log(snap.lsn());
                snap.lsn()
            }
        }
    }

    fn compact(&mut self) -> u64 {
        assert_eq!(self.store.compact(), CompactStart::Run);
        let lsn = self.run_compaction();
        self.store.end_compaction();
        lsn
    }

    fn get(&self, key: &[u8]) -> Result<Got, KvError> {
        self.store.get(key)
    }

    fn reopen(self, threshold: i64) -> Kv {
        open_disk(self.disk, threshold).unwrap()
    }
}

#[test]
fn commit_and_get_basic() {
    let mut s = open(4096);
    let out = s.commit(vec![put("a", b"1"), put("b", b"2")]).unwrap();
    assert_eq!(out.lsn, 1);
    assert_eq!(s.get(b"a").unwrap().value, b"1");
    assert_eq!(s.get(b"b").unwrap().value, b"2");
    assert!(matches!(s.get(b"missing"), Err(KvError::KeyNotFound(_))));
}

#[test]
fn versions_are_monotonic_per_key() {
    let mut s = open(4096);
    let mut versions = Vec::new();
    for i in 0..10u8 {
        versions.push(s.commit(vec![put("k", &[b'0' + i])]).unwrap().lsn);
    }
    let got = s.get(b"k").unwrap();
    assert_eq!(got.version, 10);
    assert_eq!(got.value, b"9");
    let at5 = s.store.get_at(b"k", Some(5)).unwrap();
    assert_eq!(at5.version, 5);
    assert_eq!(at5.value, b"4");
    let mut sorted = versions.clone();
    sorted.sort();
    assert_eq!(versions, sorted);
    assert_eq!(versions.windows(2).all(|w| w[0] < w[1]), true);
}

#[test]
fn cas_all_or_nothing() {
    let mut s = open(4096);
    s.commit(vec![put("a", b"1"), put("b", b"10")]).unwrap();

    // a expects "1" (ok), b expects "999" (fail) -> whole txn aborts.
    let bad = s.commit(vec![
        cas("a", Some(b"1"), b"2"),
        cas("b", Some(b"999"), b"11"),
    ]);
    assert!(matches!(bad, Err(KvError::CasConflict(_))));
    // Nothing changed.
    assert_eq!(s.get(b"a").unwrap().value, b"1");
    assert_eq!(s.get(b"b").unwrap().value, b"10");
    assert_eq!(s.store.last_lsn(), 1);

    // Both CAS conditions hold -> commits atomically.
    let good = s
        .commit(vec![
            cas("a", Some(b"1"), b"2"),
            cas("b", Some(b"10"), b"11"),
        ])
        .unwrap();
    assert_eq!(good.lsn, 2);
    assert_eq!(s.get(b"a").unwrap().value, b"2");
    assert_eq!(s.get(b"b").unwrap().value, b"11");
}

#[test]
fn contradictory_batch_rejected() {
    let s = open(4096);
    let err = s
        .store
        .build_mutation(vec![put("k", b"1"), put("k", b"2")])
        .unwrap_err();
    assert!(matches!(err, KvError::ContradictoryKey(_)));
}

#[test]
fn too_many_ops_rejected() {
    let s = open(4096);
    let ops: Vec<_> = (0..65)
        .map(|i| (vec![b'k', i as u8], WalOp::Put(b"v".to_vec())))
        .collect();
    assert!(matches!(
        s.store.build_mutation(ops).unwrap_err(),
        KvError::TooManyOperations { count: 65, limit: 64 }
    ));
}

#[test]
fn empty_and_oversized_inputs_rejected() {
    let s = open(4096);
    assert!(matches!(
        s.store.build_mutation(vec![]).unwrap_err(),
        KvError::EmptyTransaction
    ));
    assert!(matches!(
        s.store.build_mutation(vec![put("", b"v")]).unwrap_err(),
        KvError::EmptyKey
    ));
    let big = vec![0u8; 2000];
    assert!(matches!(
        s.store.build_mutation(vec![put("k", &big)]).unwrap_err(),
        KvError::ValueTooLarge { .. }
    ));
    assert!(matches!(
        s.store.build_mutation(vec![(big, WalOp::Delete)]).unwrap_err(),
        KvError::KeyTooLarge { size: 2000, limit: 1024 }
    ));
}

#[test]
fn store_prefix_and_range_scans() {
    let mut s = open(4096);
    s.commit(vec![
        put("user:1", b"a"),
        put("user:2", b"b"),
        put("order:1", b"c"),
    ])
    .unwrap();
    let (p, _) = s.store.prefix(b"user:", None, None).unwrap();
    assert_eq!(p.len(), 2);
    let (r, _) = s
        .store
        .range(Some(b"order:"), Some(b"p"), None, None)
        .unwrap();
    assert_eq!(r.len(), 1);
    assert_eq!(r[0].key, b"order:1");
}

#[test]
fn multi_key_txn_is_all_or_nothing() {
    let mut s = open(4096);
    s.commit(vec![put("a", b"10"), put("b", b"20"), put("c", b"30")])
        .unwrap();

    // Failing CAS on c must roll back the puts on a and b too.
    let bad = s.commit(vec![
        put("a", b"11"),
        put("b", b"21"),
        cas("c", Some(b"nope"), b"31"),
    ]);
    assert!(matches!(bad, Err(KvError::CasConflict(_))));

    assert_eq!(s.get(b"a").unwrap().value, b"10");
    assert_eq!(s.get(b"b").unwrap().value, b"20");
    assert_eq!(s.get(b"c").unwrap().value, b"30");

    // Successful txn: all visible at once, same LSN.
    let out = s
        .commit(vec![put("a", b"11"), put("b", b"21"), put("c", b"31")])
        .unwrap();
    let ga = s.get(b"a").unwrap();
    let gb = s.get(b"b").unwrap();
    let gc = s.get(b"c").unwrap();
    assert_eq!(ga.version, out.lsn);
    assert_eq!(gb.version, out.lsn);
    assert_eq!(gc.version, out.lsn);
    assert_eq!(
        (ga.value, gb.value, gc.value),
        (b"11".to_vec(), b"21".to_vec(), b"31".to_vec())
    );
}

fn number(s: &Kv, key: &[u8]) -> i64 {
    std::str::from_utf8(&s.get(key).unwrap().value)
        .unwrap()
        .parse()
        .unwrap()
}

/// Six workers, each with a transfer of its own in flight, take turns; a worker whose view is out of
/// date gets a conflict and reads again.
#[test]
fn concurrent_transactions_are_isolated_and_serializable() {
    let mut s = open(4096);
    s.commit(vec![put("A", b"100"), put("B", b"100")]).unwrap();
    let mut left = [100; 6];
    let mut conflicts = 0;
    while left.iter().any(|n| *n > 0) {
        let mut views = Vec::new();
        for _ in 0..6 {
            let (a, b) = (number(&s, b"A"), number(&s, b"B"));
            assert_eq!(a + b, 200);
            views.push((a, b));
        }
        for (w, (a, b)) in views.into_iter().enumerate() {
            if left[w] == 0 {
                continue;
            }
            if a == 0 {
                left[w] -= 1;
                continue;
            }
            let txn = vec![
                cas("A", Some(a.to_string().as_bytes()), (a - 1).to_string().as_bytes()),
                cas("B", Some(b.to_string().as_bytes()), (b + 1).to_string().as_bytes()),
            ];
            match s.commit(txn) {
                Ok(_) => left[w] -= 1,
                Err(KvError::CasConflict(_)) => conflicts += 1,
                Err(e) => panic!("unexpected error: {}", e.message()),
            }
            assert_eq!(number(&s, b"A") + number(&s, b"B"), 200, "torn transaction observed");
        }
    }
    assert!(conflicts > 0);
    assert_eq!(number(&s, b"A") + number(&s, b"B"), 200);
}

#[test]
fn cas_under_contention_only_one_writer_wins() {
    let mut s = open(4096);
    s.commit(vec![put("k", b"0")]).unwrap();
    let mut wins = 0;
    let mut conflicts = 0;
    for i in 0..32 {
        match s.commit(vec![cas("k", Some(b"0"), format!("winner-{i}").as_bytes())]) {
            Ok(_) => wins += 1,
            Err(KvError::CasConflict(_)) => conflicts += 1,
            Err(e) => panic!("unexpected: {}", e.message()),
        }
    }
    assert_eq!(wins, 1, "exactly one CAS must win");
    assert_eq!(conflicts, 31, "the rest must get explicit conflicts");
    assert!(s.get(b"k").unwrap().value.starts_with(b"winner-"));
    assert_eq!(s.store.last_lsn(), 2); // initial + exactly one winning commit
}

#[test]
fn cas_expects_absent_for_none() {
    let mut s = open(4096);
    assert!(s.commit(vec![cas("k", None, b"v")]).is_ok());
    assert!(matches!(
        s.commit(vec![cas("k", None, b"v")]),
        Err(KvError::CasConflict(_))
    ));
}

#[test]
fn versions_never_regress_across_put_delete_put_and_restart() {
    let mut s = open(10_000_000);
    s.commit(vec![put("k", b"v1")]).unwrap();
    s.commit(vec![del("k")]).unwrap();
    s.commit(vec![put("k", b"v3")]).unwrap();

    // Historical snapshot reads at each position.
    assert_eq!(s.store.get_at(b"k", Some(1)).unwrap().value, b"v1");
    assert!(matches!(
        s.store.get_at(b"k", Some(2)),
        Err(KvError::KeyNotFound(_))
    ));
    assert_eq!(s.store.get_at(b"k", Some(3)).unwrap().version, 3);
    assert_eq!(s.store.get_at(b"k", None).unwrap().version, 3);

    // Version must survive a restart unchanged.
    let mut s2 = s.reopen(10_000_000);
    assert_eq!(s2.get(b"k").unwrap().version, 3);
    let out = s2.commit(vec![put("k", b"v4")]).unwrap();
    assert_eq!(out.lsn, 4, "LSN must continue monotonically after restart");
}

#[test]
fn recovery_from_snapshot_plus_wal() {
    let mut s = open(10_000_000);
    for i in 0..20u64 {
        s.commit(vec![put(&format!("k{i}"), i.to_string().as_bytes())])
            .unwrap();
    }
    let snap_lsn = s.compact();
    assert_eq!(snap_lsn, 20);
    for i in 20..30u64 {
        s.commit(vec![put(&format!("k{i}"), i.to_string().as_bytes())])
            .unwrap();
    }
    let status = s.store.status();
    assert_eq!(status.last_lsn, 30);
    assert_eq!(status.last_snapshot_lsn, 20);
    assert!(status.wal_size_bytes > 0);

    // Second life: snapshot + WAL replay.
    let mut s2 = s.reopen(10_000_000);
    for i in 0..30u64 {
        let g = s2.get(format!("k{i}").as_bytes()).unwrap();
        assert_eq!(g.value, i.to_string().as_bytes());
        assert_eq!(g.version, i + 1);
    }
    assert_eq!(s2.store.status().key_count, 30);

    // The next commit must be LSN 31, proving WAL entries were applied once, not twice.
    let out = s2.commit(vec![put("after-restart", b"ok")]).unwrap();
    assert_eq!(out.lsn, 31);
}

#[test]
fn compaction_truncates_old_wal_and_keeps_new_entries() {
    let mut s = open(10_000_000);
    for i in 0..10u64 {
        s.commit(vec![put(&format!("old-{i}"), b"x")]).unwrap();
    }
    s.compact();
    assert!(s.disk.log.is_empty());
    // Entries after the snapshot stay in the WAL.
    s.commit(vec![put("new-1", b"y")]).unwrap();
    assert_eq!(s.disk.log.len(), 1);
    s.compact();

    let s2 = s.reopen(10_000_000);
    for i in 0..10u64 {
        assert_eq!(s2.get(format!("old-{i}").as_bytes()).unwrap().value, b"x");
    }
    assert_eq!(s2.get(b"new-1").unwrap().value, b"y");
    assert_eq!(s2.store.last_lsn(), 11);
}

#[test]
fn uncommitted_changes_are_never_recovered() {
    let mut s = open(10_000_000);
    s.commit(vec![put("committed", b"yes")]).unwrap();
    assert!(s
        .commit(vec![
            put("ghost-a", b"no"),
            cas("ghost-b", Some(b"impossible"), b"no"),
        ])
        .is_err());

    let s2 = s.reopen(10_000_000);
    assert_eq!(s2.get(b"committed").unwrap().value, b"yes");
    assert!(s2.get(b"ghost-a").is_err());
    assert!(s2.get(b"ghost-b").is_err());
    assert_eq!(s2.store.last_lsn(), 1);
}

#[test]
fn contradictory_txn_and_limits_rejected_before_commit() {
    let s = open(4096);

    // Same key twice = contradictory.
    let err = s
        .store
        .build_mutation(vec![put("dup", b"a"), put("dup", b"b")])
        .unwrap_err();
    assert!(matches!(err, KvError::ContradictoryKey(_)));

    // Empty transaction.
    assert!(matches!(
        s.store.build_mutation(vec![]).unwrap_err(),
        KvError::EmptyTransaction
    ));

    // Oversized value.
    let big = vec![0u8; 5000];
    assert!(matches!(
        s.store.build_mutation(vec![put("k", &big)]).unwrap_err(),
        KvError::ValueTooLarge { .. }
    ));

    // Nothing was committed by the rejected attempts.
    assert_eq!(s.store.last_lsn(), 0);
}

#[test]
fn stale_wal_prefix_after_snapshot_publish_is_deduped() {
    let mut s = open(10_000_000);
    for i in 0..5u64 {
        s.commit(vec![put(&format!("k{i}"), b"v")]).unwrap();
    }
    s.compact();
    s.commit(vec![put("k5", b"v")]).unwrap();

    // Emulate the crash window: the snapshot is published, the WAL not yet rewritten.
    let mut disk = s.disk.clone();
    disk.log.insert(
        0,
        WalEntry {
            lsn: 1,
            ops: vec![(b"k0".to_vec(), WalOp::Put(b"STALE".to_vec()))],
        },
    );
    let mut s2 = open_disk(disk, 10_000_000).unwrap();
    // k0 comes from the snapshot (value v), not the stale frame.
    assert_eq!(s2.get(b"k0").unwrap().value, b"v");
    assert_eq!(s2.get(b"k5").unwrap().value, b"v");
    assert_eq!(s2.store.last_lsn(), 6);
    // Next commit is 7 (not double-applied).
    let out = s2.commit(vec![put("k6", b"v")]).unwrap();
    assert_eq!(out.lsn, 7);
}

#[test]
fn whole_log_behind_a_published_snapshot_changes_nothing() {
    let mut s = open(10_000_000);
    for i in 0..5u8 {
        s.commit(vec![put("k", &[i]), cas(&format!("n{i}"), None, b"x")])
            .unwrap();
    }
    let CompactPlan::Write(snap) = s.store.compact_locked() else {
        panic!("five commits are newer than no snapshot");
    };
    s.publish(&snap);
    s.commit(vec![put("k", b"last")]).unwrap();
    // The log was never rewritten: it still holds all six entries.
    assert_eq!(s.disk.log.len(), 6);
    let s2 = s.reopen(10_000_000);
    assert_eq!(s2.store.last_lsn(), 6);
    assert_eq!(s2.get(b"k").unwrap().value, b"last");
    assert_eq!(s2.store.get_at(b"k", Some(3)).unwrap().value, [2]);
    assert_eq!(s2.store.status().key_count, 6);
}

#[test]
fn commits_during_compaction_are_kept_in_the_log() {
    let mut s = open(10_000_000);
    s.commit(vec![put("a", b"1"), put("b", b"1")]).unwrap();
    s.commit(vec![del("a")]).unwrap();
    assert_eq!(s.store.compact(), CompactStart::Run);
    assert_eq!(s.store.compact(), CompactStart::Wait);
    assert!(s.store.status().compacting);
    let CompactPlan::Write(snap) = s.store.compact_locked() else {
        panic!("two commits are newer than no snapshot");
    };
    s.publish(&snap);
    // These two come while the snapshot is written.
    s.commit(vec![put("c", b"3"), cas("a", None, b"3"), put("b", b"3")])
        .unwrap();
    s.commit(vec![del("c")]).unwrap();
    s.rewrite_log(snap.lsn());
    s.store.end_compaction();
    assert_eq!(
        s.disk.log,
        vec![
            WalEntry {
                lsn: 3,
                ops: vec![put("a", b"3"), put("b", b"3"), put("c", b"3")],
            },
            WalEntry {
                lsn: 4,
                ops: vec![del("c")],
            },
        ]
    );
    let s2 = s.reopen(10_000_000);
    assert_eq!(s2.store.last_lsn(), 4);
    assert_eq!(s2.get(b"a").unwrap().version, 3);
    assert_eq!(s2.store.get_at(b"a", Some(1)).unwrap().value, b"1");
    assert!(s2.store.get_at(b"a", Some(2)).is_err());
    assert!(s2.get(b"c").is_err());
    assert_eq!(s2.store.get_at(b"c", Some(3)).unwrap().value, b"3");
    assert_eq!(s2.store.status().last_snapshot_lsn, 2);
}

#[test]
fn nothing_newer_is_not_compacted_again() {
    let mut s = open(10_000_000);
    assert_eq!(s.compact(), 0);
    assert!(s.disk.snapshot.is_none());
    s.commit(vec![put("a", b"1")]).unwrap();
    assert_eq!(s.compact(), 1);
    assert_eq!(s.compact(), 1);
    assert!(!s.store.status().compacting);
}

#[test]
fn automatic_compaction_at_the_threshold() {
    let mut s = open(128);
    s.commit(vec![put("a", b"1")]).unwrap();
    assert_eq!(s.store.status().last_snapshot_lsn, 0);
    s.commit(vec![put("b", b"1")]).unwrap();
    let status = s.store.status();
    assert_eq!(status.last_snapshot_lsn, 2);
    assert_eq!(status.wal_size_bytes, 0);
    assert!(!status.compacting);
    assert_eq!(status.compaction_threshold_bytes, 128);
    assert_eq!(status.key_count, 2);
}

#[test]
fn commit_outcome_counts_live_keys() {
    let mut s = open(10_000_000);
    assert_eq!(s.commit(vec![put("a", b"1"), put("b", b"1")]).unwrap().key_count, 2);
    assert_eq!(s.commit(vec![del("a"), del("never")]).unwrap().key_count, 1);
    assert_eq!(s.commit(vec![put("a", b"2")]).unwrap().key_count, 2);
    assert_eq!(s.store.status().key_count, 2);
}

#[test]
fn reads_at_positions() {
    let mut s = open(10_000_000);
    s.commit(vec![put("a", b"1")]).unwrap();
    s.commit(vec![put("b", b"2")]).unwrap();
    let g = s.store.get_at(b"a", None).unwrap();
    assert_eq!((g.value, g.version, g.read_lsn), (b"1".to_vec(), 1, 2));
    let g = s.store.get_at(b"a", Some(1)).unwrap();
    assert_eq!(g.read_lsn, 1);
    assert!(matches!(s.store.get_at(b"b", Some(1)), Err(KvError::KeyNotFound(_))));
    assert!(matches!(s.store.get_at(b"a", Some(0)), Err(KvError::KeyNotFound(_))));
    assert!(matches!(s.store.get_at(b"a", Some(3)), Err(KvError::VersionNotFound(3))));
    assert!(matches!(s.store.get_at(b"", Some(3)), Err(KvError::EmptyKey)));
    match s.get(&[0xff, b'x']) {
        Err(KvError::KeyNotFound(k)) => assert_eq!(k, "\u{fffd}x"),
        other => panic!("{other:?}"),
    }
}

#[test]
fn scans_at_positions_with_limits() {
    let mut s = open(10_000_000);
    s.commit(vec![put("a", b"1"), put("b", b"1"), put("c", b"1")]).unwrap();
    s.commit(vec![del("b"), put("d", b"2")]).unwrap();
    let keys = |r: Result<(Vec<kvstore::store::KvEntry>, u64), KvError>| {
        let (entries, at) = r.unwrap();
        let keys: Vec<String> = entries
            .iter()
            .map(|e| String::from_utf8(e.key.clone()).unwrap())
            .collect();
        (keys.join(","), at)
    };
    assert_eq!(keys(s.store.range(None, None, None, None)), ("a,c,d".into(), 2));
    assert_eq!(keys(s.store.range(None, None, None, Some(1))), ("a,b,c".into(), 1));
    assert_eq!(keys(s.store.range(Some(b"b"), None, None, None)), ("c,d".into(), 2));
    assert_eq!(keys(s.store.range(None, Some(b"c"), None, None)), ("a".into(), 2));
    assert_eq!(keys(s.store.range(Some(b"c"), Some(b"c"), None, None)), ("".into(), 2));
    assert_eq!(keys(s.store.range(None, None, Some(2), None)), ("a,c".into(), 2));
    assert_eq!(keys(s.store.range(None, None, Some(0), None)), ("a".into(), 2));
    assert_eq!(keys(s.store.prefix(b"", Some(3), Some(1))), ("a,b,c".into(), 1));
    assert!(matches!(
        s.store.range(Some(b"z"), Some(b"a"), None, Some(9)),
        Err(KvError::VersionNotFound(9))
    ));
    let (entries, _) = s.store.prefix(b"d", None, None).unwrap();
    assert_eq!(entries[0].version, 2);
    assert_eq!(entries[0].value, b"2");
}

#[test]
fn prefixes_at_the_byte_boundary() {
    let mut s = open(10_000_000);
    s.commit(vec![
        (vec![0xff], WalOp::Put(vec![1])),
        (vec![0xff, 0xff, 7], WalOp::Put(vec![2])),
        (vec![0xfe, 0xff], WalOp::Put(vec![3])),
        (vec![0xfe, 0xff, 0], WalOp::Put(vec![4])),
    ])
    .unwrap();
    let count = |p: &[u8]| s.store.prefix(p, None, None).unwrap().0.len();
    assert_eq!(count(&[0xff]), 2);
    assert_eq!(count(&[0xff, 0xff]), 1);
    assert_eq!(count(&[0xfe, 0xff]), 2);
    assert_eq!(count(&[0xfe]), 2);
    assert_eq!(kvstore::order::prefix_upper_bound(&[0xfe, 0xff]), Some(vec![0xff]));
    assert_eq!(kvstore::order::prefix_upper_bound(&[1, 2]), Some(vec![1, 3]));
    assert_eq!(kvstore::order::prefix_upper_bound(&[0xff, 0xff]), None);
    assert_eq!(kvstore::order::prefix_upper_bound(&[]), None);
}

fn entry(lsn: u64, ops: Vec<(Vec<u8>, WalOp)>) -> WalEntry {
    WalEntry { lsn, ops }
}

fn corrupt(log: Vec<WalEntry>) -> String {
    match open_disk(Disk { snapshot: None, log }, 4096) {
        Err(KvError::CorruptWal { offset: 0, message }) => message,
        Err(e) => panic!("unexpected error: {e:?}"),
        Ok(_) => panic!("a corrupt log was accepted"),
    }
}

#[test]
fn corrupt_logs_are_rejected() {
    let one = || entry(1, vec![put("a", b"1")]);
    assert_eq!(corrupt(vec![entry(2, vec![put("a", b"1")])]), "LSN 2 follows LSN 0");
    assert_eq!(corrupt(vec![one(), one()]), "LSN 1 follows LSN 1");
    assert_eq!(
        corrupt(vec![one(), entry(2, vec![put("b", b"1"), put("a", b"2"), cas("a", Some(b"1"), b"3")])]),
        "CAS precondition failed while replaying committed LSN 2"
    );
    assert_eq!(
        corrupt(vec![one(), entry(2, vec![cas("a", None, b"2")])]),
        "CAS precondition failed while replaying committed LSN 2"
    );
}

#[test]
fn an_entry_may_touch_a_key_twice() {
    let log = vec![
        entry(1, vec![put("a", b"1"), put("b", b"1")]),
        entry(2, vec![put("a", b"2"), cas("a", Some(b"2"), b"3"), del("b"), del("b")]),
        entry(3, vec![put("c", b"4")]),
    ];
    let mut s = open_disk(Disk { snapshot: None, log }, 10_000_000).unwrap();
    let got = s.store.get(b"a").unwrap();
    assert_eq!((got.value, got.version), (b"3".to_vec(), 2));
    let got = s.store.get_at(b"a", Some(1)).unwrap();
    assert_eq!((got.value, got.version), (b"1".to_vec(), 1));
    let got = s.store.get_at(b"a", Some(3)).unwrap();
    assert_eq!((got.value, got.version), (b"3".to_vec(), 2));
    assert!(matches!(s.store.get(b"b"), Err(KvError::KeyNotFound(_))));
    assert_eq!(s.store.status().key_count, 2);

    // Every version is rebuilt, those of a key in their order.
    assert_eq!(
        s.store.reconstruct_entries(2, 3),
        vec![
            entry(2, vec![put("a", b"2"), put("a", b"3"), del("b"), del("b")]),
            entry(3, vec![put("c", b"4")]),
        ]
    );
    s.compact();
    let r = s.reopen(10_000_000);
    let got = r.store.get(b"a").unwrap();
    assert_eq!((got.value, got.version), (b"3".to_vec(), 2));
    assert_eq!(r.store.reconstruct_entries(2, 2)[0].ops.len(), 4);
}

#[test]
fn snapshots_are_taken_as_they_are() {
    let put_at = |lsn: u64, value: &[u8]| Version::Put {
        lsn,
        value: value.to_vec(),
    };
    let snapshot = SnapshotData::new(
        3,
        vec![
            (b"k".to_vec(), History { versions: vec![put_at(1, b"old"), put_at(3, b"new")] }),
            (b"empty".to_vec(), History { versions: vec![] }),
            (b"late".to_vec(), History { versions: vec![put_at(2, b"x"), put_at(9, b"y")] }),
            (b"mixed".to_vec(), History { versions: vec![put_at(3, b"p"), put_at(1, b"q")] }),
        ],
    );
    assert_eq!(snapshot.lsn(), 3);
    assert_eq!(snapshot.len(), 4);
    assert_eq!(snapshot.at(0).0, b"empty");
    assert_eq!(snapshot.at(0).1.versions.len(), 0);
    assert_eq!(snapshot.at(1).1.versions[1].lsn(), 3);

    let mut store = Store::open(config(4096), Some(snapshot), vec![], 0).unwrap();
    assert_eq!(store.status().key_count, 3);
    assert!(matches!(store.get(b"empty"), Err(KvError::KeyNotFound(_))));
    assert!(matches!(store.get_at(b"empty", Some(3)), Err(KvError::KeyNotFound(_))));
    assert_eq!(store.get_at(b"k", Some(2)).unwrap().value, b"old");
    let late = store.get(b"late").unwrap();
    assert_eq!((late.value, late.version, late.read_lsn), (b"y".to_vec(), 9, 3));
    assert_eq!(store.get_at(b"late", None).unwrap().value, b"x");
    assert_eq!(store.get(b"mixed").unwrap().version, 1);
    let (entries, at) = store.range(None, None, None, None).unwrap();
    let keys: Vec<&[u8]> = entries.iter().map(|e| e.key.as_slice()).collect();
    assert_eq!((keys, at), (vec![&b"k"[..], b"late", b"mixed"], 3));

    // A key with an empty history takes its first version.
    let mutation = store.build_mutation(vec![cas("empty", None, b"now")]).unwrap();
    let e = store.prepare(mutation).unwrap();
    assert_eq!(store.commit(&e, 10).0.lsn, 4);
    assert_eq!(store.get(b"empty").unwrap().version, 4);
    assert_eq!(store.reconstruct_entries(4, 4), vec![entry(4, vec![put("empty", b"now")])]);

    // A later history of a key stands in place of an earlier one.
    let twice = SnapshotData::new(
        2,
        vec![
            (b"k".to_vec(), History { versions: vec![put_at(1, b"a")] }),
            (b"k".to_vec(), History { versions: vec![put_at(2, b"b")] }),
        ],
    );
    assert_eq!(twice.len(), 1);
    assert_eq!(twice.at(0).1.versions[0].lsn(), 2);
}

#[test]
fn memtable_apply_and_lookups() {
    let mut m = kvstore::store::MemTable::empty();
    m.apply(&entry(1, vec![put("a", b"1")])).unwrap();
    m.apply(&entry(2, vec![cas("a", Some(b"1"), b"2"), del("b")])).unwrap();
    assert_eq!(m.live_value(b"a"), Some(&b"2".to_vec()));
    assert_eq!(m.live_value(b"b"), None);
    assert_eq!(m.value_at(b"a", 1), Some(&b"1".to_vec()));
    assert_eq!(m.value_at(b"a", 0), None);
    assert_eq!(m.version_at(b"b", 9), Some(2));
    assert_eq!(m.version_at(b"c", 9), None);
    assert_eq!(m.live_key_count(), 1);
    assert!(m.apply(&entry(3, vec![put("z", b"1"), cas("a", None, b"3")])).is_err());
}

#[test]
fn compaction_after_a_restart_keeps_every_version() {
    let mut s = open(10_000_000);
    for i in 0..4u8 {
        s.commit(vec![put("k", &[i]), put("other", &[i])]).unwrap();
    }
    s.compact();
    s.commit(vec![del("other")]).unwrap();
    let mut r = s.reopen(10_000_000);

    // Commits come in between the capture and the rewrite of the log.
    assert_eq!(r.store.compact(), CompactStart::Run);
    let snap = match r.store.compact_locked() {
        CompactPlan::Write(snap) => snap,
        other => panic!("{other:?}"),
    };
    r.publish(&snap);
    r.commit(vec![put("k", &[9])]).unwrap();
    r.commit(vec![cas("other", None, &[9])]).unwrap();
    r.rewrite_log(snap.lsn());
    r.store.end_compaction();
    assert_eq!(r.disk.log.len(), 2);

    let r = r.reopen(10_000_000);
    assert_eq!(r.store.last_lsn(), 7);
    for at in 1..=4u64 {
        let got = r.store.get_at(b"k", Some(at)).unwrap();
        assert_eq!((got.value, got.version), (vec![at as u8 - 1], at));
    }
    assert!(matches!(
        r.store.get_at(b"other", Some(5)),
        Err(KvError::KeyNotFound(_))
    ));
    assert_eq!(r.get(b"k").unwrap().version, 6);
    assert_eq!(r.get(b"other").unwrap().value, vec![9]);
}

#[test]
fn reconstructed_entries_replay_a_part_of_the_log() {
    let mut s = open(10_000_000);
    s.commit(vec![put("b", b"1"), put("a", b"1")]).unwrap();
    s.commit(vec![cas("a", Some(b"1"), b"2")]).unwrap();
    s.commit(vec![del("b"), put("c", b"3")]).unwrap();
    s.commit(vec![put("a", b"4")]).unwrap();
    let part = s.store.reconstruct_entries(2, 3);
    assert_eq!(
        part,
        vec![
            entry(2, vec![put("a", b"2")]),
            entry(3, vec![del("b"), put("c", b"3")]),
        ]
    );
    assert!(s.store.reconstruct_entries(5, 9).is_empty());

    // On top of the first commit they give the store as it was after the third.
    let mut log = vec![s.disk.log[0].clone()];
    log.extend(part);
    let r = open_disk(Disk { snapshot: None, log }, 10_000_000).unwrap();
    assert_eq!(r.store.last_lsn(), 3);
    for key in [&b"a"[..], b"b", b"c"] {
        for at in 1..=3 {
            let (then, now) = (s.store.get_at(key, Some(at)), r.store.get_at(key, Some(at)));
            assert_eq!(then.ok().map(|g| (g.value, g.version)), now.ok().map(|g| (g.value, g.version)));
        }
    }
}

#[test]
fn second_compaction_reports_the_same_position() {
    let mut s = open(10_000_000);
    s.commit(vec![put("k", b"1")]).unwrap();
    s.commit(vec![put("k", b"2")]).unwrap();
    assert_eq!(s.compact(), 2);
    assert_eq!(s.compact(), 2);
    let status = s.store.status();
    assert_eq!((status.last_lsn, status.last_snapshot_lsn), (2, 2));
    assert!(!status.compacting);
    assert_eq!(s.store.get_at(b"k", Some(1)).unwrap().value, b"1");
}
