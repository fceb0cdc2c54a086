//! The key table with its log and snapshots, on files kept in memory.

use std::collections::{BTreeMap, HashSet};

use kvstore::engine::Engine;
use kvstore::error::StoreError;
use kvstore::keymap::KeyBound;
use kvstore::store::{Entry, Op, OpEffect};
use kvstore::table::{Limits, TxnOutcome};
use kvstore::wal::{self, SegmentFile};

#[derive(Clone, Default)]
struct Disk {
    files: BTreeMap<String, Vec<u8>>,
}

const DIR: &str = "mem";
const SNAPSHOT: &str = "mem/snapshot.bin";

/// A store with its files in memory, which it reads and writes as a service would its disk.
struct Kv {
    engine: Engine,
    disk: Disk,
    compactions: u32,
}

fn open_disk(mut disk: Disk, threshold: u64, limits: Limits) -> Result<Kv, StoreError> {
    let names: Vec<String> = disk
        .files
        .keys()
        .map(|p| p.trim_start_matches("mem/").to_string())
        .collect();
    let segments: Vec<SegmentFile> = wal::segment_indices(&names)
        .into_iter()
        .map(|index| SegmentFile {
            index,
            data: disk.files[&wal::segment_path(DIR, index)].clone(),
        })
        .collect();
    let (engine, _records) = Engine::open(
        DIR,
        SNAPSHOT,
        disk.files.get(SNAPSHOT).cloned(),
        segments,
        limits,
        threshold,
    )?;
    // The active segment is created, or cut behind its last whole frame.
    disk.files
        .entry(engine.wal.active_path())
        .or_default()
        .truncate(engine.wal.active_size() as usize);
    Ok(Kv {
        engine,
        disk,
        compactions: 0,
    })
}

fn limits(max_key_bytes: usize, max_value_bytes: usize, max_ops_per_txn: usize) -> Limits {
    Limits {
        max_key_bytes,
        max_value_bytes,
        max_ops_per_txn,
    }
}

fn wide() -> Limits {
    limits(64 * 1024, 16 * 1024 * 1024, 1024)
}

fn temp_store(threshold: u64) -> Kv {
    open_disk(Disk::default(), threshold, wide()).expect("open store")
}

fn reopen(kv: Kv, threshold: u64) -> Kv {
    open_disk(kv.disk, threshold, wide()).expect("reopen store")
}

impl Kv {
    fn commit(&mut self, ops: Vec<Op>) -> Result<TxnOutcome, StoreError> {
        let (pending, plan) = self.engine.prepare(&ops)?;
        if plan.rotate {
            self.engine.wal.rotate_locked(plan.sealed_end_lsn);
            self.disk.files.insert(self.engine.wal.active_path(), Vec::new());
        }
        let active = self.disk.files.get_mut(&self.engine.wal.active_path()).unwrap();
        active.extend_from_slice(&plan.frame);
        let (out, due) = self.engine.commit(pending, plan.frame.len() as u64);
        if due {
            self.compact().unwrap();
        }
        Ok(out)
    }

    fn put(&mut self, key: &[u8], value: &[u8]) -> Result<TxnOutcome, StoreError> {
        self.commit(vec![Op::Put {
            key: key.to_vec(),
            value: value.to_vec(),
        }])
    }

    fn delete(&mut self, key: &[u8]) -> Result<TxnOutcome, StoreError> {
        self.commit(vec![Op::Delete { key: key.to_vec() }])
    }

    fn cas(
        &mut self,
        key: &[u8],
        expected: Option<&[u8]>,
        value: &[u8],
    ) -> Result<TxnOutcome, StoreError> {
        self.commit(vec![Op::Cas {
            key: key.to_vec(),
            expected: expected.map(|e| e.to_vec()),
            value: value.to_vec(),
        }])
    }

    fn publish_snapshot(&mut self) -> u64 {
        let (meta, bytes) = self.engine.table.snapshot().unwrap();
        self.disk.files.insert(SNAPSHOT.to_string(), bytes);
        meta.lsn
    }

    fn drop_covered(&mut self, lsn: u64) {
        let active = self.engine.wal.active_path();
        let end_lsn = if self.engine.wal.active_size() > 0 {
            let data = self.disk.files[&active].clone();
            Some(wal::last_lsn_in_file(&active, data).unwrap())
        } else {
            None
        };
        let removed = self.engine.wal.rotate_and_take_persisted(end_lsn, lsn);
        self.disk.files.entry(self.engine.wal.active_path()).or_default();
        for seg in removed {
            self.disk.files.remove(&seg.path);
        }
        self.engine
            .table
            .note_snapshot(kvstore::snapshot::SnapshotMeta { lsn });
    }

    fn compact(&mut self) -> Result<u64, StoreError> {
        self.engine.begin_compaction()?;
        let lsn = self.publish_snapshot();
        self.drop_covered(lsn);
        self.engine.end_compaction();
        self.compactions += 1;
        Ok(lsn)
    }

    fn entry(&self, key: &[u8]) -> (Option<Entry>, u64) {
        self.engine.table.get(&self.engine.limits, key).expect("get")
    }

    fn get_string(&self, key: &str) -> Option<(String, u64)> {
        let (v, _lsn) = self.entry(key.as_bytes());
        v.map(|e| (String::from_utf8(e.value).unwrap(), e.version))
    }

    fn lsn(&self) -> u64 {
        self.engine.table.lsn()
    }

    fn segments(&self) -> usize {
        self.disk.files.keys().filter(|p| p.starts_with("mem/wal-")).count()
    }
}

fn put(key: &str, value: &str) -> Op {
    Op::Put {
        key: key.as_bytes().to_vec(),
        value: value.as_bytes().to_vec(),
    }
}

fn del(key: &str) -> Op {
    Op::Delete {
        key: key.as_bytes().to_vec(),
    }
}

fn cas(key: &str, expected: Option<&str>, value: &str) -> Op {
    Op::Cas {
        key: key.as_bytes().to_vec(),
        expected: expected.map(|s| s.as_bytes().to_vec()),
        value: value.as_bytes().to_vec(),
    }
}

// ---- transactions ----

#[test]
fn failed_cas_aborts_whole_transaction() {
    let mut s = temp_store(4 * 1024 * 1024);
    s.put(b"a", b"1").unwrap();
    s.put(b"b", b"1").unwrap();

    let err = s
        .commit(vec![
            put("a", "2"),
            // b's current value is "1", not "9" -> precondition fails
            cas("b", Some("9"), "2"),
            put("c", "2"),
        ])
        .expect_err("transaction must abort");
    assert!(matches!(err, StoreError::CasConflict { ref key, .. } if key == b"b"));

    // Nothing from the aborted transaction is visible.
    assert_eq!(s.get_string("a"), Some(("1".into(), 1)));
    assert_eq!(s.get_string("b"), Some(("1".into(), 2)));
    assert_eq!(s.get_string("c"), None);

    // LSN did not advance for the aborted transaction.
    assert_eq!(s.lsn(), 2);
}

#[test]
fn successful_transaction_applies_atomically() {
    let mut s = temp_store(4 * 1024 * 1024);
    let out = s
        .commit(vec![put("x", "10"), put("y", "20"), put("z", "30")])
        .unwrap();
    assert_eq!(out.lsn, 1);
    assert_eq!(out.effects.len(), 3);
    for k in ["x", "y", "z"] {
        let (_, version) = s.get_string(k).unwrap();
        assert_eq!(version, 1, "all keys share the commit's LSN/version");
    }
}

#[test]
fn mixed_ops_rollback_on_conflict() {
    let mut s = temp_store(4 * 1024 * 1024);
    s.put(b"k", b"v").unwrap();

    let _ = s
        .commit(vec![del("k"), put("n", "1"), cas("missing", None, "v")])
        .unwrap();
    assert_eq!(s.get_string("k"), None);
    assert_eq!(s.get_string("n"), Some(("1".into(), 2)));
    assert_eq!(s.get_string("missing"), Some(("v".into(), 2)));

    // Aborting txn that would delete missing... must leave state intact.
    let err = s
        .commit(vec![del("n"), cas("missing", Some("different"), "x")])
        .expect_err("conflict");
    assert!(matches!(err, StoreError::CasConflict { .. }));
    assert_eq!(s.get_string("n"), Some(("1".into(), 2)));
}

#[test]
fn contradictory_same_key_ops_rejected() {
    let mut s = temp_store(4 * 1024 * 1024);
    let err = s
        .commit(vec![put("dup", "1"), put("dup", "2")])
        .expect_err("duplicate key rejected");
    assert!(matches!(err, StoreError::DuplicateKeyInTransaction { .. }));
    assert_eq!(err.kind(), "duplicate_key_in_transaction");
    assert_eq!(s.lsn(), 0);

    let err = s
        .commit(vec![del("dup"), cas("dup", None, "x")])
        .expect_err("duplicate key rejected");
    assert!(matches!(err, StoreError::DuplicateKeyInTransaction { .. }));

    // Empty transactions are rejected.
    let err = s.commit(vec![]).expect_err("empty txn");
    assert!(matches!(err, StoreError::EmptyTransaction));

    // Too many operations is rejected.
    let mut s2 = open_disk(Disk::default(), 4096, limits(65536, 65536, 2)).unwrap();
    let many = vec![
        Op::Put {
            key: vec![1],
            value: vec![],
        },
        Op::Put {
            key: vec![2],
            value: vec![],
        },
        Op::Put {
            key: vec![3],
            value: vec![],
        },
    ];
    let err = s2.commit(many).expect_err("too many ops");
    assert!(matches!(err, StoreError::TransactionTooLarge { .. }));
}

#[test]
fn effects_say_what_was_there() {
    let mut s = temp_store(4 * 1024 * 1024);
    s.put(b"a", b"1").unwrap();
    let out = s
        .commit(vec![put("a", "2"), del("b"), cas("c", None, "3"), put("d", "")])
        .unwrap();
    assert_eq!(
        out.effects,
        vec![
            OpEffect::Put {
                key: b"a".to_vec(),
                version: 2,
                replaced: true,
            },
            OpEffect::Delete {
                key: b"b".to_vec(),
                existed: false,
            },
            OpEffect::Cas {
                key: b"c".to_vec(),
                version: 2,
                replaced: false,
            },
            OpEffect::Put {
                key: b"d".to_vec(),
                version: 2,
                replaced: false,
            },
        ]
    );
}

// ---- versions and compare-and-swap ----

#[test]
fn key_versions_are_monotonic() {
    let mut s = temp_store(4 * 1024 * 1024);
    let mut last_version = 0u64;
    for i in 0..20u64 {
        s.put(b"k", format!("v{i}").as_bytes()).unwrap();
        let (_, version) = s.get_string("k").unwrap();
        assert!(version > last_version, "version must strictly increase");
        assert_eq!(version, i + 1);
        last_version = version;
    }

    // Delete consumes an LSN; recreating the key gets an even higher version.
    s.delete(b"k").unwrap();
    assert_eq!(s.get_string("k"), None);
    s.put(b"k", b"reborn").unwrap();
    let (_, version) = s.get_string("k").unwrap();
    assert_eq!(version, 22);
    assert!(version > last_version);
}

#[test]
fn transaction_versions() {
    let mut s = temp_store(4 * 1024 * 1024);
    s.commit(vec![put("a", "1"), put("b", "1"), put("c", "1")])
        .unwrap();
    let (_, va) = s.get_string("a").unwrap();
    let (_, vb) = s.get_string("b").unwrap();
    let (_, vc) = s.get_string("c").unwrap();
    assert_eq!((va, vb, vc), (1, 1, 1));

    s.put(b"b", b"2").unwrap();
    let (_, vb2) = s.get_string("b").unwrap();
    assert_eq!(vb2, 2);
    let (_, va2) = s.get_string("a").unwrap();
    assert_eq!(va2, 1, "untouched key keeps its version");
}

#[test]
fn cas_basic_match_and_mismatch() {
    let mut s = temp_store(4 * 1024 * 1024);

    // CAS on absent key with expected null creates it.
    let out = s.cas(b"k", None, b"first").unwrap();
    assert_eq!(out.lsn, 1);
    assert_eq!(s.get_string("k"), Some(("first".into(), 1)));

    // Wrong expected value -> conflict, no state change, no LSN consumed.
    let err = s.cas(b"k", Some(b"nope"), b"x").unwrap_err();
    match err {
        StoreError::CasConflict {
            key,
            expected,
            actual,
        } => {
            assert_eq!(key, b"k");
            assert_eq!(expected, Some(b"nope".to_vec()));
            assert_eq!(actual, Some(b"first".to_vec()));
        }
        other => panic!("expected CasConflict, got {other:?}"),
    }
    assert_eq!(s.get_string("k"), Some(("first".into(), 1)));
    assert_eq!(s.lsn(), 1);

    // Correct expected value -> write.
    s.cas(b"k", Some(b"first"), b"second").unwrap();
    assert_eq!(s.get_string("k"), Some(("second".into(), 2)));

    // Expected null but key present -> conflict.
    let err = s.cas(b"k", None, b"third").unwrap_err();
    assert!(matches!(err, StoreError::CasConflict { .. }));
    assert_eq!(s.get_string("k"), Some(("second".into(), 2)));
}

#[test]
fn cas_conflict_inside_txn_is_explicit() {
    let mut s = temp_store(4 * 1024 * 1024);
    s.put(b"a", b"1").unwrap();

    let err = s
        .commit(vec![cas("a", Some("WRONG"), "2"), put("b", "2")])
        .expect_err("conflict");
    assert_eq!(err.kind(), "cas_conflict");

    assert_eq!(s.get_string("a"), Some(("1".into(), 1)));
    assert_eq!(s.get_string("b"), None);
}

#[test]
fn read_positions_advance() {
    let mut s = temp_store(4 * 1024 * 1024);
    let (_v, lsn0) = s.entry(b"x");
    assert_eq!(lsn0, 0);
    s.put(b"x", b"1").unwrap();
    let (_v, lsn1) = s.entry(b"x");
    assert_eq!(lsn1, 1);
    s.put(b"x", b"2").unwrap();
    let (_v, lsn2) = s.entry(b"x");
    assert_eq!(lsn2, 2);
    let (entries, scan_lsn) = s.engine.table.scan_prefix(b"x", 10);
    assert_eq!(scan_lsn, 2);
    assert_eq!(entries.len(), 1);
}

// ---- limits and scans ----

#[test]
fn oversized_keys_and_values_rejected() {
    let mut s = open_disk(Disk::default(), 4096, limits(4, 8, 10)).unwrap();

    let err = s.put(b"", b"v").unwrap_err();
    assert!(matches!(err, StoreError::EmptyKey));

    let err = s.put(b"abcde", b"v").unwrap_err();
    assert!(matches!(err, StoreError::KeyTooLarge { size: 5, max: 4 }));

    let err = s.put(b"ab", &[0u8; 9]).unwrap_err();
    assert!(matches!(err, StoreError::ValueTooLarge { size: 9, max: 8 }));

    // Validation happens before commit: nothing was written.
    assert_eq!(s.lsn(), 0);
}

#[test]
fn config_and_scan_prefix_and_range_scans() {
    let mut s = temp_store(4096);
    let ops = vec![
        put("user:1", "a"),
        put("user:2", "b"),
        put("user:3", "c"),
        put("other:1", "d"),
    ];
    s.commit(ops).unwrap();
    let t = &s.engine.table;

    let (entries, lsn) = t.scan_prefix(b"user:", 100);
    assert_eq!(lsn, 1);
    let keys: Vec<String> = entries
        .iter()
        .map(|(k, _)| String::from_utf8(k.clone()).unwrap())
        .collect();
    assert_eq!(keys, vec!["user:1", "user:2", "user:3"]);

    // Range [user:2, user:3) excludes user:3.
    let (entries, _) = t.scan_range(
        &KeyBound::Included(b"user:2".to_vec()),
        &KeyBound::Excluded(b"user:3".to_vec()),
        100,
    );
    assert_eq!(entries.len(), 1);
    assert_eq!(entries[0].0, b"user:2");

    // Inclusive end.
    let (entries, _) = t.scan_range(
        &KeyBound::Included(b"user:2".to_vec()),
        &KeyBound::Included(b"user:3".to_vec()),
        100,
    );
    assert_eq!(entries.len(), 2);

    // Unbounded end and limit.
    let (entries, _) = t.scan_range(&KeyBound::Included(b"o".to_vec()), &KeyBound::Unbounded, 1);
    assert_eq!(entries.len(), 1);
    assert_eq!(entries[0].0, b"other:1");

    // Empty prefix scans all keys.
    let (entries, _) = t.scan_prefix(b"", 100);
    assert_eq!(entries.len(), 4);

    // Prefix that straddles the 0xFF boundary edge.
    let (entries, _) = t.scan_prefix(b"zzz:", 100);
    assert!(entries.is_empty());

    // Exclusive start, and ends that cross.
    let (entries, _) = t.scan_range(
        &KeyBound::Excluded(b"user:2".to_vec()),
        &KeyBound::Unbounded,
        100,
    );
    assert_eq!(entries.len(), 1);
    let (entries, _) = t.scan_range(
        &KeyBound::Included(b"user:3".to_vec()),
        &KeyBound::Excluded(b"user:1".to_vec()),
        100,
    );
    assert!(entries.is_empty());
}

#[test]
fn second_compaction_while_running_is_rejected_not_crashing() {
    let mut s = temp_store(4096);
    s.put(b"x", b"y").unwrap();
    let l1 = s.compact().unwrap();
    let l2 = s.compact().unwrap();
    assert_eq!(l1, l2);
    assert!(!s.engine.compacting);
    assert_eq!(s.engine.table.snapshot_lsn(), 1);

    s.engine.begin_compaction().unwrap();
    let err = s.compact().unwrap_err();
    assert!(matches!(err, StoreError::CompactionInProgress));
    assert_eq!(err.kind(), "compaction_in_progress");
}

// ---- interleaved writers and readers ----

/// Eight clients read, then swap; those whose view is out of date get a conflict and read again.
#[test]
fn concurrent_cas_increments_are_linearizable() {
    let mut s = temp_store(4 * 1024 * 1024);
    s.put(b"counter", b"0").unwrap();
    let per_task = 50usize;
    let tasks = 8usize;
    let mut left = vec![per_task; tasks];
    while left.iter().any(|n| *n > 0) {
        let views: Vec<String> = (0..tasks)
            .map(|_| s.get_string("counter").unwrap().0)
            .collect();
        for (task, cur) in views.into_iter().enumerate() {
            if left[task] == 0 {
                continue;
            }
            let next = (cur.parse::<u64>().unwrap() + 1).to_string();
            match s.cas(b"counter", Some(cur.as_bytes()), next.as_bytes()) {
                Ok(_) => left[task] -= 1,
                Err(StoreError::CasConflict { .. }) => continue,
                Err(e) => panic!("unexpected error: {}", e.message()),
            }
        }
    }
    let (final_view, read_lsn) = s.entry(b"counter");
    let n: u64 = String::from_utf8(final_view.unwrap().value)
        .unwrap()
        .parse()
        .unwrap();
    assert_eq!(n as usize, tasks * per_task);
    // Initial put + every successful increment.
    assert_eq!(read_lsn, 1 + (tasks * per_task) as u64);
}

#[test]
fn readers_never_see_partial_commit() {
    let mut s = temp_store(4 * 1024 * 1024);
    const N_KEYS: usize = 200;
    const ROUNDS: u64 = 100;
    let init = (0..N_KEYS)
        .map(|i| put(&format!("k{i:04}"), &format!("old:{i}")))
        .collect();
    s.commit(init).unwrap();
    for round in 0..ROUNDS {
        let prefix = if round % 2 == 0 { "new" } else { "old" };
        let ops: Vec<Op> = (0..N_KEYS)
            .map(|i| put(&format!("k{i:04}"), &format!("{prefix}:{round}")))
            .collect();
        s.commit(ops).unwrap();
        let (entries, _scan_lsn) = s.engine.table.scan_prefix(b"k", N_KEYS + 10);
        assert_eq!(entries.len(), N_KEYS, "scan sees exactly the live set");
        let scan_versions: HashSet<u64> = entries.iter().map(|(_, v)| v.version).collect();
        assert_eq!(
            scan_versions.len(),
            1,
            "prefix scan observed a torn multi-key commit"
        );
        for (k, v) in &entries {
            let sval = String::from_utf8(v.value.clone()).unwrap();
            assert!(
                sval.starts_with("new:") || sval.starts_with("old:"),
                "unexpected value for {}: {sval}",
                String::from_utf8_lossy(k)
            );
        }
    }
}

#[test]
fn concurrent_disjoint_transactions() {
    let mut s = temp_store(4 * 1024 * 1024);
    let writers = 8usize;
    let rounds = 40usize;
    for r in 0..rounds {
        for w in 0..writers {
            let ops = vec![
                put(&format!("w{w}:a"), &format!("{r}")),
                put(&format!("w{w}:b"), &format!("{r}")),
            ];
            s.commit(ops).unwrap();
        }
    }
    for w in 0..writers {
        let (va, vera) = s.get_string(&format!("w{w}:a")).unwrap();
        let (vb, verb) = s.get_string(&format!("w{w}:b")).unwrap();
        assert_eq!(va, format!("{}", rounds - 1));
        assert_eq!(vb, format!("{}", rounds - 1));
        assert_eq!(vera, verb, "a/b always commit together");
    }
}

// ---- recovery ----

#[test]
fn restart_replays_committed_wal() {
    let mut s = temp_store(16 * 1024 * 1024);
    s.commit(vec![put("a", "1"), put("b", "2")]).unwrap();
    s.put(b"c", b"3").unwrap();
    s.delete(b"b").unwrap();

    let r = reopen(s, 16 * 1024 * 1024);
    assert_eq!(r.get_string("a"), Some(("1".into(), 1)));
    assert_eq!(r.get_string("c"), Some(("3".into(), 2)));
    assert_eq!(r.get_string("b"), None);
    assert_eq!(r.lsn(), 3);
    assert_eq!(r.engine.table.snapshot_lsn(), 0);
    assert_eq!(r.engine.table.key_count(), 2);
}

#[test]
fn restart_recovers_snapshot_plus_tail_wal() {
    let threshold = 64 * 1024u64;
    let mut s = temp_store(threshold);
    for i in 0..3000u64 {
        s.put(
            format!("key-{i:05}").as_bytes(),
            format!("value-{:0100}", i % 97).as_bytes(),
        )
        .unwrap();
    }
    let compacted = s.compactions > 0 && s.engine.table.snapshot_lsn() > 0;
    assert!(compacted, "expected an automatic compaction");

    // More commits after the snapshot: only these should live in the tail WAL.
    let post_snapshot_lsn = s.engine.table.snapshot_lsn();
    s.put(b"after-snapshot", b"tail").unwrap();
    s.put(b"after-snapshot-2", b"tail2").unwrap();
    let final_lsn = s.lsn();

    // Old fully-covered segments must be gone.
    let wal_files = s.segments();
    assert!(wal_files >= 1, "a tail WAL segment must remain");
    assert!(
        wal_files <= 3,
        "snapshot-covered segments must be deleted, found {wal_files}"
    );

    let r = reopen(s, threshold);
    assert_eq!(r.lsn(), final_lsn);
    let snapshot_lsn = r.engine.table.snapshot_lsn();
    assert!(snapshot_lsn >= post_snapshot_lsn && snapshot_lsn <= final_lsn);
    assert_eq!(
        r.get_string("after-snapshot"),
        Some(("tail".into(), final_lsn - 1))
    );
    assert_eq!(
        r.get_string("after-snapshot-2"),
        Some(("tail2".into(), final_lsn))
    );
    // Keys from before the snapshot.
    assert_eq!(
        r.get_string("key-00000"),
        Some((format!("value-{:0100}", 0usize), 1))
    );
    assert_eq!(
        r.get_string("key-02999"),
        Some((format!("value-{:0100}", 2999u64 % 97), 3000))
    );
    assert_eq!(r.engine.table.key_count(), 3002);
}

#[test]
fn no_double_apply_after_compaction_and_restart() {
    let threshold = 1024 * 1024u64;
    let mut s = temp_store(threshold);

    // Commit 1: a=1,b=2 ; commit 2: a=3.
    s.commit(vec![put("a", "1"), put("b", "2")]).unwrap();
    s.put(b"a", b"3").unwrap();
    let snap_lsn = s.compact().unwrap();
    assert_eq!(snap_lsn, 2);

    // Tail records after the snapshot: commit 3 c=4, commit 4 delete b.
    s.put(b"c", b"4").unwrap();
    s.delete(b"b").unwrap();

    let r = reopen(s, threshold);
    assert_eq!(r.engine.table.snapshot_lsn(), 2);
    assert_eq!(r.lsn(), 4);
    // Versions preserved from snapshot; tail replay did not overwrite them.
    assert_eq!(r.get_string("a"), Some(("3".into(), 2)));
    assert_eq!(r.get_string("c"), Some(("4".into(), 3)));
    assert_eq!(r.get_string("b"), None);
    assert_eq!(r.engine.table.key_count(), 2);

    // Reopen a second time: snapshot + same tail, same result.
    let r2 = reopen(r, threshold);
    assert_eq!(r2.lsn(), 4);
    assert_eq!(r2.get_string("a"), Some(("3".into(), 2)));
    assert_eq!(r2.get_string("c"), Some(("4".into(), 3)));
}

#[test]
fn covered_records_still_in_the_log_are_skipped() {
    let mut s = temp_store(1024 * 1024);
    s.put(b"a", b"1").unwrap();
    s.put(b"a", b"2").unwrap();
    // The snapshot is published, but no segment has been deleted yet.
    s.publish_snapshot();
    s.put(b"b", b"3").unwrap();
    let r = reopen(s, 1024 * 1024);
    assert_eq!(r.lsn(), 3);
    assert_eq!(r.engine.table.snapshot_lsn(), 2);
    assert_eq!(r.get_string("a"), Some(("2".into(), 2)));
    assert_eq!(r.get_string("b"), Some(("3".into(), 3)));
}

#[test]
fn versions_stay_contiguous_across_snapshot() {
    let threshold = 1024 * 1024u64;
    let mut s = temp_store(threshold);
    for i in 0..10u64 {
        s.put(b"k", format!("{i}").as_bytes()).unwrap();
    }
    s.compact().unwrap();
    for i in 10..20u64 {
        s.put(b"k", format!("{i}").as_bytes()).unwrap();
    }
    let r = reopen(s, threshold);
    let (val, ver) = r.get_string("k").unwrap();
    assert_eq!(val, "19");
    assert_eq!(ver, 20);
    assert_eq!(r.lsn(), 20);
}

#[test]
fn torn_tail_record_is_truncated() {
    let threshold = 1024 * 1024u64;
    let mut s = temp_store(threshold);
    s.put(b"durable", b"yes").unwrap();
    s.put(b"durable2", b"yes2").unwrap();

    // Append garbage (a torn, never-fsynced tail) beyond the valid bytes.
    let path = s.engine.wal.active_path();
    let valid = s.disk.files[&path].len();
    s.disk
        .files
        .get_mut(&path)
        .unwrap()
        .extend_from_slice(b"KVS1\x10\x00\x00\x00partial-torn-bytes");

    let mut r = reopen(s, threshold);
    assert_eq!(r.disk.files[&path].len(), valid);
    assert_eq!(r.get_string("durable"), Some(("yes".into(), 1)));
    assert_eq!(r.get_string("durable2"), Some(("yes2".into(), 2)));
    assert_eq!(r.lsn(), 2);

    // Store remains writable and LSN allocation continues from 2.
    r.put(b"after", b"ok").unwrap();
    assert_eq!(r.get_string("after"), Some(("ok".into(), 3)));
    let r2 = reopen(r, threshold);
    assert_eq!(r2.get_string("after"), Some(("ok".into(), 3)));
}

#[test]
fn every_cut_of_the_last_record_is_dropped() {
    let mut s = temp_store(1024 * 1024);
    s.put(b"a", b"1").unwrap();
    let path = s.engine.wal.active_path();
    let valid = s.disk.files[&path].len();
    s.put(b"b", b"2").unwrap();
    let whole = s.disk.files[&path].len();
    for n in valid..whole {
        let mut disk = s.disk.clone();
        disk.files.get_mut(&path).unwrap().truncate(n);
        let r = open_disk(disk, 1024 * 1024, wide()).unwrap();
        assert_eq!(r.lsn(), 1);
        assert_eq!(r.engine.wal.active_size(), valid as u64);
        assert_eq!(r.get_string("b"), None);
    }
}

/// Commits that come while the snapshot file is being written.
#[test]
fn writes_while_compacting_survive_restart() {
    let threshold = 4 * 1024 * 1024u64;
    let mut s = temp_store(threshold);
    for i in 0..50u64 {
        s.put(format!("init-{i}").as_bytes(), &[b'x'; 100]).unwrap();
    }
    s.engine.begin_compaction().unwrap();
    let snap = s.publish_snapshot();
    assert!(snap >= 1);
    for i in 0..200u64 {
        s.put(format!("late-{i:04}").as_bytes(), format!("v{i}").as_bytes())
            .unwrap();
    }
    s.drop_covered(snap);
    s.engine.end_compaction();
    let final_lsn = s.lsn();

    let r = reopen(s, threshold);
    assert_eq!(r.lsn(), final_lsn);
    assert_eq!(r.get_string("late-0199"), Some(("v199".into(), final_lsn)));
    assert_eq!(
        r.get_string("late-0000").map(|(v, _)| v),
        Some("v0".to_string())
    );
}

#[test]
fn segments_are_rotated_and_only_covered_ones_removed() {
    let mut s = open_disk(Disk::default(), 200, wide()).unwrap();
    // No automatic compaction while one is running.
    s.engine.begin_compaction().unwrap();
    for i in 0..6u64 {
        s.put(format!("k{i}").as_bytes(), &[b'x'; 40]).unwrap();
    }
    // Each frame holds 94 bytes, so two go into a segment.
    assert_eq!(s.engine.wal.total_bytes(), 6 * 94);
    assert_eq!(s.engine.wal.active_index(), 3);
    assert_eq!(s.segments(), 3);
    s.drop_covered(3);
    // Segment 1 ends at LSN 2 and goes; segment 2 ends at LSN 4 and stays.
    assert!(!s.disk.files.contains_key("mem/wal-00000000000000000001"));
    assert!(s.disk.files.contains_key("mem/wal-00000000000000000002"));
    assert!(s.disk.files.contains_key("mem/wal-00000000000000000003"));
    assert_eq!(s.engine.wal.active_index(), 4);
    assert_eq!(s.engine.wal.active_size(), 0);
    assert_eq!(s.engine.wal.total_bytes(), 4 * 94);
}

fn corruption(disk: Disk) -> String {
    match open_disk(disk, 4096, wide()) {
        Err(StoreError::Corruption(m)) => m,
        Err(e) => panic!("unexpected error: {e:?}"),
        Ok(_) => panic!("corrupt files were accepted"),
    }
}

#[test]
fn corrupt_logs_are_refused() {
    let mut s = temp_store(1024 * 1024);
    s.put(b"a", b"1").unwrap();
    s.put(b"b", b"2").unwrap();
    let path = "mem/wal-00000000000000000001".to_string();
    let good = s.disk.files[&path].clone();
    let with = |data: Vec<u8>| {
        let mut disk = Disk::default();
        disk.files.insert(path.clone(), data);
        disk
    };
    let frame_len = good.len() / 2;

    let mut bad = good.clone();
    bad[0] = 0;
    assert_eq!(
        corruption(with(bad)),
        format!("WAL segment {path}: bad payload magic [00, 56, 53, 31] at offset 0")
    );
    let mut bad = good.clone();
    bad[10] ^= 1;
    assert_eq!(
        corruption(with(bad)),
        format!("WAL segment {path}: CRC mismatch at frame ending at offset {frame_len}")
    );
    // A gap: the second record alone.
    assert_eq!(
        corruption(with(good[frame_len..].to_vec())),
        "LSN gap in WAL: record 2 follows 0"
    );
    // A torn frame in a segment that is not the last one.
    let mut disk = with(good[..good.len() - 1].to_vec());
    disk.files.insert("mem/wal-00000000000000000002".into(), Vec::new());
    assert_eq!(
        corruption(disk),
        format!("torn frame inside non-tail segment {path}")
    );
    // A frame that holds no record.
    let m = corruption(with(kvstore::frame::encode_frame(b"xyz")));
    assert!(m.starts_with(&format!("invalid record in {path}: ")), "{m}");
    // A frame whose first mutation is of no known kind.
    let mut payload = vec![1u8, 0, 0, 0, 0, 0, 0, 0, 1, 0, 0, 0, 0, 0, 0, 0];
    payload.extend([7, 0, 0, 0]);
    assert_eq!(
        corruption(with(kvstore::frame::encode_frame(&payload))),
        format!(
            "invalid record in {path}: invalid value: integer `7`, expected variant index 0 <= i < 2"
        )
    );
}

#[test]
fn corrupt_snapshots_are_refused() {
    let mut s = temp_store(1024 * 1024);
    s.put(b"a", b"1").unwrap();
    s.put(b"b", b"2").unwrap();
    s.compact().unwrap();
    let good = s.disk.files[SNAPSHOT].clone();
    let with = |data: &[u8]| {
        let mut disk = Disk::default();
        disk.files.insert(SNAPSHOT.to_string(), data.to_vec());
        disk
    };
    let header_len = 16 + 24;
    let entry_len = (good.len() - header_len) / 2;
    assert_eq!(
        corruption(with(&[])),
        "cannot read snapshot header from mem/snapshot.bin: end of frames"
    );
    assert_eq!(
        corruption(with(&good[..header_len + entry_len])),
        "snapshot declares 2 keys but contains 1"
    );
    assert_eq!(
        corruption(with(&good[..good.len() - 1])),
        "error reading snapshot entry from mem/snapshot.bin: torn (incomplete) frame at tail"
    );
    let mut other = good[..header_len].to_vec();
    other[8] = b'X';
    let crc = kvstore::frame::encode_frame(&other[8..32]);
    assert_eq!(corruption(with(&crc)), "bad snapshot magic in mem/snapshot.bin");
    let m = corruption(with(&kvstore::frame::encode_frame(b"short")));
    assert!(m.starts_with("invalid snapshot header in mem/snapshot.bin: "), "{m}");
    let mut bad_entry = good[..header_len].to_vec();
    kvstore::frame::write_frame(&mut bad_entry, b"short");
    let m = corruption(with(&bad_entry));
    assert!(m.starts_with("invalid snapshot entry in mem/snapshot.bin: "), "{m}");
}

// ---- the demo workload ----

#[test]
fn seed_workload_commits_on_a_fresh_store() {
    let mut s = temp_store(1024 * 1024);
    for txn in kvstore::seed::workload() {
        s.commit(txn).unwrap();
    }
    assert_eq!(s.lsn(), 5);
    assert_eq!(s.get_string("user:1:name"), Some(("alice".into(), 1)));
    assert_eq!(s.get_string("user:1:balance"), Some(("70".into(), 5)));
    assert_eq!(s.get_string("user:2:name"), Some(("bob".into(), 3)));
    assert_eq!(s.get_string("user:2:balance"), Some(("80".into(), 5)));
    assert_eq!(
        s.get_string("ledger:transfer:1"),
        Some(("user:1->user:2:30".into(), 5))
    );
    assert_eq!(s.engine.table.key_count(), 5);
}
