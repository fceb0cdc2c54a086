//! In-memory transactional key-value engine with version histories.
//!
//! Concurrency model (the locks are the caller's):
//! * Reads take a shared lock on the memtable and never block each other.
//! * Commits are serialized through a single commit lock. The lock is held while checking CAS
//!   preconditions, appending+fsyncing the WAL and applying mutations. This makes transaction
//!   validation atomic with respect to other commits while readers go on during the fsync.
//! * Compaction captures the memtable under a short-lived shared lock, writes the snapshot file
//!   without blocking reads or writes, and only pauses commits for the final atomic WAL rewrite.

use crate::config::{Config, ConfigView};
use crate::error;
use crate::error::{KvError, KvFault};
use crate::keymap;
use crate::keymap::{BoundView, KeyBound, KeyMap, Seen};
use crate::order;
use crate::table;
pub use crate::table::{Entry, Op, OpEffect};
use crate::text;
use vstd::prelude::*;
use vstd::string::*;

verus! {

/// One historical value of a key at LSN `lsn`.
#[derive(Debug, Clone, PartialEq, Eq)]
pub enum Version {
    Put { lsn: u64, value: Vec<u8> },
    Delete { lsn: u64 },
}

/// What a [`Version`] says: the value that holds from `lsn` on, or that there is none.
pub struct VersionView {
    pub lsn: u64,
    pub value: Option<Seq<u8>>,
}

impl View for Version {
    type V = VersionView;

    open spec fn view(&self) -> VersionView {
        match *self {
            Version::Put { lsn, value } => VersionView { lsn, value: Some(value@) },
            Version::Delete { lsn } => VersionView { lsn, value: None },
        }
    }
}

impl Version {
    /// The LSN of the version.
    pub fn lsn(&self) -> (r: u64)
        ensures
            r == self@.lsn,
    {
        match self {
            Version::Put { lsn, .. } => *lsn,
            Version::Delete { lsn } => *lsn,
        }
    }

    /// Copies the version.
    pub fn copy(&self) -> (r: Version)
        ensures
            r@ == self@,
    {
        match self {
            Version::Put { lsn, value } => Version::Put {
                lsn: *lsn,
                value: order::copy_bytes(value.as_slice()),
            },
            Version::Delete { lsn } => Version::Delete { lsn: *lsn },
        }
    }
}

/// The versions of a key, ordered oldest -> newest.
#[derive(Debug, Clone, PartialEq, Eq)]
pub struct History {
    pub versions: Vec<Version>,
}

/// The views of a sequence of versions.
pub open spec fn version_views(v: Seq<Version>) -> Seq<VersionView> {
    v.map_values(|x: Version| x@)
}

impl View for History {
    type V = Seq<VersionView>;

    open spec fn view(&self) -> Seq<VersionView> {
        version_views(self.versions@)
    }
}

/// One operation as written to the log.
#[derive(Debug, Clone, PartialEq, Eq)]
pub enum WalOp {
    Put(Vec<u8>),
    Delete,
    /// Writes `value` only where the key's value is `expected` (`None`: where it is absent).
    Cas { expected: Option<Vec<u8>>, value: Vec<u8> },
}

/// What a [`WalOp`] asks for.
pub enum WalOpView {
    Put(Seq<u8>),
    Delete,
    Cas { expected: Option<Seq<u8>>, value: Seq<u8> },
}

impl View for WalOp {
    type V = WalOpView;

    open spec fn view(&self) -> WalOpView {
        match *self {
            WalOp::Put(value) => WalOpView::Put(value@),
            WalOp::Delete => WalOpView::Delete,
            WalOp::Cas { expected, value } => WalOpView::Cas {
                expected: error::bytes_option(expected),
                value: value@,
            },
        }
    }
}

/// The value that an operation writes.
pub open spec fn written(op: WalOpView) -> Option<Seq<u8>> {
    match op {
        WalOpView::Put(value) => Some(value),
        WalOpView::Delete => None,
        WalOpView::Cas { value, .. } => Some(value),
    }
}

/// Operations with their keys.
pub type KeyedOps = Seq<(Seq<u8>, WalOpView)>;

/// The views of a sequence of operations with their keys.
pub open spec fn op_views(ops: Seq<(Vec<u8>, WalOp)>) -> KeyedOps {
    ops.map_values(|p: (Vec<u8>, WalOp)| (p.0@, p.1@))
}

/// No key occurs twice.
pub open spec fn distinct(ops: KeyedOps) -> bool {
    forall|i: int, j: int|
        0 <= i < j < ops.len() ==> (#[trigger] ops[i]).0 != (#[trigger] ops[j]).0
}

impl WalOp {
    /// Copies the operation.
    pub fn copy(&self) -> (r: WalOp)
        ensures
            r@ == self@,
    {
        match self {
            WalOp::Put(value) => WalOp::Put(order::copy_bytes(value.as_slice())),
            WalOp::Delete => WalOp::Delete,
            WalOp::Cas { expected, value } => WalOp::Cas {
                expected: table::copy_option(expected),
                value: order::copy_bytes(value.as_slice()),
            },
        }
    }

    /// The version that the operation leaves behind.
    pub fn version(&self, lsn: u64) -> (r: Version)
        ensures
            r@ == (VersionView { lsn, value: written(self@) }),
    {
        match self {
            WalOp::Put(value) => Version::Put { lsn, value: order::copy_bytes(value.as_slice()) },
            WalOp::Delete => Version::Delete { lsn },
            WalOp::Cas { value, .. } => Version::Put {
                lsn,
                value: order::copy_bytes(value.as_slice()),
            },
        }
    }
}

/// One committed transaction as written to the log.
#[derive(Debug, Clone, PartialEq, Eq)]
pub struct WalEntry {
    pub lsn: u64,
    pub ops: Vec<(Vec<u8>, WalOp)>,
}

/// What a [`WalEntry`] holds.
pub struct WalEntryView {
    pub lsn: u64,
    pub ops: KeyedOps,
}

impl View for WalEntry {
    type V = WalEntryView;

    open spec fn view(&self) -> WalEntryView {
        WalEntryView { lsn: self.lsn, ops: op_views(self.ops@) }
    }
}

/// A validated, ready-to-commit mutation batch.
#[derive(Debug, Clone)]
pub struct Mutation {
    /// Insertion order preserved; every key appears exactly once.
    pub ops: Vec<(Vec<u8>, WalOp)>,
}

/// A committed batch.
#[derive(Debug, Clone)]
pub struct CommitOutcome {
    pub lsn: u64,
    /// Number of live (non-deleted) keys after the commit.
    pub key_count: usize,
}

/// One entry of a scan.
#[derive(Debug, Clone)]
pub struct KvEntry {
    pub key: Vec<u8>,
    pub value: Vec<u8>,
    /// Version (LSN) that produced this value.
    pub version: u64,
}

/// The value of a key and where it was read.
#[derive(Debug, Clone)]
pub struct Got {
    pub value: Vec<u8>,
    pub version: u64,
    /// Log position at which this read observed the store.
    pub read_lsn: u64,
}

/// State of the store at a glance.
#[derive(Debug, Clone)]
pub struct Status {
    pub key_count: usize,
    /// Latest committed LSN / log position.
    pub last_lsn: u64,
    pub wal_size_bytes: u64,
    pub last_snapshot_lsn: u64,
    pub compacting: bool,
    pub compaction_threshold_bytes: u64,
}

/// The histories of a table, by key.
pub type Histories = Map<Seq<u8>, Seq<VersionView>>;

/// The state of a [`MemTable`].
pub struct MemView {
    pub keys: Histories,
    pub last_lsn: u64,
}

/// No version has a smaller LSN than one before it.
pub open spec fn ascending(h: Seq<VersionView>) -> bool {
    forall|i: int, j: int| 0 <= i < j < h.len() ==> (#[trigger] h[i]).lsn <= (#[trigger] h[j]).lsn
}

/// Every version has a greater LSN than those before it.
pub open spec fn increasing(h: Seq<VersionView>) -> bool {
    forall|i: int, j: int| 0 <= i < j < h.len() ==> (#[trigger] h[i]).lsn < (#[trigger] h[j]).lsn
}

/// A history holds something, it is in order, and no LSN is beyond `last`.
pub open spec fn history_ok(h: Seq<VersionView>, last: u64) -> bool {
    &&& h.len() > 0
    &&& ascending(h)
    &&& forall|i: int| 0 <= i < h.len() ==> 1 <= (#[trigger] h[i]).lsn <= last
}

impl MemView {
    /// Every history is in order.
    pub open spec fn wf(self) -> bool {
        forall|k: Seq<u8>| #[trigger]
            self.keys.dom().contains(k) ==> history_ok(self.keys[k], self.last_lsn)
    }

    /// Every history is in order, and no two versions of a key have the same LSN.
    pub open spec fn strict(self) -> bool {
        &&& self.wf()
        &&& forall|k: Seq<u8>| #[trigger] self.keys.dom().contains(k) ==> increasing(self.keys[k])
    }
}

/// The history of a key, which is empty where the key never had a value.
pub open spec fn history_of(keys: Histories, key: Seq<u8>) -> Seq<VersionView> {
    if keys.dom().contains(key) {
        keys[key]
    } else {
        Seq::empty()
    }
}

/// The latest value of a key.
pub open spec fn live(keys: Histories, key: Seq<u8>) -> Option<Seq<u8>> {
    let h = history_of(keys, key);
    if h.len() == 0 {
        None
    } else {
        h.last().value
    }
}

/// The newest version with an LSN of at most `at`.
pub open spec fn visible(h: Seq<VersionView>, at: u64) -> Option<VersionView>
    decreases h.len(),
{
    if h.len() == 0 {
        None
    } else if h.last().lsn <= at {
        Some(h.last())
    } else {
        visible(h.drop_last(), at)
    }
}

/// The version of a key that is visible at a log position and holds a value.
pub open spec fn seen_at(keys: Histories, key: Seq<u8>, at: u64) -> Option<VersionView> {
    match visible(history_of(keys, key), at) {
        Some(v) if v.value is Some => Some(v),
        _ => None,
    }
}

/// The histories after one operation of the transaction `lsn`.
pub open spec fn apply_op(keys: Histories, lsn: u64, key: Seq<u8>, op: WalOpView) -> Histories {
    keys.insert(key, history_of(keys, key).push(VersionView { lsn, value: written(op) }))
}

/// The histories after the first `n` operations of the transaction `lsn`.
pub open spec fn apply_ops(keys: Histories, lsn: u64, ops: KeyedOps, n: int) -> Histories
    decreases n,
{
    if n <= 0 {
        keys
    } else {
        apply_op(apply_ops(keys, lsn, ops, n - 1), lsn, ops[n - 1].0, ops[n - 1].1)
    }
}

/// The condition of an operation, if it has one, holds.
pub open spec fn holds(keys: Histories, key: Seq<u8>, op: WalOpView) -> bool {
    match op {
        WalOpView::Cas { expected, .. } => live(keys, key) == expected,
        _ => true,
    }
}

/// The conditions of the first `n` operations hold.
pub open spec fn all_hold(keys: Histories, ops: KeyedOps, n: int) -> bool {
    forall|i: int| 0 <= i < n ==> holds(keys, (#[trigger] ops[i]).0, ops[i].1)
}

/// The condition of the operation `i` holds once those before it have been applied.
pub open spec fn step_holds(keys: Histories, lsn: u64, ops: KeyedOps, i: int) -> bool {
    holds(apply_ops(keys, lsn, ops, i), ops[i].0, ops[i].1)
}

/// The conditions of the first `n` operations hold, each once those before it have been applied.
pub open spec fn replays(keys: Histories, lsn: u64, ops: KeyedOps, n: int) -> bool {
    forall|i: int| 0 <= i < n ==> #[trigger] step_holds(keys, lsn, ops, i)
}

/// The table after a log entry.
pub open spec fn applied(m: MemView, e: WalEntryView) -> MemView {
    MemView { keys: apply_ops(m.keys, e.lsn, e.ops, e.ops.len() as int), last_lsn: e.lsn }
}

/// The keys that have a value.
pub open spec fn live_keys(keys: Histories) -> Set<Seq<u8>> {
    keys.dom().filter(|k: Seq<u8>| live(keys, k) is Some)
}

/// What is said of a committed entry whose condition does not hold in replay.
pub open spec fn replay_fault(lsn: u64) -> KvFault {
    KvFault::CorruptWal {
        offset: 0,
        message: "CAS precondition failed while replaying committed LSN "@ + text::decimal(
            lsn as nat,
        ),
    }
}

/// Applying operations on other keys leaves the history of a key alone.
pub proof fn lemma_apply_other(keys: Histories, lsn: u64, ops: KeyedOps, n: int, k: Seq<u8>)
    requires
        0 <= n <= ops.len(),
        forall|i: int| 0 <= i < n ==> (#[trigger] ops[i]).0 != k,
    ensures
        history_of(apply_ops(keys, lsn, ops, n), k) == history_of(keys, k),
        apply_ops(keys, lsn, ops, n).dom().contains(k) <==> keys.dom().contains(k),
    decreases n,
{
    if n > 0 {
        lemma_apply_other(keys, lsn, ops, n - 1, k);
        assert(ops[n - 1].0 != k);
    }
}

/// Applying operations with distinct keys adds one version to the history of each.
pub proof fn lemma_apply_own(keys: Histories, lsn: u64, ops: KeyedOps, n: int, i: int)
    requires
        0 <= i < n <= ops.len(),
        distinct(ops),
    ensures
        apply_ops(keys, lsn, ops, n).dom().contains(ops[i].0),
        apply_ops(keys, lsn, ops, n)[ops[i].0] == history_of(keys, ops[i].0).push(
            VersionView { lsn, value: written(ops[i].1) },
        ),
    decreases n,
{
    if i < n - 1 {
        lemma_apply_own(keys, lsn, ops, n - 1, i);
        assert(ops[i].0 != ops[n - 1].0);
    } else {
        assert forall|j: int| 0 <= j < n - 1 implies (#[trigger] ops[j]).0 != ops[n - 1].0 by {
        }
        lemma_apply_other(keys, lsn, ops, n - 1, ops[n - 1].0);
    }
}

/// Where no key occurs twice, an operation finds its key as it was before all of them.
pub proof fn lemma_replays(keys: Histories, lsn: u64, ops: KeyedOps, n: int)
    requires
        0 <= n <= ops.len(),
        distinct(ops),
    ensures
        replays(keys, lsn, ops, n) <==> all_hold(keys, ops, n),
{
    assert forall|i: int| 0 <= i < n implies step_holds(keys, lsn, ops, i) == holds(
        keys,
        (#[trigger] ops[i]).0,
        ops[i].1,
    ) by {
        assert forall|j: int| 0 <= j < i implies (#[trigger] ops[j]).0 != ops[i].0 by {
        }
        lemma_apply_other(keys, lsn, ops, i, ops[i].0);
    }
    if replays(keys, lsn, ops, n) {
        assert forall|i: int| 0 <= i < n implies holds(keys, (#[trigger] ops[i]).0, ops[i].1) by {
            assert(step_holds(keys, lsn, ops, i));
        }
    }
    if all_hold(keys, ops, n) {
        assert forall|i: int| 0 <= i < n implies #[trigger] step_holds(keys, lsn, ops, i) by {
            assert(holds(keys, ops[i].0, ops[i].1));
        }
    }
}

/// The histories of a table stay in order when the next transaction is applied.
pub proof fn lemma_apply_wf(m: MemView, ops: KeyedOps, n: int)
    requires
        m.wf(),
        m.last_lsn < u64::MAX,
        0 <= n <= ops.len(),
    ensures
        ({
            let lsn = (m.last_lsn + 1) as u64;
            MemView { keys: apply_ops(m.keys, lsn, ops, n), last_lsn: lsn }.wf()
        }),
    decreases n,
{
    let lsn = (m.last_lsn + 1) as u64;
    let after = apply_ops(m.keys, lsn, ops, n);
    if n > 0 {
        lemma_apply_wf(m, ops, n - 1);
        let before = MemView { keys: apply_ops(m.keys, lsn, ops, n - 1), last_lsn: lsn };
        assert forall|k: Seq<u8>| #[trigger] after.dom().contains(k) implies history_ok(
            after[k],
            lsn,
        ) by {
            assert(before.keys.dom().contains(k) || k == ops[n - 1].0);
            if before.keys.dom().contains(k) {
                assert(history_ok(before.keys[k], lsn));
            }
        }
    } else {
        assert forall|k: Seq<u8>| #[trigger] after.dom().contains(k) implies history_ok(
            after[k],
            lsn,
        ) by {
            assert(m.keys.dom().contains(k));
        }
    }
}

/// No version of a key repeats an LSN when a transaction with distinct keys is applied.
pub proof fn lemma_apply_strict(m: MemView, ops: KeyedOps, n: int)
    requires
        m.strict(),
        m.last_lsn < u64::MAX,
        0 <= n <= ops.len(),
        distinct(ops),
    ensures
        ({
            let lsn = (m.last_lsn + 1) as u64;
            MemView { keys: apply_ops(m.keys, lsn, ops, n), last_lsn: lsn }.strict()
        }),
{
    let lsn = (m.last_lsn + 1) as u64;
    let after = apply_ops(m.keys, lsn, ops, n);
    lemma_apply_wf(m, ops, n);
    assert forall|k: Seq<u8>| #[trigger] after.dom().contains(k) implies increasing(after[k]) by {
        if exists|i: int| 0 <= i < n && (#[trigger] ops[i]).0 == k {
            let i = choose|i: int| 0 <= i < n && (#[trigger] ops[i]).0 == k;
            lemma_apply_own(m.keys, lsn, ops, n, i);
            if m.keys.dom().contains(k) {
                assert(history_ok(m.keys[k], m.last_lsn));
            }
        } else {
            lemma_apply_other(m.keys, lsn, ops, n, k);
        }
    }
}

/// Every history can be searched by halves, and takes a version of the next transaction at its end.
spec fn searchable(keys: Histories, last: u64) -> bool {
    forall|k: Seq<u8>| #[trigger]
        keys.dom().contains(k) ==> ascending(keys[k]) && forall|i: int|
            0 <= i < keys[k].len() ==> (#[trigger] keys[k][i]).lsn <= last + 1
}

/// The table of versioned keys.
#[derive(Debug)]
pub struct MemTable {
    /// Version history per key, ordered oldest -> newest.
    keys: KeyMap<History>,
    last_lsn: u64,
    /// No history goes back to a smaller LSN.
    in_order: bool,
}

impl View for MemTable {
    type V = MemView;

    closed spec fn view(&self) -> MemView {
        MemView { keys: self.keys@, last_lsn: self.last_lsn }
    }
}

impl MemTable {
    /// The keys are kept in order, and the histories too where the table says so.
    pub closed spec fn wf(&self) -> bool {
        self.keys.wf() && (self.in_order ==> searchable(self@.keys, self.last_lsn))
    }

    /// A table that holds nothing.
    pub fn empty() -> (r: MemTable)
        ensures
            r.wf(),
            r@ == (MemView { keys: Map::empty(), last_lsn: 0 }),
    {
        MemTable { keys: KeyMap::new(), last_lsn: 0, in_order: true }
    }

    /// Adds a version to the history of a key.
    fn push_version(&mut self, key: &[u8], version: Version)
        requires
            old(self).wf(),
            version@.lsn == old(self)@.last_lsn + 1,
        ensures
            final(self).wf(),
            final(self)@.last_lsn == old(self)@.last_lsn,
            final(self)@.keys == old(self)@.keys.insert(
                key@,
                history_of(old(self)@.keys, key@).push(version@),
            ),
    {
        let (found, at) = self.keys.find(key);
        let ghost before = self.keys;
        if found {
            let ghost h = before.val_seq()[at as int];
            let slot = self.keys.val_mut(at);
            slot.versions.push(version);
            proof {
                before.lemma_entries();
                self.keys.lemma_entries();
                let after = self.keys;
                assert(after.val_seq()[at as int]@ =~= h@.push(version@));
                assert(before@[key@] == h@);
                assert(after@.dom() =~= before@.insert(key@, h@.push(version@)).dom());
                assert forall|k: Seq<u8>| after@.dom().contains(k) implies after@[k]
                    == before@.insert(key@, h@.push(version@))[k] by {
                    let i = after.key_seq().index_of(k);
                    assert(after.key_seq().contains(k));
                    assert(after.key_seq()[i] == k);
                    assert(after@[after.key_seq()[i]] == after.val_seq()[i]@);
                    assert(before@[before.key_seq()[i]] == before.val_seq()[i]@);
                }
                assert(after@ =~= before@.insert(key@, h@.push(version@)));
            }
        } else {
            let mut versions: Vec<Version> = Vec::new();
            versions.push(version);
            let history = History { versions };
            assert(history@ =~= Seq::<VersionView>::empty().push(version@));
            self.keys.insert(order::copy_bytes(key), history);
        }
        proof {
            let after = self@.keys;
            if self.in_order {
                assert forall|k: Seq<u8>| #[trigger] after.dom().contains(k) implies ascending(
                    after[k],
                ) && forall|i: int|
                    0 <= i < after[k].len() ==> (#[trigger] after[k][i]).lsn <= self.last_lsn
                        + 1 by {
                    assert(before@.dom().contains(k) || k == key@);
                    if before@.dom().contains(k) {
                        assert(ascending(before@[k]));
                    }
                }
            }
        }
    }

    /// Applies the next log entry. CAS entries are revalidated: a committed CAS had a matching value
    /// at commit time, so it must match while rebuilding state in LSN order. Where one does not,
    /// the operations before it have been applied.
    pub fn apply(&mut self, entry: &WalEntry) -> (r: Result<(), KvError>)
        requires
            old(self).wf(),
            entry.lsn == old(self)@.last_lsn + 1,
        ensures
            final(self).wf(),
            match r {
                Ok(_) => {
                    &&& replays(
                        old(self)@.keys,
                        entry.lsn,
                        entry@.ops,
                        entry@.ops.len() as int,
                    )
                    &&& final(self)@ == applied(old(self)@, entry@)
                },
                Err(e) => {
                    &&& e@ == replay_fault(entry.lsn)
                    &&& final(self)@.last_lsn == old(self)@.last_lsn
                    &&& exists|i: int|
                        {
                            &&& 0 <= i < entry@.ops.len()
                            &&& replays(old(self)@.keys, entry.lsn, entry@.ops, i)
                            &&& !#[trigger] step_holds(
                                old(self)@.keys,
                                entry.lsn,
                                entry@.ops,
                                i,
                            )
                            &&& final(self)@.keys == apply_ops(
                                old(self)@.keys,
                                entry.lsn,
                                entry@.ops,
                                i,
                            )
                        }
                },
            },
    {
        let ghost start = self@;
        let ghost ops = entry@.ops;
        let mut i: usize = 0;
        while i < entry.ops.len()
            invariant
                i <= entry.ops@.len(),
                ops == op_views(entry.ops@),
                entry@.ops == ops,
                start == old(self)@,
                entry.lsn == start.last_lsn + 1,
                self.wf(),
                self@.last_lsn == start.last_lsn,
                self@.keys == apply_ops(start.keys, entry.lsn, ops, i as int),
                replays(start.keys, entry.lsn, ops, i as int),
            decreases entry.ops@.len() - i,
        {
            let (key, op) = (&entry.ops[i].0, &entry.ops[i].1);
            proof {
                assert(ops[i as int] == (key@, op@));
            }
            if let WalOp::Cas { expected, .. } = op {
                let matched: bool = match self.live_value(key.as_slice()) {
                    Some(v) => table::same_option(Some(v.as_slice()), expected),
                    None => table::same_option(None, expected),
                };
                if !matched {
                    let mut s = "CAS precondition failed while replaying committed LSN ".to_string();
                    s.append(text::number_text(entry.lsn).as_str());
                    proof {
                        assert(!step_holds(start.keys, entry.lsn, ops, i as int));
                    }
                    return Err(KvError::CorruptWal { offset: 0, message: s });
                }
            }
            assert(step_holds(start.keys, entry.lsn, ops, i as int));
            self.push_version(key.as_slice(), op.version(entry.lsn));
            i += 1;
        }
        self.last_lsn = entry.lsn;
        Ok(())
    }

    /// The last version of a key.
    fn latest(&self, key: &[u8]) -> (r: Option<&Version>)
        requires
            self.wf(),
        ensures
            match r {
                Some(v) => history_of(self@.keys, key@).len() > 0 && v@ == history_of(
                    self@.keys,
                    key@,
                ).last(),
                None => history_of(self@.keys, key@).len() == 0,
            },
    {
        match self.keys.get(key) {
            None => None,
            Some(h) => {
                let n: usize = h.versions.len();
                if n == 0 {
                    return None;
                }
                assert(h@.last() == h.versions@[n - 1]@);
                Some(&h.versions[n - 1])
            },
        }
    }

    /// The latest value of a key.
    pub fn live_value(&self, key: &[u8]) -> (r: Option<&Vec<u8>>)
        requires
            self.wf(),
        ensures
            match r {
                Some(v) => live(self@.keys, key@) == Some(v@),
                None => live(self@.keys, key@) is None,
            },
    {
        match self.latest(key) {
            Some(Version::Put { value, .. }) => Some(value),
            Some(Version::Delete { .. }) => None,
            None => None,
        }
    }

    /// Where the version of a history that is visible at `at_lsn` stands. A history in order is
    /// searched by halves, any other from its end.
    fn find_version(&self, history: &History, at_lsn: u64) -> (r: Option<usize>)
        requires
            self.in_order ==> ascending(history@),
        ensures
            match r {
                Some(i) => i < history@.len() && visible(history@, at_lsn) == Some(
                    history@[i as int],
                ),
                None => visible(history@, at_lsn) is None,
            },
    {
        let ghost h = history@;
        let mut lo: usize = 0;
        let mut hi: usize = history.versions.len();
        if !self.in_order {
            assert(h.take(hi as int) =~= h);
            while hi > 0
                invariant
                    h == history@,
                    hi <= h.len(),
                    history.versions@.len() == h.len(),
                    visible(h.take(hi as int), at_lsn) == visible(h, at_lsn),
                decreases hi,
            {
                assert(h[hi - 1] == history.versions@[hi - 1]@);
                assert(h.take(hi as int).last() == h[hi - 1]);
                assert(h.take(hi as int).drop_last() =~= h.take(hi - 1));
                if history.versions[hi - 1].lsn() <= at_lsn {
                    return Some(hi - 1);
                }
                hi -= 1;
            }
            return None;
        }
        while lo < hi
            invariant
                h == history@,
                ascending(h),
                lo <= hi <= h.len(),
                history.versions@.len() == h.len(),
                forall|i: int| 0 <= i < lo ==> (#[trigger] h[i]).lsn <= at_lsn,
                forall|i: int| hi <= i < h.len() ==> (#[trigger] h[i]).lsn > at_lsn,
            decreases hi - lo,
        {
            let mid: usize = lo + (hi - lo) / 2;
            assert(h[mid as int] == history.versions@[mid as int]@);
            if history.versions[mid].lsn() <= at_lsn {
                assert forall|i: int| 0 <= i < mid + 1 implies (#[trigger] h[i]).lsn <= at_lsn by {
                    if i < mid {
                        assert(h[i].lsn <= h[mid as int].lsn);
                    }
                }
                lo = mid + 1;
            } else {
                assert forall|i: int| mid <= i < h.len() implies (#[trigger] h[i]).lsn > at_lsn by {
                    if i > mid {
                        assert(h[mid as int].lsn <= h[i].lsn);
                    }
                }
                hi = mid;
            }
        }
        proof {
            lemma_visible(h, at_lsn, lo as int);
        }
        if lo == 0 {
            None
        } else {
            Some(lo - 1)
        }
    }

    /// Value visible at position `at_lsn`: the newest version with lsn <= at_lsn.
    pub fn value_at(&self, key: &[u8], at_lsn: u64) -> (r: Option<&Vec<u8>>)
        requires
            self.wf(),
        ensures
            match r {
                Some(v) => seen_at(self@.keys, key@, at_lsn) is Some && seen_at(
                    self@.keys,
                    key@,
                    at_lsn,
                )->Some_0.value == Some(v@),
                None => seen_at(self@.keys, key@, at_lsn) is None,
            },
    {
        match self.keys.get(key) {
            None => None,
            Some(h) => {
                assert(self@.keys.dom().contains(key@));
                match self.find_version(h, at_lsn) {
                    None => None,
                    Some(i) => {
                        assert(h@[i as int] == h.versions@[i as int]@);
                        match &h.versions[i] {
                            Version::Put { value, .. } => Some(value),
                            Version::Delete { .. } => None,
                        }
                    },
                }
            },
        }
    }

    /// LSN of the version visible at position `at_lsn`.
    pub fn version_at(&self, key: &[u8], at_lsn: u64) -> (r: Option<u64>)
        requires
            self.wf(),
        ensures
            r == match visible(history_of(self@.keys, key@), at_lsn) {
                Some(v) => Some(v.lsn),
                None => None,
            },
    {
        match self.keys.get(key) {
            None => None,
            Some(h) => {
                assert(self@.keys.dom().contains(key@));
                match self.find_version(h, at_lsn) {
                    None => None,
                    Some(i) => {
                        assert(h@[i as int] == h.versions@[i as int]@);
                        Some(h.versions[i].lsn())
                    },
                }
            },
        }
    }

    /// The number of keys that have a value.
    pub fn live_key_count(&self) -> (r: usize)
        requires
            self.wf(),
        ensures
            r == live_keys(self@.keys).len(),
            live_keys(self@.keys).finite(),
    {
        let ghost ks = self.keys.key_seq();
        let ghost keys = self@.keys;
        proof {
            self.keys.lemma_entries();
            assert(live_among(keys, ks.take(0)) =~= Set::empty());
        }
        let n: usize = self.keys.len();
        let mut count: usize = 0;
        let mut i: usize = 0;
        while i < n
            invariant
                i <= n,
                n == ks.len(),
                self.wf(),
                ks == self.keys.key_seq(),
                keys == self.keys@,
                ks.no_duplicates(),
                forall|j: int|
                    0 <= j < ks.len() ==> keys.dom().contains(#[trigger] ks[j]) && keys[ks[j]]
                        == self.keys.val_seq()[j]@,
                live_among(keys, ks.take(i as int)).finite(),
                count == live_among(keys, ks.take(i as int)).len(),
                count <= i,
            decreases n - i,
        {
            let h = self.keys.val_at(i);
            let m: usize = h.versions.len();
            let ghost before = live_among(keys, ks.take(i as int));
            let ghost after = live_among(keys, ks.take(i + 1));
            let is_live: bool = if m == 0 {
                false
            } else {
                assert(h@.last() == h.versions@[m - 1]@);
                match &h.versions[m - 1] {
                    Version::Put { .. } => true,
                    Version::Delete { .. } => false,
                }
            };
            proof {
                let k = ks[i as int];
                assert(is_live == (live(keys, k) is Some));
                let old_ks = ks.take(i as int);
                let new_ks = ks.take(i + 1);
                assert(new_ks =~= old_ks.push(k));
                assert(!old_ks.contains(k));
                assert forall|x: Seq<u8>| after.contains(x) <==> before.contains(x) || (x == k
                    && is_live) by {
                    if old_ks.contains(x) {
                        let j = choose|j: int| 0 <= j < old_ks.len() && old_ks[j] == x;
                        assert(new_ks[j] == x);
                    }
                    if x == k {
                        assert(new_ks[i as int] == x);
                    }
                    if new_ks.contains(x) && x != k {
                        let j = choose|j: int| 0 <= j < new_ks.len() && new_ks[j] == x;
                        assert(old_ks[j] == x);
                    }
                }
                if is_live {
                    assert(after =~= before.insert(k));
                } else {
                    assert(after =~= before);
                }
            }
            if is_live {
                count += 1;
            }
            i += 1;
        }
        proof {
            assert(ks.take(n as int) =~= ks);
            assert(live_among(keys, ks) =~= live_keys(keys));
        }
        count
    }

    /// The whole state, histories included.
    pub fn snapshot_data(&self) -> (r: SnapshotData)
        requires
            self.wf(),
        ensures
            r.wf(),
            r@ == self@,
    {
        SnapshotData {
            lsn: self.last_lsn,
            keys: copy_histories(&self.keys),
            in_order: self.in_order,
        }
    }
}

/// The keys of a sequence that have a value.
spec fn live_among(keys: Histories, ks: Seq<Seq<u8>>) -> Set<Seq<u8>> {
    ks.to_set().filter(|k: Seq<u8>| live(keys, k) is Some)
}

/// The visible version is the last one that is not beyond the position.
pub proof fn lemma_visible(h: Seq<VersionView>, at: u64, n: int)
    requires
        0 <= n <= h.len(),
        forall|i: int| 0 <= i < n ==> (#[trigger] h[i]).lsn <= at,
        forall|i: int| n <= i < h.len() ==> (#[trigger] h[i]).lsn > at,
    ensures
        n == 0 ==> visible(h, at) is None,
        n > 0 ==> visible(h, at) == Some(h[n - 1]),
    decreases h.len(),
{
    if h.len() > 0 && n < h.len() {
        let g = h.drop_last();
        assert forall|i: int| 0 <= i < n implies (#[trigger] g[i]).lsn <= at by {
            assert(g[i] == h[i]);
        }
        assert forall|i: int| n <= i < g.len() implies (#[trigger] g[i]).lsn > at by {
            assert(g[i] == h[i]);
        }
        lemma_visible(g, at, n);
    }
}

impl History {
    /// Copies the history.
    pub fn copy(&self) -> (r: History)
        ensures
            r@ == self@,
    {
        let mut versions: Vec<Version> = Vec::new();
        let mut i: usize = 0;
        while i < self.versions.len()
            invariant
                i <= self.versions@.len(),
                versions@.len() == i,
                forall|j: int| 0 <= j < i ==> (#[trigger] versions@[j])@ == self.versions@[j]@,
            decreases self.versions@.len() - i,
        {
            versions.push(self.versions[i].copy());
            i += 1;
        }
        let r = History { versions };
        assert(r@ =~= self@);
        r
    }
}

/// Copies a map of histories.
fn copy_histories(keys: &KeyMap<History>) -> (r: KeyMap<History>)
    requires
        keys.wf(),
    ensures
        r.wf(),
        r@ == keys@,
{
    let ghost ks = keys.key_seq();
    let mut r: KeyMap<History> = KeyMap::new();
    let n: usize = keys.len();
    let mut i: usize = 0;
    proof {
        keys.lemma_entries();
    }
    while i < n
        invariant
            i <= n,
            n == ks.len(),
            ks == keys.key_seq(),
            keys.wf(),
            forall|j: int|
                0 <= j < ks.len() ==> keys@[#[trigger] ks[j]] == keys.val_seq()[j]@,
            r.wf(),
            forall|k: Seq<u8>| #[trigger]
                r@.dom().contains(k) <==> exists|j: int| 0 <= j < i && ks[j] == k,
            forall|k: Seq<u8>| #[trigger] r@.dom().contains(k) ==> r@[k] == keys@[k],
        decreases n - i,
    {
        let ghost before = r@;
        r.insert(order::copy_bytes(keys.key_at(i).as_slice()), keys.val_at(i).copy());
        i += 1;
        proof {
            assert forall|k: Seq<u8>| #[trigger] r@.dom().contains(k) <==> exists|j: int|
                0 <= j < i && ks[j] == k by {
                if before.dom().contains(k) {
                    let j = choose|j: int| 0 <= j < i - 1 && ks[j] == k;
                    assert(ks[j] == k);
                }
                if exists|j: int| 0 <= j < i && ks[j] == k {
                    let j = choose|j: int| 0 <= j < i && ks[j] == k;
                    if j < i - 1 {
                        assert(before.dom().contains(k));
                    }
                }
            }
        }
    }
    proof {
        assert forall|k: Seq<u8>| r@.dom().contains(k) <==> keys@.dom().contains(k) by {
            if keys@.dom().contains(k) {
                assert(ks.contains(k));
            }
        }
        assert(r@ =~= keys@);
    }
    r
}

/// The whole state at one LSN.
#[derive(Debug)]
pub struct SnapshotData {
    lsn: u64,
    keys: KeyMap<History>,
    /// No history goes back to a smaller LSN.
    in_order: bool,
}

impl View for SnapshotData {
    type V = MemView;

    closed spec fn view(&self) -> MemView {
        MemView { keys: self.keys@, last_lsn: self.lsn }
    }
}

/// The histories of a list, a later one of a key in place of an earlier one.
pub open spec fn listed(v: Seq<(Vec<u8>, History)>) -> Histories
    decreases v.len(),
{
    if v.len() == 0 {
        Map::empty()
    } else {
        listed(v.drop_last()).insert(v.last().0@, v.last().1@)
    }
}

/// Whether no version has a smaller LSN than one before it, or one beyond `last`.
fn history_in_order(h: &History, last: u64) -> (r: bool)
    ensures
        r ==> ascending(h@) && forall|i: int| 0 <= i < h@.len() ==> (#[trigger] h@[i]).lsn <= last,
{
    let n: usize = h.versions.len();
    let mut i: usize = 0;
    let mut before: u64 = 0;
    while i < n
        invariant
            n == h.versions@.len(),
            i <= n,
            forall|a: int, b: int|
                0 <= a < b < i ==> (#[trigger] h@[a]).lsn <= (#[trigger] h@[b]).lsn,
            forall|a: int| 0 <= a < i ==> (#[trigger] h@[a]).lsn <= before,
            before <= last,
        decreases n - i,
    {
        let lsn: u64 = h.versions[i].lsn();
        assert(h@[i as int].lsn == lsn);
        if lsn < before || lsn > last {
            return false;
        }
        before = lsn;
        i += 1;
    }
    true
}

impl SnapshotData {
    /// The keys are kept in order, and the histories too where the snapshot says so.
    pub closed spec fn wf(&self) -> bool {
        self.keys.wf() && (self.in_order ==> searchable(self@.keys, self.lsn))
    }

    /// A snapshot from its LSN and its histories, which are taken as they were read from disk. A
    /// history may be empty, which is a key without a value, or out of order.
    pub fn new(lsn: u64, list: Vec<(Vec<u8>, History)>) -> (r: SnapshotData)
        ensures
            r.wf(),
            r@ == (MemView { keys: listed(list@), last_lsn: lsn }),
    {
        let mut keys: KeyMap<History> = KeyMap::new();
        let mut in_order: bool = true;
        let mut i: usize = 0;
        assert(list@.take(0) =~= Seq::empty());
        while i < list.len()
            invariant
                i <= list@.len(),
                keys.wf(),
                keys@ == listed(list@.take(i as int)),
                in_order ==> searchable(keys@, lsn),
            decreases list@.len() - i,
        {
            assert(list@.take(i + 1).drop_last() =~= list@.take(i as int));
            assert(list@.take(i + 1).last() == list@[i as int]);
            if !history_in_order(&list[i].1, lsn) {
                in_order = false;
            }
            keys.insert(order::copy_bytes(list[i].0.as_slice()), list[i].1.copy());
            i += 1;
        }
        assert(list@.take(i as int) =~= list@);
        SnapshotData { lsn, keys, in_order }
    }

    /// LSN of the snapshot.
    pub fn lsn(&self) -> (r: u64)
        ensures
            r == self@.last_lsn,
    {
        self.lsn
    }

    /// The number of keys with a history.
    pub fn len(&self) -> (r: usize)
        requires
            self.wf(),
        ensures
            r == self@.keys.dom().len(),
            self@.keys.dom().finite(),
    {
        proof {
            self.keys.lemma_entries();
        }
        self.keys.len()
    }

    /// The `i`-th key in order, and its history.
    pub fn at(&self, i: usize) -> (r: (&Vec<u8>, &History))
        requires
            self.wf(),
            i < self@.keys.dom().len(),
        ensures
            r.0@ == order::sorted_keys(self@.keys.dom())[i as int],
            r.1@ == self@.keys[r.0@],
    {
        proof {
            self.keys.lemma_entries();
        }
        let k = self.keys.key_at(i);
        assert(self.keys@[self.keys.key_seq()[i as int]] == self.keys.val_seq()[i as int]@);
        (k, self.keys.val_at(i))
    }
}

/// The table after a log entry in recovery. Entries that the snapshot at `base` covers may stand in
/// front and are skipped; from then on each entry must be the next one.
pub open spec fn recover_one(m: MemView, base: u64, e: WalEntryView) -> Result<MemView, KvFault> {
    if m.last_lsn == base && e.lsn <= base {
        Ok(m)
    } else if e.lsn != m.last_lsn + 1 {
        Err(
            KvFault::CorruptWal {
                offset: 0,
                message: "LSN "@ + text::decimal(e.lsn as nat) + " follows LSN "@ + text::decimal(
                    m.last_lsn as nat,
                ),
            },
        )
    } else if !replays(m.keys, e.lsn, e.ops, e.ops.len() as int) {
        Err(replay_fault(e.lsn))
    } else {
        Ok(applied(m, e))
    }
}

/// The table after log entries, in order, up to the first that fails.
pub open spec fn recover_all(m: MemView, es: Seq<WalEntryView>) -> Result<MemView, KvFault>
    decreases es.len(),
{
    if es.len() == 0 {
        Ok(m)
    } else {
        match recover_all(m, es.drop_last()) {
            Ok(u) => recover_one(u, m.last_lsn, es.last()),
            Err(e) => Err(e),
        }
    }
}

/// The views of a sequence of log entries.
pub open spec fn entry_views(v: Seq<WalEntry>) -> Seq<WalEntryView> {
    v.map_values(|e: WalEntry| e@)
}

/// The table that recovery starts from: the snapshot, or an empty table.
pub open spec fn base_table(snapshot: Option<SnapshotData>) -> MemView {
    match snapshot {
        Some(s) => s@,
        None => MemView { keys: Map::empty(), last_lsn: 0 },
    }
}

/// A failure in recovery stays.
pub proof fn lemma_recover_stops(m: MemView, es: Seq<WalEntryView>, n: int)
    requires
        0 <= n <= es.len(),
        recover_all(m, es.take(n)) is Err,
    ensures
        recover_all(m, es) == recover_all(m, es.take(n)),
    decreases es.len() - n,
{
    if n < es.len() {
        assert(es.take(n + 1).drop_last() =~= es.take(n));
        lemma_recover_stops(m, es, n + 1);
    } else {
        assert(es.take(n) =~= es);
    }
}

/// One of the first `n` operations has this key.
pub open spec fn key_among(ops: KeyedOps, n: int, key: Seq<u8>) -> bool {
    exists|j: int| 0 <= j < n && (#[trigger] ops[j]).0 == key
}

/// Puts a key among those that have occurred, and says whether it is new.
fn note_key(seen: &mut KeyMap<Seen>, key: &[u8], Ghost(ops): Ghost<KeyedOps>, Ghost(i): Ghost<int>) -> (r:
    bool)
    requires
        old(seen).wf(),
        0 <= i < ops.len(),
        ops[i].0 == key@,
        forall|k: Seq<u8>| #[trigger] old(seen)@.dom().contains(k) <==> key_among(ops, i, k),
    ensures
        final(seen).wf(),
        r == !key_among(ops, i, key@),
        forall|k: Seq<u8>| #[trigger] final(seen)@.dom().contains(k) <==> key_among(ops, i + 1, k),
{
    let ghost before = seen@;
    let known: bool = seen.contains(key);
    if !known {
        seen.insert(order::copy_bytes(key), Seen);
    }
    proof {
        assert forall|k: Seq<u8>| #[trigger] seen@.dom().contains(k) <==> key_among(
            ops,
            i + 1,
            k,
        ) by {
            if before.dom().contains(k) {
                let j = choose|j: int| 0 <= j < i && (#[trigger] ops[j]).0 == k;
                assert(ops[j].0 == k);
            }
            if k == key@ {
                assert(ops[i].0 == k);
            }
            if key_among(ops, i + 1, k) {
                let j = choose|j: int| 0 <= j < i + 1 && (#[trigger] ops[j]).0 == k;
                if j < i {
                    assert(key_among(ops, i, k));
                    assert(before.dom().contains(k));
                }
            }
        }
        assert(before.dom().contains(key@) <==> key_among(ops, i, key@));
    }
    !known
}

/// What is wrong with a key, if anything.
pub open spec fn key_fault(c: ConfigView, key: Seq<u8>) -> Option<KvFault> {
    if key.len() == 0 {
        Some(KvFault::EmptyKey)
    } else if key.len() > c.max_key_bytes {
        Some(KvFault::KeyTooLarge { size: key.len(), limit: c.max_key_bytes as nat })
    } else {
        None
    }
}

/// What is wrong with a value, if anything.
pub open spec fn value_fault(c: ConfigView, value: Seq<u8>) -> Option<KvFault> {
    if value.len() > c.max_value_bytes {
        Some(KvFault::ValueTooLarge { size: value.len(), limit: c.max_value_bytes as nat })
    } else {
        None
    }
}

/// What is wrong with the operation at `i`: its key, its value, or that its key has occurred
/// before.
pub open spec fn op_fault(c: ConfigView, ops: KeyedOps, i: int) -> Option<KvFault> {
    let bad_value = match written(ops[i].1) {
        Some(v) => value_fault(c, v),
        None => None,
    };
    if key_fault(c, ops[i].0) is Some {
        key_fault(c, ops[i].0)
    } else if bad_value is Some {
        bad_value
    } else if key_among(ops, i, ops[i].0) {
        Some(KvFault::ContradictoryKey(error::lossy(ops[i].0)))
    } else {
        None
    }
}

/// The first thing wrong among the first `n` operations.
pub open spec fn ops_fault(c: ConfigView, ops: KeyedOps, n: int) -> Option<KvFault>
    decreases n,
{
    if n <= 0 {
        None
    } else {
        match ops_fault(c, ops, n - 1) {
            Some(e) => Some(e),
            None => op_fault(c, ops, n - 1),
        }
    }
}

/// Why a batch is malformed, if it is.
pub open spec fn batch_fault(c: ConfigView, ops: KeyedOps) -> Option<KvFault> {
    if ops.len() == 0 {
        Some(KvFault::EmptyTransaction)
    } else if ops.len() > c.max_txn_ops {
        Some(KvFault::TooManyOperations { count: ops.len(), limit: c.max_txn_ops as nat })
    } else {
        ops_fault(c, ops, ops.len() as int)
    }
}

/// The first condition among the first `n` operations that does not hold.
pub open spec fn conflict(keys: Histories, ops: KeyedOps, n: int) -> Option<KvFault>
    decreases n,
{
    if n <= 0 {
        None
    } else {
        match conflict(keys, ops, n - 1) {
            Some(e) => Some(e),
            None => if holds(keys, ops[n - 1].0, ops[n - 1].1) {
                None
            } else {
                Some(KvFault::CasConflict(error::lossy(ops[n - 1].0)))
            },
        }
    }
}

proof fn lemma_ops_fault_stops(c: ConfigView, ops: KeyedOps, n: int, m: int)
    requires
        n <= m,
        ops_fault(c, ops, n) is Some,
    ensures
        ops_fault(c, ops, m) == ops_fault(c, ops, n),
    decreases m - n,
{
    if n < m {
        lemma_ops_fault_stops(c, ops, n, m - 1);
    }
}

proof fn lemma_conflict_stops(keys: Histories, ops: KeyedOps, n: int, m: int)
    requires
        n <= m,
        conflict(keys, ops, n) is Some,
    ensures
        conflict(keys, ops, m) == conflict(keys, ops, n),
    decreases m - n,
{
    if n < m {
        lemma_conflict_stops(keys, ops, n, m - 1);
    }
}

/// There is no conflict exactly where every condition holds.
pub proof fn lemma_no_conflict(keys: Histories, ops: KeyedOps, n: int)
    requires
        0 <= n <= ops.len(),
    ensures
        conflict(keys, ops, n) is None <==> all_hold(keys, ops, n),
    decreases n,
{
    if n > 0 {
        lemma_no_conflict(keys, ops, n - 1);
        if all_hold(keys, ops, n) {
            assert(holds(keys, ops[n - 1].0, ops[n - 1].1));
            assert(all_hold(keys, ops, n - 1));
        }
        if conflict(keys, ops, n) is None {
            assert forall|i: int| 0 <= i < n implies holds(
                keys,
                (#[trigger] ops[i]).0,
                ops[i].1,
            ) by {
            }
        }
    }
}

proof fn lemma_sound_ops_distinct(c: ConfigView, ops: KeyedOps, n: int)
    requires
        0 <= n <= ops.len(),
        ops_fault(c, ops, n) is None,
    ensures
        forall|i: int, j: int|
            0 <= i < j < n ==> (#[trigger] ops[i]).0 != (#[trigger] ops[j]).0,
    decreases n,
{
    if n > 0 {
        lemma_sound_ops_distinct(c, ops, n - 1);
        assert forall|i: int, j: int| 0 <= i < j < n implies (#[trigger] ops[i]).0 != (
        #[trigger] ops[j]).0 by {
            if j == n - 1 && ops[i].0 == ops[j].0 {
                assert(key_among(ops, n - 1, ops[n - 1].0));
            }
        }
    }
}

/// An entry of a scan at a log position.
pub struct ScanView {
    pub key: Seq<u8>,
    pub value: Seq<u8>,
    pub version: u64,
}

impl View for KvEntry {
    type V = ScanView;

    open spec fn view(&self) -> ScanView {
        ScanView { key: self.key@, value: self.value@, version: self.version }
    }
}

/// What a reader gets of a key at a log position where it has a value.
pub open spec fn scan_entry(keys: Histories, at: u64, k: Seq<u8>) -> ScanView {
    ScanView {
        key: k,
        value: seen_at(keys, k, at)->Some_0.value->Some_0,
        version: seen_at(keys, k, at)->Some_0.lsn,
    }
}

/// The entries of keys that have a value at a log position, in the order of the keys given.
pub open spec fn entries_at(keys: Histories, ks: Seq<Seq<u8>>, at: u64) -> Seq<ScanView>
    decreases ks.len(),
{
    if ks.len() == 0 {
        Seq::empty()
    } else if seen_at(keys, ks.last(), at) is Some {
        entries_at(keys, ks.drop_last(), at).push(scan_entry(keys, at, ks.last()))
    } else {
        entries_at(keys, ks.drop_last(), at)
    }
}

/// The most entries that a scan gives: at least one.
pub open spec fn cut(all: Seq<ScanView>, limit: Option<usize>) -> Seq<ScanView> {
    match limit {
        None => all,
        Some(n) => {
            let most: int = if n == 0 {
                1
            } else {
                n as int
            };
            if all.len() <= most {
                all
            } else {
                all.take(most)
            }
        },
    }
}

/// The lower end of a scan.
pub open spec fn start_bound(start: Option<&[u8]>) -> BoundView {
    match start {
        Some(s) => BoundView::Included(s@),
        None => BoundView::Unbounded,
    }
}

/// The upper end of a scan.
pub open spec fn end_bound(end: Option<&[u8]>) -> BoundView {
    match end {
        Some(e) => BoundView::Excluded(e@),
        None => BoundView::Unbounded,
    }
}

/// What a scan of some keys gives at a log position.
pub open spec fn scanned(
    m: MemView,
    ks: Set<Seq<u8>>,
    limit: Option<usize>,
    at_lsn: Option<u64>,
) -> Result<(Seq<ScanView>, u64), KvFault> {
    let at = match at_lsn {
        Some(lsn) => lsn,
        None => m.last_lsn,
    };
    if at > m.last_lsn {
        Err(KvFault::VersionNotFound(at))
    } else {
        Ok((cut(entries_at(m.keys, order::sorted_keys(ks), at), limit), at))
    }
}

/// The views of the entries of a scan.
pub open spec fn scan_views(v: Seq<KvEntry>) -> Seq<ScanView> {
    v.map_values(|e: KvEntry| e@)
}

proof fn lemma_entries_in_order(keys: Histories, ks: Seq<Seq<u8>>, at: u64)
    requires
        order::strictly_sorted(ks),
    ensures
        forall|i: int, j: int|
            0 <= i < j < entries_at(keys, ks, at).len() ==> order::key_lt(
                (#[trigger] entries_at(keys, ks, at)[i]).key,
                (#[trigger] entries_at(keys, ks, at)[j]).key,
            ),
        forall|i: int|
            0 <= i < entries_at(keys, ks, at).len() ==> ks.contains(
                (#[trigger] entries_at(keys, ks, at)[i]).key,
            ),
    decreases ks.len(),
{
    if ks.len() > 0 {
        let less = ks.drop_last();
        let last = ks.last();
        let before = entries_at(keys, less, at);
        let all = entries_at(keys, ks, at);
        lemma_entries_in_order(keys, less, at);
        assert forall|i: int| 0 <= i < before.len() implies ks.contains(
            (#[trigger] before[i]).key,
        ) && order::key_lt(before[i].key, last) by {
            let x = choose|x: int| 0 <= x < less.len() && less[x] == before[i].key;
            assert(ks[x] == before[i].key);
            assert(order::key_lt(ks[x], ks[ks.len() - 1]));
        }
        assert(ks[ks.len() - 1] == last);
        assert forall|i: int| 0 <= i < all.len() implies ks.contains((#[trigger] all[i]).key) by {
            if i < before.len() {
                assert(all[i] == before[i]);
            }
        }
        assert forall|i: int, j: int| 0 <= i < j < all.len() implies order::key_lt(
            (#[trigger] all[i]).key,
            (#[trigger] all[j]).key,
        ) by {
            assert(all[i] == before[i]);
            if j < before.len() {
                assert(all[j] == before[j]);
                assert(order::key_lt(before[i].key, before[j].key));
            }
        }
    }
}

/// A scan gives its entries in the order of their keys, each key once, and none but keys that were
/// asked for.
pub proof fn lemma_scan_in_order(
    m: MemView,
    ks: Set<Seq<u8>>,
    limit: Option<usize>,
    at_lsn: Option<u64>,
)
    requires
        ks.finite(),
        scanned(m, ks, limit, at_lsn) is Ok,
    ensures
        ({
            let out = scanned(m, ks, limit, at_lsn)->Ok_0.0;
            &&& forall|i: int, j: int|
                0 <= i < j < out.len() ==> order::key_lt(
                    (#[trigger] out[i]).key,
                    (#[trigger] out[j]).key,
                )
            &&& forall|i: int| 0 <= i < out.len() ==> ks.contains((#[trigger] out[i]).key)
        }),
{
    let at = scanned(m, ks, limit, at_lsn)->Ok_0.1;
    let out = scanned(m, ks, limit, at_lsn)->Ok_0.0;
    let sorted = order::sorted_keys(ks);
    let all = entries_at(m.keys, sorted, at);
    order::lemma_sorted_exists(ks);
    lemma_entries_in_order(m.keys, sorted, at);
    assert forall|i: int| 0 <= i < out.len() implies ks.contains((#[trigger] out[i]).key) by {
        assert(out[i] == all[i]);
        assert(sorted.to_set().contains(all[i].key));
    }
    assert forall|i: int, j: int| 0 <= i < j < out.len() implies order::key_lt(
        (#[trigger] out[i]).key,
        (#[trigger] out[j]).key,
    ) by {
        assert(out[i] == all[i] && out[j] == all[j]);
    }
}

proof fn lemma_entries_grow(keys: Histories, ks: Seq<Seq<u8>>, at: u64, n: int)
    requires
        0 <= n <= ks.len(),
    ensures
        entries_at(keys, ks.take(n), at).is_prefix_of(entries_at(keys, ks, at)),
    decreases ks.len() - n,
{
    if n < ks.len() {
        lemma_entries_grow(keys, ks, at, n + 1);
        assert(ks.take(n + 1).drop_last() =~= ks.take(n));
        let a = entries_at(keys, ks.take(n), at);
        let b = entries_at(keys, ks.take(n + 1), at);
        let c = entries_at(keys, ks, at);
        assert(a =~= b.take(a.len() as int));
        assert(b =~= c.take(b.len() as int));
        assert(a =~= c.take(a.len() as int));
    } else {
        assert(ks.take(n) =~= ks);
        let c = entries_at(keys, ks, at);
        assert(c =~= c.take(c.len() as int));
    }
}

/// The state of a store.
pub struct StoreView {
    pub mem: MemView,
    pub config: ConfigView,
    pub wal_size_bytes: u64,
    pub last_snapshot_lsn: u64,
    pub compacting: bool,
}

/// The store: the memtable, and what is known of the files that back it.
#[derive(Debug)]
pub struct Store {
    mem: MemTable,
    wal_size_bytes: u64,
    last_snapshot_lsn: u64,
    compacting: bool,
    pub config: Config,
}

impl View for Store {
    type V = StoreView;

    closed spec fn view(&self) -> StoreView {
        StoreView {
            mem: self.mem@,
            config: self.config@,
            wal_size_bytes: self.wal_size_bytes,
            last_snapshot_lsn: self.last_snapshot_lsn,
            compacting: self.compacting,
        }
    }
}

impl StoreView {
    /// The store once a compaction has begun.
    pub open spec fn begun(self) -> StoreView {
        StoreView { compacting: true, ..self }
    }

    /// Something was committed after the last snapshot.
    pub open spec fn has_newer(self) -> bool {
        self.mem.last_lsn > self.last_snapshot_lsn
    }

    /// The position that a compaction captures and reports.
    pub open spec fn position(self) -> u64 {
        self.mem.last_lsn
    }

    /// The store once a snapshot is published and the log rewritten.
    pub open spec fn published(self, snapshot_lsn: u64, wal_size_bytes: u64) -> StoreView {
        StoreView { last_snapshot_lsn: snapshot_lsn, wal_size_bytes, ..self }
    }

    /// The store once no compaction is running any more.
    pub open spec fn ended(self) -> StoreView {
        StoreView { compacting: false, ..self }
    }

    /// The store after a whole compaction that no commit overlaps. `wal_size_bytes` is the length
    /// of the log where it was rewritten.
    pub open spec fn compacted(self, wal_size_bytes: u64) -> StoreView {
        if self.begun().has_newer() {
            self.begun().published(self.begun().position(), wal_size_bytes).ended()
        } else {
            self.begun().ended()
        }
    }
}

/// How a call for a compaction goes on.
#[derive(Debug, Clone, Copy, PartialEq, Eq, Structural)]
pub enum CompactStart {
    /// The caller runs the compaction.
    Run,
    /// One is running already: the caller waits for it and reports its position.
    Wait,
}

/// What a compaction has to do.
#[derive(Debug)]
pub enum CompactPlan {
    /// Nothing is newer than the last snapshot; this is the position reached.
    NothingNewer(u64),
    /// This state is to be written as the new snapshot.
    Write(SnapshotData),
}

impl Store {
    /// The memtable is well-formed, and no snapshot is newer than the last commit.
    pub closed spec fn wf(&self) -> bool {
        self.mem.wf() && self.last_snapshot_lsn <= self.mem.last_lsn
    }

    /// The store holds finitely many keys, so that a scan gives them in ascending order, and no
    /// snapshot is newer than the last commit.
    pub proof fn lemma_wf(&self)
        requires
            self.wf(),
        ensures
            self@.mem.keys.dom().finite(),
            self@.last_snapshot_lsn <= self@.mem.last_lsn,
    {
        self.mem.keys.lemma_entries();
    }

    /// Open the store from what its files hold: the latest snapshot, the entries of the log, and the
    /// size of the log. The log is replayed on top of the snapshot.
    pub fn open(
        config: Config,
        snapshot: Option<SnapshotData>,
        entries: Vec<WalEntry>,
        wal_size_bytes: u64,
    ) -> (r: Result<Store, KvError>)
        requires
            snapshot is Some ==> snapshot->Some_0.wf(),
        ensures
            match r {
                Ok(s) => {
                    &&& s.wf()
                    &&& recover_all(base_table(snapshot), entry_views(entries@)) == Ok::<
                        _,
                        KvFault,
                    >(s@.mem)
                    &&& s@.config == config@
                    &&& s@.wal_size_bytes == wal_size_bytes
                    &&& s@.last_snapshot_lsn == base_table(snapshot).last_lsn
                    &&& !s@.compacting
                },
                Err(e) => recover_all(base_table(snapshot), entry_views(entries@)) == Err::<
                    MemView,
                    _,
                >(e@),
            },
    {
        let ghost base = base_table(snapshot);
        let ghost es = entry_views(entries@);
        let mut mem = match snapshot {
            Some(s) => MemTable { keys: s.keys, last_lsn: s.lsn, in_order: s.in_order },
            None => MemTable::empty(),
        };
        let snapshot_lsn: u64 = mem.last_lsn;
        let mut i: usize = 0;
        assert(es.take(0) =~= Seq::empty());
        while i < entries.len()
            invariant
                i <= entries@.len(),
                es == entry_views(entries@),
                mem.wf(),
                snapshot_lsn == base.last_lsn,
                snapshot_lsn <= mem.last_lsn,
                base == base_table(snapshot),
                recover_all(base, es.take(i as int)) == Ok::<_, KvFault>(mem@),
            decreases entries@.len() - i,
        {
            let entry = &entries[i];
            proof {
                assert(es.take(i + 1).drop_last() =~= es.take(i as int));
                assert(es.take(i + 1).last() == entry@);
            }
            let stale: bool = mem.last_lsn == snapshot_lsn && entry.lsn <= snapshot_lsn;
            if !stale {
                if mem.last_lsn == u64::MAX || entry.lsn != mem.last_lsn + 1 {
                    let mut s = "LSN ".to_string();
                    s.append(text::number_text(entry.lsn).as_str());
                    s.append(" follows LSN ");
                    s.append(text::number_text(mem.last_lsn).as_str());
                    proof {
                        lemma_recover_stops(base, es, i + 1);
                    }
                    return Err(KvError::CorruptWal { offset: 0, message: s });
                }
                match mem.apply(entry) {
                    Ok(_) => {},
                    Err(e) => {
                        proof {
                            lemma_recover_stops(base, es, i + 1);
                        }
                        return Err(e);
                    },
                }
            }
            i += 1;
        }
        assert(es.take(i as int) =~= es);
        Ok(
            Store {
                mem,
                wal_size_bytes,
                last_snapshot_lsn: snapshot_lsn,
                compacting: false,
                config,
            },
        )
    }

    /// LSN of the last commit.
    pub fn last_lsn(&self) -> (r: u64)
        ensures
            r == self@.mem.last_lsn,
    {
        self.mem.last_lsn
    }

    fn validate_key(&self, key: &[u8]) -> (r: Result<(), KvError>)
        ensures
            match r {
                Ok(_) => key_fault(self@.config, key@) is None,
                Err(e) => key_fault(self@.config, key@) == Some(e@),
            },
    {
        if key.len() == 0 {
            return Err(KvError::EmptyKey);
        }
        if key.len() > self.config.max_key_bytes {
            return Err(
                KvError::KeyTooLarge { size: key.len(), limit: self.config.max_key_bytes },
            );
        }
        Ok(())
    }

    fn validate_value(&self, value: &[u8]) -> (r: Result<(), KvError>)
        ensures
            match r {
                Ok(_) => value_fault(self@.config, value@) is None,
                Err(e) => value_fault(self@.config, value@) == Some(e@),
            },
    {
        if value.len() > self.config.max_value_bytes {
            return Err(
                KvError::ValueTooLarge { size: value.len(), limit: self.config.max_value_bytes },
            );
        }
        Ok(())
    }

    /// Build a `Mutation`, rejecting malformed batches before any lock is taken. A key appearing more
    /// than once in the same transaction is a contradictory transaction and is rejected up front.
    pub fn build_mutation(&self, raw_ops: Vec<(Vec<u8>, WalOp)>) -> (r: Result<Mutation, KvError>)
        ensures
            match r {
                Ok(m) => {
                    &&& batch_fault(self@.config, op_views(raw_ops@)) is None
                    &&& m.ops == raw_ops
                    &&& distinct(op_views(m.ops@))
                },
                Err(e) => batch_fault(self@.config, op_views(raw_ops@)) == Some(e@),
            },
    {
        if raw_ops.len() == 0 {
            return Err(KvError::EmptyTransaction);
        }
        if raw_ops.len() > self.config.max_txn_ops {
            return Err(
                KvError::TooManyOperations {
                    count: raw_ops.len(),
                    limit: self.config.max_txn_ops,
                },
            );
        }
        let ghost views = op_views(raw_ops@);
        let ghost c = self@.config;
        let mut seen: KeyMap<Seen> = KeyMap::new();
        let mut i: usize = 0;
        while i < raw_ops.len()
            invariant
                i <= raw_ops@.len(),
                0 < raw_ops@.len() <= c.max_txn_ops,
                views == op_views(raw_ops@),
                c == self@.config,
                seen.wf(),
                forall|k: Seq<u8>| #[trigger]
                    seen@.dom().contains(k) <==> key_among(views, i as int, k),
                ops_fault(c, views, i as int) is None,
            decreases raw_ops@.len() - i,
        {
            let (key, op) = (&raw_ops[i].0, &raw_ops[i].1);
            assert(views[i as int] == (key@, op@));
            let checked: Result<(), KvError> = match self.validate_key(key.as_slice()) {
                Err(e) => Err(e),
                Ok(_) => match op {
                    WalOp::Put(v) => self.validate_value(v.as_slice()),
                    WalOp::Cas { value, .. } => self.validate_value(value.as_slice()),
                    WalOp::Delete => Ok(()),
                },
            };
            match checked {
                Err(e) => {
                    proof {
                        lemma_ops_fault_stops(c, views, i + 1, views.len() as int);
                    }
                    return Err(e);
                },
                Ok(_) => {},
            }
            let fresh: bool = note_key(&mut seen, key.as_slice(), Ghost(views), Ghost(i as int));
            if !fresh {
                proof {
                    lemma_ops_fault_stops(c, views, i + 1, views.len() as int);
                }
                return Err(KvError::ContradictoryKey(error::lossy_text(key.as_slice())));
            }
            i += 1;
        }
        proof {
            lemma_sound_ops_distinct(c, views, views.len() as int);
        }
        Ok(Mutation { ops: raw_ops })
    }

    /// Validate-at-commit-time preconditions. Called under the commit lock.
    fn check_preconditions(mem: &MemTable, ops: &Vec<(Vec<u8>, WalOp)>) -> (r: Result<(), KvError>)
        requires
            mem.wf(),
        ensures
            match r {
                Ok(_) => conflict(mem@.keys, op_views(ops@), ops@.len() as int) is None,
                Err(e) => conflict(mem@.keys, op_views(ops@), ops@.len() as int) == Some(e@),
            },
    {
        let ghost views = op_views(ops@);
        let mut i: usize = 0;
        while i < ops.len()
            invariant
                i <= ops@.len(),
                views == op_views(ops@),
                mem.wf(),
                conflict(mem@.keys, views, i as int) is None,
            decreases ops@.len() - i,
        {
            let (key, op) = (&ops[i].0, &ops[i].1);
            assert(views[i as int] == (key@, op@));
            if let WalOp::Cas { expected, .. } = op {
                let matched: bool = match mem.live_value(key.as_slice()) {
                    Some(v) => table::same_option(Some(v.as_slice()), expected),
                    None => table::same_option(None, expected),
                };
                if !matched {
                    proof {
                        lemma_conflict_stops(mem@.keys, views, i + 1, views.len() as int);
                    }
                    return Err(KvError::CasConflict(error::lossy_text(key.as_slice())));
                }
            }
            i += 1;
        }
        Ok(())
    }

    /// The first step of a commit, under the commit lock: checks the preconditions against the
    /// latest committed state and makes the log entry, which the caller appends and fsyncs. If any
    /// precondition fails the whole batch is rejected and nothing is written or applied.
    pub fn prepare(&self, mutation: Mutation) -> (r: Result<WalEntry, KvError>)
        requires
            self.wf(),
            self@.mem.last_lsn < u64::MAX,
        ensures
            match r {
                Ok(e) => {
                    &&& conflict(
                        self@.mem.keys,
                        op_views(mutation.ops@),
                        mutation.ops@.len() as int,
                    ) is None
                    &&& all_hold(self@.mem.keys, e@.ops, e@.ops.len() as int)
                    &&& distinct(e@.ops) ==> replays(
                        self@.mem.keys,
                        e.lsn,
                        e@.ops,
                        e@.ops.len() as int,
                    )
                    &&& e.lsn == self@.mem.last_lsn + 1
                    &&& e.ops == mutation.ops
                },
                Err(e) => conflict(
                    self@.mem.keys,
                    op_views(mutation.ops@),
                    mutation.ops@.len() as int,
                ) == Some(e@),
            },
    {
        match Self::check_preconditions(&self.mem, &mutation.ops) {
            Ok(_) => {},
            Err(e) => return Err(e),
        }
        proof {
            lemma_no_conflict(
                self@.mem.keys,
                op_views(mutation.ops@),
                mutation.ops@.len() as int,
            );
            if distinct(op_views(mutation.ops@)) {
                lemma_replays(
                    self@.mem.keys,
                    (self@.mem.last_lsn + 1) as u64,
                    op_views(mutation.ops@),
                    mutation.ops@.len() as int,
                );
            }
        }
        Ok(WalEntry { lsn: self.mem.last_lsn + 1, ops: mutation.ops })
    }

    /// The second step of a commit, under the commit lock: applies an entry that is on disk, and
    /// says whether an automatic compaction is to be started because the log, now
    /// `wal_size_bytes` long, has reached its threshold.
    pub fn commit(&mut self, entry: &WalEntry, wal_size_bytes: u64) -> (r: (CommitOutcome, bool))
        requires
            old(self).wf(),
            entry.lsn == old(self)@.mem.last_lsn + 1,
            replays(old(self)@.mem.keys, entry.lsn, entry@.ops, entry@.ops.len() as int),
        ensures
            final(self).wf(),
            final(self)@.mem == applied(old(self)@.mem, entry@),
            final(self)@.config == old(self)@.config,
            final(self)@.wal_size_bytes == wal_size_bytes,
            final(self)@.last_snapshot_lsn == old(self)@.last_snapshot_lsn,
            final(self)@.compacting == (old(self)@.compacting || r.1),
            r.0.lsn == entry.lsn,
            r.0.key_count == live_keys(final(self)@.mem.keys).len(),
            r.1 == (wal_size_bytes >= old(self)@.config.compaction_threshold_bytes && !old(
                self,
            )@.compacting),
    {
        match self.mem.apply(entry) {
            Ok(_) => {},
            Err(_) => {
                assert(false);
            },
        }
        let key_count: usize = self.mem.live_key_count();
        self.wal_size_bytes = wal_size_bytes;
        let start: bool = wal_size_bytes >= self.config.compaction_threshold_bytes
            && !self.compacting;
        if start {
            self.compacting = true;
        }
        (CommitOutcome { lsn: entry.lsn, key_count }, start)
    }

    /// Read the latest committed value.
    pub fn get(&self, key: &[u8]) -> (r: Result<Got, KvError>)
        requires
            self.wf(),
        ensures
            match r {
                Ok(g) => {
                    &&& key_fault(self@.config, key@) is None
                    &&& live(self@.mem.keys, key@) == Some(g.value@)
                    &&& g.version == history_of(self@.mem.keys, key@).last().lsn
                    &&& g.read_lsn == self@.mem.last_lsn
                },
                Err(e) => if key_fault(self@.config, key@) is Some {
                    key_fault(self@.config, key@) == Some(e@)
                } else {
                    live(self@.mem.keys, key@) is None && e@ == KvFault::KeyNotFound(
                        error::lossy(key@),
                    )
                },
            },
    {
        match self.validate_key(key) {
            Ok(_) => {},
            Err(e) => return Err(e),
        }
        match self.mem.live_value(key) {
            Some(value) => {
                let version: u64 = match self.mem.latest(key) {
                    Some(v) => v.lsn(),
                    None => 0,
                };
                Ok(
                    Got {
                        value: order::copy_bytes(value.as_slice()),
                        version,
                        read_lsn: self.mem.last_lsn,
                    },
                )
            },
            None => Err(KvError::KeyNotFound(error::lossy_text(key))),
        }
    }

    /// Read at a specific log position. `None` position means latest. Returns the value plus the
    /// read's log position.
    pub fn get_at(&self, key: &[u8], at_lsn: Option<u64>) -> (r: Result<Got, KvError>)
        requires
            self.wf(),
        ensures
            ({
                let at = match at_lsn {
                    Some(lsn) => lsn,
                    None => self@.mem.last_lsn,
                };
                match r {
                    Ok(g) => {
                        &&& key_fault(self@.config, key@) is None
                        &&& at <= self@.mem.last_lsn
                        &&& seen_at(self@.mem.keys, key@, at) == Some(
                            VersionView { lsn: g.version, value: Some(g.value@) },
                        )
                        &&& g.read_lsn == at
                    },
                    Err(e) => if key_fault(self@.config, key@) is Some {
                        key_fault(self@.config, key@) == Some(e@)
                    } else if at > self@.mem.last_lsn {
                        e@ == KvFault::VersionNotFound(at)
                    } else {
                        seen_at(self@.mem.keys, key@, at) is None && e@ == KvFault::KeyNotFound(
                            error::lossy(key@),
                        )
                    },
                }
            }),
    {
        match self.validate_key(key) {
            Ok(_) => {},
            Err(e) => return Err(e),
        }
        let at: u64 = match at_lsn {
            Some(lsn) => lsn,
            None => self.mem.last_lsn,
        };
        if at > self.mem.last_lsn {
            return Err(KvError::VersionNotFound(at));
        }
        match self.mem.value_at(key, at) {
            Some(value) => {
                let version: u64 = match self.mem.version_at(key, at) {
                    Some(v) => v,
                    None => 0,
                };
                Ok(Got { value: order::copy_bytes(value.as_slice()), version, read_lsn: at })
            },
            None => Err(KvError::KeyNotFound(error::lossy_text(key))),
        }
    }

    /// Range scan over committed keys, from `start` (included) to `end` (excluded). Both bounds
    /// optional; the scan reflects the committed state at the moment of the read.
    pub fn range(
        &self,
        start: Option<&[u8]>,
        end: Option<&[u8]>,
        limit: Option<usize>,
        at_lsn: Option<u64>,
    ) -> (r: Result<(Vec<KvEntry>, u64), KvError>)
        requires
            self.wf(),
            (at_lsn is None || at_lsn->Some_0 <= self@.mem.last_lsn) && start is Some
                && end is Some ==> order::key_le(start->Some_0@, end->Some_0@),
        ensures
            match r {
                Ok((out, at)) => scanned(
                    self@.mem,
                    keymap::keys_in_range(
                        self@.mem.keys.dom(),
                        start_bound(start),
                        end_bound(end),
                    ),
                    limit,
                    at_lsn,
                ) == Ok::<_, KvFault>((scan_views(out@), at)),
                Err(e) => scanned(
                    self@.mem,
                    keymap::keys_in_range(
                        self@.mem.keys.dom(),
                        start_bound(start),
                        end_bound(end),
                    ),
                    limit,
                    at_lsn,
                ) == Err::<(Seq<ScanView>, u64), _>(e@),
            },
    {
        let at: u64 = match at_lsn {
            Some(lsn) => lsn,
            None => self.mem.last_lsn,
        };
        if at > self.mem.last_lsn {
            return Err(KvError::VersionNotFound(at));
        }
        let lo = match start {
            Some(s) => KeyBound::Included(order::copy_bytes(s)),
            None => KeyBound::Unbounded,
        };
        let hi = match end {
            Some(e) => KeyBound::Excluded(order::copy_bytes(e)),
            None => KeyBound::Unbounded,
        };
        let (a, b) = self.mem.keys.range(&lo, &hi);
        let ghost keys = self@.mem.keys;
        let ghost all = self.mem.keys.key_seq().subrange(a as int, b as int);
        let ghost whole = entries_at(keys, all, at);
        let mut out: Vec<KvEntry> = Vec::new();
        let mut i: usize = a;
        assert(all.take(0) =~= Seq::empty());
        assert(scan_views(out@) =~= Seq::empty());
        assert(lo@ == start_bound(start) && hi@ == end_bound(end));
        while i < b
            invariant
                a <= i <= b <= self.mem.keys.key_seq().len(),
                self.wf(),
                keys == self@.mem.keys,
                all == self.mem.keys.key_seq().subrange(a as int, b as int),
                all == order::sorted_keys(
                    keymap::keys_in_range(keys.dom(), start_bound(start), end_bound(end)),
                ),
                whole == entries_at(keys, all, at),
                at <= self@.mem.last_lsn,
                at == match at_lsn {
                    Some(lsn) => lsn,
                    None => self@.mem.last_lsn,
                },
                scan_views(out@) == entries_at(keys, all.take(i - a), at),
                limit is Some ==> out@.len() < limit->Some_0 || out@.len() == 0,
            decreases b - i,
        {
            let key = self.mem.keys.key_at(i);
            proof {
                assert(all.take(i - a + 1).drop_last() =~= all.take(i - a));
                assert(all.take(i - a + 1).last() == key@);
                lemma_entries_grow(keys, all, at, i - a + 1);
            }
            match self.mem.value_at(key.as_slice(), at) {
                Some(value) => {
                    let version: u64 = match self.mem.version_at(key.as_slice(), at) {
                        Some(v) => v,
                        None => 0,
                    };
                    let ghost before = scan_views(out@);
                    let e = KvEntry {
                        key: order::copy_bytes(key.as_slice()),
                        value: order::copy_bytes(value.as_slice()),
                        version,
                    };
                    assert(e@ == scan_entry(keys, at, key@));
                    out.push(e);
                    assert(scan_views(out@) =~= before.push(e@));
                    match limit {
                        Some(n) => {
                            if out.len() >= n {
                                proof {
                                    let part = scan_views(out@);
                                    assert(part == whole.take(part.len() as int));
                                    assert(part =~= cut(whole, limit));
                                }
                                return Ok((out, at));
                            }
                        },
                        None => {},
                    }
                },
                None => {},
            }
            i += 1;
        }
        assert(all.take(i - a) =~= all);
        assert(scan_views(out@) =~= cut(whole, limit));
        Ok((out, at))
    }

    /// Prefix scan: keys with the given byte prefix.
    pub fn prefix(&self, prefix: &[u8], limit: Option<usize>, at_lsn: Option<u64>) -> (r: Result<
        (Vec<KvEntry>, u64),
        KvError,
    >)
        requires
            self.wf(),
        ensures
            match r {
                Ok((out, at)) => scanned(
                    self@.mem,
                    keymap::keys_with_prefix(self@.mem.keys.dom(), prefix@),
                    limit,
                    at_lsn,
                ) == Ok::<_, KvFault>((scan_views(out@), at)),
                Err(e) => scanned(
                    self@.mem,
                    keymap::keys_with_prefix(self@.mem.keys.dom(), prefix@),
                    limit,
                    at_lsn,
                ) == Err::<(Seq<ScanView>, u64), _>(e@),
            },
    {
        let ghost dom = self@.mem.keys.dom();
        proof {
            keymap::lemma_prefix_keys(dom, prefix@);
            order::lemma_prefix_is_range(prefix@, prefix@);
            assert(prefix@ =~= prefix@.take(prefix@.len() as int));
        }
        if prefix.len() == 0 {
            proof {
                assert forall|k: Seq<u8>| prefix@.is_prefix_of(k) by {
                    assert(prefix@ =~= k.take(0));
                }
                assert(keymap::keys_in_range(dom, BoundView::Unbounded, BoundView::Unbounded)
                    =~= keymap::keys_with_prefix(dom, prefix@));
            }
            return self.range(None, None, limit, at_lsn);
        }
        match order::prefix_upper_bound(prefix) {
            Some(upper) => self.range(Some(prefix), Some(upper.as_slice()), limit, at_lsn),
            None => self.range(Some(prefix), None, limit, at_lsn),
        }
    }

    /// State of the store at a glance.
    pub fn status(&self) -> (r: Status)
        requires
            self.wf(),
        ensures
            r.key_count == live_keys(self@.mem.keys).len(),
            r.last_lsn == self@.mem.last_lsn,
            r.wal_size_bytes == self@.wal_size_bytes,
            r.last_snapshot_lsn == self@.last_snapshot_lsn,
            r.compacting == self@.compacting,
            r.compaction_threshold_bytes == self@.config.compaction_threshold_bytes,
    {
        Status {
            key_count: self.mem.live_key_count(),
            last_lsn: self.mem.last_lsn,
            wal_size_bytes: self.wal_size_bytes,
            last_snapshot_lsn: self.last_snapshot_lsn,
            compacting: self.compacting,
            compaction_threshold_bytes: self.config.compaction_threshold_bytes,
        }
    }

    /// Manually trigger compaction. If a compaction is already running, the caller waits for it and
    /// reports its result position instead of running a second one.
    pub fn compact(&mut self) -> (r: CompactStart)
        ensures
            r == if old(self)@.compacting {
                CompactStart::Wait
            } else {
                CompactStart::Run
            },
            final(self)@ == old(self)@.begun(),
            old(self).wf() ==> final(self).wf(),
    {
        if self.compacting {
            CompactStart::Wait
        } else {
            self.compacting = true;
            CompactStart::Run
        }
    }

    /// What a compaction has to do: capture the full state, unless nothing is newer than the last
    /// snapshot.
    pub fn compact_locked(&self) -> (r: CompactPlan)
        requires
            self.wf(),
        ensures
            match r {
                CompactPlan::NothingNewer(lsn) => !self@.has_newer() && lsn == self@.position(),
                CompactPlan::Write(s) => self@.has_newer() && s.wf() && s@ == self@.mem
                    && s@.last_lsn == self@.position(),
            },
    {
        if self.mem.last_lsn <= self.last_snapshot_lsn {
            CompactPlan::NothingNewer(self.mem.last_lsn)
        } else {
            CompactPlan::Write(self.mem.snapshot_data())
        }
    }

    /// Notes that the snapshot is published and the log rewritten, now `wal_size_bytes` long.
    pub fn finish_compaction(&mut self, snapshot_lsn: u64, wal_size_bytes: u64)
        requires
            old(self).wf(),
            snapshot_lsn <= old(self)@.mem.last_lsn,
        ensures
            final(self)@ == old(self)@.published(snapshot_lsn, wal_size_bytes),
            final(self).wf(),
    {
        self.last_snapshot_lsn = snapshot_lsn;
        self.wal_size_bytes = wal_size_bytes;
    }

    /// Notes that no compaction is running any more.
    pub fn end_compaction(&mut self)
        ensures
            final(self)@ == old(self)@.ended(),
            old(self).wf() ==> final(self).wf(),
    {
        self.compacting = false;
    }
}

/// The operation that leaves a version behind. Preconditions have already been verified for
/// historical commits, so it carries the resulting mutation only.
pub open spec fn plain_op(v: VersionView) -> WalOpView {
    match v.value {
        Some(value) => WalOpView::Put(value),
        None => WalOpView::Delete,
    }
}

/// The operations of the transaction `lsn` on one key, which has this history.
pub open spec fn key_ops(h: Seq<VersionView>, key: Seq<u8>, lsn: u64) -> KeyedOps
    decreases h.len(),
{
    if h.len() == 0 {
        Seq::empty()
    } else if h.last().lsn == lsn {
        key_ops(h.drop_last(), key, lsn).push((key, plain_op(h.last())))
    } else {
        key_ops(h.drop_last(), key, lsn)
    }
}

/// The operations of the transaction `lsn` on some keys, in the order of the keys given.
pub open spec fn ops_at(keys: Histories, ks: Seq<Seq<u8>>, lsn: u64) -> KeyedOps
    decreases ks.len(),
{
    if ks.len() == 0 {
        Seq::empty()
    } else {
        ops_at(keys, ks.drop_last(), lsn) + key_ops(keys[ks.last()], ks.last(), lsn)
    }
}

/// The operations of the transaction `lsn`, in the order of their keys.
pub open spec fn txn_ops(keys: Histories, lsn: u64) -> KeyedOps {
    ops_at(keys, order::sorted_keys(keys.dom()), lsn)
}

/// The log entries of the transactions `from` to `to` that left something behind, in order.
pub open spec fn rebuilt(keys: Histories, from: u64, to: int) -> Seq<WalEntryView>
    decreases to - from + 1,
{
    if to < from {
        Seq::empty()
    } else {
        let before = rebuilt(keys, from, to - 1);
        let ops = txn_ops(keys, to as u64);
        if ops.len() == 0 {
            before
        } else {
            before.push(WalEntryView { lsn: to as u64, ops })
        }
    }
}

/// The entries have increasing LSNs.
spec fn lsns_increase(v: Seq<WalEntryView>) -> bool {
    forall|i: int, j: int| 0 <= i < j < v.len() ==> (#[trigger] v[i]).lsn < (#[trigger] v[j]).lsn
}

/// The entries hold exactly the operations `f` says, for the LSNs `from` to `to` that have some.
spec fn entries_match(v: Seq<WalEntryView>, from: u64, to: int, f: spec_fn(u64) -> KeyedOps) -> bool {
    &&& lsns_increase(v)
    &&& forall|i: int|
        0 <= i < v.len() ==> {
            &&& from <= (#[trigger] v[i]).lsn <= to
            &&& v[i].ops == f(v[i].lsn)
            &&& v[i].ops.len() > 0
        }
    &&& forall|lsn: u64|
        from <= lsn <= to && (#[trigger] f(lsn)).len() > 0 ==> exists|i: int|
            0 <= i < v.len() && (#[trigger] v[i]).lsn == lsn
}

proof fn lemma_rebuilt(v: Seq<WalEntryView>, keys: Histories, from: u64, to: int)
    requires
        to <= u64::MAX,
        entries_match(v, from, to, |lsn: u64| txn_ops(keys, lsn)),
    ensures
        v == rebuilt(keys, from, to),
    decreases to - from + 1,
{
    let f = |lsn: u64| txn_ops(keys, lsn);
    if to < from {
        if v.len() > 0 {
            assert(from <= v[0].lsn <= to);
        }
        assert(v =~= rebuilt(keys, from, to));
    } else {
        let top = to as u64;
        assert(f(top) == txn_ops(keys, top));
        if txn_ops(keys, top).len() == 0 {
            assert forall|i: int| 0 <= i < v.len() implies from <= (#[trigger] v[i]).lsn <= to - 1
                && v[i].ops == f(v[i].lsn) && v[i].ops.len() > 0 by {
                if v[i].lsn == top {
                    assert(v[i].ops == f(top));
                }
            }
            assert(entries_match(v, from, to - 1, f));
            lemma_rebuilt(v, keys, from, to - 1);
        } else {
            let n = choose|n: int| 0 <= n < v.len() && (#[trigger] v[n]).lsn == top;
            if n < v.len() - 1 {
                assert(v[n].lsn < v[v.len() - 1].lsn);
            }
            let w = v.drop_last();
            assert forall|i: int| 0 <= i < w.len() implies from <= (#[trigger] w[i]).lsn <= to - 1
                && w[i].ops == f(w[i].lsn) && w[i].ops.len() > 0 by {
                assert(w[i] == v[i]);
                assert(v[i].lsn < v[v.len() - 1].lsn);
            }
            assert forall|i: int, j: int| 0 <= i < j < w.len() implies (#[trigger] w[i]).lsn < (
            #[trigger] w[j]).lsn by {
                assert(v[i].lsn < v[j].lsn);
            }
            assert forall|lsn: u64|
                from <= lsn <= to - 1 && (#[trigger] f(lsn)).len() > 0 implies exists|i: int|
                0 <= i < w.len() && (#[trigger] w[i]).lsn == lsn by {
                let i = choose|i: int| 0 <= i < v.len() && (#[trigger] v[i]).lsn == lsn;
                assert(w[i].lsn == lsn);
            }
            lemma_rebuilt(w, keys, from, to - 1);
            assert(v =~= w.push(v.last()));
        }
    }
}

/// Adds an operation to the entry with an LSN, which is made where there is none.
fn add_op(
    v: &mut Vec<WalEntry>,
    lsn: u64,
    key: Vec<u8>,
    op: WalOp,
    Ghost(from): Ghost<u64>,
    Ghost(to): Ghost<u64>,
    Ghost(f): Ghost<spec_fn(u64) -> KeyedOps>,
    Ghost(g): Ghost<spec_fn(u64) -> KeyedOps>,
)
    requires
        entries_match(entry_views(old(v)@), from, to as int, f),
        from <= lsn <= to,
        g(lsn) == f(lsn).push((key@, op@)),
        forall|x: u64| x != lsn ==> #[trigger] g(x) == f(x),
    ensures
        entries_match(entry_views(final(v)@), from, to as int, g),
{
    let ghost before = entry_views(v@);
    let mut at: usize = 0;
    while at < v.len() && v[at].lsn < lsn
        invariant
            at <= v@.len(),
            before == entry_views(v@),
            forall|i: int| 0 <= i < at ==> (#[trigger] before[i]).lsn < lsn,
        decreases v@.len() - at,
    {
        assert(before[at as int] == v@[at as int]@);
        at += 1;
    }
    if at < v.len() && v[at].lsn == lsn {
        let ghost e = v@[at as int];
        let slot = &mut v[at];
        slot.ops.push((key, op));
        proof {
            let after = entry_views(v@);
            assert(after.len() == before.len());
            assert(before[at as int] == e@);
            assert(after[at as int].ops =~= before[at as int].ops.push((key@, op@)));
            assert forall|i: int| 0 <= i < after.len() && i != at implies after[i] == before[i] by {
            }
            assert forall|i: int, j: int| 0 <= i < j < after.len() implies (#[trigger] after[i]).lsn
                < (#[trigger] after[j]).lsn by {
                assert(before[i].lsn < before[j].lsn);
            }
            assert forall|i: int| 0 <= i < after.len() implies from <= (#[trigger] after[i]).lsn
                <= to && after[i].ops == g(after[i].lsn) && after[i].ops.len() > 0 by {
                assert(from <= before[i].lsn <= to);
                if i != at {
                    if i < at {
                        assert(before[i].lsn < before[at as int].lsn);
                    } else {
                        assert(before[at as int].lsn < before[i].lsn);
                    }
                    assert(g(before[i].lsn) == f(before[i].lsn));
                }
            }
            assert forall|x: u64| from <= x <= to && (#[trigger] g(x)).len() > 0 implies exists|
                i: int,
            | 0 <= i < after.len() && (#[trigger] after[i]).lsn == x by {
                if x == lsn {
                    assert(after[at as int].lsn == x);
                } else {
                    assert(f(x).len() > 0);
                    let i = choose|i: int| 0 <= i < before.len() && (#[trigger] before[i]).lsn == x;
                    assert(after[i].lsn == x);
                }
            }
        }
    } else {
        proof {
            if f(lsn).len() > 0 {
                let i = choose|i: int| 0 <= i < before.len() && (#[trigger] before[i]).lsn == lsn;
                assert(before[i].lsn == lsn);
                assert(at < before.len());
                assert(before[at as int] == v@[at as int]@);
                if i > at {
                    assert(before[at as int].lsn < before[i].lsn);
                }
                assert(false);
            }
        }
        let ghost (k, o) = (key@, op@);
        let mut ops: Vec<(Vec<u8>, WalOp)> = Vec::new();
        ops.push((key, op));
        let e = WalEntry { lsn, ops };
        let ghost ev = e@;
        assert(ev.ops =~= f(lsn).push((k, o)));
        v.insert(at, e);
        proof {
            let after = entry_views(v@);
            assert(after =~= before.insert(at as int, ev));
            assert forall|i: int| at <= i < before.len() implies (#[trigger] before[i]).lsn > lsn by {
                if i > at {
                    assert(before[at as int].lsn < before[i].lsn);
                }
            }
            assert forall|i: int, j: int| 0 <= i < j < after.len() implies (#[trigger] after[i]).lsn
                < (#[trigger] after[j]).lsn by {
                let i1 = if i < at { i } else { i - 1 };
                let j1 = if j < at { j } else { j - 1 };
                if i == at {
                    assert(before[j1].lsn > lsn);
                } else if j == at {
                    assert(before[i1].lsn < lsn);
                } else {
                    assert(before[i1].lsn < before[j1].lsn);
                }
            }
            assert forall|i: int| 0 <= i < after.len() implies from <= (#[trigger] after[i]).lsn
                <= to && after[i].ops == g(after[i].lsn) && after[i].ops.len() > 0 by {
                if i != at {
                    let i1 = if i < at { i } else { i - 1 };
                    assert(after[i] == before[i1]);
                    assert(from <= before[i1].lsn <= to);
                    assert(before[i1].lsn != lsn);
                    assert(g(before[i1].lsn) == f(before[i1].lsn));
                }
            }
            assert forall|x: u64| from <= x <= to && (#[trigger] g(x)).len() > 0 implies exists|
                i: int,
            | 0 <= i < after.len() && (#[trigger] after[i]).lsn == x by {
                if x == lsn {
                    assert(after[at as int].lsn == x);
                } else {
                    assert(f(x).len() > 0);
                    let i = choose|i: int| 0 <= i < before.len() && (#[trigger] before[i]).lsn == x;
                    if i < at {
                        assert(after[i].lsn == x);
                    } else {
                        assert(after[i + 1].lsn == x);
                    }
                }
            }
        }
    }
}

/// The operations of a transaction on some keys, and on one more key as far as the first `j`
/// versions of its history go.
spec fn partial_ops(keys: Histories, ks: Seq<Seq<u8>>, k: Seq<u8>, j: int, lsn: u64) -> KeyedOps {
    ops_at(keys, ks, lsn) + key_ops(keys[k].take(j), k, lsn)
}

proof fn lemma_same_fn(
    v: Seq<WalEntryView>,
    from: u64,
    to: int,
    f: spec_fn(u64) -> KeyedOps,
    g: spec_fn(u64) -> KeyedOps,
)
    requires
        entries_match(v, from, to, f),
        forall|x: u64| from <= x <= to ==> #[trigger] g(x) == f(x),
    ensures
        entries_match(v, from, to, g),
{
    assert forall|i: int| 0 <= i < v.len() implies from <= (#[trigger] v[i]).lsn <= to && v[i].ops
        == g(v[i].lsn) && v[i].ops.len() > 0 by {
        assert(g(v[i].lsn) == f(v[i].lsn));
    }
    assert forall|lsn: u64| from <= lsn <= to && (#[trigger] g(lsn)).len() > 0 implies exists|i: int|
        0 <= i < v.len() && (#[trigger] v[i]).lsn == lsn by {
        assert(f(lsn).len() > 0);
    }
}

impl Store {
    /// Rebuild WAL entries for LSNs in `[from, to]` from version histories. Preconditions have
    /// already been verified for historical commits, so the rewritten ops only need to carry the
    /// resulting mutation (Put/Delete).
    pub fn reconstruct_entries(&self, from: u64, to: u64) -> (r: Vec<WalEntry>)
        requires
            self.wf(),
        ensures
            entry_views(r@) == rebuilt(self@.mem.keys, from, to as int),
    {
        let ghost keys = self@.mem.keys;
        let ghost ks = self.mem.keys.key_seq();
        let mut by_lsn: Vec<WalEntry> = Vec::new();
        let n: usize = self.mem.keys.len();
        let mut i: usize = 0;
        proof {
            self.mem.keys.lemma_entries();
            assert(ks.take(0) =~= Seq::empty());
            let f = |lsn: u64| ops_at(keys, ks.take(0), lsn);
            assert(entries_match(entry_views(by_lsn@), from, to as int, f));
        }
        while i < n
            invariant
                i <= n,
                n == ks.len(),
                self.wf(),
                keys == self.mem.keys@,
                ks == self.mem.keys.key_seq(),
                forall|x: int|
                    0 <= x < ks.len() ==> keys.dom().contains(#[trigger] ks[x]) && keys[ks[x]]
                        == self.mem.keys.val_seq()[x]@,
                entries_match(
                    entry_views(by_lsn@),
                    from,
                    to as int,
                    |lsn: u64| ops_at(keys, ks.take(i as int), lsn),
                ),
            decreases n - i,
        {
            let key = self.mem.keys.key_at(i);
            let history = self.mem.keys.val_at(i);
            let ghost k = key@;
            let ghost h = history@;
            let ghost done = ks.take(i as int);
            proof {
                assert(keys[ks[i as int]] == h);
                assert(h.take(0) =~= Seq::empty());
                assert forall|lsn: u64| #[trigger] partial_ops(keys, done, k, 0, lsn) == ops_at(
                    keys,
                    done,
                    lsn,
                ) by {
                    assert(partial_ops(keys, done, k, 0, lsn) =~= ops_at(keys, done, lsn));
                }
                lemma_same_fn(
                    entry_views(by_lsn@),
                    from,
                    to as int,
                    |lsn: u64| ops_at(keys, done, lsn),
                    |lsn: u64| partial_ops(keys, done, k, 0, lsn),
                );
            }
            let m: usize = history.versions.len();
            let mut j: usize = 0;
            while j < m
                invariant
                    j <= m,
                    m == history.versions@.len(),
                    h == history@,
                    keys[k] == h,
                    k == key@,
                    entries_match(
                        entry_views(by_lsn@),
                        from,
                        to as int,
                        |lsn: u64| partial_ops(keys, done, k, j as int, lsn),
                    ),
                decreases m - j,
            {
                let v = &history.versions[j];
                let lsn: u64 = v.lsn();
                let ghost f = |x: u64| partial_ops(keys, done, k, j as int, x);
                let ghost g = |x: u64| partial_ops(keys, done, k, j + 1, x);
                proof {
                    assert(h[j as int] == v@);
                    assert(h.take(j + 1).drop_last() =~= h.take(j as int));
                    assert(h.take(j + 1).last() == v@);
                    assert forall|x: u64| x != lsn implies #[trigger] g(x) == f(x) by {
                    }
                }
                if lsn >= from && lsn <= to {
                    let op = match v {
                        Version::Put { value, .. } => WalOp::Put(
                            order::copy_bytes(value.as_slice()),
                        ),
                        Version::Delete { .. } => WalOp::Delete,
                    };
                    assert(op@ == plain_op(v@));
                    assert(g(lsn) =~= f(lsn).push((k, op@)));
                    add_op(
                        &mut by_lsn,
                        lsn,
                        order::copy_bytes(key.as_slice()),
                        op,
                        Ghost(from),
                        Ghost(to),
                        Ghost(f),
                        Ghost(g),
                    );
                } else {
                    proof {
                        lemma_same_fn(entry_views(by_lsn@), from, to as int, f, g);
                    }
                }
                j += 1;
            }
            proof {
                assert(h.take(j as int) =~= h);
                let next = ks.take(i + 1);
                assert(next.drop_last() =~= done);
                assert(next.last() == k);
                lemma_same_fn(
                    entry_views(by_lsn@),
                    from,
                    to as int,
                    |lsn: u64| partial_ops(keys, done, k, j as int, lsn),
                    |lsn: u64| ops_at(keys, next, lsn),
                );
            }
            i += 1;
        }
        proof {
            assert(ks.take(i as int) =~= ks);
            lemma_same_fn(
                entry_views(by_lsn@),
                from,
                to as int,
                |lsn: u64| ops_at(keys, ks.take(i as int), lsn),
                |lsn: u64| txn_ops(keys, lsn),
            );
            lemma_rebuilt(entry_views(by_lsn@), keys, from, to as int);
        }
        by_lsn
    }

    /// The entries that the rewritten log keeps: those committed after the snapshot was captured.
    pub fn kept_entries(&self, snapshot_lsn: u64) -> (r: Vec<WalEntry>)
        requires
            self.wf(),
        ensures
            entry_views(r@) == if self@.mem.last_lsn > snapshot_lsn {
                rebuilt(
                    self@.mem.keys,
                    (snapshot_lsn + 1) as u64,
                    self@.mem.last_lsn as int,
                )
            } else {
                Seq::empty()
            },
    {
        let current_lsn: u64 = self.mem.last_lsn;
        if current_lsn > snapshot_lsn {
            self.reconstruct_entries(snapshot_lsn + 1, current_lsn)
        } else {
            let none: Vec<WalEntry> = Vec::new();
            assert(entry_views(none@) =~= Seq::empty());
            none
        }
    }
}

} // verus!
