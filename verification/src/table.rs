//! The live key table and its transactions.
//!
//! A transaction is checked as a whole against the table before anything is written: its size, its
//! keys and values, that no key occurs twice, and each compare-and-swap condition. A checked
//! transaction becomes one log record with the next LSN, and the table changes only by applying
//! log records, while running as in recovery.

use crate::error;
use crate::error::{StoreError, StoreFault};
use crate::keymap;
use crate::keymap::{KeyBound, KeyMap, Seen};
use crate::layout;
use crate::layout::{MutationView, RecordView};
use crate::order;
use crate::record;
use crate::record::{LogRecord, Mutation, Snapshot};
use crate::snapshot;
use crate::snapshot::SnapshotMeta;
use crate::text;
use vstd::prelude::*;
use vstd::string::*;

verus! {

/// A live value and the LSN of the transaction that wrote it.
#[derive(Debug, Clone, PartialEq, Eq)]
pub struct Entry {
    pub value: Vec<u8>,
    /// LSN of the transaction that last modified this key.
    pub version: u64,
}

/// What an [`Entry`] holds.
pub struct EntryView {
    pub value: Seq<u8>,
    pub version: u64,
}

impl View for Entry {
    type V = EntryView;

    open spec fn view(&self) -> EntryView {
        EntryView { value: self.value@, version: self.version }
    }
}

impl Entry {
    /// Copies the entry.
    pub fn copy(&self) -> (r: Entry)
        ensures
            r@ == self@,
    {
        Entry { value: order::copy_bytes(self.value.as_slice()), version: self.version }
    }
}

/// Size limits of keys, values and transactions.
#[derive(Debug, Clone, Copy, PartialEq, Eq)]
pub struct Limits {
    pub max_key_bytes: usize,
    pub max_value_bytes: usize,
    pub max_ops_per_txn: usize,
}

/// One operation of a transaction.
#[derive(Debug, Clone, PartialEq, Eq)]
pub enum Op {
    Put { key: Vec<u8>, value: Vec<u8> },
    Delete { key: Vec<u8> },
    /// Writes `value` only where the key's value is `expected` (`None`: where it is absent).
    Cas { key: Vec<u8>, expected: Option<Vec<u8>>, value: Vec<u8> },
}

/// What an [`Op`] asks for.
pub enum OpView {
    Put { key: Seq<u8>, value: Seq<u8> },
    Delete { key: Seq<u8> },
    Cas { key: Seq<u8>, expected: Option<Seq<u8>>, value: Seq<u8> },
}

impl View for Op {
    type V = OpView;

    open spec fn view(&self) -> OpView {
        match *self {
            Op::Put { key, value } => OpView::Put { key: key@, value: value@ },
            Op::Delete { key } => OpView::Delete { key: key@ },
            Op::Cas { key, expected, value } => OpView::Cas {
                key: key@,
                expected: error::bytes_option(expected),
                value: value@,
            },
        }
    }
}

/// The views of a sequence of operations.
pub open spec fn op_views(ops: Seq<Op>) -> Seq<OpView> {
    ops.map_values(|op: Op| op@)
}

/// The key of an operation.
pub open spec fn op_key(op: OpView) -> Seq<u8> {
    match op {
        OpView::Put { key, .. } => key,
        OpView::Delete { key } => key,
        OpView::Cas { key, .. } => key,
    }
}

/// The value that an operation writes.
pub open spec fn op_value(op: OpView) -> Option<Seq<u8>> {
    match op {
        OpView::Put { value, .. } => Some(value),
        OpView::Delete { .. } => None,
        OpView::Cas { value, .. } => Some(value),
    }
}

/// The mutation that an operation makes once its condition holds.
pub open spec fn op_mutation(op: OpView) -> MutationView {
    match op {
        OpView::Put { key, value } => MutationView::Put { key, value },
        OpView::Delete { key } => MutationView::Delete { key },
        OpView::Cas { key, value, .. } => MutationView::Put { key, value },
    }
}

/// What a committed operation did.
#[derive(Debug, Clone, PartialEq, Eq)]
pub enum OpEffect {
    /// `replaced`: there was a value before.
    Put { key: Vec<u8>, version: u64, replaced: bool },
    Delete { key: Vec<u8>, existed: bool },
    Cas { key: Vec<u8>, version: u64, replaced: bool },
}

/// What an [`OpEffect`] says.
pub enum EffectView {
    Put { key: Seq<u8>, version: u64, replaced: bool },
    Delete { key: Seq<u8>, existed: bool },
    Cas { key: Seq<u8>, version: u64, replaced: bool },
}

impl View for OpEffect {
    type V = EffectView;

    open spec fn view(&self) -> EffectView {
        match *self {
            OpEffect::Put { key, version, replaced } => EffectView::Put {
                key: key@,
                version,
                replaced,
            },
            OpEffect::Delete { key, existed } => EffectView::Delete { key: key@, existed },
            OpEffect::Cas { key, version, replaced } => EffectView::Cas {
                key: key@,
                version,
                replaced,
            },
        }
    }
}

/// The views of a sequence of effects.
pub open spec fn effect_views(v: Seq<OpEffect>) -> Seq<EffectView> {
    v.map_values(|e: OpEffect| e@)
}

/// The effect of an operation of the transaction `lsn` on the entries `m`.
pub open spec fn op_effect(m: Entries, lsn: u64, op: OpView) -> EffectView {
    match op {
        OpView::Put { key, .. } => EffectView::Put {
            key,
            version: lsn,
            replaced: m.dom().contains(key),
        },
        OpView::Delete { key } => EffectView::Delete { key, existed: m.dom().contains(key) },
        OpView::Cas { key, .. } => EffectView::Cas {
            key,
            version: lsn,
            replaced: m.dom().contains(key),
        },
    }
}

/// A committed transaction: its LSN and what each operation did.
#[derive(Debug, Clone, PartialEq, Eq)]
pub struct TxnOutcome {
    pub lsn: u64,
    pub effects: Vec<OpEffect>,
}

/// A checked transaction, ready to be logged and applied.
#[derive(Debug)]
pub struct Pending {
    pub record: LogRecord,
    pub outcome: TxnOutcome,
}

/// What is wrong with a key, if anything.
pub open spec fn key_fault(limits: Limits, key: Seq<u8>) -> Option<StoreFault> {
    if key.len() == 0 {
        Some(StoreFault::EmptyKey)
    } else if key.len() > limits.max_key_bytes {
        Some(StoreFault::KeyTooLarge { size: key.len(), max: limits.max_key_bytes as nat })
    } else {
        None
    }
}

/// What is wrong with a value, if anything.
pub open spec fn value_fault(limits: Limits, value: Seq<u8>) -> Option<StoreFault> {
    if value.len() > limits.max_value_bytes {
        Some(StoreFault::ValueTooLarge { size: value.len(), max: limits.max_value_bytes as nat })
    } else {
        None
    }
}

/// One of the first `n` operations has this key.
pub open spec fn key_among(ops: Seq<OpView>, n: int, key: Seq<u8>) -> bool {
    exists|j: int| 0 <= j < n && op_key(#[trigger] ops[j]) == key
}

/// What is wrong with the operation at `i`, whatever the table holds: its key, its value, or that
/// its key has occurred before.
pub open spec fn op_fault(limits: Limits, ops: Seq<OpView>, i: int) -> Option<StoreFault> {
    let key = op_key(ops[i]);
    let bad_value = match op_value(ops[i]) {
        Some(v) => value_fault(limits, v),
        None => None,
    };
    if key_fault(limits, key) is Some {
        key_fault(limits, key)
    } else if bad_value is Some {
        bad_value
    } else if key_among(ops, i, key) {
        Some(StoreFault::DuplicateKeyInTransaction { key })
    } else {
        None
    }
}

/// The first thing wrong among the first `n` operations, whatever the table holds.
pub open spec fn shape_fault(limits: Limits, ops: Seq<OpView>, n: int) -> Option<StoreFault>
    decreases n,
{
    if n <= 0 {
        None
    } else {
        match shape_fault(limits, ops, n - 1) {
            Some(e) => Some(e),
            None => op_fault(limits, ops, n - 1),
        }
    }
}

/// The value of a key, if it is there.
pub open spec fn value_in(m: Entries, key: Seq<u8>) -> Option<Seq<u8>> {
    if m.dom().contains(key) {
        Some(m[key].value)
    } else {
        None
    }
}

/// The conflict of an operation with the table, if its condition does not hold.
pub open spec fn op_conflict(m: Entries, op: OpView) -> Option<StoreFault> {
    match op {
        OpView::Cas { key, expected, .. } => if value_in(m, key) != expected {
            Some(StoreFault::CasConflict { key, expected, actual: value_in(m, key) })
        } else {
            None
        },
        _ => None,
    }
}

/// The first conflict among the first `n` operations.
pub open spec fn conflict(m: Entries, ops: Seq<OpView>, n: int) -> Option<StoreFault>
    decreases n,
{
    if n <= 0 {
        None
    } else {
        match conflict(m, ops, n - 1) {
            Some(e) => Some(e),
            None => op_conflict(m, ops[n - 1]),
        }
    }
}

/// Why a transaction is rejected, if it is.
pub open spec fn txn_fault(limits: Limits, m: Entries, ops: Seq<OpView>) -> Option<StoreFault> {
    if ops.len() == 0 {
        Some(StoreFault::EmptyTransaction)
    } else if ops.len() > limits.max_ops_per_txn {
        Some(
            StoreFault::TransactionTooLarge {
                count: ops.len(),
                max: limits.max_ops_per_txn as nat,
            },
        )
    } else {
        match shape_fault(limits, ops, ops.len() as int) {
            Some(e) => Some(e),
            None => conflict(m, ops, ops.len() as int),
        }
    }
}

/// The record that a transaction is logged as.
pub open spec fn txn_record(lsn: u64, ops: Seq<OpView>) -> RecordView {
    RecordView { lsn, mutations: ops.map_values(|op: OpView| op_mutation(op)) }
}

/// The effects of a transaction, operation by operation.
pub open spec fn txn_effects(m: Entries, lsn: u64, ops: Seq<OpView>) -> Seq<EffectView> {
    ops.map_values(|op: OpView| op_effect(m, lsn, op))
}

/// Checks a key against the limits.
pub fn validate_key(limits: &Limits, key: &[u8]) -> (r: Result<(), StoreError>)
    ensures
        match r {
            Ok(_) => key_fault(*limits, key@) is None,
            Err(e) => key_fault(*limits, key@) == Some(e@),
        },
{
    if key.len() == 0 {
        return Err(StoreError::EmptyKey);
    }
    if key.len() > limits.max_key_bytes {
        return Err(StoreError::KeyTooLarge { size: key.len(), max: limits.max_key_bytes });
    }
    Ok(())
}

/// Checks a value against the limits.
pub fn validate_value(limits: &Limits, value: &[u8]) -> (r: Result<(), StoreError>)
    ensures
        match r {
            Ok(_) => value_fault(*limits, value@) is None,
            Err(e) => value_fault(*limits, value@) == Some(e@),
        },
{
    if value.len() > limits.max_value_bytes {
        return Err(StoreError::ValueTooLarge { size: value.len(), max: limits.max_value_bytes });
    }
    Ok(())
}

/// Whether an optional byte string is the expected one.
pub fn same_option(a: Option<&[u8]>, b: &Option<Vec<u8>>) -> (r: bool)
    ensures
        r == (match a {
            Some(v) => Some(v@),
            None => None,
        } == error::bytes_option(*b)),
{
    match (a, b) {
        (Some(x), Some(y)) => order::same_bytes(x, y.as_slice()),
        (None, None) => true,
        _ => false,
    }
}

/// Copies an optional byte string.
pub fn copy_option(v: &Option<Vec<u8>>) -> (r: Option<Vec<u8>>)
    ensures
        error::bytes_option(r) == error::bytes_option(*v),
{
    match v {
        Some(b) => Some(order::copy_bytes(b.as_slice())),
        None => None,
    }
}

impl Op {
    /// The key of the operation.
    pub fn key(&self) -> (r: &[u8])
        ensures
            r@ == op_key(self@),
    {
        match self {
            Op::Put { key, .. } => key.as_slice(),
            Op::Delete { key } => key.as_slice(),
            Op::Cas { key, .. } => key.as_slice(),
        }
    }

    /// The mutation that the operation makes.
    pub fn mutation(&self) -> (r: Mutation)
        ensures
            r@ == op_mutation(self@),
    {
        match self {
            Op::Put { key, value } => Mutation::Put {
                key: order::copy_bytes(key.as_slice()),
                value: order::copy_bytes(value.as_slice()),
            },
            Op::Delete { key } => Mutation::Delete { key: order::copy_bytes(key.as_slice()) },
            Op::Cas { key, value, .. } => Mutation::Put {
                key: order::copy_bytes(key.as_slice()),
                value: order::copy_bytes(value.as_slice()),
            },
        }
    }
}

/// Checks what can be checked of a transaction without the table: that it has operations and not
/// too many, that keys and values are within their limits, and that no key occurs twice.
pub fn validate_ops(limits: &Limits, ops: &Vec<Op>) -> (r: Result<(), StoreError>)
    ensures
        match r {
            Ok(_) => 0 < ops@.len() <= limits.max_ops_per_txn && shape_fault(
                *limits,
                op_views(ops@),
                ops@.len() as int,
            ) is None,
            Err(e) => if ops@.len() == 0 {
                e@ == StoreFault::EmptyTransaction
            } else if ops@.len() > limits.max_ops_per_txn {
                e@ == (StoreFault::TransactionTooLarge {
                    count: ops@.len(),
                    max: limits.max_ops_per_txn as nat,
                })
            } else {
                shape_fault(*limits, op_views(ops@), ops@.len() as int) == Some(e@)
            },
        },
{
    if ops.len() == 0 {
        return Err(StoreError::EmptyTransaction);
    }
    if ops.len() > limits.max_ops_per_txn {
        return Err(
            StoreError::TransactionTooLarge { count: ops.len(), max: limits.max_ops_per_txn },
        );
    }
    let ghost views = op_views(ops@);
    let mut seen: KeyMap<Seen> = KeyMap::new();
    let mut i: usize = 0;
    while i < ops.len()
        invariant
            i <= ops@.len(),
            0 < ops@.len() <= limits.max_ops_per_txn,
            views == op_views(ops@),
            seen.wf(),
            forall|k: Seq<u8>| #[trigger]
                seen@.dom().contains(k) <==> key_among(views, i as int, k),
            shape_fault(*limits, views, i as int) is None,
        decreases ops@.len() - i,
    {
        let op = &ops[i];
        assert(op@ == views[i as int]);
        let checked: Result<(), StoreError> = match validate_key(limits, op.key()) {
            Err(e) => Err(e),
            Ok(_) => match op {
                Op::Put { value, .. } => validate_value(limits, value.as_slice()),
                Op::Delete { .. } => Ok(()),
                Op::Cas { value, .. } => validate_value(limits, value.as_slice()),
            },
        };
        match checked {
            Err(e) => {
                proof {
                    lemma_shape_stops(*limits, views, i + 1, ops@.len() as int);
                }
                return Err(e);
            },
            Ok(_) => {},
        }
        if seen.contains(op.key()) {
            proof {
                assert(seen@.dom().contains(op_key(op@)));
                lemma_shape_stops(*limits, views, i + 1, ops@.len() as int);
            }
            return Err(
                StoreError::DuplicateKeyInTransaction { key: order::copy_bytes(op.key()) },
            );
        }
        let ghost before = seen@;
        seen.insert(order::copy_bytes(op.key()), Seen);
        proof {
            assert forall|k: Seq<u8>| #[trigger] seen@.dom().contains(k) <==> key_among(
                views,
                i + 1,
                k,
            ) by {
                if before.dom().contains(k) {
                    let j = choose|j: int| 0 <= j < i && op_key(#[trigger] views[j]) == k;
                    assert(op_key(views[j]) == k);
                }
                if k == op_key(op@) {
                    assert(op_key(views[i as int]) == k);
                }
                if key_among(views, i + 1, k) {
                    let j = choose|j: int| 0 <= j < i + 1 && op_key(#[trigger] views[j]) == k;
                    if j < i {
                        assert(op_key(views[j]) == k);
                        assert(before.dom().contains(k));
                    }
                }
            }
        }
        i += 1;
    }
    Ok(())
}

proof fn lemma_shape_stops(limits: Limits, ops: Seq<OpView>, n: int, m: int)
    requires
        n <= m,
        shape_fault(limits, ops, n) is Some,
    ensures
        shape_fault(limits, ops, m) == shape_fault(limits, ops, n),
    decreases m - n,
{
    if n < m {
        lemma_shape_stops(limits, ops, n, m - 1);
    }
}

proof fn lemma_conflict_stops(e: Entries, ops: Seq<OpView>, n: int, m: int)
    requires
        n <= m,
        conflict(e, ops, n) is Some,
    ensures
        conflict(e, ops, m) == conflict(e, ops, n),
    decreases m - n,
{
    if n < m {
        lemma_conflict_stops(e, ops, n, m - 1);
    }
}

/// The entries of a table, by key.
pub type Entries = Map<Seq<u8>, EntryView>;

/// The entries after one mutation of the transaction `lsn`.
pub open spec fn apply_mutation(m: Entries, lsn: u64, op: MutationView) -> Entries {
    match op {
        MutationView::Put { key, value } => m.insert(key, EntryView { value, version: lsn }),
        MutationView::Delete { key } => m.remove(key),
    }
}

/// The entries after the mutations of the transaction `lsn`, in order.
pub open spec fn apply_mutations(m: Entries, lsn: u64, ops: Seq<MutationView>) -> Entries
    decreases ops.len(),
{
    if ops.len() == 0 {
        m
    } else {
        apply_mutation(apply_mutations(m, lsn, ops.drop_last()), lsn, ops.last())
    }
}

/// The state of a table.
pub struct TableView {
    pub entries: Entries,
    /// LSN of the last transaction applied.
    pub lsn: u64,
    /// LSN of the snapshot that the table started from.
    pub snapshot_lsn: u64,
}

/// The table after a log record: a record that the snapshot covers is skipped, the next one is
/// applied, and any other one is a gap.
pub open spec fn replay_one(t: TableView, r: RecordView) -> Result<TableView, StoreFault> {
    if r.lsn <= t.snapshot_lsn {
        Ok(t)
    } else if r.lsn == t.lsn + 1 {
        Ok(
            TableView {
                entries: apply_mutations(t.entries, r.lsn, r.mutations),
                lsn: r.lsn,
                snapshot_lsn: t.snapshot_lsn,
            },
        )
    } else {
        Err(StoreFault::Corruption(gap_message(t.lsn, r.lsn)))
    }
}

/// What is said of a record that is not the next one.
pub open spec fn gap_message(last: u64, found: u64) -> Seq<char> {
    "LSN gap in WAL: record "@ + text::decimal(found as nat) + " follows "@ + text::decimal(
        last as nat,
    )
}

/// The table after log records, in order, up to the first that fails.
pub open spec fn replay_all(t: TableView, rs: Seq<RecordView>) -> Result<TableView, StoreFault>
    decreases rs.len(),
{
    if rs.len() == 0 {
        Ok(t)
    } else {
        match replay_all(t, rs.drop_last()) {
            Ok(u) => replay_one(u, rs.last()),
            Err(e) => Err(e),
        }
    }
}

/// The table of a store that holds nothing yet.
pub open spec fn fresh_table() -> TableView {
    TableView { entries: Map::empty(), lsn: 0, snapshot_lsn: 0 }
}

/// The table that recovery starts from: the snapshot, or an empty table.
pub open spec fn start_table(snapshot: Option<(u64, Entries)>) -> TableView {
    match snapshot {
        Some((lsn, entries)) => TableView { entries, lsn, snapshot_lsn: lsn },
        None => fresh_table(),
    }
}

/// The table once a snapshot at `lsn` is durable.
pub open spec fn noted(t: TableView, lsn: u64) -> TableView {
    TableView { snapshot_lsn: lsn, ..t }
}

/// The live key table: entries, the LSN of the last commit, and the LSN of the last snapshot.
#[derive(Debug)]
pub struct Table {
    entries: KeyMap<Entry>,
    lsn: u64,
    snapshot_lsn: u64,
}

impl View for Table {
    type V = TableView;

    closed spec fn view(&self) -> TableView {
        TableView { entries: self.entries@, lsn: self.lsn, snapshot_lsn: self.snapshot_lsn }
    }
}

impl Table {
    /// The entries are kept in order, and the snapshot is not ahead of the table.
    pub closed spec fn wf(&self) -> bool {
        self.entries.wf() && self.snapshot_lsn <= self.lsn
    }

    /// The snapshot is not ahead of the table.
    pub proof fn lemma_wf(&self)
        requires
            self.wf(),
        ensures
            self@.snapshot_lsn <= self@.lsn,
            self@.entries.dom().finite(),
            self@.entries.dom().len() <= usize::MAX,
    {
        self.entries.lemma_entries();
    }

    /// The table that recovery starts from.
    pub fn new(snapshot: Option<Snapshot>) -> (r: Table)
        requires
            snapshot is Some ==> snapshot->Some_0.entries.wf(),
        ensures
            r.wf(),
            r@ == start_table(
                match snapshot {
                    Some(s) => Some((s.lsn, s.entries@)),
                    None => None,
                },
            ),
    {
        match snapshot {
            Some(s) => Table { entries: s.entries, lsn: s.lsn, snapshot_lsn: s.lsn },
            None => Table { entries: KeyMap::new(), lsn: 0, snapshot_lsn: 0 },
        }
    }

    /// Feeds one log record to the table.
    pub fn replay(&mut self, rec: &LogRecord) -> (r: Result<(), StoreError>)
        requires
            old(self).wf(),
        ensures
            final(self).wf(),
            match r {
                Ok(_) => replay_one(old(self)@, rec@) == Ok::<_, StoreFault>(final(self)@),
                Err(e) => replay_one(old(self)@, rec@) == Err::<TableView, _>(e@) && final(self)@
                    == old(self)@,
            },
    {
        if rec.lsn <= self.snapshot_lsn {
            return Ok(());
        }
        if self.lsn == u64::MAX || rec.lsn != self.lsn + 1 {
            let mut s = "LSN gap in WAL: record ".to_string();
            s.append(text::number_text(rec.lsn).as_str());
            s.append(" follows ");
            s.append(text::number_text(self.lsn).as_str());
            return Err(StoreError::Corruption(s));
        }
        snapshot::apply_record(&mut self.entries, rec);
        self.lsn = rec.lsn;
        Ok(())
    }

    /// Feeds log records to the table, in order, up to the first that fails.
    pub fn replay_records(&mut self, records: &Vec<LogRecord>) -> (r: Result<(), StoreError>)
        requires
            old(self).wf(),
        ensures
            final(self).wf(),
            match r {
                Ok(_) => replay_all(old(self)@, record::record_views(records@)) == Ok::<
                    _,
                    StoreFault,
                >(final(self)@),
                Err(e) => replay_all(old(self)@, record::record_views(records@)) == Err::<
                    TableView,
                    _,
                >(e@),
            },
    {
        let ghost start = self@;
        let ghost rs = record::record_views(records@);
        let mut i: usize = 0;
        assert(rs.take(0) =~= Seq::empty());
        while i < records.len()
            invariant
                i <= records@.len(),
                rs == record::record_views(records@),
                start == old(self)@,
                self.wf(),
                replay_all(start, rs.take(i as int)) == Ok::<_, StoreFault>(self@),
            decreases records@.len() - i,
        {
            proof {
                assert(rs.take(i + 1).drop_last() =~= rs.take(i as int));
                assert(rs.take(i + 1).last() == records@[i as int]@);
            }
            match self.replay(&records[i]) {
                Ok(_) => {},
                Err(e) => {
                    proof {
                        lemma_replay_stops(start, rs, i + 1);
                    }
                    return Err(e);
                },
            }
            i += 1;
        }
        assert(rs.take(i as int) =~= rs);
        Ok(())
    }
}

impl Table {
    /// Checks a transaction against the limits and the table, and makes its log record. Nothing
    /// changes: a rejected transaction leaves no trace and uses up no LSN.
    pub fn prepare(&self, limits: &Limits, ops: &Vec<Op>) -> (r: Result<Pending, StoreError>)
        requires
            self.wf(),
            self@.lsn < u64::MAX,
        ensures
            match r {
                Ok(p) => {
                    &&& txn_fault(*limits, self@.entries, op_views(ops@)) is None
                    &&& p.record@ == txn_record((self@.lsn + 1) as u64, op_views(ops@))
                    &&& p.outcome.lsn == self@.lsn + 1
                    &&& effect_views(p.outcome.effects@) == txn_effects(
                        self@.entries,
                        (self@.lsn + 1) as u64,
                        op_views(ops@),
                    )
                },
                Err(e) => txn_fault(*limits, self@.entries, op_views(ops@)) == Some(e@),
            },
    {
        match validate_ops(limits, ops) {
            Ok(_) => {},
            Err(e) => return Err(e),
        }
        let ghost views = op_views(ops@);
        let ghost m = self@.entries;
        let lsn: u64 = self.lsn + 1;
        let mut mutations: Vec<Mutation> = Vec::new();
        let mut effects: Vec<OpEffect> = Vec::new();
        let mut i: usize = 0;
        while i < ops.len()
            invariant
                i <= ops@.len(),
                views == op_views(ops@),
                0 < ops@.len() <= limits.max_ops_per_txn,
                shape_fault(*limits, views, ops@.len() as int) is None,
                self.wf(),
                m == self@.entries,
                mutations@.len() == i,
                effects@.len() == i,
                forall|j: int|
                    0 <= j < i ==> (#[trigger] mutations@[j])@ == op_mutation(views[j]),
                forall|j: int|
                    0 <= j < i ==> (#[trigger] effects@[j])@ == op_effect(m, lsn, views[j]),
                conflict(m, views, i as int) is None,
            decreases ops@.len() - i,
        {
            let op = &ops[i];
            assert(op@ == views[i as int]);
            let effect = match op {
                Op::Put { key, .. } => OpEffect::Put {
                    key: order::copy_bytes(key.as_slice()),
                    version: lsn,
                    replaced: self.entries.contains(key.as_slice()),
                },
                Op::Delete { key } => OpEffect::Delete {
                    key: order::copy_bytes(key.as_slice()),
                    existed: self.entries.contains(key.as_slice()),
                },
                Op::Cas { key, expected, .. } => {
                    let current = self.entries.get(key.as_slice());
                    let matches_expected: bool = match current {
                        Some(e) => same_option(Some(e.value.as_slice()), expected),
                        None => same_option(None, expected),
                    };
                    if !matches_expected {
                        let actual = match current {
                            Some(e) => Some(order::copy_bytes(e.value.as_slice())),
                            None => None,
                        };
                        proof {
                            lemma_conflict_stops(m, views, i + 1, ops@.len() as int);
                        }
                        return Err(
                            StoreError::CasConflict {
                                key: order::copy_bytes(key.as_slice()),
                                expected: copy_option(expected),
                                actual,
                            },
                        );
                    }
                    OpEffect::Cas {
                        key: order::copy_bytes(key.as_slice()),
                        version: lsn,
                        replaced: current.is_some(),
                    }
                },
            };
            mutations.push(op.mutation());
            effects.push(effect);
            i += 1;
        }
        let record = LogRecord { lsn, mutations };
        proof {
            assert(record@.mutations =~= txn_record(lsn, views).mutations);
            assert(effect_views(effects@) =~= txn_effects(m, lsn, views));
        }
        Ok(Pending { record, outcome: TxnOutcome { lsn, effects } })
    }

    /// Applies a transaction that was prepared on this table, once its record is on disk.
    pub fn commit(&mut self, pending: Pending) -> (r: TxnOutcome)
        requires
            old(self).wf(),
            pending.record@.lsn == old(self)@.lsn + 1,
        ensures
            r == pending.outcome,
            final(self).wf(),
            replay_one(old(self)@, pending.record@) == Ok::<_, StoreFault>(final(self)@),
    {
        snapshot::apply_record(&mut self.entries, &pending.record);
        self.lsn = pending.record.lsn;
        pending.outcome
    }

    /// The entry of a key, if it is there, and the LSN at which it was read.
    pub fn get(&self, limits: &Limits, key: &[u8]) -> (r: Result<(Option<Entry>, u64), StoreError>)
        requires
            self.wf(),
        ensures
            match r {
                Ok((entry, lsn)) => {
                    &&& key_fault(*limits, key@) is None
                    &&& lsn == self@.lsn
                    &&& match entry {
                        Some(e) => self@.entries.dom().contains(key@) && self@.entries[key@] == e@,
                        None => !self@.entries.dom().contains(key@),
                    }
                },
                Err(e) => key_fault(*limits, key@) == Some(e@),
            },
    {
        match validate_key(limits, key) {
            Ok(_) => {},
            Err(e) => return Err(e),
        }
        match self.entries.get(key) {
            Some(e) => Ok((Some(e.copy()), self.lsn)),
            None => Ok((None, self.lsn)),
        }
    }

    /// The first `limit` entries whose keys lie between two ends, in order, and the LSN at which
    /// they were read.
    pub fn scan_range(&self, start: &KeyBound, end: &KeyBound, limit: usize) -> (r: (
        Vec<(Vec<u8>, Entry)>,
        u64,
    ))
        requires
            self.wf(),
        ensures
            r.1 == self@.lsn,
            listing(r.0@) == first_entries(
                self@.entries,
                keymap::keys_in_range(self@.entries.dom(), start@, end@),
                limit as nat,
            ),
    {
        let (a, b) = self.entries.range(start, end);
        let ghost ks = self.entries.key_seq();
        let ghost all = ks.subrange(a as int, b as int);
        let count: usize = if b - a < limit {
            b - a
        } else {
            limit
        };
        let mut out: Vec<(Vec<u8>, Entry)> = Vec::new();
        let mut i: usize = 0;
        proof {
            self.entries.lemma_entries();
        }
        while i < count
            invariant
                i <= count <= b - a,
                a <= b <= ks.len(),
                self.wf(),
                ks == self.entries.key_seq(),
                all == ks.subrange(a as int, b as int),
                forall|j: int|
                    0 <= j < ks.len() ==> self@.entries[#[trigger] ks[j]]
                        == self.entries.val_seq()[j]@,
                out@.len() == i,
                forall|j: int|
                    0 <= j < i ==> (#[trigger] out@[j]).0@ == all[j] && out@[j].1@
                        == self@.entries[all[j]],
            decreases count - i,
        {
            let key = order::copy_bytes(self.entries.key_at(a + i).as_slice());
            let entry = self.entries.val_at(a + i).copy();
            assert(all[i as int] == ks[a + i]);
            out.push((key, entry));
            i += 1;
        }
        proof {
            let set = keymap::keys_in_range(self@.entries.dom(), start@, end@);
            assert(all == order::sorted_keys(set));
            assert(listing(out@) =~= first_entries(self@.entries, set, limit as nat));
        }
        (out, self.lsn)
    }

    /// The first `limit` entries whose keys start with `prefix`, in order, and the LSN at which
    /// they were read.
    pub fn scan_prefix(&self, prefix: &[u8], limit: usize) -> (r: (Vec<(Vec<u8>, Entry)>, u64))
        requires
            self.wf(),
        ensures
            r.1 == self@.lsn,
            listing(r.0@) == first_entries(
                self@.entries,
                keymap::keys_with_prefix(self@.entries.dom(), prefix@),
                limit as nat,
            ),
    {
        let (lo, hi) = keymap::prefix_bounds(prefix);
        proof {
            keymap::lemma_prefix_keys(self@.entries.dom(), prefix@);
        }
        self.scan_range(&lo, &hi, limit)
    }

    /// The number of live keys.
    pub fn key_count(&self) -> (r: usize)
        requires
            self.wf(),
        ensures
            r == self@.entries.dom().len(),
    {
        self.entries.len()
    }

    /// LSN of the last commit.
    pub fn lsn(&self) -> (r: u64)
        ensures
            r == self@.lsn,
    {
        self.lsn
    }

    /// LSN of the last snapshot.
    pub fn snapshot_lsn(&self) -> (r: u64)
        ensures
            r == self@.snapshot_lsn,
    {
        self.snapshot_lsn
    }

    /// The bytes of a snapshot of the table as it is.
    pub fn snapshot(&self) -> (r: Result<(SnapshotMeta, Vec<u8>), StoreError>)
        requires
            self.wf(),
        ensures
            r is Ok,
            r->Ok_0.0.lsn == self@.lsn,
            r->Ok_0.1@ == snapshot::snapshot_bytes(self@.lsn, self@.entries),
    {
        snapshot::write(self.lsn, &self.entries)
    }

    /// Notes that a snapshot has become durable.
    pub fn note_snapshot(&mut self, meta: SnapshotMeta)
        requires
            old(self).wf(),
            meta.lsn <= old(self)@.lsn,
        ensures
            final(self).wf(),
            final(self)@ == noted(old(self)@, meta.lsn),
    {
        self.snapshot_lsn = meta.lsn;
    }
}

/// Keys and entries as a reader gets them.
pub open spec fn listing(v: Seq<(Vec<u8>, Entry)>) -> Seq<(Seq<u8>, EntryView)> {
    v.map_values(|p: (Vec<u8>, Entry)| (p.0@, p.1@))
}

/// The entries of the first `limit` of some keys, in the order of the keys.
pub open spec fn first_entries(m: Entries, keys: Set<Seq<u8>>, limit: nat) -> Seq<
    (Seq<u8>, EntryView),
> {
    let sorted = order::sorted_keys(keys);
    let n = if sorted.len() < limit {
        sorted.len()
    } else {
        limit
    };
    sorted.take(n as int).map_values(|k: Seq<u8>| (k, m[k]))
}

/// Replay that fails stops where it fails.
pub proof fn lemma_replay_stops(t: TableView, rs: Seq<RecordView>, n: int)
    requires
        0 <= n <= rs.len(),
        replay_all(t, rs.take(n)) is Err,
    ensures
        replay_all(t, rs) == replay_all(t, rs.take(n)),
    decreases rs.len() - n,
{
    if n < rs.len() {
        assert(rs.take(n + 1).drop_last() =~= rs.take(n));
        lemma_replay_stops(t, rs, n + 1);
    } else {
        assert(rs.take(n) =~= rs);
    }
}

proof fn lemma_shape_clean(limits: Limits, ops: Seq<OpView>, n: int, i: int)
    requires
        0 <= i < n <= ops.len(),
        shape_fault(limits, ops, n) is None,
    ensures
        op_fault(limits, ops, i) is None,
    decreases n,
{
    if i < n - 1 {
        lemma_shape_clean(limits, ops, n - 1, i);
    }
}

/// In a transaction of an accepted shape no two operations have the same key.
proof fn lemma_distinct_keys(limits: Limits, ops: Seq<OpView>, i: int, j: int)
    requires
        0 <= i < j < ops.len(),
        shape_fault(limits, ops, ops.len() as int) is None,
    ensures
        op_key(ops[i]) != op_key(ops[j]),
{
    lemma_shape_clean(limits, ops, ops.len() as int, j);
    if op_key(ops[i]) == op_key(ops[j]) {
        assert(key_among(ops, j, op_key(ops[j])));
    }
}

/// A key has the same entry in two tables, or is in neither.
pub open spec fn same_entry(a: Entries, b: Entries, k: Seq<u8>) -> bool {
    &&& a.dom().contains(k) <==> b.dom().contains(k)
    &&& b.dom().contains(k) ==> a[k] == b[k]
}

/// What the first `n` mutations of a transaction with distinct keys leave behind.
proof fn lemma_applied(m: Entries, lsn: u64, ops: Seq<OpView>, n: int)
    requires
        0 <= n <= ops.len(),
        forall|i: int, j: int|
            0 <= i < j < ops.len() ==> op_key(#[trigger] ops[i]) != op_key(#[trigger] ops[j]),
    ensures
        ({
            let after = apply_mutations(m, lsn, txn_record(lsn, ops).mutations.take(n));
            &&& forall|i: int|
                0 <= i < n ==> {
                    &&& value_in(after, op_key(#[trigger] ops[i])) == op_value(ops[i])
                    &&& op_value(ops[i]) is Some ==> after[op_key(ops[i])].version == lsn
                }
            &&& forall|k: Seq<u8>|
                !#[trigger] key_among(ops, n, k) ==> same_entry(after, m, k)
        }),
    decreases n,
{
    let all = txn_record(lsn, ops).mutations;
    let after = apply_mutations(m, lsn, all.take(n));
    if n == 0 {
        assert(all.take(0) =~= Seq::empty());
    } else {
        lemma_applied(m, lsn, ops, n - 1);
        assert(all.take(n).drop_last() =~= all.take(n - 1));
        assert(all.take(n).last() == op_mutation(ops[n - 1]));
        let before = apply_mutations(m, lsn, all.take(n - 1));
        assert forall|i: int| 0 <= i < n implies {
            &&& value_in(after, op_key(#[trigger] ops[i])) == op_value(ops[i])
            &&& op_value(ops[i]) is Some ==> after[op_key(ops[i])].version == lsn
        } by {
            if i < n - 1 {
                assert(op_key(ops[i]) != op_key(ops[n - 1]));
                assert(value_in(before, op_key(ops[i])) == op_value(ops[i]));
            }
        }
        assert forall|k: Seq<u8>| !#[trigger] key_among(ops, n, k) implies same_entry(
            after,
            m,
            k,
        ) by {
            assert(op_key(ops[n - 1]) != k);
            if key_among(ops, n - 1, k) {
                let j = choose|j: int| 0 <= j < n - 1 && op_key(#[trigger] ops[j]) == k;
                assert(op_key(ops[j]) == k);
            }
            assert(same_entry(before, m, k));
        }
    }
}

/// A committed transaction is visible as a whole: every key that it writes has its new value with
/// the transaction's LSN as version, every key that it deletes is gone, and no other key changes.
pub proof fn lemma_commit_is_atomic(limits: Limits, t: TableView, ops: Seq<OpView>)
    requires
        t.lsn < u64::MAX,
        t.snapshot_lsn <= t.lsn,
        txn_fault(limits, t.entries, ops) is None,
    ensures
        ({
            let lsn = (t.lsn + 1) as u64;
            let done = replay_one(t, txn_record(lsn, ops));
            &&& done is Ok
            &&& done->Ok_0.lsn == t.lsn + 1
            &&& forall|i: int|
                0 <= i < ops.len() ==> {
                    &&& value_in(done->Ok_0.entries, op_key(#[trigger] ops[i])) == op_value(ops[i])
                    &&& op_value(ops[i]) is Some ==> done->Ok_0.entries[op_key(ops[i])].version
                        == lsn
                }
            &&& forall|k: Seq<u8>|
                !#[trigger] key_among(ops, ops.len() as int, k) ==> same_entry(
                    done->Ok_0.entries,
                    t.entries,
                    k,
                )
        }),
{
    let lsn = (t.lsn + 1) as u64;
    let all = txn_record(lsn, ops).mutations;
    assert forall|i: int, j: int| 0 <= i < j < ops.len() implies op_key(#[trigger] ops[i])
        != op_key(#[trigger] ops[j]) by {
        lemma_distinct_keys(limits, ops, i, j);
    }
    lemma_applied(t.entries, lsn, ops, ops.len() as int);
    assert(all.take(ops.len() as int) =~= all);
}

/// A compare-and-swap commits only where the key's value was the expected one.
pub proof fn lemma_cas_needs_match(limits: Limits, m: Entries, ops: Seq<OpView>, i: int)
    requires
        txn_fault(limits, m, ops) is None,
        0 <= i < ops.len(),
    ensures
        ops[i] matches OpView::Cas { key, expected, .. } ==> value_in(m, key) == expected,
{
    lemma_conflict_clean(m, ops, ops.len() as int, i);
}

/// Of the transactions that swap the same value of a key only one commits: once it has, a swap that
/// expects the value from before meets a conflict.
pub proof fn lemma_cas_has_one_winner(
    limits: Limits,
    t: TableView,
    ops: Seq<OpView>,
    i: int,
    other: Seq<u8>,
)
    requires
        t.lsn < u64::MAX,
        t.snapshot_lsn <= t.lsn,
        txn_fault(limits, t.entries, ops) is None,
        0 <= i < ops.len(),
        ops[i] is Cas,
        ops[i]->Cas_expected != Some(ops[i]->Cas_value),
    ensures
        ({
            let done = replay_one(t, txn_record((t.lsn + 1) as u64, ops));
            let expected = ops[i]->Cas_expected;
            &&& done is Ok
            &&& op_conflict(
                done->Ok_0.entries,
                OpView::Cas { key: ops[i]->Cas_key, expected, value: other },
            ) == Some(
                StoreFault::CasConflict {
                    key: ops[i]->Cas_key,
                    expected,
                    actual: Some(ops[i]->Cas_value),
                },
            )
        }),
{
    lemma_commit_is_atomic(limits, t, ops);
    let done = replay_one(t, txn_record((t.lsn + 1) as u64, ops))->Ok_0;
    assert(value_in(done.entries, op_key(ops[i])) == op_value(ops[i]));
}

proof fn lemma_conflict_clean(m: Entries, ops: Seq<OpView>, n: int, i: int)
    requires
        0 <= i < n <= ops.len(),
        conflict(m, ops, n) is None,
    ensures
        op_conflict(m, ops[i]) is None,
    decreases n,
{
    if i < n - 1 {
        lemma_conflict_clean(m, ops, n - 1, i);
    }
}

/// No key has a version that is still to come.
pub open spec fn versions_known(t: TableView) -> bool {
    forall|k: Seq<u8>| #[trigger] t.entries.dom().contains(k) ==> t.entries[k].version <= t.lsn
}

proof fn lemma_applied_versions(m: Entries, lsn: u64, ops: Seq<MutationView>, k: Seq<u8>)
    ensures
        ({
            let after = apply_mutations(m, lsn, ops);
            after.dom().contains(k) ==> after[k].version == lsn || (m.dom().contains(k) && after[k]
                == m[k])
        }),
    decreases ops.len(),
{
    if ops.len() > 0 {
        lemma_applied_versions(m, lsn, ops.drop_last(), k);
    }
}

/// Versions never run ahead of the log, in running as in recovery.
pub proof fn lemma_versions_stay_known(t: TableView, r: RecordView)
    requires
        versions_known(t),
        replay_one(t, r) is Ok,
    ensures
        versions_known(replay_one(t, r)->Ok_0),
{
    let u = replay_one(t, r)->Ok_0;
    assert forall|k: Seq<u8>| #[trigger] u.entries.dom().contains(k) implies u.entries[k].version
        <= u.lsn by {
        if u != t {
            lemma_applied_versions(t.entries, r.lsn, r.mutations, k);
        }
    }
}

/// The version of a key never goes back: a record leaves it as it is or gives it a greater one.
pub proof fn lemma_versions_increase(t: TableView, r: RecordView, k: Seq<u8>)
    requires
        versions_known(t),
        replay_one(t, r) is Ok,
        t.entries.dom().contains(k),
        replay_one(t, r)->Ok_0.entries.dom().contains(k),
    ensures
        ({
            let after = replay_one(t, r)->Ok_0.entries[k];
            after == t.entries[k] || after.version > t.entries[k].version
        }),
{
    if r.lsn > t.snapshot_lsn {
        lemma_applied_versions(t.entries, r.lsn, r.mutations, k);
    }
}

/// A key that a record creates gets a version greater than any before, also where the key had been
/// deleted.
pub proof fn lemma_new_key_version(t: TableView, r: RecordView, k: Seq<u8>)
    requires
        replay_one(t, r) is Ok,
        !t.entries.dom().contains(k),
        replay_one(t, r)->Ok_0.entries.dom().contains(k),
    ensures
        replay_one(t, r)->Ok_0.entries[k].version > t.lsn,
{
    if r.lsn > t.snapshot_lsn {
        lemma_applied_versions(t.entries, r.lsn, r.mutations, k);
    }
}

/// The log reproduces the table: what a commit does to the table is what replaying its record after
/// the earlier ones does.
pub proof fn lemma_log_reproduces(
    limits: Limits,
    start: TableView,
    rs: Seq<RecordView>,
    t: TableView,
    ops: Seq<OpView>,
)
    requires
        replay_all(start, rs) == Ok::<_, StoreFault>(t),
        t.lsn < u64::MAX,
        txn_fault(limits, t.entries, ops) is None,
    ensures
        replay_all(start, rs.push(txn_record((t.lsn + 1) as u64, ops))) == replay_one(
            t,
            txn_record((t.lsn + 1) as u64, ops),
        ),
{
    assert(rs.push(txn_record((t.lsn + 1) as u64, ops)).drop_last() =~= rs);
}

/// Replay of one part of a log after another.
pub proof fn lemma_replay_concat(t: TableView, a: Seq<RecordView>, b: Seq<RecordView>)
    requires
        replay_all(t, a) is Ok,
    ensures
        replay_all(t, a + b) == replay_all(replay_all(t, a)->Ok_0, b),
    decreases b.len(),
{
    if b.len() == 0 {
        assert(a + b =~= a);
    } else {
        assert((a + b).drop_last() =~= a + b.drop_last());
        lemma_replay_concat(t, a, b.drop_last());
    }
}

/// Replay keeps the snapshot's LSN.
pub proof fn lemma_replay_keeps_snapshot(t: TableView, rs: Seq<RecordView>)
    requires
        replay_all(t, rs) is Ok,
    ensures
        replay_all(t, rs)->Ok_0.snapshot_lsn == t.snapshot_lsn,
    decreases rs.len(),
{
    if rs.len() > 0 {
        lemma_replay_keeps_snapshot(t, rs.drop_last());
    }
}

/// Replay keeps the snapshot's LSN and never goes back.
proof fn lemma_replay_lsn(t: TableView, rs: Seq<RecordView>)
    requires
        replay_all(t, rs) is Ok,
        t.snapshot_lsn <= t.lsn,
    ensures
        replay_all(t, rs)->Ok_0.snapshot_lsn == t.snapshot_lsn,
        replay_all(t, rs)->Ok_0.lsn >= t.lsn,
        forall|i: int|
            0 <= i < rs.len() ==> (#[trigger] rs[i]).lsn <= replay_all(t, rs)->Ok_0.lsn,
    decreases rs.len(),
{
    if rs.len() > 0 {
        lemma_replay_lsn(t, rs.drop_last());
        let u = replay_all(t, rs.drop_last())->Ok_0;
        assert forall|i: int| 0 <= i < rs.len() implies (#[trigger] rs[i]).lsn <= replay_all(
            t,
            rs,
        )->Ok_0.lsn by {
            if i < rs.len() - 1 {
                assert(rs.drop_last()[i] == rs[i]);
            }
        }
    }
}

/// Records that a snapshot covers change nothing.
pub proof fn lemma_covered_records_skipped(t: TableView, rs: Seq<RecordView>)
    requires
        forall|i: int| 0 <= i < rs.len() ==> (#[trigger] rs[i]).lsn <= t.snapshot_lsn,
    ensures
        replay_all(t, rs) == Ok::<_, StoreFault>(t),
    decreases rs.len(),
{
    if rs.len() > 0 {
        assert forall|i: int| 0 <= i < rs.drop_last().len() implies (#[trigger] rs.drop_last()[i]).lsn
            <= t.snapshot_lsn by {
            assert(rs.drop_last()[i] == rs[i]);
        }
        lemma_covered_records_skipped(t, rs.drop_last());
    }
}

/// Two tables that differ only in the snapshot they came from stay so through a log that one of
/// them takes.
proof fn lemma_replay_same(t: TableView, u: TableView, rs: Seq<RecordView>)
    requires
        t.entries == u.entries,
        t.lsn == u.lsn,
        t.snapshot_lsn <= u.snapshot_lsn <= t.lsn,
        replay_all(t, rs) is Ok,
    ensures
        replay_all(u, rs) is Ok,
        replay_all(u, rs)->Ok_0.entries == replay_all(t, rs)->Ok_0.entries,
        replay_all(u, rs)->Ok_0.lsn == replay_all(t, rs)->Ok_0.lsn,
    decreases rs.len(),
{
    if rs.len() > 0 {
        let before = rs.drop_last();
        lemma_replay_same(t, u, before);
        lemma_replay_lsn(t, before);
        lemma_replay_lsn(u, before);
    }
}

/// Compaction is idempotent: it leaves entries and LSN as they are, the table then knows its own LSN
/// as the one of the snapshot, and a second compaction with no commit in between writes the same
/// snapshot and changes nothing.
pub proof fn lemma_compaction_is_idempotent(t: TableView)
    ensures
        ({
            let once = noted(t, t.lsn);
            &&& once.entries == t.entries
            &&& once.lsn == t.lsn
            &&& once.snapshot_lsn == t.lsn
            &&& snapshot::snapshot_bytes(once.lsn, once.entries) == snapshot::snapshot_bytes(
                t.lsn,
                t.entries,
            )
            &&& noted(once, once.lsn) == once
        }),
{
}

/// No record is applied a second time: recovery from a later snapshot and the whole log gives the
/// table that the log gave before. The snapshot is the table after the first `n` records.
pub proof fn lemma_no_double_apply(start: TableView, rs: Seq<RecordView>, n: int)
    requires
        start.snapshot_lsn <= start.lsn,
        0 <= n <= rs.len(),
        replay_all(start, rs) is Ok,
    ensures
        ({
            let taken = replay_all(start, rs.take(n));
            let whole = replay_all(start, rs);
            &&& taken is Ok
            &&& ({
                let recovered = replay_all(
                    start_table(Some((taken->Ok_0.lsn, taken->Ok_0.entries))),
                    rs,
                );
                &&& recovered is Ok
                &&& recovered->Ok_0.entries == whole->Ok_0.entries
                &&& recovered->Ok_0.lsn == whole->Ok_0.lsn
            })
        }),
{
    let a = rs.take(n);
    let b = rs.skip(n);
    assert(a + b =~= rs);
    if replay_all(start, a) is Err {
        lemma_replay_stops(start, rs, n);
    }
    let taken = replay_all(start, a)->Ok_0;
    lemma_replay_concat(start, a, b);
    lemma_replay_lsn(start, a);
    let snap = start_table(Some((taken.lsn, taken.entries)));
    lemma_covered_records_skipped(snap, a);
    lemma_replay_concat(snap, a, b);
    lemma_replay_same(taken, snap, b);
}

} // verus!
