//! What the operations of the key table promise, in terms of what goes in and what comes out.

use crate::engine::Engine;
use crate::error::{StoreError, StoreFault};
use crate::keymap::KeyBound;
use crate::order;
use crate::record;
use crate::record::{LogRecord, Mutation, Snapshot};
use crate::snapshot::SnapshotMeta;
use crate::table;
use crate::table::{Entries, Entry, EntryView, Limits, Op, OpEffect, Pending, Table, TxnOutcome};
use crate::wal::{AppendPlan, SegmentFile, Wal};
use vstd::prelude::*;

verus! {

/// The entry that a table holds of a key.
pub open spec fn entry_of(m: Entries, k: Seq<u8>) -> Option<EntryView> {
    if m.dom().contains(k) {
        Some(m[k])
    } else {
        None
    }
}

// ---------- transactions ----------

/// The key of an operation.
pub open spec fn key_of(op: Op) -> Seq<u8> {
    match op {
        Op::Put { key, .. } => key@,
        Op::Delete { key } => key@,
        Op::Cas { key, .. } => key@,
    }
}

/// What an operation leaves of its key's value.
pub open spec fn leaves(op: Op) -> Option<Seq<u8>> {
    match op {
        Op::Put { value, .. } => Some(value@),
        Op::Delete { .. } => None,
        Op::Cas { value, .. } => Some(value@),
    }
}

/// An operation is sound: its key is not empty, key and value are not too large, and no operation
/// before it has its key.
pub open spec fn sound_op(limits: Limits, ops: Seq<Op>, i: int) -> bool {
    &&& 1 <= key_of(ops[i]).len() <= limits.max_key_bytes
    &&& leaves(ops[i]) is Some ==> leaves(ops[i])->Some_0.len() <= limits.max_value_bytes
    &&& forall|j: int| 0 <= j < i ==> key_of(#[trigger] ops[j]) != key_of(ops[i])
}

/// What is wrong with an operation that is not sound.
pub open spec fn names_fault(limits: Limits, ops: Seq<Op>, i: int, f: StoreFault) -> bool {
    let size = key_of(ops[i]).len();
    let value = leaves(ops[i]);
    if size == 0 {
        f == StoreFault::EmptyKey
    } else if size > limits.max_key_bytes {
        f == (StoreFault::KeyTooLarge { size, max: limits.max_key_bytes as nat })
    } else if value is Some && value->Some_0.len() > limits.max_value_bytes {
        f == (StoreFault::ValueTooLarge {
            size: value->Some_0.len(),
            max: limits.max_value_bytes as nat,
        })
    } else {
        f == (StoreFault::DuplicateKeyInTransaction { key: key_of(ops[i]) })
    }
}

/// The expectation of an operation, if it has one, is the value that the table holds: none where
/// the key is not there.
pub open spec fn expects_current(m: Entries, op: Op) -> bool {
    match op {
        Op::Cas { key, expected: Some(x), .. } => m.dom().contains(key@) && m[key@].value == x@,
        Op::Cas { key, expected: None, .. } => !m.dom().contains(key@),
        _ => true,
    }
}

/// The conflict of a swap with the table: its key, what it expected and what is there.
pub open spec fn names_conflict(m: Entries, op: Op, f: StoreFault) -> bool {
    match op {
        Op::Cas { key, expected, .. } => {
            &&& f is CasConflict
            &&& f->CasConflict_key == key@
            &&& f->expected is Some <==> expected is Some
            &&& expected is Some ==> f->expected->Some_0 == expected->Some_0@
            &&& f->actual is Some <==> m.dom().contains(key@)
            &&& f->actual is Some ==> f->actual->Some_0 == m[key@].value
        },
        _ => false,
    }
}

/// A mutation is what is logged of an operation: a put of what it leaves, or a deletion.
pub open spec fn logs(op: Op, m: Mutation) -> bool {
    match (op, m) {
        (Op::Delete { key }, Mutation::Delete { key: k }) => k@ == key@,
        (Op::Put { key, value }, Mutation::Put { key: k, value: v }) => k@ == key@ && v@ == value@,
        (Op::Cas { key, value, .. }, Mutation::Put { key: k, value: v }) => k@ == key@ && v@
            == value@,
        _ => false,
    }
}

/// An effect is what is reported of an operation of the transaction `lsn`: its key, the version that
/// it wrote, and whether the key was there before.
pub open spec fn reports(m: Entries, lsn: int, op: Op, e: OpEffect) -> bool {
    match (op, e) {
        (Op::Put { key, .. }, OpEffect::Put { key: k, version, replaced }) => k@ == key@ && version
            == lsn && replaced == m.dom().contains(key@),
        (Op::Delete { key }, OpEffect::Delete { key: k, existed }) => k@ == key@ && existed
            == m.dom().contains(key@),
        (Op::Cas { key, .. }, OpEffect::Cas { key: k, version, replaced }) => k@ == key@ && version
            == lsn && replaced == m.dom().contains(key@),
        _ => false,
    }
}

proof fn lemma_shape(limits: Limits, ops: Seq<Op>, n: int)
    requires
        0 <= n <= ops.len(),
    ensures
        table::shape_fault(limits, table::op_views(ops), n) is None <==> forall|i: int|
            0 <= i < n ==> #[trigger] sound_op(limits, ops, i),
        table::shape_fault(limits, table::op_views(ops), n) is Some ==> exists|i: int|
            {
                &&& 0 <= i < n
                &&& !#[trigger] sound_op(limits, ops, i)
                &&& forall|j: int| 0 <= j < i ==> #[trigger] sound_op(limits, ops, j)
                &&& names_fault(
                    limits,
                    ops,
                    i,
                    table::shape_fault(limits, table::op_views(ops), n)->Some_0,
                )
            },
    decreases n,
{
    if n > 0 {
        lemma_shape(limits, ops, n - 1);
        let views = table::op_views(ops);
        let key = key_of(ops[n - 1]);
        assert forall|j: int| 0 <= j < n implies table::op_key(#[trigger] views[j]) == key_of(
            ops[j],
        ) by {
            assert(views[j] == ops[j]@);
        }
        assert(views[n - 1] == ops[n - 1]@);
        assert(table::op_value(views[n - 1]) == leaves(ops[n - 1]));
        assert(table::key_among(views, n - 1, key) <==> exists|j: int|
            0 <= j < n - 1 && key_of(#[trigger] ops[j]) == key) by {
            if table::key_among(views, n - 1, key) {
                let j = choose|j: int| 0 <= j < n - 1 && table::op_key(#[trigger] views[j]) == key;
                assert(key_of(ops[j]) == key);
            }
            if exists|j: int| 0 <= j < n - 1 && key_of(#[trigger] ops[j]) == key {
                let j = choose|j: int| 0 <= j < n - 1 && key_of(#[trigger] ops[j]) == key;
                assert(table::op_key(views[j]) == key);
            }
        }
        assert(table::op_fault(limits, views, n - 1) is None <==> sound_op(limits, ops, n - 1));
    }
}

proof fn lemma_conflict(m: Entries, ops: Seq<Op>, n: int)
    requires
        0 <= n <= ops.len(),
    ensures
        table::conflict(m, table::op_views(ops), n) is None <==> forall|i: int|
            0 <= i < n ==> expects_current(m, #[trigger] ops[i]),
        table::conflict(m, table::op_views(ops), n) is Some ==> exists|i: int|
            {
                &&& 0 <= i < n
                &&& !expects_current(m, #[trigger] ops[i])
                &&& forall|j: int| 0 <= j < i ==> expects_current(m, #[trigger] ops[j])
                &&& names_conflict(
                    m,
                    ops[i],
                    table::conflict(m, table::op_views(ops), n)->Some_0,
                )
            },
    decreases n,
{
    if n > 0 {
        lemma_conflict(m, ops, n - 1);
        assert(table::op_views(ops)[n - 1] == ops[n - 1]@);
        assert(table::op_conflict(m, ops[n - 1]@) is None <==> expects_current(m, ops[n - 1]));
    }
}

/// A transaction is prepared exactly where it holds something, is not too long, every operation is
/// sound and every swap expects what is there. It then takes the next LSN, and is logged and
/// reported operation by operation. Otherwise the first thing wrong is named.
pub proof fn lemma_prepare(t: &Table, limits: &Limits, ops: &Vec<Op>, r: Result<Pending, StoreError>)
    requires
        call_ensures(Table::prepare, (t, limits, ops), r),
        t@.lsn < u64::MAX,
    ensures
        ({
            let m = t@.entries;
            let fits = 1 <= ops@.len() <= limits.max_ops_per_txn;
            let sound = forall|i: int| 0 <= i < ops@.len() ==> #[trigger] sound_op(*limits, ops@, i);
            let current = forall|i: int|
                0 <= i < ops@.len() ==> expects_current(m, #[trigger] ops@[i]);
            &&& r is Ok <==> fits && sound && current
            &&& r is Ok ==> {
                let p = r->Ok_0;
                &&& p.record.lsn == t@.lsn + 1
                &&& p.outcome.lsn == t@.lsn + 1
                &&& p.record.mutations@.len() == ops@.len()
                &&& p.outcome.effects@.len() == ops@.len()
                &&& forall|i: int|
                    0 <= i < ops@.len() ==> logs(#[trigger] ops@[i], p.record.mutations@[i])
                &&& forall|i: int|
                    0 <= i < ops@.len() ==> reports(
                        m,
                        t@.lsn + 1,
                        #[trigger] ops@[i],
                        p.outcome.effects@[i],
                    )
            }
            &&& ops@.len() == 0 ==> r is Err && r->Err_0@ == StoreFault::EmptyTransaction
            &&& ops@.len() > limits.max_ops_per_txn && ops@.len() > 0 ==> r is Err && r->Err_0@ == (
            StoreFault::TransactionTooLarge {
                count: ops@.len(),
                max: limits.max_ops_per_txn as nat,
            })
            &&& fits && !sound ==> exists|i: int|
                {
                    &&& 0 <= i < ops@.len()
                    &&& !#[trigger] sound_op(*limits, ops@, i)
                    &&& forall|j: int| 0 <= j < i ==> #[trigger] sound_op(*limits, ops@, j)
                    &&& names_fault(*limits, ops@, i, r->Err_0@)
                }
            &&& fits && sound && !current ==> exists|i: int|
                {
                    &&& 0 <= i < ops@.len()
                    &&& !expects_current(m, #[trigger] ops@[i])
                    &&& forall|j: int| 0 <= j < i ==> expects_current(m, #[trigger] ops@[j])
                    &&& names_conflict(m, ops@[i], r->Err_0@)
                }
        }),
{
    let n = ops@.len() as int;
    let views = table::op_views(ops@);
    lemma_shape(*limits, ops@, n);
    lemma_conflict(t@.entries, ops@, n);
    if r is Ok {
        let p = r->Ok_0;
        let lsn = (t@.lsn + 1) as u64;
        assert(p.record@.mutations.len() == p.record.mutations@.len());
        assert(table::effect_views(p.outcome.effects@).len() == p.outcome.effects@.len());
        assert forall|i: int| 0 <= i < n implies logs(
            #[trigger] ops@[i],
            p.record.mutations@[i],
        ) by {
            assert(views[i] == ops@[i]@);
            assert(p.record@.mutations[i] == p.record.mutations@[i]@);
            assert(table::txn_record(lsn, views).mutations[i] == table::op_mutation(views[i]));
        }
        assert forall|i: int| 0 <= i < n implies reports(
            t@.entries,
            t@.lsn + 1,
            #[trigger] ops@[i],
            p.outcome.effects@[i],
        ) by {
            assert(views[i] == ops@[i]@);
            assert(table::effect_views(p.outcome.effects@)[i] == p.outcome.effects@[i]@);
            assert(table::txn_effects(t@.entries, lsn, views)[i] == table::op_effect(
                t@.entries,
                lsn,
                views[i],
            ));
        }
    }
}

/// The checks of keys and values.
pub proof fn lemma_validate(
    limits: &Limits,
    bytes: &[u8],
    key: Result<(), StoreError>,
    value: Result<(), StoreError>,
)
    requires
        call_ensures(table::validate_key, (limits, bytes), key),
        call_ensures(table::validate_value, (limits, bytes), value),
    ensures
        key is Ok <==> 1 <= bytes@.len() <= limits.max_key_bytes,
        bytes@.len() == 0 ==> key->Err_0@ == StoreFault::EmptyKey,
        key is Err && bytes@.len() > 0 ==> key->Err_0@ == (StoreFault::KeyTooLarge {
            size: bytes@.len(),
            max: limits.max_key_bytes as nat,
        }),
        value is Ok <==> bytes@.len() <= limits.max_value_bytes,
        value is Err ==> value->Err_0@ == (StoreFault::ValueTooLarge {
            size: bytes@.len(),
            max: limits.max_value_bytes as nat,
        }),
{
}

/// The key of a mutation.
pub open spec fn mutated(m: Mutation) -> Seq<u8> {
    match m {
        Mutation::Put { key, .. } => key@,
        Mutation::Delete { key } => key@,
    }
}

/// The entry of a key once the first `n` mutations of the transaction `lsn` are done: what the last
/// one on the key left, or what was there where there is none.
pub open spec fn entry_after(
    m: Entries,
    lsn: u64,
    ms: Seq<Mutation>,
    n: int,
    k: Seq<u8>,
) -> Option<EntryView>
    decreases n,
{
    if n <= 0 {
        entry_of(m, k)
    } else if mutated(ms[n - 1]) != k {
        entry_after(m, lsn, ms, n - 1, k)
    } else {
        match ms[n - 1] {
            Mutation::Put { value, .. } => Some(EntryView { value: value@, version: lsn }),
            Mutation::Delete { .. } => None,
        }
    }
}

proof fn lemma_entry_after(m: Entries, lsn: u64, ms: Seq<Mutation>, n: int, k: Seq<u8>)
    requires
        0 <= n <= ms.len(),
    ensures
        entry_of(
            table::apply_mutations(m, lsn, record::mutation_views(ms).take(n)),
            k,
        ) == entry_after(m, lsn, ms, n, k),
    decreases n,
{
    let views = record::mutation_views(ms);
    if n > 0 {
        lemma_entry_after(m, lsn, ms, n - 1, k);
        assert(views.take(n).drop_last() =~= views.take(n - 1));
        assert(views.take(n).last() == ms[n - 1]@);
    } else {
        assert(views.take(0) =~= Seq::empty());
    }
}

/// A table has taken a record: every key has the entry that the record's mutations leave it, in
/// their order, and the record's LSN is the last one.
pub open spec fn has_taken(
    before: table::TableView,
    after: table::TableView,
    rec: LogRecord,
) -> bool {
    &&& after.lsn == rec.lsn
    &&& after.snapshot_lsn == before.snapshot_lsn
    &&& forall|k: Seq<u8>| #[trigger]
        entry_of(after.entries, k) == entry_after(
            before.entries,
            rec.lsn,
            rec.mutations@,
            rec.mutations@.len() as int,
            k,
        )
}

proof fn lemma_taken(before: table::TableView, after: table::TableView, rec: LogRecord)
    requires
        after.lsn == rec.lsn,
        after.snapshot_lsn == before.snapshot_lsn,
        after.entries == table::apply_mutations(before.entries, rec.lsn, rec@.mutations),
    ensures
        has_taken(before, after, rec),
{
    let n = rec.mutations@.len() as int;
    let views = record::mutation_views(rec.mutations@);
    assert(views.take(n) =~= views);
    assert forall|k: Seq<u8>| #[trigger] entry_of(after.entries, k) == entry_after(
        before.entries,
        rec.lsn,
        rec.mutations@,
        n,
        k,
    ) by {
        lemma_entry_after(before.entries, rec.lsn, rec.mutations@, n, k);
    }
}

/// A commit takes the record that was prepared, and reports what was prepared.
pub proof fn lemma_commit(t: &mut Table, p: Pending, r: TxnOutcome)
    requires
        old(t)@.snapshot_lsn <= old(t)@.lsn,
        p.record.lsn == old(t)@.lsn + 1,
        call_ensures(Table::commit, (t, p), r),
    ensures
        r == p.outcome,
        has_taken(old(t)@, final(t)@, p.record),
{
    lemma_taken(old(t)@, final(t)@, p.record);
}

/// A record that the snapshot covers changes nothing; the next one is taken; any other is a gap, and
/// changes nothing.
pub proof fn lemma_replay(t: &mut Table, rec: &LogRecord, r: Result<(), StoreError>)
    requires
        call_ensures(Table::replay, (t, rec), r),
    ensures
        rec.lsn <= old(t)@.snapshot_lsn ==> r is Ok && final(t)@ == old(t)@,
        rec.lsn > old(t)@.snapshot_lsn && rec.lsn == old(t)@.lsn + 1 ==> r is Ok && has_taken(
            old(t)@,
            final(t)@,
            *rec,
        ),
        rec.lsn > old(t)@.snapshot_lsn && rec.lsn != old(t)@.lsn + 1 ==> r is Err
            && r->Err_0@ is Corruption && final(t)@ == old(t)@,
{
    if rec.lsn > old(t)@.snapshot_lsn && rec.lsn == old(t)@.lsn + 1 {
        lemma_taken(old(t)@, final(t)@, *rec);
    }
}

/// Feeding records to a table, with one more behind them: what was refused stays refused, for the
/// same reason; else the last record meets the table that the others left.
pub proof fn lemma_replay_records(
    a: &mut Table,
    records: &Vec<LogRecord>,
    r: Result<(), StoreError>,
    b: &mut Table,
    more: &Vec<LogRecord>,
    rec: LogRecord,
    r2: Result<(), StoreError>,
)
    requires
        call_ensures(Table::replay_records, (a, records), r),
        call_ensures(Table::replay_records, (b, more), r2),
        old(a)@ == old(b)@,
        more@ == records@.push(rec),
    ensures
        records@.len() == 0 ==> r is Ok && final(a)@ == old(a)@,
        r is Err ==> r2 is Err && r2->Err_0@ == r->Err_0@,
        r is Ok ==> {
            let t = final(a)@;
            if rec.lsn <= t.snapshot_lsn {
                r2 is Ok && final(b)@ == t
            } else if rec.lsn == t.lsn + 1 {
                r2 is Ok && has_taken(t, final(b)@, rec)
            } else {
                r2 is Err && r2->Err_0@ is Corruption
            }
        },
{
    let x = record::record_views(records@);
    let y = record::record_views(more@);
    assert(y.drop_last() =~= x);
    assert(y.last() == rec@);
    if records@.len() == 0 {
        assert(x =~= Seq::empty());
    }
    if r is Ok && rec.lsn > final(a)@.snapshot_lsn && rec.lsn == final(a)@.lsn + 1 {
        lemma_taken(final(a)@, final(b)@, rec);
    }
}

/// What log records leave of a table, one more record at a time.
pub proof fn lemma_replay_all(t: table::TableView, records: Seq<LogRecord>, rec: LogRecord)
    ensures
        table::replay_all(t, record::record_views(Seq::empty())) == Ok::<_, StoreFault>(t),
        match table::replay_all(t, record::record_views(records)) {
            Err(e) => table::replay_all(t, record::record_views(records.push(rec))) == Err::<
                table::TableView,
                _,
            >(e),
            Ok(u) => {
                let v = table::replay_all(t, record::record_views(records.push(rec)));
                if rec.lsn <= u.snapshot_lsn {
                    v == Ok::<_, StoreFault>(u)
                } else if rec.lsn == u.lsn + 1 {
                    v is Ok && has_taken(u, v->Ok_0, rec)
                } else {
                    v is Err && v->Err_0 is Corruption
                }
            },
        },
{
    let x = record::record_views(records);
    let y = record::record_views(records.push(rec));
    assert(record::record_views(Seq::<LogRecord>::empty()) =~= Seq::empty());
    assert(y.drop_last() =~= x);
    assert(y.last() == rec@);
    if table::replay_all(t, x) is Ok {
        let u = table::replay_all(t, x)->Ok_0;
        if rec.lsn > u.snapshot_lsn && rec.lsn == u.lsn + 1 {
            lemma_taken(u, table::replay_all(t, y)->Ok_0, rec);
        }
    }
}

/// A table starts from the snapshot, entry for entry, or from nothing.
pub proof fn lemma_new(s: Option<Snapshot>, t: Table)
    requires
        call_ensures(Table::new, (s,), t),
    ensures
        s is Some ==> t@.entries == s->Some_0.entries@ && t@.lsn == s->Some_0.lsn && t@.snapshot_lsn
            == s->Some_0.lsn,
        s is None ==> t@.entries == Entries::empty() && t@.lsn == 0 && t@.snapshot_lsn == 0,
{
}

/// A durable snapshot moves the position of the last snapshot and nothing else.
pub proof fn lemma_note_snapshot(t: &mut Table, meta: SnapshotMeta, r: ())
    requires
        call_ensures(Table::note_snapshot, (t, meta), r),
    ensures
        final(t)@.snapshot_lsn == meta.lsn,
        final(t)@.lsn == old(t)@.lsn,
        final(t)@.entries == old(t)@.entries,
{
}

// ---------- reads ----------

/// A read gives the entry of the key, or nothing where there is none, at the last position; a key
/// that is empty or too large is refused.
pub proof fn lemma_get(
    t: &Table,
    limits: &Limits,
    key: &[u8],
    r: Result<(Option<Entry>, u64), StoreError>,
)
    requires
        call_ensures(Table::get, (t, limits, key), r),
    ensures
        r is Ok <==> 1 <= key@.len() <= limits.max_key_bytes,
        r is Ok ==> {
            let (e, lsn) = r->Ok_0;
            &&& lsn == t@.lsn
            &&& e is Some <==> t@.entries.dom().contains(key@)
            &&& e is Some ==> e->Some_0.value@ == t@.entries[key@].value && e->Some_0.version
                == t@.entries[key@].version
        },
        key@.len() == 0 ==> r->Err_0@ == StoreFault::EmptyKey,
        r is Err && key@.len() > 0 ==> r->Err_0@ == (StoreFault::KeyTooLarge {
            size: key@.len(),
            max: limits.max_key_bytes as nat,
        }),
{
}

/// Entries are those of the keys asked for, in the order of the keys; with more than `limit` of them
/// they are the first ones.
pub open spec fn scan_of(
    m: Entries,
    asked: spec_fn(Seq<u8>) -> bool,
    limit: nat,
    out: Seq<(Seq<u8>, EntryView)>,
) -> bool {
    &&& forall|i: int|
        0 <= i < out.len() ==> {
            &&& asked((#[trigger] out[i]).0)
            &&& m.dom().contains(out[i].0)
            &&& m[out[i].0] == out[i].1
        }
    &&& forall|i: int, j: int|
        0 <= i < j < out.len() ==> order::key_lt((#[trigger] out[i]).0, (#[trigger] out[j]).0)
    &&& out.len() <= limit
    &&& forall|k: Seq<u8>|
        asked(k) && #[trigger] m.dom().contains(k) ==> {
            ||| exists|i: int| 0 <= i < out.len() && (#[trigger] out[i]).0 == k
            ||| out.len() == limit && (limit > 0 ==> order::key_lt(out[out.len() - 1].0, k))
        }
}

/// The first entries of a set of keys are a scan of them.
pub proof fn lemma_first_entries(
    m: Entries,
    set: Set<Seq<u8>>,
    asked: spec_fn(Seq<u8>) -> bool,
    limit: nat,
)
    requires
        m.dom().finite(),
        forall|k: Seq<u8>| #[trigger] set.contains(k) <==> m.dom().contains(k) && asked(k),
    ensures
        scan_of(m, asked, limit, table::first_entries(m, set, limit)),
{
    assert(set.subset_of(m.dom()));
    vstd::set_lib::lemma_set_subset_finite(m.dom(), set);
    let ks = order::sorted_keys(set);
    order::lemma_sorted_exists(set);
    let out = table::first_entries(m, set, limit);
    assert forall|i: int| 0 <= i < out.len() implies {
        &&& asked((#[trigger] out[i]).0)
        &&& m.dom().contains(out[i].0)
        &&& m[out[i].0] == out[i].1
    } by {
        assert(out[i].0 == ks[i]);
        assert(ks.to_set().contains(ks[i]));
    }
    assert forall|i: int, j: int| 0 <= i < j < out.len() implies order::key_lt(
        (#[trigger] out[i]).0,
        (#[trigger] out[j]).0,
    ) by {
        assert(out[i].0 == ks[i] && out[j].0 == ks[j]);
    }
    assert forall|k: Seq<u8>| asked(k) && #[trigger] m.dom().contains(k) implies {
        ||| exists|i: int| 0 <= i < out.len() && (#[trigger] out[i]).0 == k
        ||| out.len() == limit && (limit > 0 ==> order::key_lt(out[out.len() - 1].0, k))
    } by {
        assert(set.contains(k));
        assert(ks.to_set().contains(k));
        let i = choose|i: int| 0 <= i < ks.len() && ks[i] == k;
        if i < out.len() {
            assert(out[i].0 == k);
        } else if limit > 0 {
            let n = out.len() - 1;
            assert(out[n].0 == ks[n]);
            assert(order::key_lt(ks[n], ks[i]));
        }
    }
}

/// A key is not before the lower end of a range.
pub open spec fn above(k: Seq<u8>, lo: KeyBound) -> bool {
    match lo {
        KeyBound::Included(b) => !order::key_lt(k, b@),
        KeyBound::Excluded(b) => order::key_lt(b@, k),
        KeyBound::Unbounded => true,
    }
}

/// A key is not behind the upper end of a range.
pub open spec fn below(k: Seq<u8>, hi: KeyBound) -> bool {
    match hi {
        KeyBound::Included(b) => !order::key_lt(b@, k),
        KeyBound::Excluded(b) => order::key_lt(k, b@),
        KeyBound::Unbounded => true,
    }
}

/// A key lies in a range exactly where it is above its lower and below its upper end.
pub proof fn lemma_in_range(k: Seq<u8>, lo: KeyBound, hi: KeyBound)
    ensures
        crate::keymap::in_range(k, lo@, hi@) <==> above(k, lo) && below(k, hi),
{
    order::lemma_lt_irreflexive(k);
    if lo@ is Included {
        let b = lo@->Included_0;
        order::lemma_lt_total(k, b);
        if order::key_lt(b, k) {
            order::lemma_lt_asymmetric(b, k);
        }
    }
    if hi@ is Included {
        let b = hi@->Included_0;
        order::lemma_lt_total(k, b);
        if order::key_lt(k, b) {
            order::lemma_lt_asymmetric(k, b);
        }
    }
}

/// A range scan gives the keys between its ends, each end open, excluded or included, at the last
/// position.
pub proof fn lemma_scan_range(
    t: &Table,
    lo: &KeyBound,
    hi: &KeyBound,
    limit: usize,
    r: (Vec<(Vec<u8>, Entry)>, u64),
)
    requires
        t.wf(),
        call_ensures(Table::scan_range, (t, lo, hi, limit), r),
    ensures
        r.1 == t@.lsn,
        scan_of(
            t@.entries,
            |k: Seq<u8>| above(k, *lo) && below(k, *hi),
            limit as nat,
            pairs(r.0@),
        ),
{
    t.lemma_wf();
    let m = t@.entries;
    let set = crate::keymap::keys_in_range(m.dom(), lo@, hi@);
    let asked = |k: Seq<u8>| above(k, *lo) && below(k, *hi);
    assert forall|k: Seq<u8>| #[trigger] set.contains(k) <==> m.dom().contains(k) && asked(k) by {
        lemma_in_range(k, *lo, *hi);
    }
    lemma_first_entries(m, set, asked, limit as nat);
    assert(pairs(r.0@) =~= table::listing(r.0@));
}

/// Keys and entries, as values.
pub open spec fn pairs(v: Seq<(Vec<u8>, Entry)>) -> Seq<(Seq<u8>, EntryView)> {
    Seq::new(
        v.len(),
        |i: int| (v[i].0@, EntryView { value: v[i].1.value@, version: v[i].1.version }),
    )
}

/// A prefix scan gives the keys that start with the bytes of the prefix, at the last position.
pub proof fn lemma_scan_prefix(
    t: &Table,
    prefix: &[u8],
    limit: usize,
    r: (Vec<(Vec<u8>, Entry)>, u64),
)
    requires
        t.wf(),
        call_ensures(Table::scan_prefix, (t, prefix, limit), r),
    ensures
        r.1 == t@.lsn,
        scan_of(
            t@.entries,
            |k: Seq<u8>| k.len() >= prefix@.len() && k.take(prefix@.len() as int) == prefix@,
            limit as nat,
            pairs(r.0@),
        ),
{
    t.lemma_wf();
    let m = t@.entries;
    let set = crate::keymap::keys_with_prefix(m.dom(), prefix@);
    let asked = |k: Seq<u8>| k.len() >= prefix@.len() && k.take(prefix@.len() as int) == prefix@;
    assert forall|k: Seq<u8>| #[trigger] set.contains(k) <==> m.dom().contains(k) && asked(k) by {
        if k.len() >= prefix@.len() {
            assert(k.take(prefix@.len() as int) =~= k.subrange(0, prefix@.len() as int));
        }
    }
    lemma_first_entries(m, set, asked, limit as nat);
    assert(pairs(r.0@) =~= table::listing(r.0@));
}

/// The counts and positions of a table.
pub proof fn lemma_positions(t: &Table, count: usize, lsn: u64, snapshot_lsn: u64)
    requires
        call_ensures(Table::key_count, (t,), count),
        call_ensures(Table::lsn, (t,), lsn),
        call_ensures(Table::snapshot_lsn, (t,), snapshot_lsn),
    ensures
        count == t@.entries.dom().len(),
        lsn == t@.lsn,
        snapshot_lsn == t@.snapshot_lsn,
{
}

// ---------- snapshots ----------

/// What is written of a table is loaded as the same table, entry for entry, at the same position.
/// Without a file there is no snapshot. (An entry too long for a frame cannot be read back.)
pub proof fn lemma_snapshot_round_trip(
    t: &Table,
    written: Result<(SnapshotMeta, Vec<u8>), StoreError>,
    path: &str,
    file: Option<Vec<u8>>,
    r: Result<Option<Snapshot>, StoreError>,
)
    requires
        t.wf(),
        crate::engine::snapshot_fits(t@.entries),
        call_ensures(Table::snapshot, (t,), written),
        call_ensures(crate::snapshot::load, (path, file), r),
        file is Some && written is Ok ==> file->Some_0@ == written->Ok_0.1@,
    ensures
        written is Ok,
        written->Ok_0.0.lsn == t@.lsn,
        file is None ==> r is Ok && r->Ok_0 is None,
        file is Some ==> {
            &&& r is Ok
            &&& r->Ok_0 is Some
            &&& r->Ok_0->Some_0.lsn == t@.lsn
            &&& r->Ok_0->Some_0.entries@ == t@.entries
        },
{
    crate::snapshot::lemma_snapshot_round_trip(path@, t@.lsn, t@.entries);
}

/// A snapshot file that was cut short is refused, wherever it was cut.
pub proof fn lemma_cut_snapshot(
    t: &Table,
    written: Result<(SnapshotMeta, Vec<u8>), StoreError>,
    path: &str,
    n: int,
    file: Option<Vec<u8>>,
    r: Result<Option<Snapshot>, StoreError>,
)
    requires
        t.wf(),
        crate::engine::snapshot_fits(t@.entries),
        call_ensures(Table::snapshot, (t,), written),
        written is Ok ==> {
            &&& 0 <= n < written->Ok_0.1@.len()
            &&& file is Some
            &&& file->Some_0@ == written->Ok_0.1@.take(n)
        },
        call_ensures(crate::snapshot::load, (path, file), r),
    ensures
        r is Err,
        r->Err_0@ is Corruption,
{
    t.lemma_wf();
    crate::snapshot::lemma_cut_snapshot_is_refused(path@, t@.lsn, t@.entries, n);
}

// ---------- the table with its log ----------

/// A transaction is prepared as the table prepares it, and planned as the log plans it.
pub proof fn lemma_engine_prepare(
    e: &Engine,
    ops: &Vec<Op>,
    r: Result<(Pending, AppendPlan), StoreError>,
    t: Result<Pending, StoreError>,
    rec: &LogRecord,
    plan: Result<AppendPlan, StoreError>,
)
    requires
        call_ensures(Engine::prepare, (e, ops), r),
        call_ensures(Table::prepare, (&e.table, &e.limits, ops), t),
        t is Ok ==> rec@ == t->Ok_0.record@,
        call_ensures(Wal::append, (&e.wal, rec, e.compact_threshold), plan),
        e.table@.lsn < u64::MAX,
    ensures
        t is Err ==> r is Err && r->Err_0@ == t->Err_0@,
        t is Ok ==> {
            let (p, q) = r->Ok_0;
            &&& r is Ok
            &&& p.record@ == t->Ok_0.record@
            &&& p.outcome.lsn == t->Ok_0.outcome.lsn
            &&& p.outcome.effects@.len() == t->Ok_0.outcome.effects@.len()
            &&& forall|i: int|
                0 <= i < p.outcome.effects@.len() ==> (#[trigger] p.outcome.effects@[i])@
                    == t->Ok_0.outcome.effects@[i]@
            &&& plan is Ok
            &&& q.frame@ == plan->Ok_0.frame@
            &&& q.rotate == plan->Ok_0.rotate
            &&& q.sealed_end_lsn == plan->Ok_0.sealed_end_lsn
        },
{
    if t is Ok {
        let a = table::effect_views(r->Ok_0.0.outcome.effects@);
        let b = table::effect_views(t->Ok_0.outcome.effects@);
        assert(a == b);
        assert(a.len() == r->Ok_0.0.outcome.effects@.len());
        assert(b.len() == t->Ok_0.outcome.effects@.len());
        assert forall|i: int| 0 <= i < a.len() implies (
        #[trigger] r->Ok_0.0.outcome.effects@[i])@ == t->Ok_0.outcome.effects@[i]@ by {
            assert(a[i] == b[i]);
        }
    }
}

/// A commit takes the record into the table, adds the frame to the log, and says that a compaction
/// is due where none is running and the log has reached its threshold.
pub proof fn lemma_engine_commit(e: &mut Engine, p: Pending, len: u64, r: (TxnOutcome, bool))
    requires
        old(e).table@.snapshot_lsn <= old(e).table@.lsn,
        p.record.lsn == old(e).table@.lsn + 1,
        old(e).wal@.total_bytes + len <= u64::MAX,
        old(e).wal@.active_size + len <= u64::MAX,
        call_ensures(Engine::commit, (e, p, len), r),
    ensures
        r.0 == p.outcome,
        has_taken(old(e).table@, final(e).table@, p.record),
        final(e).wal@.total_bytes == old(e).wal@.total_bytes + len,
        final(e).wal@.active_size == old(e).wal@.active_size + len,
        final(e).wal@.active_index == old(e).wal@.active_index,
        final(e).wal@.sealed == old(e).wal@.sealed,
        final(e).limits == old(e).limits,
        final(e).compact_threshold == old(e).compact_threshold,
        final(e).compacting == old(e).compacting,
        r.1 <==> !old(e).compacting && old(e).wal@.total_bytes + len >= old(e).compact_threshold,
{
    lemma_taken(old(e).table@, final(e).table@, p.record);
}

/// A compaction starts only where none is running; starting and ending change nothing else.
pub proof fn lemma_engine_compaction(
    e: &mut Engine,
    r: Result<(), StoreError>,
    f: &mut Engine,
    ended: (),
)
    requires
        call_ensures(Engine::begin_compaction, (e,), r),
        call_ensures(Engine::end_compaction, (f,), ended),
    ensures
        r is Ok <==> !old(e).compacting,
        r is Err ==> r->Err_0@ == StoreFault::CompactionInProgress,
        final(e).compacting,
        final(e).table == old(e).table,
        final(e).wal == old(e).wal,
        final(e).limits == old(e).limits,
        final(e).compact_threshold == old(e).compact_threshold,
        !final(f).compacting,
        final(f).table == old(f).table,
        final(f).wal == old(f).wal,
        final(f).limits == old(f).limits,
        final(f).compact_threshold == old(f).compact_threshold,
{
}

/// A store is opened from its snapshot, if there is one, and its log behind it.
pub proof fn lemma_engine_open(
    dir: &str,
    path: &str,
    file: Option<Vec<u8>>,
    segments: Vec<SegmentFile>,
    limits: Limits,
    threshold: u64,
    r: Result<(Engine, Vec<LogRecord>), StoreError>,
    loaded: Result<Option<Snapshot>, StoreError>,
    start: Table,
    opened: Result<(Wal, Vec<LogRecord>, Table), StoreError>,
)
    requires
        call_ensures(Engine::open, (dir, path, file, segments, limits, threshold), r),
        call_ensures(crate::snapshot::load, (path, file), loaded),
        loaded is Ok ==> call_ensures(Table::new, (loaded->Ok_0,), start) && call_ensures(
            Wal::open,
            (dir, segments, start),
            opened,
        ),
    ensures
        loaded is Err ==> r is Err && r->Err_0@ == loaded->Err_0@,
        loaded is Ok && opened is Err ==> r is Err && r->Err_0@ == opened->Err_0@,
        loaded is Ok && opened is Ok ==> {
            let (e, records) = r->Ok_0;
            let (w, found, t) = opened->Ok_0;
            &&& r is Ok
            &&& e.table@ == t@
            &&& e.wal@ == w@
            &&& record::record_views(records@) == record::record_views(found@)
            &&& e.limits == limits
            &&& e.compact_threshold == threshold
            &&& !e.compacting
        },
{
}

} // verus!
