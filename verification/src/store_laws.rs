//! What the operations of the versioned store promise, in terms of what goes in and what comes out.

use crate::config::Config;
use crate::error;
use crate::error::{KvError, KvFault};
use crate::order;
use crate::store;
use crate::store::{
    CommitOutcome, CompactPlan, CompactStart, Got, Histories, History, KvEntry, MemTable, Mutation,
    SnapshotData, Status, Store, Version, VersionView, WalEntry, WalOp,
};
use vstd::prelude::*;

verus! {

/// The history that a table holds of a key; empty where it holds none.
pub open spec fn past(keys: Histories, k: Seq<u8>) -> Seq<VersionView> {
    if keys.dom().contains(k) {
        keys[k]
    } else {
        Seq::empty()
    }
}

/// The value of the last version of a key.
pub open spec fn latest(keys: Histories, k: Seq<u8>) -> Option<Seq<u8>> {
    if past(keys, k).len() > 0 {
        past(keys, k)[past(keys, k).len() - 1].value
    } else {
        None
    }
}

/// The version at `i` is the newest one at a position.
pub open spec fn newest_at(h: Seq<VersionView>, at: u64, i: int) -> bool {
    &&& 0 <= i < h.len()
    &&& h[i].lsn <= at
    &&& forall|j: int| i < j < h.len() ==> (#[trigger] h[j]).lsn > at
}

/// At a position, a key has this value with this version.
pub open spec fn reads(keys: Histories, k: Seq<u8>, at: u64, value: Seq<u8>, version: u64) -> bool {
    exists|i: int|
        {
            &&& #[trigger] newest_at(past(keys, k), at, i)
            &&& past(keys, k)[i].value == Some(value)
            &&& past(keys, k)[i].lsn == version
        }
}

/// At a position, a key has no value: no version is old enough, or the newest that is deletes.
pub open spec fn reads_none(keys: Histories, k: Seq<u8>, at: u64) -> bool {
    forall|i: int| #[trigger]
        newest_at(past(keys, k), at, i) ==> past(keys, k)[i].value is None
}

/// What an operation leaves of its key's value.
pub open spec fn leaves(op: WalOp) -> Option<Seq<u8>> {
    match op {
        WalOp::Put(value) => Some(value@),
        WalOp::Delete => None,
        WalOp::Cas { value, .. } => Some(value@),
    }
}

/// How many of the first `n` operations are on a key.
pub open spec fn times(ops: Seq<(Vec<u8>, WalOp)>, n: int, k: Seq<u8>) -> nat
    decreases n,
{
    if n <= 0 {
        0
    } else if ops[n - 1].0@ == k {
        times(ops, n - 1, k) + 1
    } else {
        times(ops, n - 1, k)
    }
}

/// The value of a key once the first `n` operations are done.
pub open spec fn value_after(
    keys: Histories,
    ops: Seq<(Vec<u8>, WalOp)>,
    n: int,
    k: Seq<u8>,
) -> Option<Seq<u8>>
    decreases n,
{
    if n <= 0 {
        latest(keys, k)
    } else if ops[n - 1].0@ == k {
        leaves(ops[n - 1].1)
    } else {
        value_after(keys, ops, n - 1, k)
    }
}

/// The expectation of the operation at `i`, if it has one, is the value that it finds.
pub open spec fn finds_expected(keys: Histories, ops: Seq<(Vec<u8>, WalOp)>, i: int) -> bool {
    match ops[i].1 {
        WalOp::Cas { expected: Some(x), .. } => value_after(keys, ops, i, ops[i].0@) == Some(x@),
        WalOp::Cas { expected: None, .. } => value_after(keys, ops, i, ops[i].0@) is None,
        _ => true,
    }
}

/// A key has one more version for each operation on it, in their order, behind what it had.
pub open spec fn grown(
    before: Histories,
    after: Histories,
    lsn: u64,
    ops: Seq<(Vec<u8>, WalOp)>,
    n: int,
    k: Seq<u8>,
) -> bool {
    let b = past(before, k);
    let a = past(after, k);
    &&& a.len() == b.len() + times(ops, n, k)
    &&& forall|j: int| 0 <= j < b.len() ==> #[trigger] a[j] == b[j]
    &&& forall|i: int|
        0 <= i < n && (#[trigger] ops[i]).0@ == k ==> a[(b.len() + times(ops, i, k)) as int] == (
        VersionView { lsn, value: leaves(ops[i].1) })
    &&& after.dom().contains(k) <==> before.dom().contains(k) || times(ops, n, k) > 0
}

proof fn lemma_times(ops: Seq<(Vec<u8>, WalOp)>, i: int, n: int, k: Seq<u8>)
    requires
        0 <= i < n <= ops.len(),
        ops[i].0@ == k,
    ensures
        times(ops, i, k) < times(ops, n, k),
    decreases n,
{
    if i < n - 1 {
        lemma_times(ops, i, n - 1, k);
    }
}

proof fn lemma_grown(before: Histories, lsn: u64, ops: Seq<(Vec<u8>, WalOp)>, n: int, k: Seq<u8>)
    requires
        0 <= n <= ops.len(),
    ensures
        grown(before, store::apply_ops(before, lsn, store::op_views(ops), n), lsn, ops, n, k),
        latest(store::apply_ops(before, lsn, store::op_views(ops), n), k) == value_after(
            before,
            ops,
            n,
            k,
        ),
    decreases n,
{
    let views = store::op_views(ops);
    let after = store::apply_ops(before, lsn, views, n);
    if n > 0 {
        lemma_grown(before, lsn, ops, n - 1, k);
        let mid = store::apply_ops(before, lsn, views, n - 1);
        let b = past(before, k);
        let a = past(after, k);
        let m = past(mid, k);
        assert(views[n - 1] == (ops[n - 1].0@, ops[n - 1].1@));
        assert(store::written(ops[n - 1].1@) == leaves(ops[n - 1].1));
        if ops[n - 1].0@ == k {
            assert(a == m.push(VersionView { lsn, value: leaves(ops[n - 1].1) }));
        } else {
            assert(a == m);
        }
        assert forall|i: int| 0 <= i < n && (#[trigger] ops[i]).0@ == k implies a[(b.len() + times(
            ops,
            i,
            k,
        )) as int] == (VersionView { lsn, value: leaves(ops[i].1) }) by {
            if i < n - 1 {
                lemma_times(ops, i, n - 1, k);
            }
        }
        assert forall|j: int| 0 <= j < b.len() implies #[trigger] a[j] == b[j] by {
            assert(m[j] == b[j]);
        }
    }
}

proof fn lemma_step(keys: Histories, lsn: u64, ops: Seq<(Vec<u8>, WalOp)>, i: int)
    requires
        0 <= i < ops.len(),
    ensures
        store::step_holds(keys, lsn, store::op_views(ops), i) <==> finds_expected(keys, ops, i),
{
    lemma_grown(keys, lsn, ops, i, ops[i].0@);
    assert(store::op_views(ops)[i] == (ops[i].0@, ops[i].1@));
}

/// Entries are replayed exactly where every operation finds what it expects.
proof fn lemma_replays(keys: Histories, lsn: u64, ops: Seq<(Vec<u8>, WalOp)>)
    ensures
        store::replays(keys, lsn, store::op_views(ops), ops.len() as int) <==> forall|i: int|
            0 <= i < ops.len() ==> #[trigger] finds_expected(keys, ops, i),
{
    let views = store::op_views(ops);
    assert forall|i: int| 0 <= i < ops.len() implies #[trigger] store::step_holds(
        keys,
        lsn,
        views,
        i,
    ) == finds_expected(keys, ops, i) by {
        lemma_step(keys, lsn, ops, i);
    }
    if store::replays(keys, lsn, views, ops.len() as int) {
        assert forall|i: int| 0 <= i < ops.len() implies #[trigger] finds_expected(keys, ops, i) by {
            assert(store::step_holds(keys, lsn, views, i));
        }
    }
    if forall|i: int| 0 <= i < ops.len() ==> #[trigger] finds_expected(keys, ops, i) {
        assert forall|i: int| 0 <= i < ops.len() implies #[trigger] store::step_holds(
            keys,
            lsn,
            views,
            i,
        ) by {
            assert(finds_expected(keys, ops, i));
        }
    }
}

// ---------- commits ----------

/// A batch is prepared exactly where every swap expects the latest value of its key, whether the
/// key has a value, was deleted or never existed. It then becomes the next log entry as it is;
/// otherwise the first swap that expects something else is named.
pub proof fn lemma_prepare(s: &Store, m: Mutation, r: Result<WalEntry, KvError>)
    requires
        call_ensures(Store::prepare, (s, m), r),
        s@.mem.last_lsn < u64::MAX,
    ensures
        r is Ok <==> forall|i: int|
            0 <= i < m.ops@.len() ==> #[trigger] expects_latest(s@.mem.keys, m.ops@[i]),
        r is Ok ==> r->Ok_0.lsn == s@.mem.last_lsn + 1 && r->Ok_0.ops@ == m.ops@,
        r is Err ==> exists|i: int|
            {
                &&& 0 <= i < m.ops@.len()
                &&& !#[trigger] expects_latest(s@.mem.keys, m.ops@[i])
                &&& forall|j: int| 0 <= j < i ==> #[trigger] expects_latest(s@.mem.keys, m.ops@[j])
                &&& r->Err_0@ == KvFault::CasConflict(error::lossy(m.ops@[i].0@))
            },
{
    lemma_conflict(s@.mem.keys, m.ops@, m.ops@.len() as int);
}

/// The expectation of an operation, if it has one, is the latest value of its key.
pub open spec fn expects_latest(keys: Histories, op: (Vec<u8>, WalOp)) -> bool {
    match op.1 {
        WalOp::Cas { expected: Some(x), .. } => latest(keys, op.0@) == Some(x@),
        WalOp::Cas { expected: None, .. } => latest(keys, op.0@) is None,
        _ => true,
    }
}

proof fn lemma_conflict(keys: Histories, ops: Seq<(Vec<u8>, WalOp)>, n: int)
    requires
        0 <= n <= ops.len(),
    ensures
        store::conflict(keys, store::op_views(ops), n) is None <==> forall|i: int|
            0 <= i < n ==> #[trigger] expects_latest(keys, ops[i]),
        store::conflict(keys, store::op_views(ops), n) is Some ==> exists|i: int|
            {
                &&& 0 <= i < n
                &&& !#[trigger] expects_latest(keys, ops[i])
                &&& forall|j: int| 0 <= j < i ==> #[trigger] expects_latest(keys, ops[j])
                &&& store::conflict(keys, store::op_views(ops), n) == Some(
                    KvFault::CasConflict(error::lossy(ops[i].0@)),
                )
            },
    decreases n,
{
    if n > 0 {
        lemma_conflict(keys, ops, n - 1);
        assert(store::op_views(ops)[n - 1] == (ops[n - 1].0@, ops[n - 1].1@));
        assert(store::holds(keys, ops[n - 1].0@, ops[n - 1].1@) == expects_latest(
            keys,
            ops[n - 1],
        ));
    }
}

/// A commit puts one version for each operation behind the history of its key, with the commit's
/// LSN, and leaves everything else of the table alone.
pub proof fn lemma_commit(s: &mut Store, e: &WalEntry, size: u64, r: (CommitOutcome, bool))
    requires
        call_ensures(Store::commit, (s, e, size), r),
    ensures
        forall|k: Seq<u8>| #[trigger]
            grown(
                old(s)@.mem.keys,
                final(s)@.mem.keys,
                e.lsn,
                e.ops@,
                e.ops@.len() as int,
                k,
            ),
        forall|k: Seq<u8>| #[trigger]
            latest(final(s)@.mem.keys, k) == value_after(
                old(s)@.mem.keys,
                e.ops@,
                e.ops@.len() as int,
                k,
            ),
        final(s)@.mem.last_lsn == e.lsn,
        final(s)@.config == old(s)@.config,
        final(s)@.wal_size_bytes == size,
        final(s)@.last_snapshot_lsn == old(s)@.last_snapshot_lsn,
        r.0.lsn == e.lsn,
        r.0.key_count == with_value(final(s)@.mem.keys).len(),
        r.1 <==> size >= old(s)@.config.compaction_threshold_bytes && !old(s)@.compacting,
        final(s)@.compacting <==> old(s)@.compacting || r.1,
{
    let keys = old(s)@.mem.keys;
    assert forall|k: Seq<u8>| #[trigger]
        grown(keys, final(s)@.mem.keys, e.lsn, e.ops@, e.ops@.len() as int, k) by {
        lemma_grown(keys, e.lsn, e.ops@, e.ops@.len() as int, k);
    }
    assert forall|k: Seq<u8>| #[trigger] latest(final(s)@.mem.keys, k) == value_after(
        keys,
        e.ops@,
        e.ops@.len() as int,
        k,
    ) by {
        lemma_grown(keys, e.lsn, e.ops@, e.ops@.len() as int, k);
    }
    assert(store::live_keys(final(s)@.mem.keys) =~= with_value(final(s)@.mem.keys));
}

/// The keys whose last version holds a value.
pub open spec fn with_value(keys: Histories) -> Set<Seq<u8>> {
    keys.dom().filter(|k: Seq<u8>| latest(keys, k) is Some)
}

/// The same of a log entry that is applied to a table. Where an operation does not find what it
/// expects, the entry is corrupt and the position stays.
pub proof fn lemma_apply(m: &mut MemTable, e: &WalEntry, r: Result<(), KvError>)
    requires
        call_ensures(MemTable::apply, (m, e), r),
    ensures
        r is Ok <==> forall|i: int|
            0 <= i < e.ops@.len() ==> #[trigger] finds_expected(old(m)@.keys, e.ops@, i),
        r is Ok ==> final(m)@.last_lsn == e.lsn && forall|k: Seq<u8>| #[trigger]
            grown(old(m)@.keys, final(m)@.keys, e.lsn, e.ops@, e.ops@.len() as int, k),
        r is Err ==> r->Err_0@ is CorruptWal && final(m)@.last_lsn == old(m)@.last_lsn,
{
    let keys = old(m)@.keys;
    lemma_replays(keys, e.lsn, e.ops@);
    if r is Ok {
        assert forall|k: Seq<u8>| #[trigger]
            grown(keys, final(m)@.keys, e.lsn, e.ops@, e.ops@.len() as int, k) by {
            lemma_grown(keys, e.lsn, e.ops@, e.ops@.len() as int, k);
        }
    } else {
        let i = choose|i: int|
            {
                &&& 0 <= i < e@.ops.len()
                &&& store::replays(keys, e.lsn, e@.ops, i)
                &&& !#[trigger] store::step_holds(keys, e.lsn, e@.ops, i)
                &&& final(m)@.keys == store::apply_ops(keys, e.lsn, e@.ops, i)
            };
        lemma_step(keys, e.lsn, e.ops@, i);
    }
}

/// What is wrong with an operation of a batch, looked at alone and next to those before it.
pub open spec fn names_fault(s: Store, ops: Seq<(Vec<u8>, WalOp)>, i: int, f: KvFault) -> bool {
    let size = ops[i].0@.len();
    let value = leaves(ops[i].1);
    let c = s@.config;
    if size == 0 {
        f == KvFault::EmptyKey
    } else if size > c.max_key_bytes {
        f == (KvFault::KeyTooLarge { size, limit: c.max_key_bytes as nat })
    } else if value is Some && value->Some_0.len() > c.max_value_bytes {
        f == (KvFault::ValueTooLarge {
            size: value->Some_0.len(),
            limit: c.max_value_bytes as nat,
        })
    } else {
        f == KvFault::ContradictoryKey(error::lossy(ops[i].0@))
    }
}

/// An operation of a batch is sound: its key is not empty, key and value are not too large, and no
/// operation before it has its key.
pub open spec fn sound_op(s: Store, ops: Seq<(Vec<u8>, WalOp)>, i: int) -> bool {
    &&& 1 <= ops[i].0@.len() <= s@.config.max_key_bytes
    &&& leaves(ops[i].1) is Some ==> leaves(ops[i].1)->Some_0.len() <= s@.config.max_value_bytes
    &&& forall|j: int| 0 <= j < i ==> (#[trigger] ops[j]).0@ != ops[i].0@
}

/// A batch is taken, as it is, exactly where it holds something, is not too long and every operation
/// is sound; otherwise the first thing wrong is named.
pub proof fn lemma_build_mutation(
    s: &Store,
    ops: Vec<(Vec<u8>, WalOp)>,
    r: Result<Mutation, KvError>,
)
    requires
        call_ensures(Store::build_mutation, (s, ops), r),
    ensures
        r is Ok <==> 1 <= ops@.len() <= s@.config.max_txn_ops && forall|i: int|
            0 <= i < ops@.len() ==> #[trigger] sound_op(*s, ops@, i),
        r is Ok ==> r->Ok_0.ops@ == ops@,
        r is Err && ops@.len() == 0 ==> r->Err_0@ == KvFault::EmptyTransaction,
        r is Err && ops@.len() > s@.config.max_txn_ops ==> r->Err_0@ == (
        KvFault::TooManyOperations { count: ops@.len(), limit: s@.config.max_txn_ops as nat })
            || ops@.len() == 0,
        r is Err && 1 <= ops@.len() <= s@.config.max_txn_ops ==> exists|i: int|
            {
                &&& 0 <= i < ops@.len()
                &&& !#[trigger] sound_op(*s, ops@, i)
                &&& forall|j: int| 0 <= j < i ==> #[trigger] sound_op(*s, ops@, j)
                &&& names_fault(*s, ops@, i, r->Err_0@)
            },
{
    lemma_ops_fault(*s, ops@, ops@.len() as int);
}

proof fn lemma_ops_fault(s: Store, ops: Seq<(Vec<u8>, WalOp)>, n: int)
    requires
        0 <= n <= ops.len(),
    ensures
        store::ops_fault(s@.config, store::op_views(ops), n) is None <==> forall|i: int|
            0 <= i < n ==> #[trigger] sound_op(s, ops, i),
        store::ops_fault(s@.config, store::op_views(ops), n) is Some ==> exists|i: int|
            {
                &&& 0 <= i < n
                &&& !#[trigger] sound_op(s, ops, i)
                &&& forall|j: int| 0 <= j < i ==> #[trigger] sound_op(s, ops, j)
                &&& names_fault(
                    s,
                    ops,
                    i,
                    store::ops_fault(s@.config, store::op_views(ops), n)->Some_0,
                )
            },
    decreases n,
{
    if n > 0 {
        lemma_ops_fault(s, ops, n - 1);
        let views = store::op_views(ops);
        assert(views[n - 1] == (ops[n - 1].0@, ops[n - 1].1@));
        assert(store::written(views[n - 1].1) == leaves(ops[n - 1].1));
        assert(store::key_among(views, n - 1, ops[n - 1].0@) <==> exists|j: int|
            0 <= j < n - 1 && (#[trigger] ops[j]).0@ == ops[n - 1].0@) by {
            if store::key_among(views, n - 1, ops[n - 1].0@) {
                let j = choose|j: int| 0 <= j < n - 1 && (#[trigger] views[j]).0 == ops[n - 1].0@;
                assert(ops[j].0@ == ops[n - 1].0@);
            }
            if exists|j: int| 0 <= j < n - 1 && (#[trigger] ops[j]).0@ == ops[n - 1].0@ {
                let j = choose|j: int| 0 <= j < n - 1 && (#[trigger] ops[j]).0@ == ops[n - 1].0@;
                assert(views[j].0 == ops[n - 1].0@);
            }
        }
        assert(store::op_fault(s@.config, views, n - 1) is None <==> sound_op(s, ops, n - 1));
    }
}

// ---------- reads ----------

proof fn lemma_visible(h: Seq<VersionView>, at: u64)
    ensures
        match store::visible(h, at) {
            Some(v) => exists|i: int| #[trigger] newest_at(h, at, i) && h[i] == v,
            None => forall|i: int| !#[trigger] newest_at(h, at, i),
        },
    decreases h.len(),
{
    if h.len() > 0 {
        let n = h.len() - 1;
        if h[n].lsn <= at {
            assert(newest_at(h, at, n));
        } else {
            let g = h.drop_last();
            lemma_visible(g, at);
            if store::visible(g, at) is Some {
                let i = choose|i: int| #[trigger]
                    newest_at(g, at, i) && g[i] == store::visible(g, at)->Some_0;
                assert forall|j: int| i < j < h.len() implies (#[trigger] h[j]).lsn > at by {
                    if j < n {
                        assert(g[j] == h[j]);
                    }
                }
                assert(newest_at(h, at, i));
            } else {
                assert forall|i: int| !#[trigger] newest_at(h, at, i) by {
                    if newest_at(h, at, i) {
                        assert forall|j: int| i < j < g.len() implies (#[trigger] g[j]).lsn
                            > at by {
                            assert(g[j] == h[j]);
                        }
                        assert(newest_at(g, at, i));
                    }
                }
            }
        }
    }
}

proof fn lemma_seen(keys: Histories, k: Seq<u8>, at: u64)
    ensures
        match store::seen_at(keys, k, at) {
            Some(v) => v.value is Some && reads(keys, k, at, v.value->Some_0, v.lsn)
                && !reads_none(keys, k, at),
            None => reads_none(keys, k, at) && forall|value: Seq<u8>, version: u64|
                !#[trigger] reads(keys, k, at, value, version),
        },
{
    let h = past(keys, k);
    lemma_visible(h, at);
    assert(h == store::history_of(keys, k));
    assert forall|i: int, j: int| #[trigger]
        newest_at(h, at, i) && #[trigger] newest_at(h, at, j) implies i == j by {
        if i < j {
            assert(h[j].lsn > at);
        } else if j < i {
            assert(h[i].lsn > at);
        }
    }
}

/// What a key that cannot be looked up is answered, and which ones can.
pub open spec fn key_is_fit(s: Store, key: Seq<u8>) -> bool {
    1 <= key.len() <= s@.config.max_key_bytes
}

/// A key that is not fit is refused for what is wrong with it.
pub open spec fn unfit_key_fault(s: Store, key: Seq<u8>) -> KvFault {
    if key.len() == 0 {
        KvFault::EmptyKey
    } else {
        KvFault::KeyTooLarge { size: key.len(), limit: s@.config.max_key_bytes as nat }
    }
}

/// A read gives the value of the last version of the key, with its LSN, and the last position; a key
/// whose last version deletes, or that never had one, is not found.
pub proof fn lemma_get(s: &Store, key: &[u8], r: Result<Got, KvError>)
    requires
        call_ensures(Store::get, (s, key), r),
    ensures
        !key_is_fit(*s, key@) ==> r is Err && r->Err_0@ == unfit_key_fault(*s, key@),
        key_is_fit(*s, key@) ==> match latest(s@.mem.keys, key@) {
            Some(v) => {
                let h = s@.mem.keys[key@];
                &&& r is Ok
                &&& r->Ok_0.value@ == v
                &&& r->Ok_0.version == h[h.len() - 1].lsn
                &&& r->Ok_0.read_lsn == s@.mem.last_lsn
            },
            None => r is Err && r->Err_0@ == KvFault::KeyNotFound(error::lossy(key@)),
        },
{
}

/// A read at a position gives the newest version that is not beyond it. Positions that are not
/// committed yet are refused; without a position the last one is read.
pub proof fn lemma_get_at(s: &Store, key: &[u8], at_lsn: Option<u64>, r: Result<Got, KvError>)
    requires
        call_ensures(Store::get_at, (s, key, at_lsn), r),
    ensures
        ({
            let at = match at_lsn {
                Some(lsn) => lsn,
                None => s@.mem.last_lsn,
            };
            let keys = s@.mem.keys;
            if !key_is_fit(*s, key@) {
                r is Err && r->Err_0@ == unfit_key_fault(*s, key@)
            } else if at > s@.mem.last_lsn {
                r is Err && r->Err_0@ == KvFault::VersionNotFound(at)
            } else {
                &&& r is Ok ==> r->Ok_0.read_lsn == at && reads(
                    keys,
                    key@,
                    at,
                    r->Ok_0.value@,
                    r->Ok_0.version,
                )
                &&& r is Err ==> r->Err_0@ == KvFault::KeyNotFound(error::lossy(key@))
                    && reads_none(keys, key@, at)
            }
        }),
{
    let at = match at_lsn {
        Some(lsn) => lsn,
        None => s@.mem.last_lsn,
    };
    lemma_seen(s@.mem.keys, key@, at);
}

/// The reads of a table.
pub proof fn lemma_table_reads(
    m: &MemTable,
    key: &[u8],
    at: u64,
    now: Option<&Vec<u8>>,
    then: Option<&Vec<u8>>,
    version: Option<u64>,
    count: usize,
)
    requires
        call_ensures(MemTable::live_value, (m, key), now),
        call_ensures(MemTable::value_at, (m, key, at), then),
        call_ensures(MemTable::version_at, (m, key, at), version),
        call_ensures(MemTable::live_key_count, (m,), count),
    ensures
        now is Some ==> latest(m@.keys, key@) == Some(now->Some_0@),
        now is None ==> latest(m@.keys, key@) is None,
        then is Some ==> version is Some && reads(
            m@.keys,
            key@,
            at,
            then->Some_0@,
            version->Some_0,
        ),
        then is None ==> reads_none(m@.keys, key@, at),
        version is Some ==> exists|i: int| #[trigger]
            newest_at(past(m@.keys, key@), at, i) && past(m@.keys, key@)[i].lsn == version->Some_0,
        version is None ==> forall|i: int| !#[trigger] newest_at(past(m@.keys, key@), at, i),
        count == with_value(m@.keys).len(),
{
    lemma_seen(m@.keys, key@, at);
    lemma_visible(past(m@.keys, key@), at);
    assert(store::live_keys(m@.keys) =~= with_value(m@.keys));
}

/// The most entries of a scan with a limit. One entry is given before the limit is looked at.
pub open spec fn most(limit: usize) -> nat {
    if limit == 0 {
        1
    } else {
        limit as nat
    }
}

/// Entries are those of the keys asked for that have a value at a position, each as a read of its
/// key gives it, in the order of the keys; with a limit they are the first ones.
pub open spec fn scan_of(
    keys: Histories,
    asked: spec_fn(Seq<u8>) -> bool,
    at: u64,
    limit: Option<usize>,
    out: Seq<KvEntry>,
) -> bool {
    &&& forall|i: int|
        0 <= i < out.len() ==> {
            &&& asked((#[trigger] out[i]).key@)
            &&& reads(keys, out[i].key@, at, out[i].value@, out[i].version)
        }
    &&& forall|i: int, j: int|
        0 <= i < j < out.len() ==> order::key_lt((#[trigger] out[i]).key@, (#[trigger] out[j]).key@)
    &&& limit is Some ==> out.len() <= most(limit->Some_0)
    &&& forall|k: Seq<u8>|
        asked(k) && !#[trigger] reads_none(keys, k, at) ==> {
            ||| exists|i: int| 0 <= i < out.len() && (#[trigger] out[i]).key@ == k
            ||| limit is Some && out.len() == most(limit->Some_0) && order::key_lt(
                out[out.len() - 1].key@,
                k,
            )
        }
}

proof fn lemma_entries_complete(keys: Histories, ks: Seq<Seq<u8>>, at: u64)
    requires
        order::strictly_sorted(ks),
    ensures
        forall|i: int|
            0 <= i < store::entries_at(keys, ks, at).len() ==> {
                let e = #[trigger] store::entries_at(keys, ks, at)[i];
                &&& ks.contains(e.key)
                &&& reads(keys, e.key, at, e.value, e.version)
            },
        forall|i: int, j: int|
            0 <= i < j < store::entries_at(keys, ks, at).len() ==> order::key_lt(
                (#[trigger] store::entries_at(keys, ks, at)[i]).key,
                (#[trigger] store::entries_at(keys, ks, at)[j]).key,
            ),
        forall|k: Seq<u8>|
            ks.contains(k) && !#[trigger] reads_none(keys, k, at) ==> exists|i: int|
                0 <= i < store::entries_at(keys, ks, at).len() && (#[trigger] store::entries_at(
                    keys,
                    ks,
                    at,
                )[i]).key == k,
    decreases ks.len(),
{
    if ks.len() > 0 {
        let less = ks.drop_last();
        let last = ks.last();
        let before = store::entries_at(keys, less, at);
        let all = store::entries_at(keys, ks, at);
        lemma_entries_complete(keys, less, at);
        lemma_seen(keys, last, at);
        assert(ks[ks.len() - 1] == last);
        assert forall|i: int| 0 <= i < before.len() implies ks.contains((#[trigger] before[i]).key)
            && order::key_lt(before[i].key, last) by {
            let x = choose|x: int| 0 <= x < less.len() && less[x] == before[i].key;
            assert(ks[x] == before[i].key);
            assert(order::key_lt(ks[x], ks[ks.len() - 1]));
        }
        assert forall|i: int| 0 <= i < all.len() implies {
            let e = #[trigger] all[i];
            &&& ks.contains(e.key)
            &&& reads(keys, e.key, at, e.value, e.version)
        } by {
            if i < before.len() {
                assert(all[i] == before[i]);
            }
        }
        assert forall|i: int, j: int| 0 <= i < j < all.len() implies order::key_lt(
            (#[trigger] all[i]).key,
            (#[trigger] all[j]).key,
        ) by {
            assert(all[i] == before[i]);
            if j < before.len() {
                assert(all[j] == before[j]);
            }
        }
        assert forall|k: Seq<u8>|
            ks.contains(k) && !#[trigger] reads_none(keys, k, at) implies exists|i: int|
            0 <= i < all.len() && (#[trigger] all[i]).key == k by {
            if k == last {
                assert(all[all.len() - 1].key == k);
            } else {
                let x = choose|x: int| 0 <= x < ks.len() && ks[x] == k;
                assert(less[x] == k);
                let i = choose|i: int| 0 <= i < before.len() && (#[trigger] before[i]).key == k;
                assert(all[i].key == k);
            }
        }
    }
}

proof fn lemma_scan_of(
    keys: Histories,
    set: Set<Seq<u8>>,
    asked: spec_fn(Seq<u8>) -> bool,
    at: u64,
    limit: Option<usize>,
    out: Seq<KvEntry>,
)
    requires
        keys.dom().finite(),
        forall|k: Seq<u8>| #[trigger] set.contains(k) <==> keys.dom().contains(k) && asked(k),
        store::scan_views(out) == store::cut(
            store::entries_at(keys, order::sorted_keys(set), at),
            limit,
        ),
    ensures
        scan_of(keys, asked, at, limit, out),
{
    assert(set.subset_of(keys.dom()));
    vstd::set_lib::lemma_set_subset_finite(keys.dom(), set);
    let ks = order::sorted_keys(set);
    order::lemma_sorted_exists(set);
    lemma_entries_complete(keys, ks, at);
    let all = store::entries_at(keys, ks, at);
    let part = store::scan_views(out);
    assert(part.len() == out.len());
    assert forall|i: int| 0 <= i < out.len() implies (#[trigger] out[i])@ == all[i] by {
        assert(part[i] == all[i]);
    }
    assert forall|i: int| 0 <= i < out.len() implies {
        &&& asked((#[trigger] out[i]).key@)
        &&& reads(keys, out[i].key@, at, out[i].value@, out[i].version)
    } by {
        assert(out[i]@ == all[i]);
        assert(ks.to_set().contains(all[i].key));
    }
    assert forall|i: int, j: int| 0 <= i < j < out.len() implies order::key_lt(
        (#[trigger] out[i]).key@,
        (#[trigger] out[j]).key@,
    ) by {
        assert(out[i]@ == all[i] && out[j]@ == all[j]);
    }
    assert forall|k: Seq<u8>| asked(k) && !#[trigger] reads_none(keys, k, at) implies {
        ||| exists|i: int| 0 <= i < out.len() && (#[trigger] out[i]).key@ == k
        ||| limit is Some && out.len() == most(limit->Some_0) && order::key_lt(
            out[out.len() - 1].key@,
            k,
        )
    } by {
        assert(keys.dom().contains(k));
        assert(set.contains(k));
        assert(ks.to_set().contains(k));
        assert(ks.contains(k));
        let i = choose|i: int| 0 <= i < all.len() && (#[trigger] all[i]).key == k;
        if i < out.len() {
            assert(out[i]@ == all[i]);
        } else {
            assert(limit is Some);
            let n = out.len() - 1;
            assert(out[n]@ == all[n]);
            assert(order::key_lt(all[n].key, all[i].key));
        }
    }
}

/// A range scan gives the keys from `start` on, up to but without `end`, as reads at its position
/// give them. A position that is not committed yet is refused.
pub proof fn lemma_range(
    s: &Store,
    start: Option<&[u8]>,
    end: Option<&[u8]>,
    limit: Option<usize>,
    at_lsn: Option<u64>,
    r: Result<(Vec<KvEntry>, u64), KvError>,
)
    requires
        s.wf(),
        call_ensures(Store::range, (s, start, end, limit, at_lsn), r),
    ensures
        r is Err <==> at_lsn is Some && at_lsn->Some_0 > s@.mem.last_lsn,
        r is Err ==> r->Err_0@ == KvFault::VersionNotFound(at_lsn->Some_0),
        r is Ok ==> {
            &&& r->Ok_0.1 == match at_lsn {
                Some(lsn) => lsn,
                None => s@.mem.last_lsn,
            }
            &&& scan_of(
                s@.mem.keys,
                |k: Seq<u8>|
                    (start is Some ==> !order::key_lt(k, start->Some_0@)) && (end is Some
                        ==> order::key_lt(k, end->Some_0@)),
                r->Ok_0.1,
                limit,
                r->Ok_0.0@,
            )
        },
{
    if r is Ok {
        s.lemma_wf();
        let keys = s@.mem.keys;
        let asked = |k: Seq<u8>|
            (start is Some ==> !order::key_lt(k, start->Some_0@)) && (end is Some ==> order::key_lt(
                k,
                end->Some_0@,
            ));
        let set = crate::keymap::keys_in_range(
            keys.dom(),
            store::start_bound(start),
            store::end_bound(end),
        );
        assert forall|k: Seq<u8>| #[trigger] set.contains(k) <==> keys.dom().contains(k) && asked(
            k,
        ) by {
            if start is Some {
                order::lemma_lt_total(k, start->Some_0@);
                if order::key_lt(start->Some_0@, k) {
                    order::lemma_lt_asymmetric(start->Some_0@, k);
                }
                order::lemma_lt_irreflexive(k);
            }
        }
        lemma_scan_of(keys, set, asked, r->Ok_0.1, limit, r->Ok_0.0@);
    }
}

/// A prefix scan gives the keys that start with the bytes of the prefix.
pub proof fn lemma_prefix(
    s: &Store,
    prefix: &[u8],
    limit: Option<usize>,
    at_lsn: Option<u64>,
    r: Result<(Vec<KvEntry>, u64), KvError>,
)
    requires
        s.wf(),
        call_ensures(Store::prefix, (s, prefix, limit, at_lsn), r),
    ensures
        r is Err <==> at_lsn is Some && at_lsn->Some_0 > s@.mem.last_lsn,
        r is Err ==> r->Err_0@ == KvFault::VersionNotFound(at_lsn->Some_0),
        r is Ok ==> {
            &&& r->Ok_0.1 == match at_lsn {
                Some(lsn) => lsn,
                None => s@.mem.last_lsn,
            }
            &&& scan_of(
                s@.mem.keys,
                |k: Seq<u8>| k.len() >= prefix@.len() && k.take(prefix@.len() as int) == prefix@,
                r->Ok_0.1,
                limit,
                r->Ok_0.0@,
            )
        },
{
    if r is Ok {
        s.lemma_wf();
        let keys = s@.mem.keys;
        let asked = |k: Seq<u8>|
            k.len() >= prefix@.len() && k.take(prefix@.len() as int) == prefix@;
        let set = crate::keymap::keys_with_prefix(keys.dom(), prefix@);
        assert forall|k: Seq<u8>| #[trigger] set.contains(k) <==> keys.dom().contains(k) && asked(
            k,
        ) by {
            if k.len() >= prefix@.len() {
                assert(k.take(prefix@.len() as int) =~= k.subrange(0, prefix@.len() as int));
            }
        }
        lemma_scan_of(keys, set, asked, r->Ok_0.1, limit, r->Ok_0.0@);
    }
}

// ---------- snapshots and recovery ----------

/// A history holds these versions, one for one.
pub open spec fn holds_versions(h: Seq<VersionView>, versions: Seq<Version>) -> bool {
    &&& h.len() == versions.len()
    &&& forall|j: int|
        0 <= j < h.len() ==> match #[trigger] versions[j] {
            Version::Put { lsn, value } => h[j].lsn == lsn && h[j].value == Some(value@),
            Version::Delete { lsn } => h[j].lsn == lsn && h[j].value is None,
        }
}

proof fn lemma_listed(v: Seq<(Vec<u8>, History)>)
    ensures
        forall|k: Seq<u8>| #[trigger]
            store::listed(v).dom().contains(k) <==> exists|i: int|
                0 <= i < v.len() && (#[trigger] v[i]).0@ == k,
        forall|i: int|
            0 <= i < v.len() && (forall|j: int|
                i < j < v.len() ==> (#[trigger] v[j]).0@ != v[i].0@) ==> store::listed(
                v,
            )[(#[trigger] v[i]).0@] == v[i].1@,
    decreases v.len(),
{
    if v.len() > 0 {
        let w = v.drop_last();
        lemma_listed(w);
        let all = store::listed(v);
        let n = v.len() - 1;
        assert forall|k: Seq<u8>| #[trigger] all.dom().contains(k) <==> exists|i: int|
            0 <= i < v.len() && (#[trigger] v[i]).0@ == k by {
            if store::listed(w).dom().contains(k) {
                let i = choose|i: int| 0 <= i < w.len() && (#[trigger] w[i]).0@ == k;
                assert(v[i].0@ == k);
            }
            if k == v[n].0@ {
                assert(all.dom().contains(k));
            }
            if exists|i: int| 0 <= i < v.len() && (#[trigger] v[i]).0@ == k {
                let i = choose|i: int| 0 <= i < v.len() && (#[trigger] v[i]).0@ == k;
                if i < n {
                    assert(w[i].0@ == k);
                    assert(store::listed(w).dom().contains(k));
                }
            }
        }
        assert forall|i: int|
            0 <= i < v.len() && (forall|j: int|
                i < j < v.len() ==> (#[trigger] v[j]).0@ != v[i].0@) implies all[(
        #[trigger] v[i]).0@] == v[i].1@ by {
            if i < n {
                assert(v[n].0@ != v[i].0@);
                assert(w[i] == v[i]);
                assert forall|j: int| i < j < w.len() implies (#[trigger] w[j]).0@ != w[i].0@ by {
                    assert(w[j] == v[j]);
                }
            }
        }
    }
}

/// A snapshot holds exactly the keys of its list, each with the versions that the list gives it,
/// one for one and in their order; of two histories for one key, the later one.
pub proof fn lemma_snapshot_holds_list(lsn: u64, list: Vec<(Vec<u8>, History)>, r: SnapshotData)
    requires
        call_ensures(SnapshotData::new, (lsn, list), r),
    ensures
        r@.last_lsn == lsn,
        forall|k: Seq<u8>| #[trigger]
            r@.keys.dom().contains(k) <==> exists|i: int|
                0 <= i < list@.len() && (#[trigger] list@[i]).0@ == k,
        forall|i: int|
            0 <= i < list@.len() && (forall|j: int|
                i < j < list@.len() ==> (#[trigger] list@[j]).0@ != list@[i].0@) ==> holds_versions(
                r@.keys[(#[trigger] list@[i]).0@],
                list@[i].1.versions@,
            ),
{
    lemma_listed(list@);
}

/// Listing a snapshot and loading the list gives the snapshot that was listed.
pub proof fn lemma_snapshot_reloads(
    s: &SnapshotData,
    n: usize,
    lsn: u64,
    list: Vec<(Vec<u8>, History)>,
    r: SnapshotData,
)
    requires
        call_ensures(SnapshotData::len, (s,), n),
        call_ensures(SnapshotData::lsn, (s,), lsn),
        list@.len() == n,
        forall|i: usize|
            i < n ==> exists|p: (&Vec<u8>, &History)|
                {
                    &&& #[trigger] call_ensures(SnapshotData::at, (s, i), p)
                    &&& p.0@ == (#[trigger] list@[i as int]).0@
                    &&& p.1.versions@.len() == list@[i as int].1.versions@.len()
                    &&& forall|j: int|
                        0 <= j < p.1.versions@.len() ==> (#[trigger] p.1.versions@[j])@
                            == list@[i as int].1.versions@[j]@
                },
        call_ensures(SnapshotData::new, (lsn, list), r),
    ensures
        r@ == s@,
{
    let dom = s@.keys.dom();
    let ks = order::sorted_keys(dom);
    order::lemma_sorted_exists(dom);
    order::lemma_sorted_distinct(ks);
    ks.unique_seq_to_set();
    assert forall|i: int| 0 <= i < n implies (#[trigger] list@[i]).0@ == ks[i] && list@[i].1@
        == s@.keys[ks[i]] by {
        let x = i as usize;
        let p = choose|p: (&Vec<u8>, &History)|
            {
                &&& #[trigger] call_ensures(SnapshotData::at, (s, x), p)
                &&& p.0@ == list@[x as int].0@
                &&& p.1.versions@.len() == list@[x as int].1.versions@.len()
                &&& forall|j: int|
                    0 <= j < p.1.versions@.len() ==> (#[trigger] p.1.versions@[j])@
                        == list@[x as int].1.versions@[j]@
            };
        assert(list@[i].1@ =~= p.1@);
    }
    lemma_listed(list@);
    assert forall|k: Seq<u8>| dom.contains(k) <==> r@.keys.dom().contains(k) by {
        if dom.contains(k) {
            assert(ks.to_set().contains(k));
            let i = choose|i: int| 0 <= i < ks.len() && ks[i] == k;
            assert(list@[i].0@ == k);
        }
        if r@.keys.dom().contains(k) {
            let i = choose|i: int| 0 <= i < list@.len() && (#[trigger] list@[i]).0@ == k;
            assert(ks.to_set().contains(ks[i]));
        }
    }
    assert forall|k: Seq<u8>| dom.contains(k) implies r@.keys[k] == s@.keys[k] by {
        assert(ks.to_set().contains(k));
        let i = choose|i: int| 0 <= i < ks.len() && ks[i] == k;
        assert(list@[i].0@ == k);
        assert forall|j: int| i < j < list@.len() implies (#[trigger] list@[j]).0@
            != list@[i].0@ by {
            assert(list@[j].0@ == ks[j]);
        }
    }
    assert(r@.keys =~= s@.keys);
}

/// Keys are listed in order, each with the history that the snapshot holds of it.
pub proof fn lemma_snapshot_listing(
    s: &SnapshotData,
    i: usize,
    j: usize,
    p: (&Vec<u8>, &History),
    q: (&Vec<u8>, &History),
)
    requires
        s.wf(),
        s@.keys.dom().finite(),
        i < j < s@.keys.dom().len(),
        call_ensures(SnapshotData::at, (s, i), p),
        call_ensures(SnapshotData::at, (s, j), q),
    ensures
        s@.keys.dom().contains(p.0@),
        holds_versions(s@.keys[p.0@], p.1.versions@),
        order::key_lt(p.0@, q.0@),
{
    let dom = s@.keys.dom();
    let ks = order::sorted_keys(dom);
    order::lemma_sorted_exists(dom);
    order::lemma_sorted_distinct(ks);
    ks.unique_seq_to_set();
    assert(ks.to_set().contains(ks[i as int]));
}

/// Opening a store with an empty log gives the snapshot, or an empty table without one.
pub proof fn lemma_open_snapshot(
    config: Config,
    snapshot: Option<SnapshotData>,
    log: Vec<WalEntry>,
    size: u64,
    r: Result<Store, KvError>,
)
    requires
        call_ensures(Store::open, (config, snapshot, log, size), r),
        log@.len() == 0,
    ensures
        r is Ok,
        snapshot is Some ==> r->Ok_0@.mem == snapshot->Some_0@ && r->Ok_0@.last_snapshot_lsn
            == snapshot->Some_0@.last_lsn,
        snapshot is None ==> r->Ok_0@.mem.keys == Histories::empty() && r->Ok_0@.mem.last_lsn == 0
            && r->Ok_0@.last_snapshot_lsn == 0,
        r->Ok_0@.config.max_key_bytes == config.max_key_bytes,
        r->Ok_0@.config.max_value_bytes == config.max_value_bytes,
        r->Ok_0@.config.max_txn_ops == config.max_txn_ops,
        r->Ok_0@.config.compaction_threshold_bytes == config.compaction_threshold_bytes,
        r->Ok_0@.config.data_dir == config.data_dir@,
        r->Ok_0@.config.listen_addr == config.listen_addr@,
        r->Ok_0@.wal_size_bytes == size,
        !r->Ok_0@.compacting,
{
    assert(store::entry_views(log@) =~= Seq::empty());
}

/// Opening a store with one more entry in its log. An entry that the snapshot covers is skipped
/// where none beyond the snapshot stands before it. Any other must be the next one, and every
/// operation of it must find what it expects: then it is applied, as a commit applies it. Otherwise
/// the log is corrupt. A log that was refused stays refused, for the same reason.
pub proof fn lemma_open_step(
    config: Config,
    snapshot: Option<SnapshotData>,
    log: Vec<WalEntry>,
    size: u64,
    r: Result<Store, KvError>,
    longer: Vec<WalEntry>,
    e: WalEntry,
    r2: Result<Store, KvError>,
)
    requires
        call_ensures(Store::open, (config, snapshot, log, size), r),
        call_ensures(Store::open, (config, snapshot, longer, size), r2),
        longer@ == log@.push(e),
    ensures
        r is Err ==> r2 is Err && r2->Err_0@ == r->Err_0@,
        r is Ok ==> {
            let m = r->Ok_0@.mem;
            let base = r->Ok_0@.last_snapshot_lsn;
            let sound = forall|i: int|
                0 <= i < e.ops@.len() ==> #[trigger] finds_expected(m.keys, e.ops@, i);
            if m.last_lsn == base && e.lsn <= base {
                r2 is Ok && r2->Ok_0@ == r->Ok_0@
            } else if e.lsn != m.last_lsn + 1 || !sound {
                r2 is Err && r2->Err_0@ is CorruptWal
            } else {
                &&& r2 is Ok
                &&& r2->Ok_0@.mem.last_lsn == e.lsn
                &&& forall|k: Seq<u8>| #[trigger]
                    grown(m.keys, r2->Ok_0@.mem.keys, e.lsn, e.ops@, e.ops@.len() as int, k)
                &&& r2->Ok_0@.last_snapshot_lsn == base
                &&& r2->Ok_0@.config == config@
            }
        },
{
    let es = store::entry_views(log@);
    let more = store::entry_views(longer@);
    assert(more.drop_last() =~= es);
    assert(more.last() == e@);
    if r is Ok {
        let m = r->Ok_0@.mem;
        lemma_replays(m.keys, e.lsn, e.ops@);
        assert forall|k: Seq<u8>| #[trigger]
            grown(
                m.keys,
                store::apply_ops(m.keys, e.lsn, e@.ops, e@.ops.len() as int),
                e.lsn,
                e.ops@,
                e.ops@.len() as int,
                k,
            ) by {
            lemma_grown(m.keys, e.lsn, e.ops@, e.ops@.len() as int, k);
        }
    }
}

/// A restart changes nothing that can be read: where a store is captured, and opened again from what
/// was captured, every read gives the same value with the same version, at every position.
pub proof fn lemma_restart_keeps_reads(
    s: &Store,
    plan: CompactPlan,
    loaded: SnapshotData,
    log: Vec<WalEntry>,
    config: Config,
    size: u64,
    opened: Store,
    key: &[u8],
    at: Option<u64>,
    before: Result<Got, KvError>,
    after: Result<Got, KvError>,
)
    requires
        call_ensures(Store::compact_locked, (s,), plan),
        plan is Write,
        loaded@ == plan->Write_0@,
        log@.len() == 0,
        config@ == s@.config,
        call_ensures(
            Store::open,
            (config, Some(loaded), log, size),
            Ok::<Store, KvError>(opened),
        ),
        call_ensures(Store::get_at, (s, key, at), before),
        call_ensures(Store::get_at, (&opened, key, at), after),
    ensures
        before is Ok <==> after is Ok,
        before is Ok ==> {
            &&& after->Ok_0.value@ == before->Ok_0.value@
            &&& after->Ok_0.version == before->Ok_0.version
            &&& after->Ok_0.read_lsn == before->Ok_0.read_lsn
        },
        before is Err ==> after->Err_0@ == before->Err_0@,
{
    assert(store::entry_views(log@) =~= Seq::empty());
}

// ---------- maintenance ----------

/// A compaction captures the whole table as it is, and only where something was committed since the
/// last snapshot.
pub proof fn lemma_capture(s: &Store, plan: CompactPlan)
    requires
        call_ensures(Store::compact_locked, (s,), plan),
    ensures
        plan is Write <==> s@.mem.last_lsn > s@.last_snapshot_lsn,
        plan is Write ==> plan->Write_0@.keys == s@.mem.keys && plan->Write_0@.last_lsn
            == s@.mem.last_lsn,
        plan is NothingNewer ==> plan->NothingNewer_0 == s@.mem.last_lsn,
{
}

/// Only one compaction runs at a time, and asking for one changes nothing but that one is running.
pub proof fn lemma_compact(s: &mut Store, r: CompactStart)
    requires
        call_ensures(Store::compact, (s,), r),
    ensures
        r is Run <==> !old(s)@.compacting,
        final(s)@.compacting,
        final(s)@.mem == old(s)@.mem,
        final(s)@.config == old(s)@.config,
        final(s)@.wal_size_bytes == old(s)@.wal_size_bytes,
        final(s)@.last_snapshot_lsn == old(s)@.last_snapshot_lsn,
{
}

/// Publishing a snapshot moves the position of the last snapshot and the size of the log, and
/// nothing that can be read.
pub proof fn lemma_finish_compaction(s: &mut Store, lsn: u64, size: u64, r: ())
    requires
        call_ensures(Store::finish_compaction, (s, lsn, size), r),
    ensures
        final(s)@.last_snapshot_lsn == lsn,
        final(s)@.wal_size_bytes == size,
        final(s)@.mem == old(s)@.mem,
        final(s)@.config == old(s)@.config,
        final(s)@.compacting == old(s)@.compacting,
{
}

/// Once a compaction has ended none is running, and nothing else has changed.
pub proof fn lemma_end_compaction(s: &mut Store, r: ())
    requires
        call_ensures(Store::end_compaction, (s,), r),
    ensures
        !final(s)@.compacting,
        final(s)@.mem == old(s)@.mem,
        final(s)@.config == old(s)@.config,
        final(s)@.wal_size_bytes == old(s)@.wal_size_bytes,
        final(s)@.last_snapshot_lsn == old(s)@.last_snapshot_lsn,
{
}

/// The status counts the keys that a read finds, and gives the positions and sizes as they are.
pub proof fn lemma_status(s: &Store, r: Status, last: u64)
    requires
        call_ensures(Store::status, (s,), r),
        call_ensures(Store::last_lsn, (s,), last),
    ensures
        r.key_count == with_value(s@.mem.keys).len(),
        r.last_lsn == s@.mem.last_lsn,
        last == s@.mem.last_lsn,
        r.wal_size_bytes == s@.wal_size_bytes,
        r.last_snapshot_lsn == s@.last_snapshot_lsn,
        r.compacting == s@.compacting,
        r.compaction_threshold_bytes == s@.config.compaction_threshold_bytes,
{
    assert(store::live_keys(s@.mem.keys) =~= with_value(s@.mem.keys));
}

/// The versions of a key that the transaction `lsn` left behind.
pub open spec fn left_by(keys: Histories, k: Seq<u8>, lsn: u64) -> Seq<VersionView> {
    past(keys, k).filter(|v: VersionView| v.lsn == lsn)
}

/// Operations write these versions of a key, one for one, from `o` on, and hold no other operation
/// on that key.
pub open spec fn writes_at(
    ops: Seq<(Vec<u8>, WalOp)>,
    k: Seq<u8>,
    versions: Seq<VersionView>,
    o: int,
) -> bool {
    &&& 0 <= o <= o + versions.len() <= ops.len()
    &&& forall|x: int|
        o <= x < o + versions.len() ==> (#[trigger] ops[x]).0@ == k && leaves(ops[x].1)
            == versions[x - o].value
    &&& forall|x: int| 0 <= x < ops.len() && (#[trigger] ops[x]).0@ == k ==> o <= x < o
        + versions.len()
}

/// An entry writes the versions of a key that its transaction left behind.
pub open spec fn writes_left(e: WalEntry, keys: Histories, k: Seq<u8>) -> bool {
    exists|o: int| #[trigger] writes_at(e.ops@, k, left_by(keys, k, e.lsn), o)
}

proof fn lemma_key_ops(h: Seq<VersionView>, k: Seq<u8>, lsn: u64)
    ensures
        ({
            let w = h.filter(|v: VersionView| v.lsn == lsn);
            let ops = store::key_ops(h, k, lsn);
            &&& ops.len() == w.len()
            &&& forall|x: int|
                0 <= x < ops.len() ==> (#[trigger] ops[x]).0 == k && store::written(ops[x].1)
                    == w[x].value && ops[x].1 !is Cas
        }),
    decreases h.len(),
{
    reveal(Seq::filter);
    if h.len() > 0 {
        lemma_key_ops(h.drop_last(), k, lsn);
        let f = |v: VersionView| v.lsn == lsn;
        let w = h.filter(f);
        let less = h.drop_last().filter(f);
        let ops = store::key_ops(h, k, lsn);
        assert forall|x: int| 0 <= x < ops.len() implies (#[trigger] ops[x]).0 == k
            && store::written(ops[x].1) == w[x].value && ops[x].1 !is Cas by {
            if x < less.len() {
                assert(ops[x] == store::key_ops(h.drop_last(), k, lsn)[x]);
            }
        }
    }
}

spec fn stands_at(ops: store::KeyedOps, k: Seq<u8>, part: store::KeyedOps, o: int) -> bool {
    &&& 0 <= o <= o + part.len() <= ops.len()
    &&& forall|x: int| o <= x < o + part.len() ==> #[trigger] ops[x] == part[x - o]
    &&& forall|x: int| 0 <= x < ops.len() && (#[trigger] ops[x]).0 == k ==> o <= x < o + part.len()
}

proof fn lemma_ops_at(keys: Histories, ks: Seq<Seq<u8>>, lsn: u64)
    requires
        order::strictly_sorted(ks),
    ensures
        forall|x: int|
            0 <= x < store::ops_at(keys, ks, lsn).len() ==> {
                let op = #[trigger] store::ops_at(keys, ks, lsn)[x];
                ks.contains(op.0) && op.1 !is Cas
            },
        forall|x: int, y: int|
            0 <= x < y < store::ops_at(keys, ks, lsn).len() ==> {
                let a = (#[trigger] store::ops_at(keys, ks, lsn)[x]).0;
                let b = (#[trigger] store::ops_at(keys, ks, lsn)[y]).0;
                a == b || order::key_lt(a, b)
            },
        forall|k: Seq<u8>| #[trigger]
            ks.contains(k) ==> exists|o: int| #[trigger]
                stands_at(
                    store::ops_at(keys, ks, lsn),
                    k,
                    store::key_ops(keys[k], k, lsn),
                    o,
                ),
    decreases ks.len(),
{
    if ks.len() > 0 {
        let less = ks.drop_last();
        let last = ks.last();
        lemma_ops_at(keys, less, lsn);
        lemma_key_ops(keys[last], last, lsn);
        let a = store::ops_at(keys, less, lsn);
        let b = store::key_ops(keys[last], last, lsn);
        let ops = store::ops_at(keys, ks, lsn);
        assert(ops =~= a + b);
        assert(ks[ks.len() - 1] == last);
        assert forall|x: int| 0 <= x < a.len() implies ks.contains((#[trigger] a[x]).0)
            && order::key_lt(a[x].0, last) && a[x].0 != last by {
            let y = choose|y: int| 0 <= y < less.len() && less[y] == a[x].0;
            assert(ks[y] == a[x].0);
            assert(order::key_lt(ks[y], ks[ks.len() - 1]));
            order::lemma_lt_irreflexive(last);
        }
        assert forall|x: int| 0 <= x < ops.len() implies {
            let op = #[trigger] ops[x];
            ks.contains(op.0) && op.1 !is Cas
        } by {
            if x < a.len() {
                assert(ops[x] == a[x]);
            } else {
                assert(ops[x] == b[x - a.len()]);
            }
        }
        assert forall|x: int, y: int| 0 <= x < y < ops.len() implies {
            let p = (#[trigger] ops[x]).0;
            let q = (#[trigger] ops[y]).0;
            p == q || order::key_lt(p, q)
        } by {
            if x < a.len() {
                assert(ops[x] == a[x]);
            } else {
                assert(ops[x] == b[x - a.len()]);
            }
            if y < a.len() {
                assert(ops[y] == a[y]);
            } else {
                assert(ops[y] == b[y - a.len()]);
            }
        }
        assert forall|k: Seq<u8>| #[trigger] ks.contains(k) implies exists|o: int| #[trigger]
            stands_at(ops, k, store::key_ops(keys[k], k, lsn), o) by {
            if k == last {
                let o = a.len() as int;
                assert forall|x: int| 0 <= x < ops.len() && (#[trigger] ops[x]).0 == k implies o
                    <= x < o + b.len() by {
                    if x < a.len() {
                        assert(ops[x] == a[x]);
                    }
                }
                assert(stands_at(ops, k, b, o));
            } else {
                let i = choose|i: int| 0 <= i < ks.len() && ks[i] == k;
                assert(less[i] == k);
                assert(less.contains(k));
                let part = store::key_ops(keys[k], k, lsn);
                let o = choose|o: int| #[trigger] stands_at(a, k, part, o);
                assert forall|x: int| o <= x < o + part.len() implies #[trigger] ops[x] == part[x
                    - o] by {
                    assert(ops[x] == a[x]);
                }
                assert forall|x: int| 0 <= x < ops.len() && (#[trigger] ops[x]).0 == k implies o
                    <= x < o + part.len() by {
                    if x < a.len() {
                        assert(ops[x] == a[x]);
                    } else {
                        assert(ops[x] == b[x - a.len()]);
                    }
                }
                assert(stands_at(ops, k, part, o));
            }
        }
    }
}

proof fn lemma_rebuilt_entries(keys: Histories, from: u64, to: int)
    requires
        to <= u64::MAX,
    ensures
        ({
            let es = store::rebuilt(keys, from, to);
            &&& forall|i: int|
                0 <= i < es.len() ==> {
                    &&& from <= (#[trigger] es[i]).lsn <= to
                    &&& es[i].ops.len() > 0
                    &&& es[i].ops == store::txn_ops(keys, es[i].lsn)
                }
            &&& forall|i: int, j: int|
                0 <= i < j < es.len() ==> (#[trigger] es[i]).lsn < (#[trigger] es[j]).lsn
            &&& forall|lsn: u64|
                from <= lsn <= to && (#[trigger] store::txn_ops(keys, lsn)).len() > 0
                    ==> exists|i: int| 0 <= i < es.len() && (#[trigger] es[i]).lsn == lsn
        }),
    decreases to - from + 1,
{
    if to >= from {
        lemma_rebuilt_entries(keys, from, to - 1);
        let before = store::rebuilt(keys, from, to - 1);
        let es = store::rebuilt(keys, from, to);
        assert forall|lsn: u64|
            from <= lsn <= to && (#[trigger] store::txn_ops(keys, lsn)).len() > 0 implies exists|
            i: int,
        | 0 <= i < es.len() && (#[trigger] es[i]).lsn == lsn by {
            if lsn < to {
                let i = choose|i: int| 0 <= i < before.len() && (#[trigger] before[i]).lsn == lsn;
                assert(es[i] == before[i]);
            } else {
                assert(es[es.len() - 1].lsn == lsn);
            }
        }
        assert forall|i: int, j: int| 0 <= i < j < es.len() implies (#[trigger] es[i]).lsn < (
        #[trigger] es[j]).lsn by {
            assert(es[i] == before[i]);
            if j < before.len() {
                assert(es[j] == before[j]);
            }
        }
        assert forall|i: int| 0 <= i < es.len() implies {
            &&& from <= (#[trigger] es[i]).lsn <= to
            &&& es[i].ops.len() > 0
            &&& es[i].ops == store::txn_ops(keys, es[i].lsn)
        } by {
            if i < before.len() {
                assert(es[i] == before[i]);
            }
        }
    }
}

/// Rebuilt entries have increasing LSNs in the range asked for and are never empty. Each holds, in
/// the order of the keys, the versions that its transaction left of every key, one for one and
/// without conditions; and each transaction in the range that left something has one.
pub proof fn lemma_reconstruct(s: &Store, from: u64, to: u64, r: Vec<WalEntry>)
    requires
        s.wf(),
        call_ensures(Store::reconstruct_entries, (s, from, to), r),
    ensures
        forall|i: int, j: int|
            0 <= i < j < r@.len() ==> (#[trigger] r@[i]).lsn < (#[trigger] r@[j]).lsn,
        forall|i: int|
            0 <= i < r@.len() ==> {
                &&& from <= (#[trigger] r@[i]).lsn <= to
                &&& r@[i].ops@.len() > 0
            },
        forall|i: int, x: int|
            #![trigger r@[i].ops@[x]]
            0 <= i < r@.len() && 0 <= x < r@[i].ops@.len() ==> {
                &&& r@[i].ops@[x].1 !is Cas
                &&& s@.mem.keys.dom().contains(r@[i].ops@[x].0@)
            },
        forall|i: int, x: int, y: int|
            #![trigger r@[i].ops@[x], r@[i].ops@[y]]
            0 <= i < r@.len() && 0 <= x < y < r@[i].ops@.len() ==> {
                ||| r@[i].ops@[x].0@ == r@[i].ops@[y].0@
                ||| order::key_lt(r@[i].ops@[x].0@, r@[i].ops@[y].0@)
            },
        forall|i: int, k: Seq<u8>|
            0 <= i < r@.len() && s@.mem.keys.dom().contains(k) ==> #[trigger] writes_left(
                r@[i],
                s@.mem.keys,
                k,
            ),
        forall|lsn: u64, k: Seq<u8>| #[trigger]
            left_by(s@.mem.keys, k, lsn).len() > 0 && from <= lsn <= to ==> exists|i: int|
                0 <= i < r@.len() && (#[trigger] r@[i]).lsn == lsn,
{
    s.lemma_wf();
    let keys = s@.mem.keys;
    let ks = order::sorted_keys(keys.dom());
    order::lemma_sorted_exists(keys.dom());
    let es = store::rebuilt(keys, from, to as int);
    lemma_rebuilt_entries(keys, from, to as int);
    assert(es.len() == r@.len());
    assert forall|i: int| 0 <= i < r@.len() implies {
        &&& (#[trigger] r@[i])@ == es[i]
        &&& r@[i].lsn == es[i].lsn
        &&& store::op_views(r@[i].ops@) == store::ops_at(keys, ks, r@[i].lsn)
    } by {
        assert(store::entry_views(r@)[i] == es[i]);
    }
    assert forall|i: int, j: int| 0 <= i < j < r@.len() implies (#[trigger] r@[i]).lsn < (
    #[trigger] r@[j]).lsn by {
        assert(es[i].lsn < es[j].lsn);
    }
    assert forall|i: int| 0 <= i < r@.len() implies from <= (#[trigger] r@[i]).lsn <= to
        && r@[i].ops@.len() > 0 by {
        assert(r@[i]@ == es[i]);
        assert(es[i].ops.len() == r@[i].ops@.len());
    }
    assert forall|i: int, x: int|
        #![trigger r@[i].ops@[x]]
        0 <= i < r@.len() && 0 <= x < r@[i].ops@.len() implies r@[i].ops@[x].1 !is Cas
        && keys.dom().contains(r@[i].ops@[x].0@) by {
        let lsn = r@[i].lsn;
        lemma_ops_at(keys, ks, lsn);
        let op = store::ops_at(keys, ks, lsn)[x];
        assert(store::op_views(r@[i].ops@)[x] == op);
        assert(ks.to_set().contains(op.0));
    }
    assert forall|i: int, x: int, y: int|
        #![trigger r@[i].ops@[x], r@[i].ops@[y]]
        0 <= i < r@.len() && 0 <= x < y < r@[i].ops@.len() implies r@[i].ops@[x].0@
        == r@[i].ops@[y].0@ || order::key_lt(r@[i].ops@[x].0@, r@[i].ops@[y].0@) by {
        let lsn = r@[i].lsn;
        lemma_ops_at(keys, ks, lsn);
        assert(store::op_views(r@[i].ops@)[x] == store::ops_at(keys, ks, lsn)[x]);
        assert(store::op_views(r@[i].ops@)[y] == store::ops_at(keys, ks, lsn)[y]);
    }
    assert forall|i: int, k: Seq<u8>|
        0 <= i < r@.len() && keys.dom().contains(k) implies #[trigger] writes_left(
        r@[i],
        keys,
        k,
    ) by {
        let lsn = r@[i].lsn;
        let ops = r@[i].ops@;
        let views = store::ops_at(keys, ks, lsn);
        let w = left_by(keys, k, lsn);
        let part = store::key_ops(keys[k], k, lsn);
        lemma_ops_at(keys, ks, lsn);
        lemma_key_ops(keys[k], k, lsn);
        assert(ks.to_set().contains(k));
        assert(ks.contains(k));
        let o = choose|o: int| #[trigger] stands_at(views, k, part, o);
        assert(store::op_views(ops) == views);
        assert forall|x: int| 0 <= x < ops.len() implies (#[trigger] ops[x]).0@ == views[x].0
            && leaves(ops[x].1) == store::written(views[x].1) by {
            assert(store::op_views(ops)[x] == views[x]);
        }
        assert(ops.len() == views.len());
        assert forall|x: int| o <= x < o + w.len() implies (#[trigger] ops[x]).0@ == k && leaves(
            ops[x].1,
        ) == w[x - o].value by {
            assert(views[x] == part[x - o]);
        }
        assert(writes_at(ops, k, w, o));
    }
    assert forall|lsn: u64, k: Seq<u8>| #[trigger]
        left_by(keys, k, lsn).len() > 0 && from <= lsn <= to implies exists|i: int|
        0 <= i < r@.len() && (#[trigger] r@[i]).lsn == lsn by {
        reveal(Seq::filter);
        assert(keys.dom().contains(k));
        lemma_ops_at(keys, ks, lsn);
        lemma_key_ops(keys[k], k, lsn);
        assert(ks.to_set().contains(k));
        assert(ks.contains(k));
        let o = choose|o: int| #[trigger]
            stands_at(store::ops_at(keys, ks, lsn), k, store::key_ops(keys[k], k, lsn), o);
        assert(store::txn_ops(keys, lsn).len() > 0);
        let i = choose|i: int| 0 <= i < es.len() && (#[trigger] es[i]).lsn == lsn;
        assert(r@[i].lsn == lsn);
    }
}

/// The rewritten log keeps the transactions behind the snapshot, and no others.
pub proof fn lemma_kept_entries(s: &Store, lsn: u64, kept: Vec<WalEntry>, all: Vec<WalEntry>)
    requires
        call_ensures(Store::kept_entries, (s, lsn), kept),
        lsn < u64::MAX,
        call_ensures(
            Store::reconstruct_entries,
            (s, (lsn + 1) as u64, s@.mem.last_lsn),
            all,
        ),
    ensures
        kept@.len() == all@.len(),
        forall|i: int| 0 <= i < kept@.len() ==> (#[trigger] kept@[i])@ == all@[i]@,
{
    let views = store::entry_views(kept@);
    assert(views == store::entry_views(all@)) by {
        if s@.mem.last_lsn <= lsn {
            assert(store::rebuilt(s@.mem.keys, (lsn + 1) as u64, s@.mem.last_lsn as int)
                =~= Seq::empty());
        }
    }
    assert(views.len() == all@.len());
    assert forall|i: int| 0 <= i < kept@.len() implies (#[trigger] kept@[i])@ == all@[i]@ by {
        assert(views[i] == store::entry_views(all@)[i]);
    }
}

} // verus!
