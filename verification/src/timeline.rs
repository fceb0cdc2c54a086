//! What the versioned store keeps through commits, compaction and recovery.

use crate::order;
use crate::store;
use crate::store::{
    Histories, KeyedOps, MemView, StoreView, VersionView, WalEntryView, WalOpView,
};
use vstd::prelude::*;

verus! {

/// A log entry that may be committed on a table: it is the next one, and its conditions hold, each
/// once the operations before it have been applied.
pub open spec fn next_entry(m: MemView, e: WalEntryView) -> bool {
    &&& e.lsn == m.last_lsn + 1
    &&& store::replays(m.keys, e.lsn, e.ops, e.ops.len() as int)
}

/// A commit is visible as a whole: every key that it touches has the value written, or none where
/// it deletes, with the commit's LSN as version, and the history of every other key stays as it is.
pub proof fn lemma_commit_is_atomic(m: MemView, e: WalEntryView)
    requires
        next_entry(m, e),
        store::distinct(e.ops),
    ensures
        forall|i: int|
            0 <= i < e.ops.len() ==> {
                let h = store::history_of(store::applied(m, e).keys, (#[trigger] e.ops[i]).0);
                &&& store::live(store::applied(m, e).keys, e.ops[i].0) == store::written(
                    e.ops[i].1,
                )
                &&& h.len() > 0
                &&& h.last().lsn == e.lsn
            },
        forall|k: Seq<u8>|
            !#[trigger] store::key_among(e.ops, e.ops.len() as int, k) ==> store::history_of(
                store::applied(m, e).keys,
                k,
            ) == store::history_of(m.keys, k),
{
    let n = e.ops.len() as int;
    assert forall|i: int| 0 <= i < e.ops.len() implies {
        let h = store::history_of(store::applied(m, e).keys, (#[trigger] e.ops[i]).0);
        &&& store::live(store::applied(m, e).keys, e.ops[i].0) == store::written(e.ops[i].1)
        &&& h.len() > 0
        &&& h.last().lsn == e.lsn
    } by {
        store::lemma_apply_own(m.keys, e.lsn, e.ops, n, i);
    }
    assert forall|k: Seq<u8>| !#[trigger] store::key_among(e.ops, n, k) implies store::history_of(
        store::applied(m, e).keys,
        k,
    ) == store::history_of(m.keys, k) by {
        assert forall|i: int| 0 <= i < n implies (#[trigger] e.ops[i]).0 != k by {
            if e.ops[i].0 == k {
                assert(store::key_among(e.ops, n, k));
            }
        }
        store::lemma_apply_other(m.keys, e.lsn, e.ops, n, k);
    }
}

/// A commit keeps every history in order: the versions of a key never go back, and none is beyond
/// the last commit.
pub proof fn lemma_versions_stay_in_order(m: MemView, e: WalEntryView)
    requires
        m.wf(),
        next_entry(m, e),
    ensures
        store::applied(m, e).wf(),
{
    store::lemma_apply_wf(m, e.ops, e.ops.len() as int);
}

/// A commit of a batch in which no key occurs twice keeps the versions of every key strictly
/// increasing: none goes back and none repeats.
pub proof fn lemma_versions_increase(m: MemView, e: WalEntryView)
    requires
        m.strict(),
        next_entry(m, e),
        store::distinct(e.ops),
    ensures
        store::applied(m, e).strict(),
{
    store::lemma_apply_strict(m, e.ops, e.ops.len() as int);
}

/// Operations leave the history of a key as it is, but for versions with their LSN behind it.
proof fn lemma_history_grows(keys: Histories, lsn: u64, ops: KeyedOps, n: int, k: Seq<u8>)
    requires
        0 <= n <= ops.len(),
    ensures
        ({
            let before = store::history_of(keys, k);
            let after = store::history_of(store::apply_ops(keys, lsn, ops, n), k);
            &&& before.len() <= after.len()
            &&& after.take(before.len() as int) == before
            &&& forall|i: int| before.len() <= i < after.len() ==> (#[trigger] after[i]).lsn == lsn
            &&& store::key_among(ops, n, k) <==> before.len() < after.len()
        }),
        store::apply_ops(keys, lsn, ops, n).dom().contains(k) <==> keys.dom().contains(k)
            || store::key_among(ops, n, k),
    decreases n,
{
    let before = store::history_of(keys, k);
    let after = store::history_of(store::apply_ops(keys, lsn, ops, n), k);
    if n > 0 {
        lemma_history_grows(keys, lsn, ops, n - 1, k);
        let mid = store::history_of(store::apply_ops(keys, lsn, ops, n - 1), k);
        if ops[n - 1].0 == k {
            assert(after.take(before.len() as int) =~= mid.take(before.len() as int));
            assert(store::key_among(ops, n, k));
        } else {
            assert(after == mid);
            if store::key_among(ops, n, k) {
                let j = choose|j: int| 0 <= j < n && (#[trigger] ops[j]).0 == k;
                assert(0 <= j < n - 1);
                assert(store::key_among(ops, n - 1, k));
            }
            if store::key_among(ops, n - 1, k) {
                let j = choose|j: int| 0 <= j < n - 1 && (#[trigger] ops[j]).0 == k;
                assert(ops[j].0 == k);
            }
        }
    } else {
        assert(after.take(before.len() as int) =~= before);
    }
}

/// Versions beyond a position, behind a history, change nothing up to that position.
proof fn lemma_later_versions(before: Seq<VersionView>, after: Seq<VersionView>, at: u64)
    requires
        before.len() <= after.len(),
        after.take(before.len() as int) == before,
        forall|i: int| before.len() <= i < after.len() ==> (#[trigger] after[i]).lsn > at,
    ensures
        store::visible(after, at) == store::visible(before, at),
        upto(after, at) == upto(before, at),
    decreases after.len(),
{
    if before.len() == after.len() {
        assert(after =~= before);
    } else {
        let less = after.drop_last();
        assert(after[after.len() - 1].lsn > at);
        assert(less.take(before.len() as int) =~= before);
        assert forall|i: int| before.len() <= i < less.len() implies (#[trigger] less[i]).lsn
            > at by {
            assert(less[i] == after[i]);
        }
        lemma_later_versions(before, less, at);
    }
}

/// A read at a position that has been committed gives the same after every later commit.
pub proof fn lemma_past_reads_stay(m: MemView, e: WalEntryView, k: Seq<u8>, at: u64)
    requires
        next_entry(m, e),
        at <= m.last_lsn,
    ensures
        store::seen_at(store::applied(m, e).keys, k, at) == store::seen_at(m.keys, k, at),
{
    lemma_history_grows(m.keys, e.lsn, e.ops, e.ops.len() as int, k);
    lemma_later_versions(
        store::history_of(m.keys, k),
        store::history_of(store::applied(m, e).keys, k),
        at,
    );
}

/// A read of the latest value is a read at the last position.
pub proof fn lemma_latest_is_last_position(m: MemView, k: Seq<u8>)
    requires
        m.wf(),
    ensures
        ({
            let h = store::history_of(m.keys, k);
            &&& store::seen_at(m.keys, k, m.last_lsn) is Some <==> store::live(m.keys, k) is Some
            &&& store::live(m.keys, k) is Some ==> store::seen_at(m.keys, k, m.last_lsn) == Some(
                h.last(),
            ) && h.last().value == store::live(m.keys, k)
        }),
{
    let h = store::history_of(m.keys, k);
    if h.len() > 0 {
        assert(m.keys.dom().contains(k));
        assert(h[h.len() - 1].lsn <= m.last_lsn);
    }
}

/// The versions of a history up to a position.
pub open spec fn upto(h: Seq<VersionView>, at: u64) -> Seq<VersionView>
    decreases h.len(),
{
    if h.len() == 0 || h.last().lsn <= at {
        h
    } else {
        upto(h.drop_last(), at)
    }
}

/// The table as it was at a position.
pub open spec fn as_of(keys: Histories, at: u64) -> Histories {
    Map::new(
        |k: Seq<u8>| keys.dom().contains(k) && upto(keys[k], at).len() > 0,
        |k: Seq<u8>| upto(keys[k], at),
    )
}

proof fn lemma_as_of(keys: Histories, at: u64, k: Seq<u8>)
    ensures
        store::history_of(as_of(keys, at), k) == upto(store::history_of(keys, k), at),
{
    assert(store::history_of(as_of(keys, at), k) =~= upto(store::history_of(keys, k), at));
}

/// The table as it is now is the table as of the last position.
pub proof fn lemma_as_of_now(m: MemView)
    requires
        m.wf(),
    ensures
        as_of(m.keys, m.last_lsn) == m.keys,
{
    assert forall|k: Seq<u8>| m.keys.dom().contains(k) implies upto(m.keys[k], m.last_lsn)
        == m.keys[k] by {
        let h = m.keys[k];
        assert(h[h.len() - 1].lsn <= m.last_lsn);
    }
    assert(as_of(m.keys, m.last_lsn) =~= m.keys);
}

/// A commit does not change what the table was at any position before it. So a snapshot that was
/// captured at a position is, after any number of later commits, still the table as of that
/// position.
pub proof fn lemma_past_is_kept(m: MemView, e: WalEntryView, at: u64)
    requires
        next_entry(m, e),
        at <= m.last_lsn,
    ensures
        as_of(store::applied(m, e).keys, at) == as_of(m.keys, at),
{
    let after = store::applied(m, e).keys;
    let n = e.ops.len() as int;
    assert forall|k: Seq<u8>| as_of(after, at).dom().contains(k) <==> as_of(
        m.keys,
        at,
    ).dom().contains(k) by {
        lemma_history_grows(m.keys, e.lsn, e.ops, n, k);
        lemma_later_versions(store::history_of(m.keys, k), store::history_of(after, k), at);
        lemma_as_of(after, at, k);
        lemma_as_of(m.keys, at, k);
    }
    assert forall|k: Seq<u8>| as_of(after, at).dom().contains(k) implies as_of(after, at)[k]
        == as_of(m.keys, at)[k] by {
        lemma_history_grows(m.keys, e.lsn, e.ops, n, k);
        lemma_later_versions(store::history_of(m.keys, k), store::history_of(after, k), at);
        lemma_as_of(after, at, k);
        lemma_as_of(m.keys, at, k);
    }
    assert(as_of(after, at) =~= as_of(m.keys, at));
}

/// A history holds a version with this LSN.
pub open spec fn has_version(h: Seq<VersionView>, lsn: u64) -> bool {
    exists|i: int| 0 <= i < h.len() && (#[trigger] h[i]).lsn == lsn
}

/// The transaction `lsn` has left a version behind.
pub open spec fn touched(keys: Histories, lsn: u64) -> bool {
    exists|k: Seq<u8>| keys.dom().contains(k) && #[trigger] has_version(keys[k], lsn)
}

/// Every committed position has left a version behind.
pub open spec fn gapless(m: MemView) -> bool {
    forall|lsn: u64| 1 <= lsn <= m.last_lsn ==> #[trigger] touched(m.keys, lsn)
}

/// Committing batches that hold something leaves no gap.
pub proof fn lemma_commits_leave_no_gap(m: MemView, e: WalEntryView)
    requires
        gapless(m),
        next_entry(m, e),
        e.ops.len() > 0,
    ensures
        gapless(store::applied(m, e)),
{
    let after = store::applied(m, e);
    let n = e.ops.len() as int;
    assert forall|lsn: u64| 1 <= lsn <= after.last_lsn implies #[trigger] touched(
        after.keys,
        lsn,
    ) by {
        if lsn == e.lsn {
            let k = e.ops[0].0;
            assert(store::key_among(e.ops, n, k));
            lemma_history_grows(m.keys, e.lsn, e.ops, n, k);
            let h = after.keys[k];
            assert(h[store::history_of(m.keys, k).len() as int].lsn == lsn);
            assert(has_version(h, lsn));
        } else {
            assert(touched(m.keys, lsn));
            let k = choose|k: Seq<u8>|
                m.keys.dom().contains(k) && #[trigger] has_version(m.keys[k], lsn);
            let i = choose|i: int| 0 <= i < m.keys[k].len() && (#[trigger] m.keys[k][i]).lsn == lsn;
            lemma_history_grows(m.keys, e.lsn, e.ops, n, k);
            let h = after.keys[k];
            assert(h.take(m.keys[k].len() as int)[i] == h[i]);
            assert(has_version(h, lsn));
        }
    }
}

/// Neither does recovery: a log of such batches, replayed on a table without gaps, leaves none. So
/// a store that was restarted can be compacted again.
pub proof fn lemma_recovery_leaves_no_gap(base: MemView, es: Seq<WalEntryView>)
    requires
        gapless(base),
        forall|i: int| 0 <= i < es.len() ==> (#[trigger] es[i]).ops.len() > 0,
        store::recover_all(base, es) is Ok,
    ensures
        gapless(store::recover_all(base, es)->Ok_0),
    decreases es.len(),
{
    if es.len() > 0 {
        let before = es.drop_last();
        assert forall|i: int| 0 <= i < before.len() implies (#[trigger] before[i]).ops.len() > 0 by {
            assert(before[i] == es[i]);
        }
        lemma_recovery_leaves_no_gap(base, before);
        let m = store::recover_all(base, before)->Ok_0;
        let e = es[es.len() - 1];
        if store::recover_one(m, base.last_lsn, e) != Ok::<_, crate::error::KvFault>(m) {
            lemma_commits_leave_no_gap(m, e);
        }
    }
}

/// Of the batches that swap the same value of a key only one commits: once it has, the condition of
/// a swap that expects the value from before does not hold.
pub proof fn lemma_cas_has_one_winner(m: MemView, e: WalEntryView, i: int, other: Seq<u8>)
    requires
        next_entry(m, e),
        store::distinct(e.ops),
        0 <= i < e.ops.len(),
        e.ops[i].1 is Cas,
        e.ops[i].1->expected != Some(e.ops[i].1->value),
    ensures
        !store::holds(
            store::applied(m, e).keys,
            e.ops[i].0,
            WalOpView::Cas { expected: e.ops[i].1->expected, value: other },
        ),
{
    lemma_commit_is_atomic(m, e);
    assert(store::live(store::applied(m, e).keys, e.ops[i].0) == store::written(e.ops[i].1));
}

/// The versions of a history with this LSN.
spec fn with_lsn(h: Seq<VersionView>, lsn: u64) -> Seq<VersionView>
    decreases h.len(),
{
    if h.len() == 0 {
        Seq::empty()
    } else if h.last().lsn == lsn {
        with_lsn(h.drop_last(), lsn).push(h.last())
    } else {
        with_lsn(h.drop_last(), lsn)
    }
}

proof fn lemma_with_lsn(h: Seq<VersionView>, lsn: u64)
    ensures
        with_lsn(h, lsn).len() > 0 <==> has_version(h, lsn),
    decreases h.len(),
{
    if h.len() > 0 {
        let g = h.drop_last();
        lemma_with_lsn(g, lsn);
        if has_version(g, lsn) {
            let i = choose|i: int| 0 <= i < g.len() && (#[trigger] g[i]).lsn == lsn;
            assert(h[i].lsn == lsn);
        }
        if h.last().lsn == lsn {
            assert(h[h.len() - 1].lsn == lsn);
        } else if has_version(h, lsn) {
            let i = choose|i: int| 0 <= i < h.len() && (#[trigger] h[i]).lsn == lsn;
            assert(g[i].lsn == lsn);
        }
    }
}

/// Only the operations that are applied matter.
proof fn lemma_apply_same(keys: Histories, lsn: u64, a: KeyedOps, b: KeyedOps, n: int)
    requires
        0 <= n <= a.len(),
        n <= b.len(),
        forall|i: int| 0 <= i < n ==> #[trigger] a[i] == b[i],
    ensures
        store::apply_ops(keys, lsn, a, n) == store::apply_ops(keys, lsn, b, n),
    decreases n,
{
    if n > 0 {
        lemma_apply_same(keys, lsn, a, b, n - 1);
        assert(a[n - 1] == b[n - 1]);
    }
}

/// Operations behind others are applied to what those have left.
proof fn lemma_apply_behind(keys: Histories, lsn: u64, a: KeyedOps, b: KeyedOps, n: int)
    requires
        0 <= n <= b.len(),
    ensures
        store::apply_ops(keys, lsn, a + b, a.len() + n) == store::apply_ops(
            store::apply_ops(keys, lsn, a, a.len() as int),
            lsn,
            b,
            n,
        ),
    decreases n,
{
    if n > 0 {
        lemma_apply_behind(keys, lsn, a, b, n - 1);
        assert((a + b)[a.len() + n - 1] == b[n - 1]);
    } else {
        lemma_apply_same(keys, lsn, a + b, a, a.len() as int);
    }
}

/// The rebuilt operations of a key put its versions with their LSN behind its history.
proof fn lemma_apply_key_ops(base: Histories, h: Seq<VersionView>, k: Seq<u8>, lsn: u64, x: Seq<u8>)
    ensures
        ({
            let ops = store::key_ops(h, k, lsn);
            let after = store::apply_ops(base, lsn, ops, ops.len() as int);
            if x == k {
                &&& store::history_of(after, x) == store::history_of(base, x) + with_lsn(h, lsn)
                &&& after.dom().contains(x) <==> base.dom().contains(x) || with_lsn(h, lsn).len()
                    > 0
            } else {
                &&& store::history_of(after, x) == store::history_of(base, x)
                &&& after.dom().contains(x) <==> base.dom().contains(x)
            }
        }),
        store::key_ops(h, k, lsn).len() == with_lsn(h, lsn).len(),
        unconditional(store::key_ops(h, k, lsn)),
    decreases h.len(),
{
    let ops = store::key_ops(h, k, lsn);
    let after = store::apply_ops(base, lsn, ops, ops.len() as int);
    let old_h = store::history_of(base, x);
    if h.len() > 0 {
        let g = h.drop_last();
        let less = store::key_ops(g, k, lsn);
        lemma_apply_key_ops(base, g, k, lsn, x);
        if h.last().lsn == lsn {
            lemma_apply_same(base, lsn, ops, less, less.len() as int);
            let v = h.last();
            assert(v == (VersionView {
                lsn,
                value: store::written(store::plain_op(v)),
            }));
            assert(old_h + with_lsn(h, lsn) =~= (old_h + with_lsn(g, lsn)).push(v));
            assert forall|i: int| 0 <= i < ops.len() implies (#[trigger] ops[i]).1 !is Cas by {
                if i < less.len() {
                    assert(ops[i] == less[i]);
                }
            }
        }
    } else {
        assert(old_h + with_lsn(h, lsn) =~= old_h);
    }
}

/// The same of the rebuilt operations of some keys.
proof fn lemma_apply_rebuilt(
    base: Histories,
    keys: Histories,
    ks: Seq<Seq<u8>>,
    lsn: u64,
    k: Seq<u8>,
)
    requires
        ks.no_duplicates(),
    ensures
        ({
            let ops = store::ops_at(keys, ks, lsn);
            let after = store::apply_ops(base, lsn, ops, ops.len() as int);
            if ks.contains(k) {
                &&& store::history_of(after, k) == store::history_of(base, k) + with_lsn(
                    keys[k],
                    lsn,
                )
                &&& after.dom().contains(k) <==> base.dom().contains(k) || with_lsn(
                    keys[k],
                    lsn,
                ).len() > 0
                &&& with_lsn(keys[k], lsn).len() <= ops.len()
            } else {
                &&& store::history_of(after, k) == store::history_of(base, k)
                &&& after.dom().contains(k) <==> base.dom().contains(k)
            }
        }),
        unconditional(store::ops_at(keys, ks, lsn)),
    decreases ks.len(),
{
    if ks.len() > 0 {
        let less = ks.drop_last();
        let last = ks.last();
        let a = store::ops_at(keys, less, lsn);
        let b = store::key_ops(keys[last], last, lsn);
        let ops = store::ops_at(keys, ks, lsn);
        lemma_apply_rebuilt(base, keys, less, lsn, k);
        lemma_apply_behind(base, lsn, a, b, b.len() as int);
        lemma_apply_key_ops(
            store::apply_ops(base, lsn, a, a.len() as int),
            keys[last],
            last,
            lsn,
            k,
        );
        if ks.contains(k) {
            let i = choose|i: int| 0 <= i < ks.len() && ks[i] == k;
            if i < less.len() {
                assert(less[i] == k);
                assert(ks[ks.len() - 1] != k);
            } else if less.contains(k) {
                let j = choose|j: int| 0 <= j < less.len() && less[j] == k;
                assert(ks[j] == ks[ks.len() - 1]);
            }
        } else {
            assert(ks[ks.len() - 1] != k);
            if less.contains(k) {
                let j = choose|j: int| 0 <= j < less.len() && less[j] == k;
                assert(ks[j] == k);
            }
        }
        assert forall|i: int| 0 <= i < ops.len() implies (#[trigger] ops[i]).1 !is Cas by {
            if i < a.len() {
                assert(ops[i] == a[i]);
            } else {
                assert(ops[i] == b[i - a.len()]);
            }
        }
    }
}

/// One more position adds the versions with its LSN.
proof fn lemma_upto_step(h: Seq<VersionView>, at: u64)
    requires
        at < u64::MAX,
        store::ascending(h),
    ensures
        upto(h, (at + 1) as u64) == upto(h, at) + with_lsn(h, (at + 1) as u64),
    decreases h.len(),
{
    let next = (at + 1) as u64;
    if h.len() > 0 {
        let g = h.drop_last();
        assert forall|i: int, j: int| 0 <= i < j < g.len() implies (#[trigger] g[i]).lsn <= (
        #[trigger] g[j]).lsn by {
            assert(h[i].lsn <= h[j].lsn);
        }
        if h.last().lsn <= at {
            assert forall|i: int| 0 <= i < h.len() implies (#[trigger] h[i]).lsn != next by {
                if i < h.len() - 1 {
                    assert(h[i].lsn <= h[h.len() - 1].lsn);
                }
            }
            lemma_with_lsn(h, next);
            assert(upto(h, at) + with_lsn(h, next) =~= h);
        } else {
            lemma_upto_step(g, at);
            if h.last().lsn == next {
                if g.len() > 0 {
                    assert(h[g.len() - 1].lsn <= h[h.len() - 1].lsn);
                }
                assert(upto(g, next) == g);
                assert(h =~= g.push(h.last()));
                assert(upto(g, at) + with_lsn(h, next) =~= (upto(g, at) + with_lsn(g, next)).push(
                    h.last(),
                ));
            }
        }
    } else {
        assert(upto(h, at) + with_lsn(h, next) =~= h);
    }
}

/// The rebuilt entry of a position takes the table as of the position before to the table as of
/// that position.
proof fn lemma_rebuilt_step(m: MemView, at: u64)
    requires
        m.wf(),
        m.keys.dom().finite(),
        at < m.last_lsn,
        gapless(m),
    ensures
        ({
            let next = (at + 1) as u64;
            let e = WalEntryView { lsn: next, ops: store::txn_ops(m.keys, next) };
            let before = MemView { keys: as_of(m.keys, at), last_lsn: at };
            &&& e.ops.len() > 0
            &&& unconditional(e.ops)
            &&& next_entry(before, e)
            &&& store::applied(before, e) == (MemView {
                keys: as_of(m.keys, next),
                last_lsn: next,
            })
        }),
{
    let next = (at + 1) as u64;
    let keys = m.keys;
    let ks = order::sorted_keys(keys.dom());
    order::lemma_sorted_exists(keys.dom());
    order::lemma_sorted_distinct(ks);
    let ops = store::txn_ops(keys, next);
    let n = ops.len() as int;
    let past = as_of(keys, at);
    let after = store::apply_ops(past, next, ops, n);
    let goal = as_of(keys, next);
    assert(touched(keys, next));
    let w = choose|k: Seq<u8>| keys.dom().contains(k) && #[trigger] has_version(keys[k], next);
    assert(ks.to_set().contains(w));
    lemma_apply_rebuilt(past, keys, ks, next, w);
    lemma_with_lsn(keys[w], next);
    assert forall|i: int| 0 <= i < n implies #[trigger] store::step_holds(past, next, ops, i) by {
        assert(ops[i].1 !is Cas);
    }
    assert forall|k: Seq<u8>| after.dom().contains(k) <==> goal.dom().contains(k) by {
        lemma_rebuilt_key(m, at, k);
    }
    assert forall|k: Seq<u8>| after.dom().contains(k) implies after[k] == goal[k] by {
        lemma_rebuilt_key(m, at, k);
    }
    assert(after =~= goal);
}

proof fn lemma_rebuilt_key(m: MemView, at: u64, k: Seq<u8>)
    requires
        m.wf(),
        m.keys.dom().finite(),
        at < m.last_lsn,
    ensures
        ({
            let next = (at + 1) as u64;
            let ops = store::txn_ops(m.keys, next);
            let after = store::apply_ops(as_of(m.keys, at), next, ops, ops.len() as int);
            let goal = as_of(m.keys, next);
            &&& after.dom().contains(k) <==> goal.dom().contains(k)
            &&& after.dom().contains(k) ==> after[k] == goal[k]
        }),
{
    let next = (at + 1) as u64;
    let keys = m.keys;
    let ks = order::sorted_keys(keys.dom());
    order::lemma_sorted_exists(keys.dom());
    order::lemma_sorted_distinct(ks);
    lemma_as_of(keys, at, k);
    lemma_as_of(keys, next, k);
    lemma_apply_rebuilt(as_of(keys, at), keys, ks, next, k);
    if keys.dom().contains(k) {
        assert(ks.to_set().contains(k));
        assert(store::history_ok(keys[k], m.last_lsn));
        lemma_upto_step(keys[k], at);
    } else if ks.contains(k) {
        assert(ks.to_set().contains(k));
    }
}

/// Compaction is idempotent: one that no commit overlaps ends at the last position and changes
/// nothing that can be read; afterwards that position is the one of the last snapshot, and a second
/// compaction finds nothing newer, ends at the same position and changes nothing at all.
pub proof fn lemma_compaction_is_idempotent(s: StoreView, size: u64, second_size: u64)
    requires
        s.last_snapshot_lsn <= s.mem.last_lsn,
    ensures
        ({
            let once = s.compacted(size);
            &&& s.begun().position() == s.mem.last_lsn
            &&& once.mem == s.mem
            &&& once.config == s.config
            &&& once.last_snapshot_lsn == s.mem.last_lsn
            &&& !once.compacting
            &&& !once.begun().has_newer()
            &&& once.begun().position() == s.mem.last_lsn
            &&& once.compacted(second_size) == once
        }),
{
}

/// Compaction loses nothing: replaying the entries that the rewritten log keeps, on top of a
/// snapshot at any earlier position, gives the current table with all its histories.
pub proof fn lemma_compaction_recovers(m: MemView, at: u64)
    requires
        m.wf(),
        m.keys.dom().finite(),
        gapless(m),
        at <= m.last_lsn,
    ensures
        at < m.last_lsn ==> store::recover_all(
            MemView { keys: as_of(m.keys, at), last_lsn: at },
            store::rebuilt(m.keys, (at + 1) as u64, m.last_lsn as int),
        ) == Ok::<_, crate::error::KvFault>(m),
        at == m.last_lsn ==> (MemView { keys: as_of(m.keys, at), last_lsn: at }) == m,
{
    lemma_as_of_now(m);
    if at < m.last_lsn {
        lemma_rebuilt_replays(m, at, m.last_lsn);
    }
}

/// Rebuilt entries stand for the transactions that they were rebuilt from: there is one for each
/// LSN from `at + 1` to `to`, none of their operations has a condition, and replaying them, one after
/// the other and without an error, on the table as it was at `at` gives the table as it was at `to`,
/// with all its histories.
pub proof fn lemma_rebuilt_replays(m: MemView, at: u64, to: u64)
    requires
        m.wf(),
        m.keys.dom().finite(),
        gapless(m),
        at <= to <= m.last_lsn,
        at < u64::MAX,
    ensures
        ({
            let es = store::rebuilt(m.keys, (at + 1) as u64, to as int);
            &&& es.len() == to - at
            &&& forall|i: int|
                0 <= i < es.len() ==> (#[trigger] es[i]).lsn == at + 1 + i && unconditional(
                    es[i].ops,
                )
            &&& store::recover_all(MemView { keys: as_of(m.keys, at), last_lsn: at }, es) == Ok::<
                _,
                crate::error::KvFault,
            >((MemView { keys: as_of(m.keys, to), last_lsn: to }))
        }),
    decreases to - at,
{
    let from = (at + 1) as u64;
    if at < to {
        let less = (to - 1) as u64;
        lemma_rebuilt_replays(m, at, less);
        lemma_rebuilt_step(m, less);
        let before = store::rebuilt(m.keys, from, less as int);
        let all = store::rebuilt(m.keys, from, to as int);
        assert(all.drop_last() =~= before);
        assert forall|i: int| 0 <= i < all.len() implies (#[trigger] all[i]).lsn == at + 1 + i
            && unconditional(all[i].ops) by {
            if i < before.len() {
                assert(all[i] == before[i]);
            }
        }
    }
}

/// No operation has a condition.
pub open spec fn unconditional(ops: KeyedOps) -> bool {
    forall|i: int| 0 <= i < ops.len() ==> (#[trigger] ops[i]).1 !is Cas
}

/// The table of a store that holds nothing yet.
pub open spec fn empty_table() -> MemView {
    MemView { keys: Map::empty(), last_lsn: 0 }
}

/// What recovery gives is in order and has no gaps, where it starts from such a table and every
/// entry holds something.
proof fn lemma_recovered(base: MemView, es: Seq<WalEntryView>)
    requires
        base.wf(),
        base.keys.dom().finite(),
        gapless(base),
        forall|i: int| 0 <= i < es.len() ==> (#[trigger] es[i]).ops.len() > 0,
        store::recover_all(base, es) is Ok,
    ensures
        store::recover_all(base, es)->Ok_0.wf(),
        store::recover_all(base, es)->Ok_0.keys.dom().finite(),
        gapless(store::recover_all(base, es)->Ok_0),
    decreases es.len(),
{
    lemma_recovery_leaves_no_gap(base, es);
    if es.len() > 0 {
        let before = es.drop_last();
        assert forall|i: int| 0 <= i < before.len() implies (#[trigger] before[i]).ops.len() > 0 by {
            assert(before[i] == es[i]);
        }
        lemma_recovered(base, before);
        let m = store::recover_all(base, before)->Ok_0;
        let e = es[es.len() - 1];
        if store::recover_one(m, base.last_lsn, e) != Ok::<_, crate::error::KvFault>(m) {
            lemma_versions_stay_in_order(m, e);
            lemma_applied_finite(m.keys, e.lsn, e.ops, e.ops.len() as int);
        }
    }
}

proof fn lemma_applied_finite(keys: Histories, lsn: u64, ops: KeyedOps, n: int)
    requires
        keys.dom().finite(),
        0 <= n <= ops.len(),
    ensures
        store::apply_ops(keys, lsn, ops, n).dom().finite(),
    decreases n,
{
    if n > 0 {
        lemma_applied_finite(keys, lsn, ops, n - 1);
    }
}

/// What the table was at a position that was reached on the way is what the entries up to there
/// made of it.
pub proof fn lemma_as_of_is_what_was(es: Seq<WalEntryView>, n: int)
    requires
        0 <= n <= es.len(),
        store::recover_all(empty_table(), es) is Ok,
    ensures
        store::recover_all(empty_table(), es.take(n)) is Ok,
        ({
            let then = store::recover_all(empty_table(), es.take(n))->Ok_0;
            as_of(store::recover_all(empty_table(), es)->Ok_0.keys, then.last_lsn) == then.keys
        }),
    decreases es.len() - n,
{
    let base = empty_table();
    if store::recover_all(base, es.take(n)) is Err {
        store::lemma_recover_stops(base, es, n);
    }
    assert(es.take(es.len() as int) =~= es);
    lemma_kept_through(es, n, es.len() as int);
}

proof fn lemma_kept_through(es: Seq<WalEntryView>, n: int, k: int)
    requires
        0 <= n <= k <= es.len(),
        store::recover_all(empty_table(), es) is Ok,
        store::recover_all(empty_table(), es.take(n)) is Ok,
    ensures
        store::recover_all(empty_table(), es.take(k)) is Ok,
        ({
            let then = store::recover_all(empty_table(), es.take(n))->Ok_0;
            let now = store::recover_all(empty_table(), es.take(k))->Ok_0;
            &&& then.wf()
            &&& then.last_lsn <= now.last_lsn
            &&& as_of(now.keys, then.last_lsn) == then.keys
        }),
    decreases k,
{
    let base = empty_table();
    let then = store::recover_all(base, es.take(n))->Ok_0;
    lemma_prefix_wf(es, n);
    if k == n {
        lemma_as_of_now(then);
    } else {
        lemma_kept_through(es, n, k - 1);
        if store::recover_all(base, es.take(k)) is Err {
            store::lemma_recover_stops(base, es, k);
        }
        assert(es.take(k).drop_last() =~= es.take(k - 1));
        let m = store::recover_all(base, es.take(k - 1))->Ok_0;
        let e = es[k - 1];
        assert(es.take(k).last() == e);
        if store::recover_one(m, 0, e) != Ok::<_, crate::error::KvFault>(m) {
            lemma_past_is_kept(m, e, then.last_lsn);
        }
    }
}

proof fn lemma_prefix_wf(es: Seq<WalEntryView>, n: int)
    requires
        0 <= n <= es.len(),
        store::recover_all(empty_table(), es.take(n)) is Ok,
    ensures
        store::recover_all(empty_table(), es.take(n))->Ok_0.wf(),
    decreases n,
{
    if n > 0 {
        assert(es.take(n).drop_last() =~= es.take(n - 1));
        lemma_prefix_wf(es, n - 1);
        let m = store::recover_all(empty_table(), es.take(n - 1))->Ok_0;
        let e = es.take(n).last();
        if store::recover_one(m, 0, e) != Ok::<_, crate::error::KvFault>(m) {
            lemma_versions_stay_in_order(m, e);
        }
    }
}

/// Recovery keeps the versions of every key strictly increasing, where it starts from such a table
/// and no key occurs twice in an entry, as in every batch that was committed.
pub proof fn lemma_recovered_versions_increase(base: MemView, es: Seq<WalEntryView>)
    requires
        base.strict(),
        forall|i: int| 0 <= i < es.len() ==> store::distinct((#[trigger] es[i]).ops),
        store::recover_all(base, es) is Ok,
    ensures
        store::recover_all(base, es)->Ok_0.strict(),
    decreases es.len(),
{
    if es.len() > 0 {
        let before = es.drop_last();
        assert forall|i: int| 0 <= i < before.len() implies store::distinct(
            (#[trigger] before[i]).ops,
        ) by {
            assert(before[i] == es[i]);
        }
        lemma_recovered_versions_increase(base, before);
        let m = store::recover_all(base, before)->Ok_0;
        let e = es[es.len() - 1];
        if store::recover_one(m, base.last_lsn, e) != Ok::<_, crate::error::KvFault>(m) {
            lemma_versions_increase(m, e);
        }
    }
}

/// The same of a table that a log has built from nothing: rebuilding the entries `from` to `to` gives
/// one entry for each LSN, without conditions, and replaying them on the table as it was before
/// `from` gives the table as it was at `to`.
pub proof fn lemma_reconstruction(es: Seq<WalEntryView>, from: u64, to: u64)
    requires
        forall|i: int| 0 <= i < es.len() ==> (#[trigger] es[i]).ops.len() > 0,
        store::recover_all(empty_table(), es) is Ok,
        1 <= from <= to <= store::recover_all(empty_table(), es)->Ok_0.last_lsn,
    ensures
        ({
            let keys = store::recover_all(empty_table(), es)->Ok_0.keys;
            let rebuilt = store::rebuilt(keys, from, to as int);
            let before = (from - 1) as u64;
            &&& rebuilt.len() == to - from + 1
            &&& forall|i: int|
                0 <= i < rebuilt.len() ==> (#[trigger] rebuilt[i]).lsn == from + i
                    && unconditional(rebuilt[i].ops)
            &&& store::recover_all(MemView { keys: as_of(keys, before), last_lsn: before }, rebuilt)
                == Ok::<_, crate::error::KvFault>(
                (MemView { keys: as_of(keys, to), last_lsn: to }),
            )
        }),
{
    lemma_recovered(empty_table(), es);
    let m = store::recover_all(empty_table(), es)->Ok_0;
    let before = (from - 1) as u64;
    lemma_rebuilt_replays(m, before, to);
    let rebuilt = store::rebuilt(m.keys, (before + 1) as u64, to as int);
    assert forall|i: int| 0 <= i < rebuilt.len() implies (#[trigger] rebuilt[i]).lsn == from + i
        && unconditional(rebuilt[i].ops) by {
        assert(rebuilt[i].lsn == before + 1 + i);
    }
}

/// The log reproduces the table: recovery from the log with a committed entry behind it gives the
/// table after that commit.
pub proof fn lemma_log_reproduces(
    base: MemView,
    es: Seq<WalEntryView>,
    m: MemView,
    e: WalEntryView,
)
    requires
        store::recover_all(base, es) == Ok::<_, crate::error::KvFault>(m),
        next_entry(m, e),
    ensures
        store::recover_all(base, es.push(e)) == Ok::<_, crate::error::KvFault>(
            store::applied(m, e),
        ),
{
    assert(es.push(e).drop_last() =~= es);
}

proof fn lemma_recover_order(base: MemView, es: Seq<WalEntryView>)
    requires
        store::recover_all(base, es) is Ok,
    ensures
        store::recover_all(base, es)->Ok_0.last_lsn >= base.last_lsn,
        forall|i: int|
            0 <= i < es.len() ==> (#[trigger] es[i]).lsn <= store::recover_all(
                base,
                es,
            )->Ok_0.last_lsn,
    decreases es.len(),
{
    if es.len() > 0 {
        lemma_recover_order(base, es.drop_last());
        assert forall|i: int| 0 <= i < es.len() implies (#[trigger] es[i]).lsn
            <= store::recover_all(base, es)->Ok_0.last_lsn by {
            if i < es.len() - 1 {
                assert(es.drop_last()[i] == es[i]);
            }
        }
    }
}

proof fn lemma_stale_prefix_skipped(base: MemView, es: Seq<WalEntryView>)
    requires
        forall|i: int| 0 <= i < es.len() ==> (#[trigger] es[i]).lsn <= base.last_lsn,
    ensures
        store::recover_all(base, es) == Ok::<_, crate::error::KvFault>(base),
    decreases es.len(),
{
    if es.len() > 0 {
        assert forall|i: int| 0 <= i < es.drop_last().len() implies (
        #[trigger] es.drop_last()[i]).lsn <= base.last_lsn by {
            assert(es.drop_last()[i] == es[i]);
        }
        lemma_stale_prefix_skipped(base, es.drop_last());
    }
}

/// No committed entry is applied twice: where a snapshot was published but the log not yet
/// rewritten, recovery from that snapshot and the whole log gives what the whole log gives. The
/// snapshot is the table after the first `n` entries.
pub proof fn lemma_no_double_apply(base: MemView, es: Seq<WalEntryView>, n: int)
    requires
        0 <= n <= es.len(),
        store::recover_all(base, es) is Ok,
    ensures
        store::recover_all(base, es.take(n)) is Ok,
        store::recover_all(store::recover_all(base, es.take(n))->Ok_0, es) == store::recover_all(
            base,
            es,
        ),
{
    if store::recover_all(base, es.take(n)) is Err {
        store::lemma_recover_stops(base, es, n);
    }
    assert(es.take(es.len() as int) =~= es);
    lemma_double_apply_upto(base, es, n, es.len() as int);
}

proof fn lemma_double_apply_upto(base: MemView, es: Seq<WalEntryView>, n: int, k: int)
    requires
        0 <= n <= k <= es.len(),
        store::recover_all(base, es.take(k)) is Ok,
        store::recover_all(base, es.take(n)) is Ok,
    ensures
        store::recover_all(store::recover_all(base, es.take(n))->Ok_0, es.take(k))
            == store::recover_all(base, es.take(k)),
    decreases k,
{
    let snap = store::recover_all(base, es.take(n))->Ok_0;
    if k == n {
        lemma_recover_order(base, es.take(n));
        lemma_stale_prefix_skipped(snap, es.take(n));
    } else {
        assert(es.take(k).drop_last() =~= es.take(k - 1));
        lemma_double_apply_upto(base, es, n, k - 1);
        let u = store::recover_all(base, es.take(k - 1))->Ok_0;
        lemma_recover_order(base, es.take(n));
        lemma_recover_order(snap, es.take(k - 1));
        lemma_recover_order(base, es.take(k - 1));
    }
}

} // verus!
