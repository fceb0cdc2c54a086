//! Built-in demo workload, run once when the data directory is fresh.
//!
//! It performs a deterministic sequence of single-key writes followed by one multi-key atomic
//! transaction (a conditional transfer-like update guarded by compare-and-swap semantics). After it
//! completes the caller can observe that all keys of the transaction became visible together.

use crate::table;
use crate::table::{Op, OpView};
use vstd::prelude::*;
use vstd::string::*;

verus! {

/// A write of a text under a name.
pub open spec fn text_put(key: Seq<char>, value: Seq<char>) -> OpView {
    OpView::Put { key: vstd::utf8::encode_utf8(key), value: vstd::utf8::encode_utf8(value) }
}

/// A write of a text under a name that must hold another text.
pub open spec fn text_cas(key: Seq<char>, expected: Seq<char>, value: Seq<char>) -> OpView {
    OpView::Cas {
        key: vstd::utf8::encode_utf8(key),
        expected: Some(vstd::utf8::encode_utf8(expected)),
        value: vstd::utf8::encode_utf8(value),
    }
}

/// The transactions of the workload, in order: four single writes, then one transaction that moves
/// 30 from one balance to the other where both still hold what was written.
pub open spec fn workload_txns() -> Seq<Seq<OpView>> {
    seq![
        seq![text_put("user:1:name"@, "alice"@)],
        seq![text_put("user:1:balance"@, "100"@)],
        seq![text_put("user:2:name"@, "bob"@)],
        seq![text_put("user:2:balance"@, "50"@)],
        seq![
            text_cas("user:1:balance"@, "100"@, "70"@),
            text_cas("user:2:balance"@, "50"@, "80"@),
            text_put("ledger:transfer:1"@, "user:1->user:2:30"@),
        ],
    ]
}

/// The views of a sequence of transactions.
pub open spec fn txn_views(v: Seq<Vec<Op>>) -> Seq<Seq<OpView>> {
    v.map_values(|ops: Vec<Op>| table::op_views(ops@))
}

fn put(key: &str, value: &str) -> (r: Op)
    ensures
        r@ == text_put(key@, value@),
{
    Op::Put { key: key.as_bytes_vec(), value: value.as_bytes_vec() }
}

fn cas(key: &str, expected: &str, value: &str) -> (r: Op)
    ensures
        r@ == text_cas(key@, expected@, value@),
{
    Op::Cas {
        key: key.as_bytes_vec(),
        expected: Some(expected.as_bytes_vec()),
        value: value.as_bytes_vec(),
    }
}

fn single(op: Op) -> (r: Vec<Op>)
    ensures
        table::op_views(r@) == seq![op@],
{
    let mut v: Vec<Op> = Vec::new();
    v.push(op);
    assert(table::op_views(v@) =~= seq![op@]);
    v
}

/// The transactions of the workload. They should only be committed on a fresh store (LSN 0, no
/// keys).
pub fn workload() -> (r: Vec<Vec<Op>>)
    ensures
        txn_views(r@) == workload_txns(),
{
    let mut all: Vec<Vec<Op>> = Vec::new();
    all.push(single(put("user:1:name", "alice")));
    all.push(single(put("user:1:balance", "100")));
    all.push(single(put("user:2:name", "bob")));
    all.push(single(put("user:2:balance", "50")));
    let a = cas("user:1:balance", "100", "70");
    let b = cas("user:2:balance", "50", "80");
    let c = put("ledger:transfer:1", "user:1->user:2:30");
    let mut transfer: Vec<Op> = Vec::new();
    transfer.push(a);
    transfer.push(b);
    transfer.push(c);
    assert(table::op_views(transfer@) =~= seq![a@, b@, c@]);
    all.push(transfer);
    assert(txn_views(all@) =~= workload_txns());
    all
}

} // verus!
