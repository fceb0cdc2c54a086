//! What the HTTP interface of the key table promises, in terms of requests and answers.

use crate::api;
use crate::api::{
    AppError, AppFault, CasBody, CommitResponse, EffectPayload, EntryPayload, ErrorBody, OpBody,
    ScanParams, ScanResponse, StatusResponse, TxnBody, TxnResponse, ValueBody, ValueJson, ValuePayload,
};
use crate::engine::Engine;
use crate::error;
use crate::error::StoreError;
use crate::order;
use crate::table;
use crate::table::{Entry, EntryView, Limits, Op, OpEffect, Table, TxnOutcome};
use crate::table_laws;
use crate::text;
use vstd::prelude::*;
use vstd::string::*;

verus! {

// ---------- values ----------

/// The text of the base64 that a body gives, without the white space around it.
pub open spec fn base64_given(body: Option<String>) -> Seq<char> {
    text::trimmed(body->Some_0@)
}

/// A value can be read: there is a text, or base64 that decodes, and not both.
pub open spec fn has_value(v: Option<String>, b64: Option<String>) -> bool {
    ||| v is Some && b64 is None
    ||| v is None && b64 is Some && text::base64_decoded(base64_given(b64)) is Ok
}

/// The bytes of a value that can be read: those of its text, or those that were encoded.
pub open spec fn value_bytes(v: Option<String>, b64: Option<String>) -> Seq<u8> {
    if v is Some {
        vstd::utf8::encode_utf8(v->Some_0@)
    } else {
        text::base64_decoded(base64_given(b64))->Ok_0
    }
}

/// A value is given as text or as base64, and not as both. A text stands for its own bytes: reading
/// them as UTF-8 gives the text back, with nothing cut off or added.
pub proof fn lemma_decode_value(
    v: &Option<String>,
    b64: &Option<String>,
    r: Result<Vec<u8>, AppError>,
)
    requires
        call_ensures(api::decode_value, (v, b64), r),
    ensures
        r is Ok <==> has_value(*v, *b64),
        r is Ok ==> r->Ok_0@ == value_bytes(*v, *b64),
        r is Ok && v is Some ==> vstd::utf8::decode_utf8(r->Ok_0@) == v->Some_0@,
        r is Err ==> r->Err_0@ is BadRequest,
{
    if v is Some {
        vstd::utf8::encode_utf8_decode_utf8(v->Some_0@);
    }
}

/// A text is base64 behind its mark.
pub open spec fn marked_base64(s: Seq<char>) -> bool {
    &&& s.len() >= 7
    &&& s.take(7) == "base64:"@
    &&& text::base64_decoded(s.skip(7)) is Ok
}

/// What a request expects: nothing to be there for null; for a text its own bytes, unless it is
/// base64 behind its mark, which stands for what was encoded.
pub open spec fn expects(expected: Option<Seq<u8>>, v: Option<ValueJson>) -> bool {
    match v {
        Some(ValueJson::String(s)) => {
            &&& expected is Some
            &&& marked_base64(s@) ==> text::base64_decoded(s@.skip(7)) == Ok::<_, Seq<char>>(
                expected->Some_0,
            )
            &&& !marked_base64(s@) ==> expected->Some_0 == vstd::utf8::encode_utf8(s@)
        },
        _ => expected is None,
    }
}

proof fn lemma_expected(v: Option<ValueJson>)
    ensures
        expects(api::expected_value(api::json_option(v)), v),
{
    reveal_strlit("base64:");
    if v is Some && v->Some_0 is String {
        let s = v->Some_0->String_0@;
        if s.len() >= 7 {
            assert(s.take(7) =~= s.subrange(0, 7));
        }
        assert(api::taken_for_base64(s) == marked_base64(s));
    }
}

/// What a request expects a key to have.
pub proof fn lemma_decode_expected(v: &Option<ValueJson>, r: Option<Vec<u8>>)
    requires
        call_ensures(api::decode_expected, (v,), r),
    ensures
        r is Some ==> expects(Some(r->Some_0@), *v),
        r is None ==> expects(None, *v),
{
    lemma_expected(*v);
}

/// A text renders bytes: it is their text where they are UTF-8, else their base64 behind a mark.
pub open spec fn renders(s: Seq<char>, b: Seq<u8>) -> bool {
    if vstd::utf8::valid_utf8(b) {
        vstd::utf8::encode_utf8(s) == b
    } else {
        s == "base64:"@ + text::base64_text(b)
    }
}

proof fn lemma_rendered(b: Seq<u8>)
    ensures
        renders(api::rendered(b), b),
{
    if vstd::utf8::valid_utf8(b) {
        vstd::utf8::decode_utf8_encode_utf8(b);
    }
}

/// How bytes are rendered.
pub proof fn lemma_render_value(b: &[u8], r: String, j: ValueJson)
    requires
        call_ensures(api::render_value, (b,), r),
        call_ensures(api::value_json, (b,), j),
    ensures
        renders(r@, b@),
        j is String,
        renders(j->String_0@, b@),
{
    lemma_rendered(b@);
}

/// A value that was written as text is rendered as the same text.
pub proof fn lemma_text_is_rendered_again(
    v: &Option<String>,
    b64: &Option<String>,
    r: Result<Vec<u8>, AppError>,
    b: &[u8],
    t: String,
)
    requires
        v is Some,
        b64 is None,
        call_ensures(api::decode_value, (v, b64), r),
        r is Ok ==> b@ == r->Ok_0@,
        call_ensures(api::render_value, (b,), t),
    ensures
        r is Ok,
        t@ == v->Some_0@,
{
    vstd::utf8::encode_utf8_valid_utf8(v->Some_0@);
    vstd::utf8::encode_utf8_decode_utf8(v->Some_0@);
}

// ---------- writes ----------

/// A write asks for a put of the value under the key's bytes.
pub proof fn lemma_put_op(key: &str, body: &ValueBody, r: Result<Op, AppError>)
    requires
        call_ensures(api::put_op, (key, body), r),
    ensures
        r is Ok <==> has_value(body.value, body.value_base64),
        r is Ok ==> {
            &&& r->Ok_0 is Put
            &&& table_laws::key_of(r->Ok_0) == vstd::utf8::encode_utf8(key@)
            &&& table_laws::leaves(r->Ok_0) == Some(value_bytes(body.value, body.value_base64))
        },
        r is Err ==> r->Err_0@ is BadRequest,
{
}

/// The expectation of a swap, as bytes.
pub open spec fn expectation(op: Op) -> Option<Seq<u8>> {
    match op {
        Op::Cas { expected: Some(x), .. } => Some(x@),
        _ => None,
    }
}

/// A compare-and-swap asks for a swap of the value under the key's bytes; its expectation must be
/// given, and null expects nothing to be there.
pub proof fn lemma_cas_op(key: &str, body: &CasBody, r: Result<Op, AppError>)
    requires
        call_ensures(api::cas_op, (key, body), r),
    ensures
        r is Ok <==> body.expected is Some && has_value(body.value, body.value_base64),
        r is Ok ==> {
            &&& r->Ok_0 is Cas
            &&& table_laws::key_of(r->Ok_0) == vstd::utf8::encode_utf8(key@)
            &&& table_laws::leaves(r->Ok_0) == Some(value_bytes(body.value, body.value_base64))
            &&& expects(expectation(r->Ok_0), body.expected)
        },
        r is Err ==> r->Err_0@ is BadRequest,
{
    lemma_expected(body.expected);
}

/// An element of a transaction is well-formed: a put with a value, a deletion without one, or a swap
/// with a value and an expectation.
pub open spec fn well_formed(ob: OpBody) -> bool {
    ||| ob.op@ == "put"@ && has_value(ob.value, ob.value_base64)
    ||| ob.op@ == "delete"@ && ob.value is None && ob.value_base64 is None
    ||| ob.op@ == "cas"@ && ob.expected is Some && has_value(ob.value, ob.value_base64)
}

/// An operation is what an element of a transaction asks for.
pub open spec fn asked_for(ob: OpBody, op: Op) -> bool {
    let bytes = value_bytes(ob.value, ob.value_base64);
    &&& table_laws::key_of(op) == vstd::utf8::encode_utf8(ob.key@)
    &&& ob.op@ == "put"@ ==> op is Put && table_laws::leaves(op) == Some(bytes)
    &&& ob.op@ == "delete"@ ==> op is Delete
    &&& ob.op@ == "cas"@ ==> op is Cas && table_laws::leaves(op) == Some(bytes) && expects(
        expectation(op),
        ob.expected,
    )
}

proof fn lemma_asked_op(ob: OpBody, op: Op)
    ensures
        api::asked_op(ob) is Ok <==> well_formed(ob),
        api::asked_op(ob) == Ok::<_, AppFault>(op@) ==> asked_for(ob, op),
        api::asked_op(ob) is Err ==> api::asked_op(ob)->Err_0 is BadRequest,
{
    reveal_strlit("put");
    reveal_strlit("delete");
    reveal_strlit("cas");
    assert("put"@[0] != "cas"@[0]);
    assert("put"@.len() != "delete"@.len());
    assert("cas"@.len() != "delete"@.len());
    lemma_expected(ob.expected);
}

proof fn lemma_asked_ops(obs: Seq<OpBody>)
    ensures
        api::asked_ops(obs) is Ok <==> forall|i: int|
            0 <= i < obs.len() ==> well_formed(#[trigger] obs[i]),
        api::asked_ops(obs) is Ok ==> api::asked_ops(obs)->Ok_0.len() == obs.len() && forall|i: int|
            0 <= i < obs.len() ==> api::asked_op(obs[i]) == Ok::<_, AppFault>(
                #[trigger] api::asked_ops(obs)->Ok_0[i],
            ),
        api::asked_ops(obs) is Err ==> exists|i: int|
            {
                &&& 0 <= i < obs.len()
                &&& !well_formed(#[trigger] obs[i])
                &&& forall|j: int| 0 <= j < i ==> well_formed(#[trigger] obs[j])
                &&& api::asked_op(obs[i]) == Err::<table::OpView, _>(api::asked_ops(obs)->Err_0)
            },
    decreases obs.len(),
{
    if obs.len() > 0 {
        let less = obs.drop_last();
        let n = obs.len() - 1;
        lemma_asked_ops(less);
        lemma_asked_op(obs[n], arbitrary());
        assert forall|i: int| 0 <= i < n implies #[trigger] less[i] == obs[i] by {
        }
        let before = api::asked_ops(less);
        let all = api::asked_ops(obs);
        if all is Ok {
            assert forall|i: int| 0 <= i < obs.len() implies api::asked_op(obs[i]) == Ok::<
                _,
                AppFault,
            >(#[trigger] all->Ok_0[i]) by {
                if i < n {
                    assert(all->Ok_0[i] == before->Ok_0[i]);
                    assert(less[i] == obs[i]);
                }
            }
            assert forall|i: int| 0 <= i < obs.len() implies well_formed(#[trigger] obs[i]) by {
                if i < n {
                    assert(less[i] == obs[i]);
                }
            }
        } else if before is Err {
            let i = choose|i: int|
                {
                    &&& 0 <= i < less.len()
                    &&& !well_formed(#[trigger] less[i])
                    &&& forall|j: int| 0 <= j < i ==> well_formed(#[trigger] less[j])
                    &&& api::asked_op(less[i]) == Err::<table::OpView, _>(before->Err_0)
                };
            assert(less[i] == obs[i]);
            assert forall|j: int| 0 <= j < i implies well_formed(#[trigger] obs[j]) by {
                assert(less[j] == obs[j]);
            }
        } else {
            assert(!well_formed(obs[n]));
            assert forall|j: int| 0 <= j < n implies well_formed(#[trigger] obs[j]) by {
                assert(less[j] == obs[j]);
            }
        }
    }
}

/// A transaction asks for one operation for each element, in their order, where every element is
/// well-formed; otherwise it is refused for the first that is not, as a transaction of that element
/// alone would be.
pub proof fn lemma_txn_ops(
    body: &TxnBody,
    r: Result<Vec<Op>, AppError>,
    one: &TxnBody,
    alone: Result<Vec<Op>, AppError>,
)
    requires
        call_ensures(api::txn_ops, (body,), r),
        call_ensures(api::txn_ops, (one,), alone),
        one.ops@.len() == 1,
    ensures
        r is Ok <==> forall|i: int|
            0 <= i < body.ops@.len() ==> well_formed(#[trigger] body.ops@[i]),
        r is Ok ==> {
            &&& r->Ok_0@.len() == body.ops@.len()
            &&& forall|i: int|
                0 <= i < body.ops@.len() ==> asked_for(body.ops@[i], #[trigger] r->Ok_0@[i])
        },
        r is Err ==> r->Err_0@ is BadRequest,
        forall|i: int|
            {
                &&& 0 <= i < body.ops@.len()
                &&& !well_formed(#[trigger] body.ops@[i])
                &&& forall|j: int| 0 <= j < i ==> well_formed(#[trigger] body.ops@[j])
                &&& one.ops@[0] == body.ops@[i]
            } ==> alone is Err && r is Err && r->Err_0@ == alone->Err_0@,
{
    lemma_asked_ops(body.ops@);
    lemma_asked_ops(one.ops@);
    if r is Ok {
        let ops = r->Ok_0@;
        let views = table::op_views(ops);
        assert(views.len() == ops.len());
        assert forall|i: int| 0 <= i < ops.len() implies asked_for(
            body.ops@[i],
            #[trigger] ops[i],
        ) by {
            assert(views[i] == ops[i]@);
            assert(api::asked_ops(body.ops@)->Ok_0[i] == views[i]);
            lemma_asked_op(body.ops@[i], ops[i]);
        }
    } else {
        let i = choose|i: int|
            {
                &&& 0 <= i < body.ops@.len()
                &&& !well_formed(#[trigger] body.ops@[i])
                &&& forall|j: int| 0 <= j < i ==> well_formed(#[trigger] body.ops@[j])
                &&& api::asked_op(body.ops@[i]) == Err::<table::OpView, _>(
                    api::asked_ops(body.ops@)->Err_0,
                )
            };
        lemma_asked_op(body.ops@[i], arbitrary());
        assert forall|x: int|
            {
                &&& 0 <= x < body.ops@.len()
                &&& !well_formed(#[trigger] body.ops@[x])
                &&& forall|j: int| 0 <= j < x ==> well_formed(#[trigger] body.ops@[j])
                &&& one.ops@[0] == body.ops@[x]
            } implies alone is Err && r is Err && r->Err_0@ == alone->Err_0@ by {
            if i < x {
                assert(well_formed(body.ops@[i]));
            } else if x < i {
                assert(well_formed(body.ops@[x]));
            }
            assert(!well_formed(one.ops@[0]));
        }
    }
}

/// The answer to a transaction reports every effect, in order: the kind, the key, the version that
/// was written, and whether something was there.
pub proof fn lemma_txn_response(out: &TxnOutcome, r: TxnResponse)
    requires
        call_ensures(api::txn_response, (out,), r),
    ensures
        r.lsn == out.lsn,
        r.effects@.len() == out.effects@.len(),
        forall|i: int|
            0 <= i < out.effects@.len() ==> tells(out.effects@[i], #[trigger] r.effects@[i]),
{
}

/// A report tells of an effect.
pub open spec fn tells(e: OpEffect, p: EffectPayload) -> bool {
    match e {
        OpEffect::Put { key, version, replaced } => {
            &&& p.op@ == "put"@
            &&& p.key@ == error::lossy(key@)
            &&& p.version == Some(version)
            &&& p.changed
            &&& p.replaced == replaced
        },
        OpEffect::Delete { key, existed } => {
            &&& p.op@ == "delete"@
            &&& p.key@ == error::lossy(key@)
            &&& p.version is None
            &&& p.changed == existed
            &&& !p.replaced
        },
        OpEffect::Cas { key, version, replaced } => {
            &&& p.op@ == "cas"@
            &&& p.key@ == error::lossy(key@)
            &&& p.version == Some(version)
            &&& p.changed
            &&& p.replaced == replaced
        },
    }
}

/// The answer to a single operation: its LSN, the version that it wrote (the LSN for a deletion), and
/// whether the key was there before.
pub proof fn lemma_commit_response(out: &TxnOutcome, r: CommitResponse)
    requires
        out.effects@.len() > 0,
        call_ensures(api::commit_response, (out,), r),
    ensures
        r.lsn == out.lsn,
        match out.effects@[0] {
            OpEffect::Put { version, replaced, .. } => r.version == version && r.changed
                == replaced,
            OpEffect::Delete { existed, .. } => r.version == out.lsn && r.changed == existed,
            OpEffect::Cas { version, replaced, .. } => r.version == version && r.changed
                == replaced,
        },
{
}

// ---------- reads ----------

/// The answer to a read over HTTP is what the table gives for the bytes of the key; an error of the
/// table is passed on.
pub proof fn lemma_get_key(
    t: &Table,
    limits: &Limits,
    key: &str,
    k: &[u8],
    r: Result<ValuePayload, AppError>,
    got: Result<(Option<Entry>, u64), StoreError>,
)
    requires
        k@ == vstd::utf8::encode_utf8(key@),
        call_ensures(api::get_key, (t, limits, key), r),
        call_ensures(Table::get, (t, limits, k), got),
    ensures
        got is Err ==> r is Err && r->Err_0@ == AppFault::Store(got->Err_0@),
        got is Ok ==> {
            let p = r->Ok_0;
            let (e, lsn) = got->Ok_0;
            &&& r is Ok
            &&& p.key@ == key@
            &&& p.read_lsn == lsn
            &&& p.found <==> e is Some
            &&& e is Some ==> {
                &&& p.value is String
                &&& renders(p.value->String_0@, e->Some_0.value@)
                &&& p.version == Some(e->Some_0.version)
            }
            &&& e is None ==> p.value is Null && p.version is None
        },
{
    if got is Ok && got->Ok_0.0 is Some {
        lemma_rendered(got->Ok_0.0->Some_0.value@);
    }
}

/// A key is asked for by the parameters of a scan: it starts with the prefix; or it is not before
/// the start, and behind it where the start is excluded, and, where there is an end, before the
/// end, or the end itself where the end is included. Without an end there is no upper end.
pub open spec fn asks_for(p: ScanParams, k: Seq<u8>) -> bool {
    match (p.prefix, p.start) {
        (Some(prefix), _) => {
            let b = vstd::utf8::encode_utf8(prefix@);
            k.len() >= b.len() && k.take(b.len() as int) == b
        },
        (None, Some(start)) => {
            let a = vstd::utf8::encode_utf8(start@);
            &&& k == a || order::key_lt(a, k)
            &&& p.start_exclusive ==> k != a
            &&& p.end is Some ==> {
                let b = vstd::utf8::encode_utf8(p.end->Some_0@);
                order::key_lt(k, b) || (p.end_inclusive && k == b)
            }
        },
        (None, None) => false,
    }
}

/// The parameters of a scan can be used: there is a prefix or a start, and not both, and the limit is
/// not zero.
pub open spec fn usable(p: ScanParams) -> bool {
    &&& p.limit != Some(0usize)
    &&& p.prefix is Some <==> p.start is None
}

/// Which keys a scan looks at: exactly those that its parameters ask for.
pub proof fn lemma_scan_keys(p: ScanParams, keys: Set<Seq<u8>>)
    ensures
        api::scan_keys(p, keys) is Ok <==> usable(p),
        usable(p) ==> forall|k: Seq<u8>| #[trigger]
            api::scan_keys(p, keys)->Ok_0.contains(k) <==> keys.contains(k) && asks_for(p, k),
        !usable(p) ==> api::scan_keys(p, keys)->Err_0 is BadRequest,
{
    if usable(p) {
        let set = api::scan_keys(p, keys)->Ok_0;
        assert forall|k: Seq<u8>| #[trigger] set.contains(k) <==> keys.contains(k) && asks_for(
            p,
            k,
        ) by {
            if p.prefix is Some {
                let b = vstd::utf8::encode_utf8(p.prefix->Some_0@);
                if k.len() >= b.len() {
                    assert(k.take(b.len() as int) =~= k.subrange(0, b.len() as int));
                }
            } else {
                order::lemma_lt_irreflexive(k);
            }
        }
    }
}

/// The most entries of a scan: a thousand without a limit, and never more than a hundred thousand.
pub open spec fn most(limit: Option<usize>) -> nat {
    match limit {
        None => 1000,
        Some(n) => if n <= 100_000 {
            n as nat
        } else {
            100_000
        },
    }
}

/// A listed entry shows an entry of the table.
pub open spec fn lists(p: EntryPayload, e: (Seq<u8>, EntryView)) -> bool {
    &&& p.key@ == error::lossy(e.0)
    &&& p.value is String
    &&& renders(p.value->String_0@, e.1.value)
    &&& p.version == e.1.version
}

/// Listed entries show a scan of the keys that the parameters ask for, entry for entry.
pub open spec fn answers_scan(
    entries: Seq<EntryPayload>,
    m: table::Entries,
    p: ScanParams,
    out: Seq<(Seq<u8>, EntryView)>,
) -> bool {
    &&& table_laws::scan_of(m, |k: Seq<u8>| asks_for(p, k), most(p.limit), out)
    &&& out.len() == entries.len()
    &&& forall|i: int| 0 <= i < out.len() ==> lists(#[trigger] entries[i], out[i])
}

/// A scan over HTTP shows the entries of the keys asked for, in the order of the keys, up to its
/// limit, at the last position; parameters that cannot be used are refused.
pub proof fn lemma_scan(t: &Table, p: &ScanParams, r: Result<ScanResponse, AppError>)
    requires
        t.wf(),
        call_ensures(api::scan, (t, p), r),
    ensures
        r is Ok <==> usable(*p),
        r is Err ==> r->Err_0@ is BadRequest,
        r is Ok ==> {
            let s = r->Ok_0;
            &&& s.read_lsn == t@.lsn
            &&& s.count == s.entries@.len()
            &&& exists|out: Seq<(Seq<u8>, EntryView)>| #[trigger]
                answers_scan(s.entries@, t@.entries, *p, out)
        },
{
    t.lemma_wf();
    let m = t@.entries;
    lemma_scan_keys(*p, m.dom());
    if r is Ok {
        let set = api::scan_keys(*p, m.dom())->Ok_0;
        let asked = |k: Seq<u8>| asks_for(*p, k);
        let s = r->Ok_0;
        let limit = most(p.limit);
        assert(limit == api::scan_limit(*p));
        table_laws::lemma_first_entries(m, set, asked, limit);
        let out = table::first_entries(m, set, limit);
        assert(api::payload_views(s.entries@).len() == s.entries@.len());
        assert forall|i: int| 0 <= i < out.len() implies lists(#[trigger] s.entries@[i], out[i]) by {
            assert(api::payload_views(s.entries@)[i] == s.entries@[i]@);
            assert(s.entries@[i]@ == api::listed(out[i]));
            lemma_rendered(out[i].1.value);
        }
        assert(answers_scan(s.entries@, m, *p, out));
    }
}

/// The status gives the counts, positions and limits of the store as they are.
pub proof fn lemma_status(e: &Engine, r: StatusResponse, count: usize)
    requires
        call_ensures(api::status_response, (e,), r),
        call_ensures(Table::key_count, (&e.table,), count),
    ensures
        r.key_count == count,
        r.lsn == e.table@.lsn,
        r.snapshot_lsn == e.table@.snapshot_lsn,
        r.wal_total_bytes == e.wal@.total_bytes,
        r.wal_active_segment == e.wal@.active_index,
        r.compacting == e.compacting,
        r.limits.max_key_bytes == e.limits.max_key_bytes,
        r.limits.max_value_bytes == e.limits.max_value_bytes,
        r.limits.max_ops_per_txn == e.limits.max_ops_per_txn,
{
}

// ---------- errors ----------

/// What an error of the interface is answered: 400 for what is wrong with the request, 409 for a
/// conflict or a compaction that is running already, and 500 for what is wrong with the store.
pub proof fn lemma_error_status(e: &AppError, status: u16, r: (u16, ErrorBody))
    requires
        call_ensures(AppError::status, (e,), status),
        call_ensures(AppError::into_response, (e,), r),
    ensures
        r.0 == status,
        status == 400 || status == 409 || status == 500,
        e is BadRequest ==> status == 400 && r.1.error.message@ == e->BadRequest_0@,
        e is Store ==> {
            let s = e->Store_0;
            &&& status == 409 <==> s is CasConflict || s is CompactionInProgress
            &&& status == 500 <==> s is Corruption || s is Io
        },
        e is Store && e->Store_0 is CasConflict ==> {
            let s = e->Store_0;
            let d = r.1.error;
            &&& d.key is Some
            &&& d.key->Some_0@ == error::lossy(s->CasConflict_key@)
            &&& d.expected is Some && d.actual is Some
            &&& s->expected is Some <==> d.expected->Some_0 is String
            &&& s->expected is Some ==> renders(
                d.expected->Some_0->String_0@,
                s->expected->Some_0@,
            )
            &&& s->actual is Some <==> d.actual->Some_0 is String
            &&& s->actual is Some ==> renders(d.actual->Some_0->String_0@, s->actual->Some_0@)
        },
        !(e is Store && e->Store_0 is CasConflict) ==> r.1.error.key is None
            && r.1.error.expected is None && r.1.error.actual is None,
{
    if e is Store && e->Store_0 is CasConflict {
        let s = e->Store_0;
        let d = r.1.error;
        assert(d@.key is Some);
        assert(d@.expected is Some);
        assert(d@.actual is Some);
        if s->expected is Some {
            lemma_rendered(s->expected->Some_0@);
        }
        if s->actual is Some {
            lemma_rendered(s->actual->Some_0@);
        }
    } else {
        assert(r.1.error@.key is None);
        assert(r.1.error@.expected is None);
        assert(r.1.error@.actual is None);
    }
}

} // verus!
