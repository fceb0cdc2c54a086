//! What the HTTP interface of the versioned store promises, in terms of requests and answers.

use crate::error::{KvError, KvFault};
use crate::order;
use crate::server;
use crate::server::{
    BytesField, BytesOut, CasReq, EntryOut, GetResp, PutReq, RangePlan, RangeReq, ScanResp,
    TxnOpReq, TxnReq,
};
use crate::store;
use crate::store::{Got, KvEntry, Store, WalOp};
use crate::text;
use vstd::prelude::*;
use vstd::string::*;

verus! {

// ---------- bytes ----------

/// A field can be read: it is a text, or base64 that decodes.
pub open spec fn readable(f: BytesField) -> bool {
    match f {
        BytesField::Str(_) => true,
        BytesField::B64 { base64 } => text::base64_decoded(base64@) is Ok,
    }
}

/// The bytes that a readable field stands for: those of its text, or those that were encoded.
pub open spec fn bytes_of(f: BytesField) -> Seq<u8> {
    match f {
        BytesField::Str(s) => vstd::utf8::encode_utf8(s@),
        BytesField::B64 { base64 } => text::base64_decoded(base64@)->Ok_0,
    }
}

proof fn lemma_field(f: BytesField, field: Seq<char>)
    ensures
        server::field_bytes(f, field) is Ok <==> readable(f),
        readable(f) ==> server::field_bytes(f, field) == Ok::<_, KvFault>(bytes_of(f)),
        !readable(f) ==> server::field_bytes(f, field) is Err && server::field_bytes(
            f,
            field,
        )->Err_0 is InvalidBase64 && server::field_bytes(f, field)->Err_0->InvalidBase64_field
            == field,
{
}

/// A text stands for its own bytes: reading them as UTF-8 gives the text back, with nothing cut off
/// or added.
pub proof fn lemma_text_field(f: &BytesField, s: String, field: &str, r: Result<Vec<u8>, KvError>)
    requires
        call_ensures(BytesField::into_bytes, (f, field), r),
        *f == BytesField::Str(s),
    ensures
        r is Ok,
        vstd::utf8::valid_utf8(r->Ok_0@),
        vstd::utf8::decode_utf8(r->Ok_0@) == s@,
{
    vstd::utf8::encode_utf8_valid_utf8(s@);
    vstd::utf8::encode_utf8_decode_utf8(s@);
}

/// Different texts stand for different bytes.
pub proof fn lemma_texts_differ(
    f: &BytesField,
    g: &BytesField,
    field: &str,
    a: Result<Vec<u8>, KvError>,
    b: Result<Vec<u8>, KvError>,
)
    requires
        call_ensures(BytesField::into_bytes, (f, field), a),
        call_ensures(BytesField::into_bytes, (g, field), b),
        f is Str,
        g is Str,
        f->Str_0@ != g->Str_0@,
    ensures
        a is Ok,
        b is Ok,
        a->Ok_0@ != b->Ok_0@,
{
    lemma_text_field(f, f->Str_0, field, a);
    lemma_text_field(g, g->Str_0, field, b);
}

/// A field with base64 is read exactly where its text decodes, as what it decodes to; otherwise the
/// error names the field.
pub proof fn lemma_base64_field(f: &BytesField, field: &str, r: Result<Vec<u8>, KvError>)
    requires
        call_ensures(BytesField::into_bytes, (f, field), r),
        f is B64,
    ensures
        match text::base64_decoded(f->base64@) {
            Ok(bytes) => r is Ok && r->Ok_0@ == bytes,
            Err(message) => r is Err && r->Err_0@ == (KvFault::InvalidBase64 {
                field: field@,
                message,
            }),
        },
{
}

/// An answer shows these bytes: their text exactly where they are UTF-8, their base64 and their
/// number.
pub open spec fn shows(o: BytesOut, b: Seq<u8>) -> bool {
    &&& o.text is Some <==> vstd::utf8::valid_utf8(b)
    &&& o.text is Some ==> vstd::utf8::encode_utf8(o.text->Some_0@) == b
    &&& o.base64@ == text::base64_text(b)
    &&& o.bytes_len == b.len()
}

proof fn lemma_shown(o: BytesOut, b: Seq<u8>)
    requires
        o@ == server::shown(b),
    ensures
        shows(o, b),
{
    if vstd::utf8::valid_utf8(b) {
        vstd::utf8::decode_utf8_encode_utf8(b);
    }
}

/// What is shown of bytes stands for them: a field with the text, or with the base64, is read as
/// the same bytes again.
pub proof fn lemma_bytes_out(
    b: &[u8],
    o: BytesOut,
    f: &BytesField,
    field: &str,
    r: Result<Vec<u8>, KvError>,
)
    requires
        call_ensures(server::bytes_out, (b,), o),
        call_ensures(BytesField::into_bytes, (f, field), r),
    ensures
        shows(o, b@),
        f is Str && o.text is Some && f->Str_0@ == o.text->Some_0@ ==> r is Ok && r->Ok_0@ == b@,
        f is B64 && f->base64@ == o.base64@ ==> r is Ok && r->Ok_0@ == b@,
{
    lemma_shown(o, b@);
}

/// A value that was written as text is shown with the same text.
pub proof fn lemma_text_is_shown_again(
    f: &BytesField,
    field: &str,
    r: Result<Vec<u8>, KvError>,
    b: &[u8],
    o: BytesOut,
)
    requires
        call_ensures(BytesField::into_bytes, (f, field), r),
        f is Str,
        r is Ok ==> b@ == r->Ok_0@,
        call_ensures(server::bytes_out, (b,), o),
    ensures
        r is Ok,
        o.text is Some,
        o.text->Some_0@ == f->Str_0@,
{
    lemma_text_field(f, f->Str_0, field, r);
    lemma_shown(o, b@);
    vstd::utf8::encode_utf8_decode_utf8(o.text->Some_0@);
}

// ---------- writes ----------

/// One operation, on the key that the path names.
pub open spec fn single_op(ops: Seq<(Vec<u8>, WalOp)>, key: Seq<char>) -> bool {
    &&& ops.len() == 1
    &&& ops[0].0@ == vstd::utf8::encode_utf8(key)
}

proof fn lemma_first_view(ops: Seq<(Vec<u8>, WalOp)>)
    requires
        store::op_views(ops).len() > 0,
    ensures
        ops.len() == store::op_views(ops).len(),
        store::op_views(ops)[0] == (ops[0].0@, ops[0].1@),
{
}

/// A write asks for one put of the value's bytes under the key's bytes.
pub proof fn lemma_put_key(key: &str, req: &PutReq, r: Result<Vec<(Vec<u8>, WalOp)>, KvError>)
    requires
        call_ensures(server::put_key, (key, req), r),
    ensures
        r is Ok <==> readable(req.value),
        r is Ok ==> {
            let ops = r->Ok_0@;
            &&& single_op(ops, key@)
            &&& ops[0].1 is Put
            &&& ops[0].1->Put_0@ == bytes_of(req.value)
        },
        r is Err ==> r->Err_0@ is InvalidBase64 && r->Err_0@->InvalidBase64_field == "value"@,
{
    lemma_field(req.value, "value"@);
    if r is Ok {
        lemma_first_view(r->Ok_0@);
    }
}

/// A deletion asks for one delete of the key's bytes.
pub proof fn lemma_delete_key(key: &str, r: Vec<(Vec<u8>, WalOp)>)
    requires
        call_ensures(server::delete_key, (key,), r),
    ensures
        single_op(r@, key@),
        r@[0].1 is Delete,
{
    lemma_first_view(r@);
}

/// An expectation can be read: there is none, or its field is readable.
pub open spec fn readable_option(f: Option<BytesField>) -> bool {
    f is Some ==> readable(f->Some_0)
}

/// An expectation stands for no value where there is none, else for the bytes of its field.
pub open spec fn expects(expected: Option<Vec<u8>>, f: Option<BytesField>) -> bool {
    match (expected, f) {
        (Some(x), Some(f)) => x@ == bytes_of(f),
        (None, None) => true,
        _ => false,
    }
}

proof fn lemma_optional(f: Option<BytesField>, field: Seq<char>, expected: Option<Vec<u8>>)
    ensures
        server::optional_bytes(f, field) is Ok <==> readable_option(f),
        server::optional_bytes(f, field) == Ok::<_, KvFault>(
            crate::error::bytes_option(expected),
        ) ==> expects(expected, f),
        server::optional_bytes(f, field) is Err ==> server::optional_bytes(
            f,
            field,
        )->Err_0 is InvalidBase64 && server::optional_bytes(
            f,
            field,
        )->Err_0->InvalidBase64_field == field,
{
    if f is Some {
        lemma_field(f->Some_0, field);
    }
}

/// A compare-and-swap asks for one swap: from no value where nothing is expected, else from the
/// bytes expected, to the bytes of the value.
pub proof fn lemma_cas_key(key: &str, req: &CasReq, r: Result<Vec<(Vec<u8>, WalOp)>, KvError>)
    requires
        call_ensures(server::cas_key, (key, req), r),
    ensures
        r is Ok <==> readable(req.value) && readable_option(req.expected),
        r is Ok ==> {
            let ops = r->Ok_0@;
            &&& single_op(ops, key@)
            &&& ops[0].1 is Cas
            &&& ops[0].1->value@ == bytes_of(req.value)
            &&& expects(ops[0].1->expected, req.expected)
        },
        r is Err ==> r->Err_0@ is InvalidBase64 && r->Err_0@->InvalidBase64_field == if readable(
            req.value,
        ) {
            "expected"@
        } else {
            "value"@
        },
{
    lemma_field(req.value, "value"@);
    if r is Ok {
        lemma_first_view(r->Ok_0@);
        lemma_optional(req.expected, "expected"@, r->Ok_0@[0].1->expected);
    } else {
        lemma_optional(req.expected, "expected"@, None);
    }
}

/// The expectation of an element of a transaction; one that is left out expects nothing to be there.
pub open spec fn element_expects(req: TxnOpReq) -> Option<BytesField> {
    match req.expected {
        Some(f) => f,
        None => None,
    }
}

/// An element of a transaction is well-formed: it is a put or a swap with a value, or a deletion,
/// and its fields are readable.
pub open spec fn well_formed(req: TxnOpReq) -> bool {
    let has_value = req.value is Some && readable(req.value->Some_0);
    &&& readable(req.key)
    &&& {
        ||| req.op@ == "put"@ && has_value
        ||| req.op@ == "delete"@
        ||| req.op@ == "cas"@ && has_value && readable_option(element_expects(req))
    }
}

/// An operation is what an element of a transaction asks for.
pub open spec fn asked_for(req: TxnOpReq, op: (Vec<u8>, WalOp)) -> bool {
    &&& op.0@ == bytes_of(req.key)
    &&& req.op@ == "put"@ ==> op.1 is Put && op.1->Put_0@ == bytes_of(req.value->Some_0)
    &&& req.op@ == "delete"@ ==> op.1 is Delete
    &&& req.op@ == "cas"@ ==> op.1 is Cas && op.1->value@ == bytes_of(req.value->Some_0) && expects(
        op.1->expected,
        element_expects(req),
    )
}

/// An error speaks of the `i`-th element: by its index, or by the field of it that is no base64.
pub open spec fn speaks_of(f: KvFault, i: int) -> bool {
    let name = "ops["@ + text::decimal(i as nat) + "]"@;
    match f {
        KvFault::InvalidRequest(m) => name.is_prefix_of(m),
        KvFault::InvalidBase64 { field, .. } => name.is_prefix_of(field),
        _ => false,
    }
}

proof fn lemma_kinds_differ()
    ensures
        "put"@ != "delete"@,
        "put"@ != "cas"@,
        "delete"@ != "cas"@,
{
    reveal_strlit("put");
    reveal_strlit("delete");
    reveal_strlit("cas");
    assert("put"@[0] != "cas"@[0]);
    assert("put"@.len() != "delete"@.len());
    assert("cas"@.len() != "delete"@.len());
}

proof fn lemma_prefix(a: Seq<char>, b: Seq<char>)
    ensures
        a.is_prefix_of(a + b),
{
    assert(a =~= (a + b).subrange(0, a.len() as int));
}

proof fn lemma_asked_op(req: TxnOpReq, i: int, op: (Vec<u8>, WalOp))
    requires
        0 <= i,
    ensures
        server::asked_op(req, i as nat) is Ok <==> well_formed(req),
        server::asked_op(req, i as nat) == Ok::<_, KvFault>((op.0@, op.1@)) ==> asked_for(req, op),
        server::asked_op(req, i as nat) is Err ==> speaks_of(
            server::asked_op(req, i as nat)->Err_0,
            i,
        ),
{
    lemma_kinds_differ();
    let name = server::op_name(i as nat);
    assert(name =~= "ops["@ + text::decimal(i as nat) + "]"@);
    lemma_field(req.key, name + ".key"@);
    lemma_prefix(name, ".key"@);
    lemma_prefix(name, ".value"@);
    lemma_prefix(name, ".expected"@);
    lemma_prefix(name, ": put requires value"@);
    lemma_prefix(name, ": cas requires value"@);
    lemma_prefix(
        name,
        ": unknown operation type "@ + text::quoted(req.op@) + ", expected put|delete|cas"@,
    );
    assert(name + (": unknown operation type "@ + text::quoted(req.op@)
        + ", expected put|delete|cas"@) =~= name + ": unknown operation type "@ + text::quoted(
        req.op@,
    ) + ", expected put|delete|cas"@);
    if req.value is Some {
        lemma_field(req.value->Some_0, name + ".value"@);
    }
    lemma_optional(
        element_expects(req),
        name + ".expected"@,
        if op.1 is Cas {
            op.1->expected
        } else {
            None
        },
    );
}

proof fn lemma_asked_ops(reqs: Seq<TxnOpReq>, n: int)
    requires
        0 <= n <= reqs.len(),
    ensures
        server::asked_ops(reqs, n) is Ok <==> forall|i: int|
            0 <= i < n ==> well_formed(#[trigger] reqs[i]),
        server::asked_ops(reqs, n) is Ok ==> server::asked_ops(reqs, n)->Ok_0.len() == n
            && forall|i: int|
            0 <= i < n ==> server::asked_op(reqs[i], i as nat) == Ok::<_, KvFault>(
                #[trigger] server::asked_ops(reqs, n)->Ok_0[i],
            ),
        server::asked_ops(reqs, n) is Err ==> exists|i: int|
            {
                &&& 0 <= i < n
                &&& !well_formed(#[trigger] reqs[i])
                &&& forall|j: int| 0 <= j < i ==> well_formed(#[trigger] reqs[j])
                &&& speaks_of(server::asked_ops(reqs, n)->Err_0, i)
            },
    decreases n,
{
    if n > 0 {
        lemma_asked_ops(reqs, n - 1);
        lemma_asked_op(reqs[n - 1], n - 1, arbitrary());
        let before = server::asked_ops(reqs, n - 1);
        let all = server::asked_ops(reqs, n);
        if all is Ok {
            assert forall|i: int| 0 <= i < n implies server::asked_op(reqs[i], i as nat) == Ok::<
                _,
                KvFault,
            >(#[trigger] all->Ok_0[i]) by {
                if i < n - 1 {
                    assert(all->Ok_0[i] == before->Ok_0[i]);
                }
            }
        }
    }
}

/// A transaction asks for one operation for each element, in their order, where every element is
/// well-formed; otherwise the error speaks of the first that is not.
pub proof fn lemma_txn(req: &TxnReq, r: Result<Vec<(Vec<u8>, WalOp)>, KvError>)
    requires
        call_ensures(server::txn, (req,), r),
    ensures
        r is Ok <==> forall|i: int| 0 <= i < req.ops@.len() ==> well_formed(#[trigger] req.ops@[i]),
        r is Ok ==> {
            &&& r->Ok_0@.len() == req.ops@.len()
            &&& forall|i: int|
                0 <= i < req.ops@.len() ==> asked_for(req.ops@[i], #[trigger] r->Ok_0@[i])
        },
        r is Err ==> exists|i: int|
            {
                &&& 0 <= i < req.ops@.len()
                &&& !well_formed(#[trigger] req.ops@[i])
                &&& forall|j: int| 0 <= j < i ==> well_formed(#[trigger] req.ops@[j])
                &&& speaks_of(r->Err_0@, i)
            },
{
    let n = req.ops@.len() as int;
    lemma_asked_ops(req.ops@, n);
    if r is Ok {
        let ops = r->Ok_0@;
        let views = store::op_views(ops);
        assert(views.len() == ops.len());
        assert forall|i: int| 0 <= i < n implies asked_for(req.ops@[i], #[trigger] ops[i]) by {
            assert(views[i] == (ops[i].0@, ops[i].1@));
            assert(server::asked_ops(req.ops@, n)->Ok_0[i] == views[i]);
            lemma_asked_op(req.ops@[i], i, ops[i]);
        }
    }
}

// ---------- reads ----------

/// A position is what its text says as a number; without a text there is none, and a text that is no
/// number is refused.
pub proof fn lemma_parse_lsn(
    raw: Option<&str>,
    r: Result<Option<u64>, KvError>,
    bytes: &[u8],
    n: Option<u64>,
)
    requires
        call_ensures(server::parse_lsn, (raw,), r),
        raw is Some ==> bytes@ == vstd::utf8::encode_utf8(raw->Some_0@),
        call_ensures(text::read_unsigned, (bytes,), n),
    ensures
        raw is None ==> r is Ok && r->Ok_0 is None,
        raw is Some && n is Some ==> r is Ok && r->Ok_0 == n,
        raw is Some && n is None ==> r is Err && r->Err_0@ is InvalidRequest,
{
}

/// The answer to a read over HTTP is what the store gives: the key of the path is looked up at the
/// position that the query gives, and what was read is shown; an error of the store is passed on.
pub proof fn lemma_get_key(
    s: &Store,
    key: &str,
    raw: Option<&str>,
    r: Result<GetResp, KvError>,
    at: Result<Option<u64>, KvError>,
    k: &[u8],
    got: Result<Got, KvError>,
)
    requires
        call_ensures(server::get_key, (s, key, raw), r),
        call_ensures(server::parse_lsn, (raw,), at),
        k@ == vstd::utf8::encode_utf8(key@),
        at is Ok ==> call_ensures(Store::get_at, (s, k, at->Ok_0), got),
    ensures
        at is Err ==> r is Err && r->Err_0@ == at->Err_0@,
        at is Ok && got is Err ==> r is Err && r->Err_0@ == got->Err_0@,
        at is Ok && got is Ok ==> {
            &&& r is Ok
            &&& shows(r->Ok_0.key, k@)
            &&& shows(r->Ok_0.value, got->Ok_0.value@)
            &&& r->Ok_0.version == got->Ok_0.version
            &&& r->Ok_0.read_lsn == got->Ok_0.read_lsn
        },
{
    if at is Ok && got is Ok {
        lemma_shown(r->Ok_0.key, k@);
        lemma_shown(r->Ok_0.value, got->Ok_0.value@);
    }
}

/// An entry of an answer shows an entry of a scan.
pub open spec fn entry_shows(o: EntryOut, e: KvEntry) -> bool {
    &&& shows(o.key, e.key@)
    &&& shows(o.value, e.value@)
    &&& o.version == e.version
}

/// An answer shows all entries of a scan, in their order, with their number and the position.
pub open spec fn scan_shows(r: ScanResp, found: Seq<KvEntry>, at: u64) -> bool {
    &&& r.read_lsn == at
    &&& r.count == found.len()
    &&& r.entries@.len() == found.len()
    &&& forall|i: int| 0 <= i < found.len() ==> entry_shows(#[trigger] r.entries@[i], found[i])
}

proof fn lemma_answers(r: ScanResp, found: Seq<KvEntry>, at: u64)
    requires
        server::answers(r, store::scan_views(found), at),
    ensures
        scan_shows(r, found, at),
{
    let views = store::scan_views(found);
    assert(views.len() == found.len());
    assert forall|i: int| 0 <= i < found.len() implies entry_shows(
        #[trigger] r.entries@[i],
        found[i],
    ) by {
        assert(views[i] == found[i]@);
        assert(r.entries@[i]@ == server::entry_shown(views[i]));
        lemma_shown(r.entries@[i].key, found[i].key@);
        lemma_shown(r.entries@[i].value, found[i].value@);
    }
}

/// The answer to a scan shows what the scan found.
pub proof fn lemma_scan_resp(found: &Vec<KvEntry>, at: u64, r: ScanResp)
    requires
        call_ensures(server::scan_resp, (found, at), r),
    ensures
        scan_shows(r, found@, at),
{
    lemma_answers(r, found@, at);
}

/// A range query looks at the keys with its prefix where it has one, else at the keys between its
/// ends; each end that is left out is open. All its fields must be readable.
pub proof fn lemma_range_plan(req: &RangeReq, r: Result<RangePlan, KvError>)
    requires
        call_ensures(server::range_plan, (req,), r),
    ensures
        r is Ok <==> readable_option(req.start) && readable_option(req.end) && readable_option(
            req.prefix,
        ),
        r is Ok && req.prefix is Some ==> r->Ok_0 is Prefix && r->Ok_0->Prefix_0@ == bytes_of(
            req.prefix->Some_0,
        ),
        r is Ok && req.prefix is None ==> r->Ok_0 is Span && expects(r->Ok_0->start, req.start)
            && expects(r->Ok_0->end, req.end),
        r is Err ==> r->Err_0@ is InvalidBase64 && r->Err_0@->InvalidBase64_field
            == if !readable_option(req.start) {
            "start"@
        } else if !readable_option(req.end) {
            "end"@
        } else {
            "prefix"@
        },
{
    let (start, end) = if r is Ok && r->Ok_0 is Span {
        (r->Ok_0->start, r->Ok_0->end)
    } else {
        (None, None)
    };
    lemma_optional(req.start, "start"@, start);
    lemma_optional(req.end, "end"@, end);
    if req.prefix is Some {
        lemma_field(req.prefix->Some_0, "prefix"@);
    }
}

/// The ends of a plan cross exactly where it has both and the end comes before the start.
pub proof fn lemma_plan_in_order(plan: &RangePlan, r: bool)
    requires
        call_ensures(RangePlan::in_order, (plan,), r),
    ensures
        plan is Prefix ==> r,
        plan is Span && (plan->start is None || plan->end is None) ==> r,
        plan is Span && plan->start is Some && plan->end is Some ==> (r <==> !order::key_lt(
            plan->end->Some_0@,
            plan->start->Some_0@,
        )),
{
    if plan is Span && plan->start is Some && plan->end is Some {
        let a = plan->start->Some_0@;
        let b = plan->end->Some_0@;
        order::lemma_lt_total(a, b);
        order::lemma_lt_irreflexive(a);
        if order::key_lt(a, b) {
            order::lemma_lt_asymmetric(a, b);
        }
    }
}

/// A range query with a prefix shows what the prefix scan of the store finds.
pub proof fn lemma_prefix_plan(
    s: &Store,
    plan: &RangePlan,
    p: &[u8],
    limit: Option<usize>,
    at: Option<u64>,
    r: Result<ScanResp, KvError>,
    found: Result<(Vec<KvEntry>, u64), KvError>,
)
    requires
        plan is Prefix,
        p@ == plan->Prefix_0@,
        call_ensures(server::range_query, (s, plan, limit, at), r),
        call_ensures(Store::prefix, (s, p, limit, at), found),
    ensures
        found is Ok ==> r is Ok && scan_shows(r->Ok_0, found->Ok_0.0@, found->Ok_0.1),
        found is Err ==> r is Err && r->Err_0@ == found->Err_0@,
{
    if found is Ok {
        lemma_answers(r->Ok_0, found->Ok_0.0@, found->Ok_0.1);
    }
}

/// A range query with ends shows what the range scan of the store finds between them.
pub proof fn lemma_span_plan(
    s: &Store,
    plan: &RangePlan,
    start: Option<&[u8]>,
    end: Option<&[u8]>,
    limit: Option<usize>,
    at: Option<u64>,
    r: Result<ScanResp, KvError>,
    found: Result<(Vec<KvEntry>, u64), KvError>,
)
    requires
        plan is Span,
        start is Some <==> plan->start is Some,
        end is Some <==> plan->end is Some,
        start is Some ==> start->Some_0@ == plan->start->Some_0@,
        end is Some ==> end->Some_0@ == plan->end->Some_0@,
        call_ensures(server::range_query, (s, plan, limit, at), r),
        call_ensures(Store::range, (s, start, end, limit, at), found),
    ensures
        found is Ok ==> r is Ok && scan_shows(r->Ok_0, found->Ok_0.0@, found->Ok_0.1),
        found is Err ==> r is Err && r->Err_0@ == found->Err_0@,
{
    if found is Ok {
        lemma_answers(r->Ok_0, found->Ok_0.0@, found->Ok_0.1);
    }
}

/// A prefix query shows what the prefix scan of the store finds for the bytes of its text.
pub proof fn lemma_prefix_query(
    s: &Store,
    prefix: &str,
    p: &[u8],
    limit: Option<usize>,
    at: Option<u64>,
    r: Result<ScanResp, KvError>,
    found: Result<(Vec<KvEntry>, u64), KvError>,
)
    requires
        p@ == vstd::utf8::encode_utf8(prefix@),
        call_ensures(server::prefix_query, (s, prefix, limit, at), r),
        call_ensures(Store::prefix, (s, p, limit, at), found),
    ensures
        found is Ok ==> r is Ok && scan_shows(r->Ok_0, found->Ok_0.0@, found->Ok_0.1),
        found is Err ==> r is Err && r->Err_0@ == found->Err_0@,
{
    if found is Ok {
        lemma_answers(r->Ok_0, found->Ok_0.0@, found->Ok_0.1);
    }
}

} // verus!
