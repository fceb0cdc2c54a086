//! The HTTP interface of the versioned store: what requests mean and what is answered.
//!
//! Keys and values may be supplied either as UTF-8 strings (`"key"`) or as base64 in an object form
//! (`{"base64": "..."}`). Responses always hold both the UTF-8 string (when representable) and the
//! base64 form, plus the observed log position (`read_lsn`). Transport and JSON are the caller's.

use crate::error;
use crate::error::{KvError, KvFault};
use crate::keymap;
use crate::keymap::KeyMap;
use crate::metrics;
use crate::order;
use crate::store;
use crate::store::{
    CommitOutcome, Got, KeyedOps, KvEntry, ScanView, Status, Store, WalOp, WalOpView,
};
use crate::text;
use vstd::prelude::*;
use vstd::string::*;

verus! {

// ---------- errors ----------

/// The body of an error response.
#[derive(Debug)]
pub struct KvErrorBody {
    pub error: &'static str,
    pub code: &'static str,
    pub message: String,
}

/// What is answered to an error: its HTTP status and its body.
pub fn error_response(e: &KvError) -> (r: (u16, KvErrorBody))
    ensures
        r.0 == error::kv_status(e@),
        r.1.error@ == "kv_error"@,
        r.1.code@ == error::kv_code(e@),
        e@ !is Io ==> r.1.message@ == error::kv_message(e@),
        e@ is Io ==> error::kv_message(e@).is_prefix_of(r.1.message@),
{
    (e.status(), KvErrorBody { error: "kv_error", code: e.code(), message: e.message() })
}

/// Why the body of a request cannot be used.
#[derive(Debug)]
pub enum BodyFault<'a> {
    /// It could not be read, for this reason.
    Unread(&'a str),
    Empty,
    /// It is no JSON of the form expected, for this reason.
    NotJson(&'a str),
}

/// The error of a body that cannot be used.
pub fn body_error(fault: BodyFault<'_>) -> (r: KvError)
    ensures
        r@ == KvFault::InvalidRequest(
            match fault {
                BodyFault::Unread(m) => "failed reading body: "@ + m@,
                BodyFault::Empty => "request body is empty"@,
                BodyFault::NotJson(m) => "invalid JSON: "@ + m@,
            },
        ),
{
    let mut s = String::new();
    match fault {
        BodyFault::Unread(m) => {
            s.append("failed reading body: ");
            s.append(m);
            assert(s@ =~= "failed reading body: "@ + m@);
        },
        BodyFault::Empty => {
            s.append("request body is empty");
            assert(s@ =~= "request body is empty"@);
        },
        BodyFault::NotJson(m) => {
            s.append("invalid JSON: ");
            s.append(m);
            assert(s@ =~= "invalid JSON: "@ + m@);
        },
    }
    KvError::InvalidRequest(s)
}

/// The error of a request that no route takes.
pub fn fallback(method: &str, path: &str) -> (r: KvError)
    ensures
        r@ == KvFault::RouteNotFound(method@ + " "@ + path@),
{
    let mut s = method.to_string();
    s.append(" ");
    s.append(path);
    KvError::RouteNotFound(s)
}

// ---------- key/value codecs ----------

/// A field that can be either a JSON string or `{"base64": "..."}`.
#[derive(Debug, Clone)]
pub enum BytesField {
    Str(String),
    B64 { base64: String },
}

/// The bytes that a field stands for, or what is wrong with its base64.
pub open spec fn field_bytes(f: BytesField, field: Seq<char>) -> Result<Seq<u8>, KvFault> {
    match f {
        BytesField::Str(s) => Ok(vstd::utf8::encode_utf8(s@)),
        BytesField::B64 { base64 } => match text::base64_decoded(base64@) {
            Ok(bytes) => Ok(bytes),
            Err(message) => Err(KvFault::InvalidBase64 { field, message }),
        },
    }
}

impl BytesField {
    /// The bytes that the field stands for; `field` names it in an error.
    pub fn into_bytes(&self, field: &str) -> (r: Result<Vec<u8>, KvError>)
        ensures
            match r {
                Ok(bytes) => field_bytes(*self, field@) == Ok::<_, KvFault>(bytes@),
                Err(e) => field_bytes(*self, field@) == Err::<Seq<u8>, _>(e@),
            },
    {
        match self {
            BytesField::Str(s) => Ok(s.as_str().as_bytes_vec()),
            BytesField::B64 { base64 } => decode_b64(base64.as_str(), field),
        }
    }
}

/// What [`BytesField::into_bytes`] returns once the base64 engine has answered.
pub fn decoded_field(decoded: Result<Vec<u8>, String>, field: &str) -> (r: Result<
    Vec<u8>,
    KvError,
>)
    ensures
        match (decoded, r) {
            (Ok(bytes), Ok(v)) => v@ == bytes@,
            (Err(m), Err(e)) => e@ == (KvFault::InvalidBase64 { field: field@, message: m@ }),
            _ => false,
        },
{
    match decoded {
        Ok(bytes) => Ok(bytes),
        Err(message) => Err(KvError::InvalidBase64 { field: field.to_string(), message }),
    }
}

fn decode_b64(s: &str, field: &str) -> (r: Result<Vec<u8>, KvError>)
    ensures
        match (text::base64_decoded(s@), r) {
            (Ok(bytes), Ok(v)) => v@ == bytes,
            (Err(message), Err(e)) => e@ == (KvFault::InvalidBase64 { field: field@, message }),
            _ => false,
        },
{
    decoded_field(text::decode_base64(s), field)
}

/// URL path segment is already percent-decoded; treat its bytes as the key.
pub fn path_key(raw: &str) -> (r: Vec<u8>)
    ensures
        r@ == raw.spec_bytes(),
{
    raw.as_bytes_vec()
}

/// Bytes as they are answered.
#[derive(Debug)]
pub struct BytesOut {
    /// UTF-8 representation when the bytes are valid UTF-8.
    pub text: Option<String>,
    pub base64: String,
    pub bytes_len: usize,
}

/// What a [`BytesOut`] holds.
pub struct BytesOutView {
    pub text: Option<Seq<char>>,
    pub base64: Seq<char>,
    pub bytes_len: nat,
}

impl View for BytesOut {
    type V = BytesOutView;

    open spec fn view(&self) -> BytesOutView {
        BytesOutView {
            text: match self.text {
                Some(s) => Some(s@),
                None => None,
            },
            base64: self.base64@,
            bytes_len: self.bytes_len as nat,
        }
    }
}

/// How bytes are answered.
pub open spec fn shown(b: Seq<u8>) -> BytesOutView {
    BytesOutView {
        text: if vstd::utf8::valid_utf8(b) {
            Some(vstd::utf8::decode_utf8(b))
        } else {
            None
        },
        base64: text::base64_text(b),
        bytes_len: b.len(),
    }
}

/// Bytes as they are answered. A field with the base64 form stands for the bytes again.
pub fn bytes_out(b: &[u8]) -> (r: BytesOut)
    ensures
        r@ == shown(b@),
        text::base64_decoded(r.base64@) is Ok,
        text::base64_decoded(r.base64@)->Ok_0 == b@,
{
    BytesOut { text: text::utf8_text(b), base64: text::encode_base64(b), bytes_len: b.len() }
}

// ---------- requests ----------

/// Body of a write.
#[derive(Debug, Clone)]
pub struct PutReq {
    pub value: BytesField,
}

/// Body of a compare-and-swap.
#[derive(Debug, Clone)]
pub struct CasReq {
    pub expected: Option<BytesField>,
    pub value: BytesField,
}

/// One operation in the body of a transaction.
#[derive(Debug, Clone)]
pub struct TxnOpReq {
    pub op: String,
    pub key: BytesField,
    pub value: Option<BytesField>,
    pub expected: Option<Option<BytesField>>,
}

/// Body of a transaction.
#[derive(Debug, Clone)]
pub struct TxnReq {
    pub ops: Vec<TxnOpReq>,
}

/// Body of a range query.
#[derive(Debug, Clone)]
pub struct RangeReq {
    pub start: Option<BytesField>,
    pub end: Option<BytesField>,
    pub prefix: Option<BytesField>,
    pub limit: Option<usize>,
    pub at_lsn: Option<u64>,
}

/// The operation that a write asks for.
pub fn put_key(key: &str, req: &PutReq) -> (r: Result<Vec<(Vec<u8>, WalOp)>, KvError>)
    ensures
        match (field_bytes(req.value, "value"@), r) {
            (Ok(value), Ok(ops)) => store::op_views(ops@) == seq![
                (key.spec_bytes(), WalOpView::Put(value)),
            ],
            (Err(f), Err(e)) => e@ == f,
            _ => false,
        },
{
    match req.value.into_bytes("value") {
        Ok(value) => {
            let mut ops: Vec<(Vec<u8>, WalOp)> = Vec::new();
            ops.push((path_key(key), WalOp::Put(value)));
            assert(store::op_views(ops@) =~= seq![
                (key.spec_bytes(), WalOpView::Put(value@)),
            ]);
            Ok(ops)
        },
        Err(e) => Err(e),
    }
}

/// The operation that a deletion asks for.
pub fn delete_key(key: &str) -> (r: Vec<(Vec<u8>, WalOp)>)
    ensures
        store::op_views(r@) == seq![(key.spec_bytes(), WalOpView::Delete)],
{
    let mut ops: Vec<(Vec<u8>, WalOp)> = Vec::new();
    ops.push((path_key(key), WalOp::Delete));
    assert(store::op_views(ops@) =~= seq![(key.spec_bytes(), WalOpView::Delete)]);
    ops
}

/// The value that an optional field stands for.
pub open spec fn optional_bytes(f: Option<BytesField>, field: Seq<char>) -> Result<
    Option<Seq<u8>>,
    KvFault,
> {
    match f {
        None => Ok(None),
        Some(f) => match field_bytes(f, field) {
            Ok(b) => Ok(Some(b)),
            Err(e) => Err(e),
        },
    }
}

fn into_optional(f: &Option<BytesField>, field: &str) -> (r: Result<Option<Vec<u8>>, KvError>)
    ensures
        match r {
            Ok(v) => optional_bytes(*f, field@) == Ok::<_, KvFault>(error::bytes_option(v)),
            Err(e) => optional_bytes(*f, field@) == Err::<Option<Seq<u8>>, _>(e@),
        },
{
    match f {
        None => Ok(None),
        Some(f) => match f.into_bytes(field) {
            Ok(b) => Ok(Some(b)),
            Err(e) => Err(e),
        },
    }
}

/// The operation that a compare-and-swap asks for.
pub fn cas_key(key: &str, req: &CasReq) -> (r: Result<Vec<(Vec<u8>, WalOp)>, KvError>)
    ensures
        match r {
            Ok(ops) => {
                let value = field_bytes(req.value, "value"@);
                let expected = optional_bytes(req.expected, "expected"@);
                &&& value is Ok
                &&& expected is Ok
                &&& store::op_views(ops@) == seq![
                    (
                        key.spec_bytes(),
                        (WalOpView::Cas { expected: expected->Ok_0, value: value->Ok_0 }),
                    ),
                ]
            },
            Err(e) => match field_bytes(req.value, "value"@) {
                Err(f) => e@ == f,
                Ok(_) => optional_bytes(req.expected, "expected"@) == Err::<Option<Seq<u8>>, _>(
                    e@,
                ),
            },
        },
{
    let value = match req.value.into_bytes("value") {
        Ok(v) => v,
        Err(e) => return Err(e),
    };
    let expected = match into_optional(&req.expected, "expected") {
        Ok(v) => v,
        Err(e) => return Err(e),
    };
    let ghost view = WalOpView::Cas { expected: error::bytes_option(expected), value: value@ };
    let mut ops: Vec<(Vec<u8>, WalOp)> = Vec::new();
    ops.push((path_key(key), WalOp::Cas { expected, value }));
    assert(store::op_views(ops@) =~= seq![(key.spec_bytes(), view)]);
    Ok(ops)
}

/// The name of the `i`-th operation.
pub open spec fn op_name(i: nat) -> Seq<char> {
    "ops["@ + text::decimal(i) + "]"@
}

fn op_label(i: usize, tail: &str) -> (r: String)
    ensures
        r@ == op_name(i as nat) + tail@,
{
    let mut s = "ops[".to_string();
    s.append(text::size_text(i).as_str());
    s.append("]");
    s.append(tail);
    assert(s@ =~= op_name(i as nat) + tail@);
    s
}

/// The operation that the `i`-th element of a transaction asks for, or what is wrong with it.
pub open spec fn asked_op(req: TxnOpReq, i: nat) -> Result<(Seq<u8>, WalOpView), KvFault> {
    let name = op_name(i);
    match field_bytes(req.key, name + ".key"@) {
        Err(e) => Err(e),
        Ok(key) => if req.op@ == "put"@ {
            match req.value {
                None => Err(KvFault::InvalidRequest(name + ": put requires value"@)),
                Some(f) => match field_bytes(f, name + ".value"@) {
                    Ok(value) => Ok((key, WalOpView::Put(value))),
                    Err(e) => Err(e),
                },
            }
        } else if req.op@ == "delete"@ {
            Ok((key, WalOpView::Delete))
        } else if req.op@ == "cas"@ {
            match req.value {
                None => Err(KvFault::InvalidRequest(name + ": cas requires value"@)),
                Some(f) => match field_bytes(f, name + ".value"@) {
                    Err(e) => Err(e),
                    Ok(value) => {
                        let field = match req.expected {
                            Some(e) => e,
                            None => None,
                        };
                        match optional_bytes(field, name + ".expected"@) {
                            Ok(expected) => Ok((key, WalOpView::Cas { expected, value })),
                            Err(e) => Err(e),
                        }
                    },
                },
            }
        } else {
            Err(
                KvFault::InvalidRequest(
                    name + ": unknown operation type "@ + text::quoted(req.op@)
                        + ", expected put|delete|cas"@,
                ),
            )
        },
    }
}

/// The operations that the elements of a transaction ask for, or what is wrong with the first that
/// is no operation.
pub open spec fn asked_ops(reqs: Seq<TxnOpReq>, n: int) -> Result<KeyedOps, KvFault>
    decreases n,
{
    if n <= 0 {
        Ok(Seq::empty())
    } else {
        match asked_ops(reqs, n - 1) {
            Err(e) => Err(e),
            Ok(before) => match asked_op(reqs[n - 1], (n - 1) as nat) {
                Ok(op) => Ok(before.push(op)),
                Err(e) => Err(e),
            },
        }
    }
}

proof fn lemma_asked_ops_stops(reqs: Seq<TxnOpReq>, n: int, m: int)
    requires
        n <= m,
        asked_ops(reqs, n) is Err,
    ensures
        asked_ops(reqs, m) == asked_ops(reqs, n),
    decreases m - n,
{
    if n < m {
        lemma_asked_ops_stops(reqs, n, m - 1);
    }
}

fn parse_op(req: &TxnOpReq, i: usize) -> (r: Result<(Vec<u8>, WalOp), KvError>)
    ensures
        match r {
            Ok(op) => asked_op(*req, i as nat) == Ok::<_, KvFault>((op.0@, op.1@)),
            Err(e) => asked_op(*req, i as nat) == Err::<(Seq<u8>, WalOpView), _>(e@),
        },
{
    let key = match req.key.into_bytes(op_label(i, ".key").as_str()) {
        Ok(k) => k,
        Err(e) => return Err(e),
    };
    if text::same_text(req.op.as_str(), "put") {
        match &req.value {
            None => Err(KvError::InvalidRequest(op_label(i, ": put requires value"))),
            Some(f) => match f.into_bytes(op_label(i, ".value").as_str()) {
                Ok(value) => Ok((key, WalOp::Put(value))),
                Err(e) => Err(e),
            },
        }
    } else if text::same_text(req.op.as_str(), "delete") {
        Ok((key, WalOp::Delete))
    } else if text::same_text(req.op.as_str(), "cas") {
        let value = match &req.value {
            None => {
                return Err(KvError::InvalidRequest(op_label(i, ": cas requires value")));
            },
            Some(f) => match f.into_bytes(op_label(i, ".value").as_str()) {
                Ok(value) => value,
                Err(e) => return Err(e),
            },
        };
        let expected = match &req.expected {
            None => None,
            Some(f) => match into_optional(f, op_label(i, ".expected").as_str()) {
                Ok(v) => v,
                Err(e) => return Err(e),
            },
        };
        Ok((key, WalOp::Cas { expected, value }))
    } else {
        let mut s = op_label(i, ": unknown operation type ");
        s.append(text::quoted_text(req.op.as_str()).as_str());
        s.append(", expected put|delete|cas");
        Err(KvError::InvalidRequest(s))
    }
}

/// The operations that a transaction asks for.
pub fn txn(req: &TxnReq) -> (r: Result<Vec<(Vec<u8>, WalOp)>, KvError>)
    ensures
        match r {
            Ok(ops) => asked_ops(req.ops@, req.ops@.len() as int) == Ok::<_, KvFault>(
                store::op_views(ops@),
            ),
            Err(e) => asked_ops(req.ops@, req.ops@.len() as int) == Err::<KeyedOps, _>(e@),
        },
{
    let mut ops: Vec<(Vec<u8>, WalOp)> = Vec::new();
    let mut i: usize = 0;
    assert(store::op_views(ops@) =~= Seq::empty());
    while i < req.ops.len()
        invariant
            i <= req.ops@.len(),
            asked_ops(req.ops@, i as int) == Ok::<_, KvFault>(store::op_views(ops@)),
        decreases req.ops@.len() - i,
    {
        match parse_op(&req.ops[i], i) {
            Ok(op) => {
                let ghost before = store::op_views(ops@);
                let ghost view = (op.0@, op.1@);
                ops.push(op);
                assert(store::op_views(ops@) =~= before.push(view));
            },
            Err(e) => {
                proof {
                    lemma_asked_ops_stops(req.ops@, i + 1, req.ops@.len() as int);
                }
                return Err(e);
            },
        }
        i += 1;
    }
    Ok(ops)
}

/// The log position that a query parameter stands for.
pub open spec fn asked_lsn(raw: Option<Seq<char>>) -> Result<Option<u64>, KvFault> {
    match raw {
        None => Ok(None),
        Some(s) => match text::unsigned_value(vstd::utf8::encode_utf8(s)) {
            Some(n) if n <= u64::MAX => Ok(Some(n as u64)),
            _ => Err(
                KvFault::InvalidRequest(
                    "lsn must be a non-negative integer, got "@ + text::quoted(s),
                ),
            ),
        },
    }
}

/// Reads the log position of a query.
pub fn parse_lsn(raw: Option<&str>) -> (r: Result<Option<u64>, KvError>)
    ensures
        ({
            let view = match raw {
                Some(s) => Some(s@),
                None => None,
            };
            match r {
                Ok(lsn) => asked_lsn(view) == Ok::<_, KvFault>(lsn),
                Err(e) => asked_lsn(view) == Err::<Option<u64>, _>(e@),
            }
        }),
{
    match raw {
        None => Ok(None),
        Some(s) => match text::read_unsigned(s.as_bytes()) {
            Some(n) => Ok(Some(n)),
            None => {
                let mut m = "lsn must be a non-negative integer, got ".to_string();
                m.append(text::quoted_text(s).as_str());
                Err(KvError::InvalidRequest(m))
            },
        },
    }
}

// ---------- responses ----------

/// Answer to a commit.
#[derive(Debug, Clone, Copy)]
pub struct CommitResp {
    pub committed: bool,
    pub lsn: u64,
    pub key_count: usize,
}

/// The answer to a commit.
pub fn commit_resp(out: &CommitOutcome) -> (r: CommitResp)
    ensures
        r.committed,
        r.lsn == out.lsn,
        r.key_count == out.key_count,
{
    CommitResp { committed: true, lsn: out.lsn, key_count: out.key_count }
}

/// Answer to the read of one key.
#[derive(Debug)]
pub struct GetResp {
    pub key: BytesOut,
    pub value: BytesOut,
    pub version: u64,
    pub read_lsn: u64,
}

impl GetResp {
    /// The answer to the read of a key.
    pub fn from_got(key: &[u8], g: &Got) -> (r: GetResp)
        ensures
            r.key@ == shown(key@),
            r.value@ == shown(g.value@),
            r.version == g.version,
            r.read_lsn == g.read_lsn,
    {
        GetResp {
            key: bytes_out(key),
            value: bytes_out(g.value.as_slice()),
            version: g.version,
            read_lsn: g.read_lsn,
        }
    }
}

/// Reads one key, at the position that the query gives or at the latest.
pub fn get_key(store: &Store, key: &str, raw_lsn: Option<&str>) -> (r: Result<GetResp, KvError>)
    requires
        store.wf(),
    ensures
        ({
            let asked = asked_lsn(
                match raw_lsn {
                    Some(s) => Some(s@),
                    None => None,
                },
            );
            let k = key.spec_bytes();
            let m = store@.mem;
            match asked {
                Err(f) => r is Err && r->Err_0@ == f,
                Ok(at_lsn) => {
                    let at = match at_lsn {
                        Some(lsn) => lsn,
                        None => m.last_lsn,
                    };
                    let bad_key = store::key_fault(store@.config, k);
                    if bad_key is Some {
                        r is Err && bad_key == Some(r->Err_0@)
                    } else if at > m.last_lsn {
                        r is Err && r->Err_0@ == KvFault::VersionNotFound(at)
                    } else {
                        match store::seen_at(m.keys, k, at) {
                            None => r is Err && r->Err_0@ == KvFault::KeyNotFound(error::lossy(k)),
                            Some(v) => {
                                &&& r is Ok
                                &&& r->Ok_0.key@ == shown(k)
                                &&& r->Ok_0.value@ == shown(v.value->Some_0)
                                &&& r->Ok_0.version == v.lsn
                                &&& r->Ok_0.read_lsn == at
                            },
                        }
                    }
                },
            }
        }),
{
    let at_lsn = match parse_lsn(raw_lsn) {
        Ok(lsn) => lsn,
        Err(e) => return Err(e),
    };
    let key = path_key(key);
    match store.get_at(key.as_slice(), at_lsn) {
        Ok(got) => Ok(GetResp::from_got(key.as_slice(), &got)),
        Err(e) => Err(e),
    }
}

/// One entry of a scan.
#[derive(Debug)]
pub struct EntryOut {
    pub key: BytesOut,
    pub value: BytesOut,
    pub version: u64,
}

/// What an [`EntryOut`] holds.
pub struct EntryOutView {
    pub key: BytesOutView,
    pub value: BytesOutView,
    pub version: u64,
}

impl View for EntryOut {
    type V = EntryOutView;

    open spec fn view(&self) -> EntryOutView {
        EntryOutView { key: self.key@, value: self.value@, version: self.version }
    }
}

/// How an entry is answered.
pub open spec fn entry_shown(e: ScanView) -> EntryOutView {
    EntryOutView { key: shown(e.key), value: shown(e.value), version: e.version }
}

/// One entry as it is answered.
pub fn entry_out(e: &KvEntry) -> (r: EntryOut)
    ensures
        r@ == entry_shown(e@),
{
    EntryOut {
        key: bytes_out(e.key.as_slice()),
        value: bytes_out(e.value.as_slice()),
        version: e.version,
    }
}

/// Answer to a scan.
#[derive(Debug)]
pub struct ScanResp {
    pub read_lsn: u64,
    pub count: usize,
    pub entries: Vec<EntryOut>,
}

/// The answer is the one to a scan that found these entries at this position.
pub open spec fn answers(r: ScanResp, found: Seq<ScanView>, at: u64) -> bool {
    &&& r.read_lsn == at
    &&& r.count == found.len()
    &&& r.entries@.len() == found.len()
    &&& forall|i: int|
        0 <= i < found.len() ==> (#[trigger] r.entries@[i])@ == entry_shown(found[i])
}

/// The answer to a scan.
pub fn scan_resp(found: &Vec<KvEntry>, read_lsn: u64) -> (r: ScanResp)
    ensures
        answers(r, store::scan_views(found@), read_lsn),
{
    let mut entries: Vec<EntryOut> = Vec::new();
    let mut i: usize = 0;
    while i < found.len()
        invariant
            i <= found@.len(),
            entries@.len() == i,
            forall|j: int|
                0 <= j < i ==> (#[trigger] entries@[j])@ == entry_shown(found@[j]@),
        decreases found@.len() - i,
    {
        entries.push(entry_out(&found[i]));
        i += 1;
    }
    ScanResp { read_lsn, count: entries.len(), entries }
}

/// What a range query looks at.
#[derive(Debug)]
pub enum RangePlan {
    Prefix(Vec<u8>),
    Span { start: Option<Vec<u8>>, end: Option<Vec<u8>> },
}

/// What a [`RangePlan`] says.
pub enum PlanView {
    Prefix(Seq<u8>),
    Span { start: Option<Seq<u8>>, end: Option<Seq<u8>> },
}

impl View for RangePlan {
    type V = PlanView;

    open spec fn view(&self) -> PlanView {
        match *self {
            RangePlan::Prefix(p) => PlanView::Prefix(p@),
            RangePlan::Span { start, end } => PlanView::Span {
                start: error::bytes_option(start),
                end: error::bytes_option(end),
            },
        }
    }
}

/// What a range query asks to look at. Its ends are decoded first, also where it has a prefix.
pub open spec fn asked_plan(req: RangeReq) -> Result<PlanView, KvFault> {
    match optional_bytes(req.start, "start"@) {
        Err(e) => Err(e),
        Ok(start) => match optional_bytes(req.end, "end"@) {
            Err(e) => Err(e),
            Ok(end) => match req.prefix {
                Some(p) => match field_bytes(p, "prefix"@) {
                    Ok(prefix) => Ok(PlanView::Prefix(prefix)),
                    Err(e) => Err(e),
                },
                None => Ok(PlanView::Span { start, end }),
            },
        },
    }
}

/// What a range query asks to look at.
pub fn range_plan(req: &RangeReq) -> (r: Result<RangePlan, KvError>)
    ensures
        match r {
            Ok(plan) => asked_plan(*req) == Ok::<_, KvFault>(plan@),
            Err(e) => asked_plan(*req) == Err::<PlanView, _>(e@),
        },
{
    let start = match into_optional(&req.start, "start") {
        Ok(v) => v,
        Err(e) => return Err(e),
    };
    let end = match into_optional(&req.end, "end") {
        Ok(v) => v,
        Err(e) => return Err(e),
    };
    match &req.prefix {
        Some(p) => match p.into_bytes("prefix") {
            Ok(prefix) => Ok(RangePlan::Prefix(prefix)),
            Err(e) => Err(e),
        },
        None => Ok(RangePlan::Span { start, end }),
    }
}

/// The ends of a span do not cross.
pub open spec fn span_in_order(plan: PlanView) -> bool {
    match plan {
        PlanView::Span { start: Some(s), end: Some(e) } => order::key_le(s, e),
        _ => true,
    }
}

impl RangePlan {
    /// Whether the ends of the span do not cross.
    pub fn in_order(&self) -> (r: bool)
        ensures
            r == span_in_order(self@),
    {
        match self {
            RangePlan::Span { start: Some(s), end: Some(e) } => match order::compare(
                s.as_slice(),
                e.as_slice(),
            ) {
                order::KeyOrder::Greater => {
                    proof {
                        order::lemma_lt_asymmetric(e@, s@);
                    }
                    false
                },
                _ => true,
            },
            _ => true,
        }
    }
}

/// The keys that a plan looks at.
pub open spec fn planned_keys(plan: PlanView, keys: Set<Seq<u8>>) -> Set<Seq<u8>> {
    match plan {
        PlanView::Prefix(p) => keymap::keys_with_prefix(keys, p),
        PlanView::Span { start, end } => keymap::keys_in_range(
            keys,
            match start {
                Some(s) => keymap::BoundView::Included(s),
                None => keymap::BoundView::Unbounded,
            },
            match end {
                Some(e) => keymap::BoundView::Excluded(e),
                None => keymap::BoundView::Unbounded,
            },
        ),
    }
}

/// Carries a range query out.
pub fn range_query(store: &Store, plan: &RangePlan, limit: Option<usize>, at_lsn: Option<u64>) -> (r:
    Result<ScanResp, KvError>)
    requires
        store.wf(),
        (at_lsn is None || at_lsn->Some_0 <= store@.mem.last_lsn) ==> span_in_order(plan@),
    ensures
        match (
            store::scanned(
                store@.mem,
                planned_keys(plan@, store@.mem.keys.dom()),
                limit,
                at_lsn,
            ),
            r,
        ) {
            (Ok((found, at)), Ok(s)) => answers(s, found, at),
            (Err(f), Err(e)) => e@ == f,
            _ => false,
        },
{
    let found = match plan {
        RangePlan::Prefix(p) => store.prefix(p.as_slice(), limit, at_lsn),
        RangePlan::Span { start, end } => {
            let st: Option<&[u8]> = match start {
                Some(s) => Some(s.as_slice()),
                None => None,
            };
            let en: Option<&[u8]> = match end {
                Some(e) => Some(e.as_slice()),
                None => None,
            };
            store.range(st, en, limit, at_lsn)
        },
    };
    match found {
        Ok((entries, read_lsn)) => Ok(scan_resp(&entries, read_lsn)),
        Err(e) => Err(e),
    }
}

/// Scans the keys with a prefix.
pub fn prefix_query(store: &Store, prefix: &str, limit: Option<usize>, lsn: Option<u64>) -> (r:
    Result<ScanResp, KvError>)
    requires
        store.wf(),
    ensures
        match (
            store::scanned(
                store@.mem,
                keymap::keys_with_prefix(store@.mem.keys.dom(), prefix.spec_bytes()),
                limit,
                lsn,
            ),
            r,
        ) {
            (Ok((found, at)), Ok(s)) => answers(s, found, at),
            (Err(f), Err(e)) => e@ == f,
            _ => false,
        },
{
    match store.prefix(prefix.as_bytes(), limit, lsn) {
        Ok((entries, read_lsn)) => Ok(scan_resp(&entries, read_lsn)),
        Err(e) => Err(e),
    }
}

// ---------- metrics ----------

/// How often a route was asked for.
#[derive(Debug)]
pub struct RouteCount {
    route: String,
    count: u64,
}

impl View for RouteCount {
    type V = (Seq<char>, u64);

    closed spec fn view(&self) -> (Seq<char>, u64) {
        (self.route@, self.count)
    }
}

/// Counters of the service.
#[derive(Debug)]
pub struct Metrics {
    pub requests_total: u64,
    pub inflight: u64,
    pub errors_5xx_total: u64,
    /// Requests by route, in the order of the routes' bytes.
    pub requests_by_route: KeyMap<RouteCount>,
}

/// Routes with their counts, by the bytes of the route.
pub type Routes = Map<Seq<u8>, (Seq<char>, u64)>;

/// How many slashes stand at the start, from `from` on, as the offset behind them.
pub open spec fn behind_slashes(s: Seq<char>, from: int) -> int
    decreases s.len() - from,
{
    if 0 <= from < s.len() && s[from] == '/' {
        behind_slashes(s, from + 1)
    } else {
        from
    }
}

/// Where a label ends that goes on at `from` and may hold `slashes` more slashes.
pub open spec fn label_end(s: Seq<char>, from: int, slashes: int) -> int
    decreases s.len() - from,
{
    if from < 0 || from >= s.len() {
        from
    } else if s[from] == '/' {
        if slashes <= 0 {
            from
        } else {
            label_end(s, from + 1, slashes - 1)
        }
    } else {
        label_end(s, from + 1, slashes)
    }
}

/// The first two segments of a path.
pub open spec fn route_of(path: Seq<char>) -> Seq<char> {
    let a = behind_slashes(path, 0);
    path.subrange(a, label_end(path, a, 1))
}

/// The label under which a path is counted: its first two segments.
pub fn route_label(path: &str) -> (r: String)
    ensures
        r@ == route_of(path@),
{
    let chars = text::char_vec(path);
    let n: usize = chars.len();
    let mut a: usize = 0;
    while a < n && chars[a] == '/'
        invariant
            a <= n,
            n == chars@.len(),
            chars@ == path@,
            behind_slashes(path@, 0) == behind_slashes(path@, a as int),
        decreases n - a,
    {
        a += 1;
    }
    let mut b: usize = a;
    let mut slashes: u8 = 1;
    while b < n && !(chars[b] == '/' && slashes == 0)
        invariant
            a <= b <= n,
            n == chars@.len(),
            chars@ == path@,
            slashes <= 1,
            label_end(path@, a as int, 1) == label_end(path@, b as int, slashes as int),
        decreases n - b,
    {
        if chars[b] == '/' {
            slashes = 0;
        }
        b += 1;
    }
    path.substring_char(a, b).to_string()
}

/// The routes after one more request.
pub open spec fn route_counted(routes: Routes, label: Seq<char>) -> Routes {
    let k = vstd::utf8::encode_utf8(label);
    let before = if routes.dom().contains(k) {
        routes[k].1
    } else {
        0
    };
    routes.insert(k, (label, metrics::bumped(before)))
}

/// The lines of the routes, in order.
pub open spec fn route_lines(routes: Routes, ks: Seq<Seq<u8>>) -> Seq<char>
    decreases ks.len(),
{
    if ks.len() == 0 {
        Seq::empty()
    } else {
        let (route, count) = routes[ks.last()];
        route_lines(routes, ks.drop_last()) + ("kvs_requests_by_route_total{route=\""@ + route
            + "\"} "@ + text::decimal(count as nat) + "\n"@)
    }
}

/// All metrics as Prometheus text. The uptime comes as a decimal number of seconds.
pub open spec fn metrics_page(m: Metrics, status: Status, uptime: Seq<char>) -> Seq<char> {
    metrics::counter("kvs_requests_total"@, "Total HTTP requests."@, m.requests_total)
        + metrics::gauge(
        "kvs_inflight_requests"@,
        "Requests currently being served."@,
        m.inflight,
    ) + metrics::counter("kvs_errors_5xx_total"@, "5xx responses."@, m.errors_5xx_total)
        + metrics::gauge(
        "kvs_key_count"@,
        "Number of live keys."@,
        status.key_count as u64,
    ) + metrics::gauge("kvs_last_lsn"@, "Latest committed LSN."@, status.last_lsn)
        + metrics::gauge("kvs_wal_size_bytes"@, "WAL size in bytes."@, status.wal_size_bytes)
        + metrics::gauge(
        "kvs_last_snapshot_lsn"@,
        "LSN of newest snapshot."@,
        status.last_snapshot_lsn,
    ) + metrics::gauge(
        "kvs_compacting"@,
        "Whether compaction is running (1/0)."@,
        if status.compacting {
            1
        } else {
            0
        },
    ) + metrics::metric("kvs_uptime_seconds"@, "Process uptime."@, "gauge"@, uptime)
        + route_lines(
        m.requests_by_route@,
        order::sorted_keys(m.requests_by_route@.dom()),
    )
}

impl Metrics {
    /// The routes are kept in order.
    pub open spec fn wf(&self) -> bool {
        self.requests_by_route.wf()
    }

    /// All counters at zero.
    pub fn new() -> (r: Metrics)
        ensures
            r.wf(),
            r.requests_total == 0,
            r.inflight == 0,
            r.errors_5xx_total == 0,
            r.requests_by_route@ == Routes::empty(),
    {
        Metrics {
            requests_total: 0,
            inflight: 0,
            errors_5xx_total: 0,
            requests_by_route: KeyMap::new(),
        }
    }

    /// Counts a request that has come in.
    pub fn begin_request(&mut self)
        requires
            old(self).wf(),
        ensures
            final(self).wf(),
            final(self).requests_total == metrics::bumped(old(self).requests_total),
            final(self).inflight == metrics::bumped(old(self).inflight),
            final(self).errors_5xx_total == old(self).errors_5xx_total,
            final(self).requests_by_route@ == old(self).requests_by_route@,
    {
        self.requests_total = self.requests_total.wrapping_add(1);
        self.inflight = self.inflight.wrapping_add(1);
    }

    /// Counts the response to a request, under the label of its path.
    pub fn end_request(&mut self, label: &str, status: u16)
        requires
            old(self).wf(),
        ensures
            final(self).wf(),
            final(self).requests_total == old(self).requests_total,
            metrics::bumped(final(self).inflight) == old(self).inflight,
            final(self).errors_5xx_total == if 500 <= status <= 599 {
                metrics::bumped(old(self).errors_5xx_total)
            } else {
                old(self).errors_5xx_total
            },
            final(self).requests_by_route@ == route_counted(
                old(self).requests_by_route@,
                label@,
            ),
    {
        self.inflight = self.inflight.wrapping_sub(1);
        if 500 <= status && status <= 599 {
            self.errors_5xx_total = self.errors_5xx_total.wrapping_add(1);
        }
        let key = label.as_bytes_vec();
        let count: u64 = match self.requests_by_route.get(key.as_slice()) {
            Some(c) => c.count,
            None => 0,
        };
        let next = RouteCount { route: label.to_string(), count: count.wrapping_add(1) };
        self.requests_by_route.insert(key, next);
    }

    /// All metrics as Prometheus text, with the uptime in seconds.
    pub fn render(&self, status: &Status, uptime: &str) -> (r: String)
        requires
            self.wf(),
        ensures
            r@ == metrics_page(*self, *status, uptime@),
    {
        let mut s = String::new();
        metrics::push_counter(
            &mut s,
            "kvs_requests_total",
            "Total HTTP requests.",
            self.requests_total,
        );
        metrics::push_gauge(
            &mut s,
            "kvs_inflight_requests",
            "Requests currently being served.",
            self.inflight,
        );
        metrics::push_counter(
            &mut s,
            "kvs_errors_5xx_total",
            "5xx responses.",
            self.errors_5xx_total,
        );
        metrics::push_gauge(
            &mut s,
            "kvs_key_count",
            "Number of live keys.",
            status.key_count as u64,
        );
        metrics::push_gauge(&mut s, "kvs_last_lsn", "Latest committed LSN.", status.last_lsn);
        metrics::push_gauge(
            &mut s,
            "kvs_wal_size_bytes",
            "WAL size in bytes.",
            status.wal_size_bytes,
        );
        metrics::push_gauge(
            &mut s,
            "kvs_last_snapshot_lsn",
            "LSN of newest snapshot.",
            status.last_snapshot_lsn,
        );
        let compacting: u64 = if status.compacting {
            1
        } else {
            0
        };
        metrics::push_gauge(
            &mut s,
            "kvs_compacting",
            "Whether compaction is running (1/0).",
            compacting,
        );
        metrics::push_metric(&mut s, "kvs_uptime_seconds", "Process uptime.", "gauge", uptime);
        let ghost head = s@;
        let ghost routes = self.requests_by_route@;
        let ghost ks = self.requests_by_route.key_seq();
        let n: usize = self.requests_by_route.len();
        let mut i: usize = 0;
        proof {
            self.requests_by_route.lemma_entries();
            assert(ks.take(0) =~= Seq::empty());
            assert(s@ =~= head + route_lines(routes, ks.take(0)));
        }
        while i < n
            invariant
                i <= n,
                n == ks.len(),
                self.wf(),
                ks == self.requests_by_route.key_seq(),
                routes == self.requests_by_route@,
                forall|j: int|
                    0 <= j < ks.len() ==> routes[#[trigger] ks[j]]
                        == self.requests_by_route.val_seq()[j]@,
                s@ == head + route_lines(routes, ks.take(i as int)),
            decreases n - i,
        {
            let c = self.requests_by_route.val_at(i);
            proof {
                assert(ks.take(i + 1).drop_last() =~= ks.take(i as int));
                assert(ks.take(i + 1).last() == ks[i as int]);
            }
            s.append("kvs_requests_by_route_total{route=\"");
            s.append(c.route.as_str());
            s.append("\"} ");
            s.append(text::number_text(c.count).as_str());
            s.append("\n");
            i += 1;
            assert(s@ =~= head + route_lines(routes, ks.take(i as int)));
        }
        assert(ks.take(i as int) =~= ks);
        assert(s@ =~= metrics_page(*self, *status, uptime@));
        s
    }
}

} // verus!
