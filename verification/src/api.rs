//! The HTTP interface of the key table: what requests mean and what is answered.
//!
//! Values are text where they are valid UTF-8 and base64 behind `base64:` where they are not. All
//! errors use one structured body: `{"error": {"kind", ...}}`. Transport and JSON are the caller's.

use crate::engine::Engine;
use crate::error;
use crate::error::{StoreError, StoreFault};
use crate::keymap;
use crate::keymap::{BoundView, KeyBound};
use crate::table;
use crate::table::{
    EffectView, Entry, EntryView, Limits, Op, OpEffect, OpView, Table, TxnOutcome,
};
use crate::text;
use vstd::prelude::*;
use vstd::std_specs::convert::FromSpecImpl;
use vstd::string::*;

verus! {

/// Maximum accepted HTTP request body (32 MiB).
pub const MAX_BODY: usize = 32 * 1024 * 1024;

/// Default number of entries returned by one scan.
pub const DEFAULT_SCAN_LIMIT: usize = 1000;

/// Maximum number of entries returned by one scan.
pub const MAX_SCAN_LIMIT: usize = 100_000;

// ---- structured errors ----------------------------------------------

/// The body of an error response.
#[derive(Debug)]
pub struct ErrorBody {
    pub error: ErrorDetail,
}

/// What an error response says.
#[derive(Debug)]
pub struct ErrorDetail {
    pub kind: String,
    pub message: String,
    pub key: Option<String>,
    pub expected: Option<ValueJson>,
    pub actual: Option<ValueJson>,
}

/// JSON representation of an optional binary value (null or string).
#[derive(Debug, Clone)]
pub enum ValueJson {
    Null,
    String(String),
}

/// What a [`ValueJson`] holds.
pub enum JsonView {
    Null,
    Text(Seq<char>),
}

impl View for ValueJson {
    type V = JsonView;

    open spec fn view(&self) -> JsonView {
        match *self {
            ValueJson::Null => JsonView::Null,
            ValueJson::String(s) => JsonView::Text(s@),
        }
    }
}

/// The view of an optional JSON value.
pub open spec fn json_option(v: Option<ValueJson>) -> Option<JsonView> {
    match v {
        Some(j) => Some(j@),
        None => None,
    }
}

/// The view of an optional text.
pub open spec fn text_option(v: Option<String>) -> Option<Seq<char>> {
    match v {
        Some(s) => Some(s@),
        None => None,
    }
}

/// What an [`ErrorDetail`] says.
pub struct DetailView {
    pub kind: Seq<char>,
    pub message: Seq<char>,
    pub key: Option<Seq<char>>,
    pub expected: Option<JsonView>,
    pub actual: Option<JsonView>,
}

impl View for ErrorDetail {
    type V = DetailView;

    open spec fn view(&self) -> DetailView {
        DetailView {
            kind: self.kind@,
            message: self.message@,
            key: text_option(self.key),
            expected: json_option(self.expected),
            actual: json_option(self.actual),
        }
    }
}

/// How bytes are rendered: valid UTF-8 as text, else base64 with a `base64:` prefix.
pub open spec fn rendered(v: Seq<u8>) -> Seq<char> {
    if vstd::utf8::valid_utf8(v) {
        vstd::utf8::decode_utf8(v)
    } else {
        "base64:"@ + text::base64_text(v)
    }
}

/// How an optional value is rendered.
pub open spec fn rendered_option(v: Option<Seq<u8>>) -> JsonView {
    match v {
        None => JsonView::Null,
        Some(b) => JsonView::Text(rendered(b)),
    }
}

/// A text that an `expected` field takes for base64.
pub open spec fn taken_for_base64(s: Seq<char>) -> bool {
    "base64:"@.is_prefix_of(s) && text::base64_decoded(s.skip("base64:"@.len() as int)) is Ok
}

/// Render bytes for JSON output: valid UTF-8 as text, else base64 with a `base64:` prefix. An
/// `expected` field with what is rendered stands for the bytes again, unless they are a text that
/// is taken for base64.
pub fn render_value(v: &[u8]) -> (r: String)
    ensures
        r@ == rendered(v@),
        !(vstd::utf8::valid_utf8(v@) && taken_for_base64(r@)) ==> expected_value(
            Some(JsonView::Text(r@)),
        ) == Some(v@),
{
    match text::utf8_text(v) {
        Some(s) => {
            proof {
                vstd::utf8::decode_utf8_encode_utf8(v@);
            }
            s
        },
        None => {
            let mut s = "base64:".to_string();
            let encoded = text::encode_base64(v);
            s.append(encoded.as_str());
            proof {
                let n = "base64:"@.len() as int;
                assert(s@.take(n) =~= "base64:"@);
                assert(s@.skip(n) =~= encoded@);
            }
            s
        },
    }
}

/// A value that is there, as JSON.
pub fn value_json(v: &[u8]) -> (r: ValueJson)
    ensures
        r@ == JsonView::Text(rendered(v@)),
{
    ValueJson::String(render_value(v))
}

impl ValueJson {
    /// A value that may be there, as JSON.
    pub fn of(v: &Option<Vec<u8>>) -> (r: Option<ValueJson>)
        ensures
            json_option(r) == Some(rendered_option(error::bytes_option(*v))),
    {
        Some(
            match v {
                None => ValueJson::Null,
                Some(b) => value_json(b.as_slice()),
            },
        )
    }
}

/// Error type used by handlers.
#[derive(Debug)]
pub enum AppError {
    BadRequest(String),
    Store(StoreError),
}

/// What an [`AppError`] says.
pub enum AppFault {
    BadRequest(Seq<char>),
    Store(StoreFault),
}

impl View for AppError {
    type V = AppFault;

    open spec fn view(&self) -> AppFault {
        match *self {
            AppError::BadRequest(m) => AppFault::BadRequest(m@),
            AppError::Store(e) => AppFault::Store(e@),
        }
    }
}

impl From<StoreError> for AppError {
    fn from(e: StoreError) -> (r: AppError) {
        AppError::Store(e)
    }
}

impl FromSpecImpl<StoreError> for AppError {
    open spec fn obeys_from_spec() -> bool {
        true
    }

    open spec fn from_spec(e: StoreError) -> AppError {
        AppError::Store(e)
    }
}

/// The HTTP status of an error.
pub open spec fn fault_status(e: AppFault) -> u16 {
    match e {
        AppFault::BadRequest(_) => 400,
        AppFault::Store(StoreFault::CasConflict { .. }) => 409,
        AppFault::Store(StoreFault::CompactionInProgress) => 409,
        AppFault::Store(StoreFault::Corruption(_)) => 500,
        AppFault::Store(StoreFault::Io) => 500,
        AppFault::Store(_) => 400,
    }
}

/// What is answered to an error. The message of an I/O error ends in the system's own words.
pub open spec fn fault_detail(e: AppFault) -> DetailView {
    match e {
        AppFault::BadRequest(message) => DetailView {
            kind: "invalid_request"@,
            message,
            key: None,
            expected: None,
            actual: None,
        },
        AppFault::Store(StoreFault::CasConflict { key, expected, actual }) => DetailView {
            kind: "cas_conflict"@,
            message: "compare-and-swap conflict on key '"@ + error::lossy(key)
                + "': current value does not match expected"@,
            key: Some(error::lossy(key)),
            expected: Some(rendered_option(expected)),
            actual: Some(rendered_option(actual)),
        },
        AppFault::Store(f) => DetailView {
            kind: error::store_kind(f),
            message: error::store_message(f),
            key: None,
            expected: None,
            actual: None,
        },
    }
}

impl AppError {
    /// HTTP status of the error.
    pub fn status(&self) -> (r: u16)
        ensures
            r == fault_status(self@),
    {
        match self {
            AppError::BadRequest(_) => 400,
            AppError::Store(e) => match e {
                StoreError::CasConflict { .. } => 409,
                StoreError::CompactionInProgress => 409,
                StoreError::EmptyKey => 400,
                StoreError::KeyTooLarge { .. } => 400,
                StoreError::ValueTooLarge { .. } => 400,
                StoreError::EmptyTransaction => 400,
                StoreError::TransactionTooLarge { .. } => 400,
                StoreError::DuplicateKeyInTransaction { .. } => 400,
                StoreError::Corruption(_) => 500,
                StoreError::Io(_) => 500,
            },
        }
    }

    /// What is answered to the error: its HTTP status and its body.
    pub fn into_response(&self) -> (r: (u16, ErrorBody))
        ensures
            r.0 == fault_status(self@),
            self@ != AppFault::Store(StoreFault::Io) ==> r.1.error@ == fault_detail(self@),
            self@ == AppFault::Store(StoreFault::Io) ==> {
                &&& fault_detail(self@).message.is_prefix_of(r.1.error@.message)
                &&& r.1.error@ == (DetailView {
                    message: r.1.error@.message,
                    ..fault_detail(self@)
                })
            },
    {
        let detail = match self {
            AppError::BadRequest(message) => ErrorDetail {
                kind: "invalid_request".to_string(),
                message: message.clone(),
                key: None,
                expected: None,
                actual: None,
            },
            AppError::Store(StoreError::CasConflict { key, expected, actual }) => {
                let name = error::lossy_text(key.as_slice());
                let mut s = "compare-and-swap conflict on key '".to_string();
                s.append(name.as_str());
                s.append("': current value does not match expected");
                ErrorDetail {
                    kind: "cas_conflict".to_string(),
                    message: s,
                    key: Some(name),
                    expected: ValueJson::of(expected),
                    actual: ValueJson::of(actual),
                }
            },
            AppError::Store(e) => ErrorDetail {
                kind: e.kind().to_string(),
                message: e.message(),
                key: None,
                expected: None,
                actual: None,
            },
        };
        (self.status(), ErrorBody { error: detail })
    }
}

/// What is answered where no endpoint is.
pub open spec fn not_found_detail() -> DetailView {
    DetailView {
        kind: "not_found"@,
        message: "no such endpoint"@,
        key: None,
        expected: None,
        actual: None,
    }
}

/// What is answered where no endpoint is: the HTTP status and the body.
pub fn fallback() -> (r: (u16, ErrorBody))
    ensures
        r.0 == 404,
        r.1.error@ == not_found_detail(),
{
    (
        404,
        ErrorBody {
            error: ErrorDetail {
                kind: "not_found".to_string(),
                message: "no such endpoint".to_string(),
                key: None,
                expected: None,
                actual: None,
            },
        },
    )
}

/// The error of a body that is empty, or that is no JSON of the form expected.
pub fn body_error(parse_message: Option<&str>) -> (r: AppError)
    ensures
        r@ == AppFault::BadRequest(
            match parse_message {
                None => "request body must not be empty"@,
                Some(m) => "invalid JSON body: "@ + m@,
            },
        ),
{
    match parse_message {
        None => AppError::BadRequest("request body must not be empty".to_string()),
        Some(m) => {
            let mut s = "invalid JSON body: ".to_string();
            s.append(m);
            AppError::BadRequest(s)
        },
    }
}

// ---- request values --------------------------------------------------

/// The value that a body gives as text or as base64, of which exactly one is there.
pub open spec fn given_value(v: Option<Seq<char>>, b64: Option<Seq<char>>) -> Result<
    Seq<u8>,
    AppFault,
> {
    match (v, b64) {
        (Some(s), None) => Ok(vstd::utf8::encode_utf8(s)),
        (None, Some(s)) => match text::base64_decoded(text::trimmed(s)) {
            Ok(bytes) => Ok(bytes),
            Err(e) => Err(AppFault::BadRequest("invalid base64 value: "@ + e)),
        },
        (None, None) => Err(
            AppFault::BadRequest("body must contain exactly one of 'value' or 'value_base64'"@),
        ),
        (Some(_), Some(_)) => Err(
            AppFault::BadRequest("'value' and 'value_base64' are mutually exclusive"@),
        ),
    }
}

/// The value that an expectation gives: none for null, base64 behind `base64:` where it is base64,
/// and the text itself otherwise.
pub open spec fn expected_value(v: Option<JsonView>) -> Option<Seq<u8>> {
    match v {
        Some(JsonView::Text(s)) => if taken_for_base64(s) {
            Some(text::base64_decoded(s.skip("base64:"@.len() as int))->Ok_0)
        } else {
            Some(vstd::utf8::encode_utf8(s))
        },
        _ => None,
    }
}

/// What [`decode_value`] returns once the base64 engine has answered.
pub fn value_from(decoded: Result<Vec<u8>, String>) -> (r: Result<Vec<u8>, AppError>)
    ensures
        match (decoded, r) {
            (Ok(bytes), Ok(v)) => v@ == bytes@,
            (Err(m), Err(e)) => e@ == AppFault::BadRequest("invalid base64 value: "@ + m@),
            _ => false,
        },
{
    match decoded {
        Ok(bytes) => Ok(bytes),
        Err(e) => {
            let mut s = "invalid base64 value: ".to_string();
            s.append(e.as_str());
            Err(AppError::BadRequest(s))
        },
    }
}

/// The value of a request, as text or as base64.
pub fn decode_value(v: &Option<String>, b64: &Option<String>) -> (r: Result<Vec<u8>, AppError>)
    ensures
        match r {
            Ok(bytes) => given_value(text_option(*v), text_option(*b64)) == Ok::<_, AppFault>(
                bytes@,
            ),
            Err(e) => given_value(text_option(*v), text_option(*b64)) == Err::<Seq<u8>, _>(e@),
        },
{
    match (v, b64) {
        (Some(s), None) => Ok(s.as_str().as_bytes_vec()),
        (None, Some(s)) => value_from(text::decode_base64(text::trim(s.as_str()))),
        (None, None) => Err(
            AppError::BadRequest(
                "body must contain exactly one of 'value' or 'value_base64'".to_string(),
            ),
        ),
        (Some(_), Some(_)) => Err(
            AppError::BadRequest("'value' and 'value_base64' are mutually exclusive".to_string()),
        ),
    }
}

/// The value that a request expects a key to have.
pub fn decode_expected(v: &Option<ValueJson>) -> (r: Option<Vec<u8>>)
    ensures
        error::bytes_option(r) == expected_value(json_option(*v)),
{
    match v {
        None => None,
        Some(ValueJson::Null) => None,
        Some(ValueJson::String(s)) => match text::strip_prefix(s.as_str(), "base64:") {
            Some(rest) => match text::decode_base64(rest) {
                Ok(decoded) => Some(decoded),
                Err(_) => Some(s.as_str().as_bytes_vec()),
            },
            None => Some(s.as_str().as_bytes_vec()),
        },
    }
}

/// Body of a write.
#[derive(Debug, Clone)]
pub struct ValueBody {
    pub value: Option<String>,
    pub value_base64: Option<String>,
}

/// Body of a compare-and-swap. `expected` is required and explicit: null means that the key must be
/// absent.
#[derive(Debug, Clone)]
pub struct CasBody {
    pub expected: Option<ValueJson>,
    pub value: Option<String>,
    pub value_base64: Option<String>,
}

/// One operation in the body of a transaction.
#[derive(Debug, Clone)]
pub struct OpBody {
    pub op: String,
    pub key: String,
    pub value: Option<String>,
    pub value_base64: Option<String>,
    pub expected: Option<ValueJson>,
}

/// Body of a transaction.
#[derive(Debug, Clone)]
pub struct TxnBody {
    pub ops: Vec<OpBody>,
}

/// The operation that a write asks for.
pub fn put_op(key: &str, body: &ValueBody) -> (r: Result<Op, AppError>)
    ensures
        match (given_value(text_option(body.value), text_option(body.value_base64)), r) {
            (Ok(value), Ok(op)) => op@ == (OpView::Put { key: key.spec_bytes(), value }),
            (Err(f), Err(e)) => e@ == f,
            _ => false,
        },
{
    match decode_value(&body.value, &body.value_base64) {
        Ok(value) => Ok(Op::Put { key: key.as_bytes_vec(), value }),
        Err(e) => Err(e),
    }
}

/// The operation that a compare-and-swap asks for.
pub fn cas_op(key: &str, body: &CasBody) -> (r: Result<Op, AppError>)
    ensures
        match r {
            Ok(op) => {
                let value = given_value(text_option(body.value), text_option(body.value_base64));
                &&& body.expected is Some
                &&& value is Ok
                &&& op@ == (OpView::Cas {
                    key: key.spec_bytes(),
                    expected: expected_value(json_option(body.expected)),
                    value: value->Ok_0,
                })
            },
            Err(e) => if body.expected is None {
                e@ == AppFault::BadRequest("CAS body must contain 'expected' (string or null)"@)
            } else {
                given_value(text_option(body.value), text_option(body.value_base64)) == Err::<
                    Seq<u8>,
                    _,
                >(e@)
            },
        },
{
    if body.expected.is_none() {
        return Err(
            AppError::BadRequest("CAS body must contain 'expected' (string or null)".to_string()),
        );
    }
    let expected = decode_expected(&body.expected);
    match decode_value(&body.value, &body.value_base64) {
        Ok(value) => Ok(Op::Cas { key: key.as_bytes_vec(), expected, value }),
        Err(e) => Err(e),
    }
}

/// The operation that one element of a transaction asks for, or what is wrong with it.
pub open spec fn asked_op(ob: OpBody) -> Result<OpView, AppFault> {
    let key = vstd::utf8::encode_utf8(ob.key@);
    let value = given_value(text_option(ob.value), text_option(ob.value_base64));
    if ob.op@ == "put"@ {
        match value {
            Ok(value) => Ok(OpView::Put { key, value }),
            Err(e) => Err(e),
        }
    } else if ob.op@ == "delete"@ {
        if ob.value is Some || ob.value_base64 is Some {
            Err(AppFault::BadRequest("delete operations must not carry a value"@))
        } else {
            Ok(OpView::Delete { key })
        }
    } else if ob.op@ == "cas"@ {
        if ob.expected is None {
            Err(AppFault::BadRequest("cas operation requires 'expected' (string or null)"@))
        } else {
            match value {
                Ok(value) => Ok(
                    OpView::Cas { key, expected: expected_value(json_option(ob.expected)), value },
                ),
                Err(e) => Err(e),
            }
        }
    } else {
        Err(
            AppFault::BadRequest(
                "unknown op "@ + text::quoted(ob.op@) + "; expected put, delete or cas"@,
            ),
        )
    }
}

/// The operations that the elements of a transaction ask for, or what is wrong with the first that
/// is no operation.
pub open spec fn asked_ops(obs: Seq<OpBody>) -> Result<Seq<OpView>, AppFault>
    decreases obs.len(),
{
    if obs.len() == 0 {
        Ok(Seq::empty())
    } else {
        match asked_ops(obs.drop_last()) {
            Err(e) => Err(e),
            Ok(before) => match asked_op(obs.last()) {
                Ok(op) => Ok(before.push(op)),
                Err(e) => Err(e),
            },
        }
    }
}

proof fn lemma_asked_ops_stops(obs: Seq<OpBody>, n: int)
    requires
        0 <= n <= obs.len(),
        asked_ops(obs.take(n)) is Err,
    ensures
        asked_ops(obs) == asked_ops(obs.take(n)),
    decreases obs.len() - n,
{
    if n < obs.len() {
        assert(obs.take(n + 1).drop_last() =~= obs.take(n));
        lemma_asked_ops_stops(obs, n + 1);
    } else {
        assert(obs.take(n) =~= obs);
    }
}

fn parse_op(ob: &OpBody) -> (r: Result<Op, AppError>)
    ensures
        match r {
            Ok(op) => asked_op(*ob) == Ok::<_, AppFault>(op@),
            Err(e) => asked_op(*ob) == Err::<OpView, _>(e@),
        },
{
    let key = ob.key.as_str().as_bytes_vec();
    if text::same_text(ob.op.as_str(), "put") {
        match decode_value(&ob.value, &ob.value_base64) {
            Ok(value) => Ok(Op::Put { key, value }),
            Err(e) => Err(e),
        }
    } else if text::same_text(ob.op.as_str(), "delete") {
        if ob.value.is_some() || ob.value_base64.is_some() {
            return Err(
                AppError::BadRequest("delete operations must not carry a value".to_string()),
            );
        }
        Ok(Op::Delete { key })
    } else if text::same_text(ob.op.as_str(), "cas") {
        if ob.expected.is_none() {
            return Err(
                AppError::BadRequest(
                    "cas operation requires 'expected' (string or null)".to_string(),
                ),
            );
        }
        let expected = decode_expected(&ob.expected);
        match decode_value(&ob.value, &ob.value_base64) {
            Ok(value) => Ok(Op::Cas { key, expected, value }),
            Err(e) => Err(e),
        }
    } else {
        let mut s = "unknown op ".to_string();
        s.append(text::quoted_text(ob.op.as_str()).as_str());
        s.append("; expected put, delete or cas");
        Err(AppError::BadRequest(s))
    }
}

/// The operations that the body of a transaction asks for.
pub fn txn_ops(body: &TxnBody) -> (r: Result<Vec<Op>, AppError>)
    ensures
        match r {
            Ok(ops) => asked_ops(body.ops@) == Ok::<_, AppFault>(table::op_views(ops@)),
            Err(e) => asked_ops(body.ops@) == Err::<Seq<OpView>, _>(e@),
        },
{
    let mut ops: Vec<Op> = Vec::new();
    let mut i: usize = 0;
    assert(body.ops@.take(0) =~= Seq::empty());
    assert(table::op_views(ops@) =~= Seq::empty());
    while i < body.ops.len()
        invariant
            i <= body.ops@.len(),
            asked_ops(body.ops@.take(i as int)) == Ok::<_, AppFault>(table::op_views(ops@)),
        decreases body.ops@.len() - i,
    {
        proof {
            assert(body.ops@.take(i + 1).drop_last() =~= body.ops@.take(i as int));
            assert(body.ops@.take(i + 1).last() == body.ops@[i as int]);
        }
        match parse_op(&body.ops[i]) {
            Ok(op) => {
                let ghost before = table::op_views(ops@);
                ops.push(op);
                assert(table::op_views(ops@) =~= before.push(op@));
            },
            Err(e) => {
                proof {
                    lemma_asked_ops_stops(body.ops@, i + 1);
                }
                return Err(e);
            },
        }
        i += 1;
    }
    assert(body.ops@.take(i as int) =~= body.ops@);
    Ok(ops)
}

// ---- responses -------------------------------------------------------

/// Answer to the read of one key.
#[derive(Debug)]
pub struct ValuePayload {
    pub key: String,
    pub found: bool,
    pub value: ValueJson,
    pub version: Option<u64>,
    pub read_lsn: u64,
}

/// The answer to the read of a key: its entry, if it is there, and the position of the read.
pub fn value_payload(key: &str, entry: &Option<Entry>, read_lsn: u64) -> (r: ValuePayload)
    ensures
        r.key@ == key@,
        r.read_lsn == read_lsn,
        match *entry {
            Some(e) => r.found && r.value@ == JsonView::Text(rendered(e.value@)) && r.version
                == Some(e.version),
            None => !r.found && r.value@ == JsonView::Null && r.version is None,
        },
{
    match entry {
        Some(e) => ValuePayload {
            key: key.to_string(),
            found: true,
            value: value_json(e.value.as_slice()),
            version: Some(e.version),
            read_lsn,
        },
        None => ValuePayload {
            key: key.to_string(),
            found: false,
            value: ValueJson::Null,
            version: None,
            read_lsn,
        },
    }
}

/// Reads one key.
pub fn get_key(table: &Table, limits: &Limits, key: &str) -> (r: Result<ValuePayload, AppError>)
    requires
        table.wf(),
    ensures
        match r {
            Ok(p) => {
                let k = key.spec_bytes();
                let m = table@.entries;
                &&& table::key_fault(*limits, k) is None
                &&& p.key@ == key@
                &&& p.found == m.dom().contains(k)
                &&& p.value@ == rendered_option(table::value_in(m, k))
                &&& p.version == if m.dom().contains(k) {
                    Some(m[k].version)
                } else {
                    None
                }
                &&& p.read_lsn == table@.lsn
            },
            Err(e) => e@ is Store && table::key_fault(*limits, key.spec_bytes()) == Some(
                e@->Store_0,
            ),
        },
{
    match table.get(limits, key.as_bytes()) {
        Ok((entry, lsn)) => Ok(value_payload(key, &entry, lsn)),
        Err(e) => Err(AppError::Store(e)),
    }
}

/// Answer to the write of one key.
#[derive(Debug, Clone, Copy)]
pub struct CommitResponse {
    pub lsn: u64,
    pub version: u64,
    /// For put: value replaced an existing key; for delete: key existed; for cas: an existing value
    /// was overwritten.
    pub changed: bool,
}

/// The answer to a transaction of one operation.
pub fn commit_response(out: &TxnOutcome) -> (r: CommitResponse)
    requires
        out.effects@.len() > 0,
    ensures
        r.lsn == out.lsn,
        match out.effects@[0] {
            OpEffect::Put { version, replaced, .. } => r.version == version && r.changed
                == replaced,
            OpEffect::Delete { existed, .. } => r.version == out.lsn && r.changed == existed,
            OpEffect::Cas { version, replaced, .. } => r.version == version && r.changed
                == replaced,
        },
{
    match &out.effects[0] {
        OpEffect::Put { version, replaced, .. } => CommitResponse {
            lsn: out.lsn,
            version: *version,
            changed: *replaced,
        },
        OpEffect::Delete { existed, .. } => CommitResponse {
            lsn: out.lsn,
            version: out.lsn,
            changed: *existed,
        },
        OpEffect::Cas { version, replaced, .. } => CommitResponse {
            lsn: out.lsn,
            version: *version,
            changed: *replaced,
        },
    }
}

/// What one operation of a transaction did.
#[derive(Debug)]
pub struct EffectPayload {
    pub op: &'static str,
    pub key: String,
    pub version: Option<u64>,
    /// Whether the operation changed existing state.
    pub changed: bool,
    /// Whether the key already held a value (put/cas only).
    pub replaced: bool,
}

/// What an [`EffectPayload`] says.
pub struct EffectPayloadView {
    pub op: Seq<char>,
    pub key: Seq<char>,
    pub version: Option<u64>,
    pub changed: bool,
    pub replaced: bool,
}

impl View for EffectPayload {
    type V = EffectPayloadView;

    open spec fn view(&self) -> EffectPayloadView {
        EffectPayloadView {
            op: self.op@,
            key: self.key@,
            version: self.version,
            changed: self.changed,
            replaced: self.replaced,
        }
    }
}

/// How an effect is reported.
pub open spec fn reported(e: EffectView) -> EffectPayloadView {
    match e {
        EffectView::Put { key, version, replaced } => EffectPayloadView {
            op: "put"@,
            key: error::lossy(key),
            version: Some(version),
            changed: true,
            replaced,
        },
        EffectView::Delete { key, existed } => EffectPayloadView {
            op: "delete"@,
            key: error::lossy(key),
            version: None,
            changed: existed,
            replaced: false,
        },
        EffectView::Cas { key, version, replaced } => EffectPayloadView {
            op: "cas"@,
            key: error::lossy(key),
            version: Some(version),
            changed: true,
            replaced,
        },
    }
}

fn effect_payload(e: &OpEffect) -> (r: EffectPayload)
    ensures
        r@ == reported(e@),
{
    match e {
        OpEffect::Put { key, version, replaced } => EffectPayload {
            op: "put",
            key: error::lossy_text(key.as_slice()),
            version: Some(*version),
            changed: true,
            replaced: *replaced,
        },
        OpEffect::Delete { key, existed } => EffectPayload {
            op: "delete",
            key: error::lossy_text(key.as_slice()),
            version: None,
            changed: *existed,
            replaced: false,
        },
        OpEffect::Cas { key, version, replaced } => EffectPayload {
            op: "cas",
            key: error::lossy_text(key.as_slice()),
            version: Some(*version),
            changed: true,
            replaced: *replaced,
        },
    }
}

/// Answer to a transaction.
#[derive(Debug)]
pub struct TxnResponse {
    pub lsn: u64,
    pub effects: Vec<EffectPayload>,
}

/// The answer to a transaction.
pub fn txn_response(out: &TxnOutcome) -> (r: TxnResponse)
    ensures
        r.lsn == out.lsn,
        r.effects@.len() == out.effects@.len(),
        forall|i: int|
            0 <= i < out.effects@.len() ==> (#[trigger] r.effects@[i])@ == reported(
                out.effects@[i]@,
            ),
{
    let mut effects: Vec<EffectPayload> = Vec::new();
    let mut i: usize = 0;
    while i < out.effects.len()
        invariant
            i <= out.effects@.len(),
            effects@.len() == i,
            forall|j: int|
                0 <= j < i ==> (#[trigger] effects@[j])@ == reported(out.effects@[j]@),
        decreases out.effects@.len() - i,
    {
        effects.push(effect_payload(&out.effects[i]));
        i += 1;
    }
    TxnResponse { lsn: out.lsn, effects }
}

// ---- scans -----------------------------------------------------------

/// Parameters of a scan.
#[derive(Debug, Clone)]
pub struct ScanParams {
    pub prefix: Option<String>,
    pub start: Option<String>,
    pub end: Option<String>,
    pub end_inclusive: bool,
    pub start_exclusive: bool,
    pub limit: Option<usize>,
}

/// The most entries that a scan returns.
pub open spec fn scan_limit(p: ScanParams) -> nat {
    match p.limit {
        None => DEFAULT_SCAN_LIMIT as nat,
        Some(n) => if n < MAX_SCAN_LIMIT {
            n as nat
        } else {
            MAX_SCAN_LIMIT as nat
        },
    }
}

/// The lower end of the range that the parameters ask for.
pub open spec fn scan_start(p: ScanParams) -> BoundView {
    let k = vstd::utf8::encode_utf8(p.start->Some_0@);
    if p.start_exclusive {
        BoundView::Excluded(k)
    } else {
        BoundView::Included(k)
    }
}

/// The upper end of the range that the parameters ask for.
pub open spec fn scan_end(p: ScanParams) -> BoundView {
    match p.end {
        Some(e) => if p.end_inclusive {
            BoundView::Included(vstd::utf8::encode_utf8(e@))
        } else {
            BoundView::Excluded(vstd::utf8::encode_utf8(e@))
        },
        None => BoundView::Unbounded,
    }
}

/// The keys that a scan looks at, or what is wrong with its parameters.
pub open spec fn scan_keys(p: ScanParams, keys: Set<Seq<u8>>) -> Result<Set<Seq<u8>>, AppFault> {
    if p.limit == Some(0usize) {
        Err(AppFault::BadRequest("limit must be >= 1"@))
    } else if p.prefix is Some && p.start is Some {
        Err(AppFault::BadRequest("'prefix' and 'start' are mutually exclusive"@))
    } else if p.prefix is Some {
        Ok(keymap::keys_with_prefix(keys, vstd::utf8::encode_utf8(p.prefix->Some_0@)))
    } else if p.start is Some {
        Ok(keymap::keys_in_range(keys, scan_start(p), scan_end(p)))
    } else {
        Err(AppFault::BadRequest("scan requires 'prefix' or 'start'"@))
    }
}

/// One entry of a scan.
#[derive(Debug)]
pub struct EntryPayload {
    pub key: String,
    pub value: ValueJson,
    pub version: u64,
}

/// What an [`EntryPayload`] says.
pub struct EntryPayloadView {
    pub key: Seq<char>,
    pub value: JsonView,
    pub version: u64,
}

impl View for EntryPayload {
    type V = EntryPayloadView;

    open spec fn view(&self) -> EntryPayloadView {
        EntryPayloadView { key: self.key@, value: self.value@, version: self.version }
    }
}

/// How an entry is listed.
pub open spec fn listed(e: (Seq<u8>, EntryView)) -> EntryPayloadView {
    EntryPayloadView {
        key: error::lossy(e.0),
        value: JsonView::Text(rendered(e.1.value)),
        version: e.1.version,
    }
}

/// The views of the entries of a scan.
pub open spec fn payload_views(v: Seq<EntryPayload>) -> Seq<EntryPayloadView> {
    v.map_values(|e: EntryPayload| e@)
}

/// Answer to a scan.
#[derive(Debug)]
pub struct ScanResponse {
    pub read_lsn: u64,
    pub count: usize,
    pub entries: Vec<EntryPayload>,
}

/// The answer to a scan that read some entries.
pub fn scan_response(found: &Vec<(Vec<u8>, Entry)>, read_lsn: u64) -> (r: ScanResponse)
    ensures
        r.read_lsn == read_lsn,
        r.count == found@.len(),
        payload_views(r.entries@) == table::listing(found@).map_values(
            |e: (Seq<u8>, EntryView)| listed(e),
        ),
{
    let mut entries: Vec<EntryPayload> = Vec::new();
    let mut i: usize = 0;
    while i < found.len()
        invariant
            i <= found@.len(),
            entries@.len() == i,
            forall|j: int|
                0 <= j < i ==> (#[trigger] entries@[j])@ == listed((found@[j].0@, found@[j].1@)),
        decreases found@.len() - i,
    {
        let e = &found[i];
        entries.push(
            EntryPayload {
                key: error::lossy_text(e.0.as_slice()),
                value: value_json(e.1.value.as_slice()),
                version: e.1.version,
            },
        );
        i += 1;
    }
    proof {
        assert(payload_views(entries@) =~= table::listing(found@).map_values(
            |e: (Seq<u8>, EntryView)| listed(e),
        ));
    }
    ScanResponse { read_lsn, count: entries.len(), entries }
}

/// Scans the table by prefix or by range.
pub fn scan(table: &Table, params: &ScanParams) -> (r: Result<ScanResponse, AppError>)
    requires
        table.wf(),
    ensures
        match (scan_keys(*params, table@.entries.dom()), r) {
            (Ok(keys), Ok(s)) => {
                let found = table::first_entries(table@.entries, keys, scan_limit(*params));
                &&& s.read_lsn == table@.lsn
                &&& s.count == found.len()
                &&& payload_views(s.entries@) == found.map_values(
                    |e: (Seq<u8>, EntryView)| listed(e),
                )
            },
            (Err(f), Err(e)) => e@ == f,
            _ => false,
        },
{
    let limit: usize = match params.limit {
        None => DEFAULT_SCAN_LIMIT,
        Some(n) => {
            if n == 0 {
                return Err(AppError::BadRequest("limit must be >= 1".to_string()));
            }
            if n < MAX_SCAN_LIMIT {
                n
            } else {
                MAX_SCAN_LIMIT
            }
        },
    };
    let (found, read_lsn) = match (&params.prefix, &params.start) {
        (Some(_), Some(_)) => {
            return Err(
                AppError::BadRequest("'prefix' and 'start' are mutually exclusive".to_string()),
            );
        },
        (Some(prefix), None) => table.scan_prefix(prefix.as_str().as_bytes(), limit),
        (None, Some(start)) => {
            let lo = if params.start_exclusive {
                KeyBound::Excluded(start.as_str().as_bytes_vec())
            } else {
                KeyBound::Included(start.as_str().as_bytes_vec())
            };
            let hi = match &params.end {
                Some(e) => if params.end_inclusive {
                    KeyBound::Included(e.as_str().as_bytes_vec())
                } else {
                    KeyBound::Excluded(e.as_str().as_bytes_vec())
                },
                None => KeyBound::Unbounded,
            };
            table.scan_range(&lo, &hi, limit)
        },
        (None, None) => {
            return Err(AppError::BadRequest("scan requires 'prefix' or 'start'".to_string()));
        },
    };
    assert(table::listing(found@).len() == found@.len());
    Ok(scan_response(&found, read_lsn))
}

// ---- status ----------------------------------------------------------

/// The limits that are in force.
#[derive(Debug, Clone, Copy)]
pub struct LimitsPayload {
    pub max_key_bytes: usize,
    pub max_value_bytes: usize,
    pub max_ops_per_txn: usize,
}

/// Answer to a question for the status.
#[derive(Debug, Clone, Copy)]
pub struct StatusResponse {
    pub key_count: usize,
    pub lsn: u64,
    pub snapshot_lsn: u64,
    pub wal_total_bytes: u64,
    pub wal_active_segment: u64,
    pub compacting: bool,
    pub limits: LimitsPayload,
}

/// Answer to a call for a compaction.
#[derive(Debug, Clone, Copy)]
pub struct CompactResponse {
    pub started: bool,
    pub snapshot_lsn: Option<u64>,
}

/// The status of a store.
pub fn status_response(store: &Engine) -> (r: StatusResponse)
    requires
        store.wf(),
    ensures
        r.key_count == store.table@.entries.dom().len(),
        r.lsn == store.table@.lsn,
        r.snapshot_lsn == store.table@.snapshot_lsn,
        r.wal_total_bytes == store.wal@.total_bytes,
        r.wal_active_segment == store.wal@.active_index,
        r.compacting == store.compacting,
        r.limits == (LimitsPayload {
            max_key_bytes: store.limits.max_key_bytes,
            max_value_bytes: store.limits.max_value_bytes,
            max_ops_per_txn: store.limits.max_ops_per_txn,
        }),
{
    StatusResponse {
        key_count: store.table.key_count(),
        lsn: store.table.lsn(),
        snapshot_lsn: store.table.snapshot_lsn(),
        wal_total_bytes: store.wal.total_bytes(),
        wal_active_segment: store.wal.active_index(),
        compacting: store.compacting,
        limits: LimitsPayload {
            max_key_bytes: store.limits.max_key_bytes,
            max_value_bytes: store.limits.max_value_bytes,
            max_ops_per_txn: store.limits.max_ops_per_txn,
        },
    }
}

/// The answer to a call for a compaction; the LSN is known where the caller waited for it.
pub fn compact_response(snapshot_lsn: Option<u64>) -> (r: CompactResponse)
    ensures
        r.started,
        r.snapshot_lsn == snapshot_lsn,
{
    CompactResponse { started: true, snapshot_lsn }
}

} // verus!
