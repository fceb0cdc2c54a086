//! The two HTTP interfaces: what requests mean and what is answered.

use kvstore::api::{self, AppError, CasBody, OpBody, ScanParams, TxnBody, ValueBody, ValueJson};
use kvstore::engine::Engine;
use kvstore::error::{KvError, StoreError};
use kvstore::metrics::Metrics;
use kvstore::server::{self, BodyFault, BytesField, CasReq, PutReq, RangeReq, TxnOpReq, TxnReq};
use kvstore::store::{Op, OpEffect, Store, WalOp};
use kvstore::table::{Limits, TxnOutcome};

// ---- the key table ----

#[test]
fn render_text_and_binary() {
    assert_eq!(api::render_value(b"hello"), "hello");
    assert!(api::render_value(&[0xff, 0xfe]).starts_with("base64:"));
}

#[test]
fn rendered_values_read_back() {
    assert_eq!(api::render_value(&[0xff, 0xfe]), "base64://4=");
    for v in [&b""[..], b"text", "\u{e9}".as_bytes(), &[0xff, 0xfe], &[0x80; 9], b"base64:?"] {
        let rendered = ValueJson::String(api::render_value(v));
        assert_eq!(api::decode_expected(&Some(rendered)), Some(v.to_vec()));
    }
    // A text that looks like base64 is taken for it.
    let rendered = ValueJson::String(api::render_value(b"base64:AA=="));
    assert_eq!(api::decode_expected(&Some(rendered)), Some(vec![0]));
    assert_eq!(api::decode_expected(&None), None);
    assert_eq!(api::decode_expected(&Some(ValueJson::Null)), None);
}

fn value(text: Option<&str>, b64: Option<&str>) -> Result<Vec<u8>, String> {
    api::decode_value(&text.map(String::from), &b64.map(String::from)).map_err(|e| match e {
        AppError::BadRequest(m) => m,
        AppError::Store(e) => panic!("{e:?}"),
    })
}

#[test]
fn request_values() {
    assert_eq!(value(Some("hi"), None), Ok(b"hi".to_vec()));
    assert_eq!(value(None, Some(" aGVsbG8=\n")), Ok(b"hello".to_vec()));
    assert_eq!(
        value(None, Some("aGVsbG8")),
        Err("invalid base64 value: Invalid padding".into())
    );
    assert_eq!(
        value(None, Some("a!")),
        Err("invalid base64 value: Invalid symbol 33, offset 1.".into())
    );
    assert_eq!(
        value(None, None),
        Err("body must contain exactly one of 'value' or 'value_base64'".into())
    );
    assert_eq!(
        value(Some("x"), Some("eA==")),
        Err("'value' and 'value_base64' are mutually exclusive".into())
    );
}

/// A store in memory that answers as the service does.
struct Service {
    engine: Engine,
    metrics: Metrics,
}

fn service() -> Service {
    let limits = Limits {
        max_key_bytes: 64 * 1024,
        max_value_bytes: 16 * 1024 * 1024,
        max_ops_per_txn: 1024,
    };
    let (engine, records) = Engine::open("m", "m/s", None, vec![], limits, 4 * 1024 * 1024).unwrap();
    assert!(records.is_empty());
    Service {
        engine,
        metrics: Metrics::default(),
    }
}

impl Service {
    fn commit(&mut self, ops: Vec<Op>) -> Result<TxnOutcome, AppError> {
        let (pending, plan) = self.engine.prepare(&ops).map_err(AppError::from)?;
        self.metrics.commits_total += 1;
        Ok(self.engine.commit(pending, plan.frame.len() as u64).0)
    }

    fn put(&mut self, key: &str, body: ValueBody) -> Result<api::CommitResponse, AppError> {
        let op = api::put_op(key, &body)?;
        Ok(api::commit_response(&self.commit(vec![op])?))
    }

    fn cas(
        &mut self,
        key: &str,
        expected: Option<ValueJson>,
        value: &str,
    ) -> Result<api::CommitResponse, AppError> {
        let op = api::cas_op(
            key,
            &CasBody {
                expected,
                value: Some(value.to_string()),
                value_base64: None,
            },
        )?;
        Ok(api::commit_response(&self.commit(vec![op])?))
    }

    fn txn(&mut self, ops: Vec<OpBody>) -> Result<api::TxnResponse, AppError> {
        let ops = api::txn_ops(&TxnBody { ops })?;
        Ok(api::txn_response(&self.commit(ops)?))
    }

    fn get(&self, key: &str) -> api::ValuePayload {
        api::get_key(&self.engine.table, &self.engine.limits, key).unwrap()
    }
}

fn text(v: &str) -> ValueBody {
    ValueBody {
        value: Some(v.to_string()),
        value_base64: None,
    }
}

fn json(v: &str) -> Option<ValueJson> {
    Some(ValueJson::String(v.to_string()))
}

fn op(op: &str, key: &str, value: Option<&str>, expected: Option<ValueJson>) -> OpBody {
    OpBody {
        op: op.to_string(),
        key: key.to_string(),
        value: value.map(String::from),
        value_base64: None,
        expected,
    }
}

fn scan(prefix: Option<&str>, start: Option<&str>, end: Option<&str>) -> ScanParams {
    ScanParams {
        prefix: prefix.map(String::from),
        start: start.map(String::from),
        end: end.map(String::from),
        end_inclusive: false,
        start_exclusive: false,
        limit: None,
    }
}

fn shown(v: &ValueJson) -> Option<&str> {
    match v {
        ValueJson::Null => None,
        ValueJson::String(s) => Some(s),
    }
}

#[test]
fn full_http_workflow() {
    let mut app = service();

    // A missing key is found to be absent.
    let j = app.get("missing");
    assert_eq!(j.found, false);
    assert_eq!(shown(&j.value), None);
    assert_eq!(j.read_lsn, 0);

    // Put.
    let j = app.put("a", text("1")).unwrap();
    assert_eq!(j.lsn, 1);

    // Get it back.
    let j = app.get("a");
    assert_eq!(j.found, true);
    assert_eq!(shown(&j.value), Some("1"));
    assert_eq!(j.version, Some(1));

    // CAS mismatch -> 409 structured conflict.
    let (status, body) = app.cas("a", json("wrong"), "2").unwrap_err().into_response();
    assert_eq!(status, 409);
    assert_eq!(body.error.kind, "cas_conflict");
    assert_eq!(
        body.error.message,
        "compare-and-swap conflict on key 'a': current value does not match expected"
    );
    assert_eq!(shown(body.error.expected.as_ref().unwrap()), Some("wrong"));
    assert_eq!(shown(body.error.actual.as_ref().unwrap()), Some("1"));
    assert_eq!(body.error.key.as_deref(), Some("a"));

    // CAS match.
    let j = app.cas("a", json("1"), "2").unwrap();
    assert_eq!(j.version, 2);

    // Explicit JSON null means "key must be absent".
    let j = app.cas("fresh", Some(ValueJson::Null), "born").unwrap();
    assert_eq!(j.version, 3);
    // Repeating the absent-expectation now conflicts.
    let (status, body) = app
        .cas("fresh", Some(ValueJson::Null), "again")
        .unwrap_err()
        .into_response();
    assert_eq!(status, 409);
    assert_eq!(body.error.kind, "cas_conflict");
    assert_eq!(shown(body.error.expected.as_ref().unwrap()), None);
    assert_eq!(shown(body.error.actual.as_ref().unwrap()), Some("born"));

    // Atomic transaction: both ops commit together.
    let j = app
        .txn(vec![
            op("put", "b", Some("10"), None),
            op("cas", "a", Some("3"), json("2")),
        ])
        .unwrap();
    assert_eq!(j.lsn, 4);
    assert_eq!(j.effects.len(), 2);
    assert_eq!((j.effects[0].op, j.effects[1].op), ("put", "cas"));

    // Aborting transaction: b is "10", expected mismatch -> nothing applied.
    let (status, body) = app
        .txn(vec![
            op("put", "c", Some("x"), None),
            op("cas", "b", Some("11"), json("999")),
        ])
        .unwrap_err()
        .into_response();
    assert_eq!(status, 409);
    assert_eq!(body.error.kind, "cas_conflict");
    assert_eq!(app.get("c").found, false);

    // Prefix scan.
    let j = api::scan(&app.engine.table, &scan(Some("a"), None, None)).unwrap();
    assert_eq!(j.count, 1);
    assert_eq!(j.entries[0].key, "a");
    assert_eq!(shown(&j.entries[0].value), Some("3"));

    // Delete.
    let out = app
        .commit(vec![Op::Delete {
            key: b"b".to_vec(),
        }])
        .unwrap();
    let j = api::commit_response(&out);
    assert_eq!(j.changed, true);
    assert_eq!((j.lsn, j.version), (5, 5));

    // Status + metrics. The failed CAS attempts consumed no LSN.
    let j = api::status_response(&app.engine);
    assert_eq!(j.lsn, 5);
    assert_eq!(j.key_count, 2);
    assert_eq!(j.limits.max_ops_per_txn, 1024);
    assert_eq!(j.wal_active_segment, 1);
    assert!(j.wal_total_bytes > 0);

    app.metrics.observe(&j);
    let raw = app.metrics.render_prometheus("0.000001", "0.000000");
    assert!(raw.contains("kvstore_lsn 5"));
    assert!(raw.contains("kvstore_commits_total 5"));
}

fn bad_request<T>(r: Result<T, AppError>) -> String {
    match r {
        Err(e) => {
            let (status, body) = e.into_response();
            assert_eq!(status, 400);
            body.error.kind + ": " + &body.error.message
        }
        Ok(_) => panic!("a bad request was accepted"),
    }
}

#[test]
fn structured_validation_errors() {
    let mut app = service();

    // Empty body, malformed JSON.
    let (status, body) = api::body_error(None).into_response();
    assert_eq!(status, 400);
    assert_eq!(body.error.kind, "invalid_request");
    assert_eq!(body.error.message, "request body must not be empty");
    let (_, body) = api::body_error(Some("expected value")).into_response();
    assert_eq!(body.error.message, "invalid JSON body: expected value");

    // Missing value field.
    let empty = ValueBody {
        value: None,
        value_base64: None,
    };
    assert!(bad_request(app.put("a", empty)).starts_with("invalid_request"));

    // Empty transaction.
    assert_eq!(
        bad_request(app.txn(vec![])),
        "empty_transaction: transaction must contain at least one operation"
    );

    // Duplicate key in transaction.
    let twice = vec![op("put", "k", Some("1"), None), op("delete", "k", None, None)];
    assert_eq!(
        bad_request(app.txn(twice)),
        "duplicate_key_in_transaction: transaction contains multiple operations for the same key: k"
    );

    // CAS without explicit expected.
    assert_eq!(
        bad_request(app.cas("k", None, "1")),
        "invalid_request: CAS body must contain 'expected' (string or null)"
    );
    assert_eq!(
        bad_request(app.txn(vec![op("cas", "k", Some("1"), None)])),
        "invalid_request: cas operation requires 'expected' (string or null)"
    );

    // Unknown op type.
    assert_eq!(
        bad_request(app.txn(vec![op("frobnicate", "k", None, None)])),
        "invalid_request: unknown op \"frobnicate\"; expected put, delete or cas"
    );
    assert_eq!(
        bad_request(app.txn(vec![op("delete", "k", Some("1"), None)])),
        "invalid_request: delete operations must not carry a value"
    );

    // Scan without parameters, with both, and with no room.
    let t = &app.engine.table;
    assert_eq!(
        bad_request(api::scan(t, &scan(None, None, Some("x")))),
        "invalid_request: scan requires 'prefix' or 'start'"
    );
    assert_eq!(
        bad_request(api::scan(t, &scan(Some("a"), Some("b"), None))),
        "invalid_request: 'prefix' and 'start' are mutually exclusive"
    );
    let mut none = scan(None, None, None);
    none.limit = Some(0);
    assert_eq!(
        bad_request(api::scan(t, &none)),
        "invalid_request: limit must be >= 1"
    );

    // Empty key.
    let r = api::get_key(t, &app.engine.limits, "");
    assert_eq!(bad_request(r), "empty_key: key must not be empty");

    // Unknown endpoint.
    let (status, body) = api::fallback();
    assert_eq!(status, 404);
    assert_eq!(body.error.kind, "not_found");
    assert_eq!(body.error.message, "no such endpoint");
}

#[test]
fn range_scan_and_compaction_endpoint() {
    let mut app = service();
    for k in ["a1", "a2", "b1"] {
        app.put(k, text("v")).unwrap();
    }
    let keys = |p: &ScanParams| {
        let r = api::scan(&app.engine.table, p).unwrap();
        assert_eq!(r.read_lsn, 3);
        assert_eq!(r.count, r.entries.len());
        r.entries.into_iter().map(|e| e.key).collect::<Vec<String>>()
    };
    let mut p = scan(None, Some("a1"), Some("b1"));
    assert_eq!(keys(&p), vec!["a1".to_string(), "a2".to_string()]);
    p.end_inclusive = true;
    assert_eq!(keys(&p).len(), 3);
    p.start_exclusive = true;
    assert_eq!(keys(&p), vec!["a2".to_string(), "b1".to_string()]);
    p.limit = Some(1);
    assert_eq!(keys(&p), vec!["a2".to_string()]);
    p.limit = Some(usize::MAX);
    assert_eq!(keys(&p).len(), 2);

    let (meta, _) = app.engine.table.snapshot().unwrap();
    let j = api::compact_response(Some(meta.lsn));
    assert_eq!(j.snapshot_lsn, Some(3));
    assert!(j.started);
    assert_eq!(api::compact_response(None).snapshot_lsn, None);
}

#[test]
fn effects_as_answered() {
    let out = TxnOutcome {
        lsn: 8,
        effects: vec![
            OpEffect::Put {
                key: b"a".to_vec(),
                version: 8,
                replaced: true,
            },
            OpEffect::Delete {
                key: vec![0xff],
                existed: true,
            },
            OpEffect::Cas {
                key: b"c".to_vec(),
                version: 8,
                replaced: false,
            },
        ],
    };
    let r = api::txn_response(&out);
    assert_eq!(r.lsn, 8);
    let line = |i: usize| {
        let e = &r.effects[i];
        (e.op, e.key.as_str(), e.version, e.changed, e.replaced)
    };
    assert_eq!(line(0), ("put", "a", Some(8), true, true));
    assert_eq!(line(1), ("delete", "\u{fffd}", None, true, false));
    assert_eq!(line(2), ("cas", "c", Some(8), true, false));
}

#[test]
fn store_error_kinds_messages_and_statuses() {
    let io = || std::io::Error::new(std::io::ErrorKind::Other, "disk gone");
    let cases = [
        (StoreError::EmptyKey, "empty_key", 400, "key must not be empty"),
        (
            StoreError::KeyTooLarge { size: 5, max: 4 },
            "key_too_large",
            400,
            "key size 5 bytes exceeds the configured maximum of 4 bytes",
        ),
        (
            StoreError::ValueTooLarge { size: 9, max: 8 },
            "value_too_large",
            400,
            "value size 9 bytes exceeds the configured maximum of 8 bytes",
        ),
        (
            StoreError::EmptyTransaction,
            "empty_transaction",
            400,
            "transaction must contain at least one operation",
        ),
        (
            StoreError::TransactionTooLarge { count: 3, max: 2 },
            "transaction_too_large",
            400,
            "transaction contains 3 operations, maximum allowed is 2",
        ),
        (
            StoreError::DuplicateKeyInTransaction { key: b"k\xff".to_vec() },
            "duplicate_key_in_transaction",
            400,
            "transaction contains multiple operations for the same key: k\u{fffd}",
        ),
        (
            StoreError::CasConflict {
                key: b"k".to_vec(),
                expected: Some(vec![1, 2, 3]),
                actual: None,
            },
            "cas_conflict",
            409,
            "compare-and-swap conflict on key 'k': expected AQID, actual <absent>",
        ),
        (
            StoreError::CasConflict {
                key: b"a".to_vec(),
                expected: Some(b"70".to_vec()),
                actual: Some(b"71".to_vec()),
            },
            "cas_conflict",
            409,
            "compare-and-swap conflict on key 'a': expected NzA=, actual NzE=",
        ),
        (
            StoreError::CompactionInProgress,
            "compaction_in_progress",
            409,
            "a snapshot/compaction is already in progress",
        ),
        (
            StoreError::Corruption("x".into()),
            "corruption",
            500,
            "persistent data is corrupt: x",
        ),
        (StoreError::from(io()), "io_error", 500, "I/O error: disk gone"),
    ];
    for (e, kind, status, message) in cases {
        assert_eq!(e.kind(), kind);
        assert_eq!(e.message(), message);
        let app = AppError::from(e);
        assert_eq!(app.status(), status);
        assert_eq!(app.into_response().1.error.kind, kind);
    }
}

#[test]
fn prometheus_page() {
    let mut m = Metrics::default();
    for status in [200, 204, 404, 409, 500, 302] {
        m.record_status(status);
    }
    m.requests_by_status_2xx = u64::MAX;
    m.record_status(299);
    assert_eq!(m.requests_total, 7);
    assert_eq!(m.requests_by_status_2xx, 0);
    assert_eq!(m.requests_by_status_4xx, 2);
    assert_eq!(m.requests_by_status_5xx, 2);
    m.snapshot_bytes_written_total = 11;
    let page = m.render_prometheus("1.500000", "0.250000");
    assert!(page.starts_with(
        "# HELP kvstore_uptime_seconds Process uptime in seconds.\n\
         # TYPE kvstore_uptime_seconds gauge\n\
         kvstore_uptime_seconds 1.500000\n\
         # HELP kvstore_http_requests_total Total HTTP requests by status class.\n\
         # TYPE kvstore_http_requests_total counter\n\
         kvstore_http_requests_total{status_class=\"2xx\"} 0\n\
         kvstore_http_requests_total{status_class=\"4xx\"} 2\n\
         kvstore_http_requests_total{status_class=\"5xx\"} 2\n"
    ));
    assert!(page.contains("\nkvstore_snapshot_bytes_written_total 11\n"));
    assert!(page.ends_with("kvstore_last_compaction_duration_seconds 0.250000\n"));
    assert_eq!(page.lines().count(), 3 + 5 + 15 * 3 + 3);
}

// ---- the versioned store ----

fn str_field(s: &str) -> BytesField {
    BytesField::Str(s.to_string())
}

fn b64_field(s: &str) -> BytesField {
    BytesField::B64 {
        base64: s.to_string(),
    }
}

#[test]
fn byte_fields() {
    assert_eq!(str_field("h\u{e9}").into_bytes("f").unwrap(), "h\u{e9}".as_bytes());
    assert_eq!(b64_field("/wA=").into_bytes("f").unwrap(), vec![0xff, 0]);
    match b64_field("*").into_bytes("f").unwrap_err() {
        KvError::InvalidBase64 { field, message } => {
            assert_eq!(field, "f");
            assert_eq!(message, "Invalid symbol 42, offset 0.");
        }
        other => panic!("{other:?}"),
    }
    let out = server::bytes_out(b"hi");
    assert_eq!(out.text.as_deref(), Some("hi"));
    assert_eq!(out.base64, "aGk=");
    assert_eq!(out.bytes_len, 2);
    let out = server::bytes_out(&[0xff, 0]);
    assert_eq!(out.text, None);
    assert_eq!(b64_field(&out.base64).into_bytes("f").unwrap(), vec![0xff, 0]);
}

#[test]
fn single_key_requests() {
    let ops = server::put_key("k", &PutReq { value: b64_field("AQ==") }).unwrap();
    assert_eq!(ops, vec![(b"k".to_vec(), WalOp::Put(vec![1]))]);
    assert_eq!(server::delete_key("k"), vec![(b"k".to_vec(), WalOp::Delete)]);
    let ops = server::cas_key(
        "k",
        &CasReq {
            expected: None,
            value: str_field("v"),
        },
    )
    .unwrap();
    assert_eq!(
        ops,
        vec![(
            b"k".to_vec(),
            WalOp::Cas {
                expected: None,
                value: b"v".to_vec(),
            }
        )]
    );
    // The value is looked at first.
    let err = server::cas_key(
        "k",
        &CasReq {
            expected: Some(b64_field("?")),
            value: b64_field("!"),
        },
    )
    .unwrap_err();
    assert!(matches!(err, KvError::InvalidBase64 { ref field, .. } if field == "value"));
}

fn txn_op(op: &str, key: BytesField, value: Option<&str>, expected: Option<Option<BytesField>>) -> TxnOpReq {
    TxnOpReq {
        op: op.to_string(),
        key,
        value: value.map(str_field),
        expected,
    }
}

fn invalid(ops: Vec<TxnOpReq>) -> String {
    server::txn(&TxnReq { ops }).unwrap_err().message()
}

#[test]
fn transactions() {
    let ops = server::txn(&TxnReq {
        ops: vec![
            txn_op("put", str_field("a"), Some("1"), None),
            txn_op("delete", b64_field("/w=="), None, None),
            txn_op("cas", str_field("c"), Some("2"), Some(Some(str_field("0")))),
            txn_op("cas", str_field("d"), Some("3"), Some(None)),
            txn_op("cas", str_field("e"), Some("4"), None),
        ],
    })
    .unwrap();
    let cas = |expected: Option<&[u8]>, value: &[u8]| WalOp::Cas {
        expected: expected.map(|e| e.to_vec()),
        value: value.to_vec(),
    };
    assert_eq!(
        ops,
        vec![
            (b"a".to_vec(), WalOp::Put(b"1".to_vec())),
            (vec![0xff], WalOp::Delete),
            (b"c".to_vec(), cas(Some(b"0"), b"2")),
            (b"d".to_vec(), cas(None, b"3")),
            (b"e".to_vec(), cas(None, b"4")),
        ]
    );
    let fine = || txn_op("delete", str_field("x"), None, None);
    assert_eq!(
        invalid(vec![fine(), txn_op("put", str_field("a"), None, None)]),
        "invalid request: ops[1]: put requires value"
    );
    assert_eq!(
        invalid(vec![txn_op("cas", str_field("a"), None, None)]),
        "invalid request: ops[0]: cas requires value"
    );
    assert_eq!(
        invalid(vec![txn_op("inc", str_field("a"), None, None)]),
        "invalid request: ops[0]: unknown operation type \"inc\", expected put|delete|cas"
    );
    assert_eq!(
        invalid(vec![fine(), fine(), txn_op("inc", b64_field("!"), None, None)]),
        "invalid base64 in ops[2].key: Invalid symbol 33, offset 0."
    );
    assert_eq!(
        invalid(vec![txn_op("cas", str_field("a"), Some("1"), Some(Some(b64_field("!"))))]),
        "invalid base64 in ops[0].expected: Invalid symbol 33, offset 0."
    );
}

fn versioned() -> Store {
    let mut s = Store::open(kvstore::config::Config::default(), None, vec![], 0).unwrap();
    let put = |k: &str, v: &str| (k.as_bytes().to_vec(), WalOp::Put(v.as_bytes().to_vec()));
    for ops in [vec![put("a", "1"), put("b", "1")], vec![put("a", "2")]] {
        let m = s.build_mutation(ops).unwrap();
        let e = s.prepare(m).unwrap();
        let (out, start) = s.commit(&e, 100);
        let resp = server::commit_resp(&out);
        assert!(resp.committed && !start);
        assert_eq!((resp.lsn, resp.key_count), (s.last_lsn(), 2));
    }
    s
}

#[test]
fn versioned_reads() {
    let s = versioned();
    let r = server::get_key(&s, "a", None).unwrap();
    assert_eq!(r.value.text.as_deref(), Some("2"));
    assert_eq!((r.version, r.read_lsn), (2, 2));
    let r = server::get_key(&s, "a", Some("1")).unwrap();
    assert_eq!(r.value.text.as_deref(), Some("1"));
    assert_eq!((r.version, r.read_lsn), (1, 1));
    let status = |key: &str, lsn: Option<&str>| {
        let (status, body) = server::error_response(&server::get_key(&s, key, lsn).unwrap_err());
        assert_eq!(body.error, "kv_error");
        (status, body.code, body.message)
    };
    assert_eq!(
        status("zz", None),
        (404, "KEY_NOT_FOUND", "key not found: zz".to_string())
    );
    assert_eq!(
        status("a", Some("3")),
        (404, "VERSION_NOT_FOUND", "log position not committed yet: 3".to_string())
    );
    assert_eq!(
        status("", Some("-1")),
        (
            400,
            "INVALID_REQUEST",
            "invalid request: lsn must be a non-negative integer, got \"-1\"".to_string()
        )
    );
    assert_eq!(status("", None).1, "EMPTY_KEY");
}

#[test]
fn versioned_scans() {
    let s = versioned();
    let req = |start: Option<&str>, end: Option<&str>, prefix: Option<&str>| RangeReq {
        start: start.map(str_field),
        end: end.map(str_field),
        prefix: prefix.map(str_field),
        limit: None,
        at_lsn: None,
    };
    let plan = server::range_plan(&req(Some("a"), Some("b"), None)).unwrap();
    assert!(plan.in_order());
    let r = server::range_query(&s, &plan, None, Some(1)).unwrap();
    assert_eq!((r.read_lsn, r.count), (1, 1));
    assert_eq!(r.entries[0].key.base64, "YQ==");
    assert_eq!(r.entries[0].version, 1);
    let crossed = server::range_plan(&req(Some("b"), Some("a"), None)).unwrap();
    assert!(!crossed.in_order());
    // A prefix takes over from the ends.
    let plan = server::range_plan(&req(Some("b"), Some("a"), Some("b"))).unwrap();
    assert!(plan.in_order());
    let r = server::range_query(&s, &plan, Some(5), None).unwrap();
    assert_eq!(r.entries[0].key.text.as_deref(), Some("b"));
    let r = server::prefix_query(&s, "", Some(1), None).unwrap();
    assert_eq!(r.count, 1);
    assert!(matches!(
        server::prefix_query(&s, "", None, Some(7)),
        Err(KvError::VersionNotFound(7))
    ));
    let mut bad = req(None, None, Some("x"));
    bad.end = Some(b64_field("!"));
    assert!(matches!(
        server::range_plan(&bad),
        Err(KvError::InvalidBase64 { field, .. }) if field == "end"
    ));
}

#[test]
fn kv_error_codes_messages_and_statuses() {
    let io = std::io::Error::new(std::io::ErrorKind::Other, "gone");
    let cases = [
        (KvError::InvalidConfig("m".into()), "INVALID_CONFIG", 500, "invalid configuration: m"),
        (KvError::EmptyKey, "EMPTY_KEY", 400, "key must not be empty"),
        (
            KvError::KeyTooLarge { size: 2, limit: 1 },
            "KEY_TOO_LARGE",
            400,
            "key size 2 exceeds the limit of 1 bytes",
        ),
        (
            KvError::ValueTooLarge { size: 2, limit: 1 },
            "VALUE_TOO_LARGE",
            400,
            "value size 2 exceeds the limit of 1 bytes",
        ),
        (
            KvError::EmptyTransaction,
            "EMPTY_TRANSACTION",
            400,
            "transaction must contain at least one operation",
        ),
        (
            KvError::TooManyOperations { count: 2, limit: 1 },
            "TOO_MANY_OPERATIONS",
            400,
            "transaction contains 2 operations, the limit is 1",
        ),
        (
            KvError::ContradictoryKey("k".into()),
            "CONTRADICTORY_KEY",
            400,
            "transaction touches key more than once: k",
        ),
        (
            KvError::CasConflict("k".into()),
            "CAS_CONFLICT",
            409,
            "compare-and-swap conflict on key: k",
        ),
        (KvError::KeyNotFound("k".into()), "KEY_NOT_FOUND", 404, "key not found: k"),
        (
            KvError::VersionNotFound(7),
            "VERSION_NOT_FOUND",
            404,
            "log position not committed yet: 7",
        ),
        (
            KvError::CorruptWal {
                offset: 4,
                message: "m".into(),
            },
            "CORRUPT_WAL",
            500,
            "corrupt WAL at offset 4: m",
        ),
        (
            KvError::CorruptSnapshot("m".into()),
            "CORRUPT_SNAPSHOT",
            500,
            "corrupt snapshot: m",
        ),
        (
            KvError::InvalidRequest("m".into()),
            "INVALID_REQUEST",
            400,
            "invalid request: m",
        ),
        (
            KvError::InvalidBase64 {
                field: "f".into(),
                message: "m".into(),
            },
            "INVALID_BASE64",
            400,
            "invalid base64 in f: m",
        ),
        (
            server::fallback("GET", "/nope"),
            "ROUTE_NOT_FOUND",
            404,
            "route not found: GET /nope",
        ),
        (KvError::from(io), "IO_ERROR", 500, "I/O error: gone"),
    ];
    for (e, code, status, message) in cases {
        assert_eq!((e.code(), e.status()), (code, status));
        assert_eq!(e.message(), message);
    }
    assert_eq!(
        server::body_error(BodyFault::Empty).message(),
        "invalid request: request body is empty"
    );
    assert_eq!(
        server::body_error(BodyFault::Unread("x")).message(),
        "invalid request: failed reading body: x"
    );
    assert_eq!(
        server::body_error(BodyFault::NotJson("x")).message(),
        "invalid request: invalid JSON: x"
    );
}

#[test]
fn routes_and_their_counts() {
    for (path, label) in [
        ("/v1/kv/a/cas", "v1/kv"),
        ("/health", "health"),
        ("//v1//x", "v1/"),
        ("/", ""),
        ("v1/kv", "v1/kv"),
        ("/v1/", "v1/"),
        ("/\u{e9}/b/c", "\u{e9}/b"),
    ] {
        let expected = path
            .trim_start_matches('/')
            .split('/')
            .take(2)
            .collect::<Vec<_>>()
            .join("/");
        assert_eq!(label, expected);
        assert_eq!(server::route_label(path), label);
    }
    let mut m = server::Metrics::new();
    for (label, status) in [("v1/kv", 200), ("health", 503), ("v1/kv", 404)] {
        m.begin_request();
        assert_eq!(m.inflight, 1);
        m.end_request(label, status);
    }
    assert_eq!((m.requests_total, m.inflight, m.errors_5xx_total), (3, 0, 1));
    let s = versioned();
    let page = m.render(&s.status(), "2.000");
    assert!(page.starts_with(
        "# HELP kvs_requests_total Total HTTP requests.\n\
         # TYPE kvs_requests_total counter\n\
         kvs_requests_total 3\n\
         # HELP kvs_inflight_requests Requests currently being served.\n"
    ));
    assert!(page.contains("kvs_key_count 2\n"));
    assert!(page.contains("kvs_compacting 0\n"));
    assert!(page.ends_with(
        "kvs_uptime_seconds 2.000\n\
         kvs_requests_by_route_total{route=\"health\"} 1\n\
         kvs_requests_by_route_total{route=\"v1/kv\"} 2\n"
    ));
}
