//! Structured error types used across the store.
//!
//! Every error has a stable, machine-readable identifier (`kind` or `code`), so that callers can
//! tell failures apart without reading messages.

use crate::text;
use vstd::prelude::*;
use vstd::std_specs::convert::FromSpecImpl;
use vstd::string::*;

verus! {

/// An operating-system level failure, carried through as it came.
#[verifier::external_type_specification]
#[verifier::external_body]
pub struct ExIoError(std::io::Error);

/// What `String::from_utf8_lossy` makes of a byte string.
pub uninterp spec fn lossy(bytes: Seq<u8>) -> Seq<char>;

/// Calls `String::from_utf8_lossy`. The result depends on the bytes alone, and bytes that are
/// valid UTF-8 become the text they encode.
#[verifier::external_body]
pub(crate) fn lossy_text(bytes: &[u8]) -> (r: String)
    ensures
        r@ == lossy(bytes@),
        vstd::utf8::valid_utf8(bytes@) ==> r@ == vstd::utf8::decode_utf8(bytes@),
{
    String::from_utf8_lossy(bytes).into_owned()
}

/// Calls `to_string` of `std::io::Error`. The text is the system's own, so nothing is said of it.
#[verifier::external_body]
pub(crate) fn io_error_text(e: &std::io::Error) -> (r: String) {
    e.to_string()
}

/// All errors produced by storage, WAL and configuration code.
#[derive(Debug)]
pub enum StoreError {
    /// Key is empty.
    EmptyKey,
    /// Key exceeds the configured `max_key_bytes`.
    KeyTooLarge { size: usize, max: usize },
    /// Value exceeds the configured `max_value_bytes`.
    ValueTooLarge { size: usize, max: usize },
    /// A transaction was submitted with zero operations.
    EmptyTransaction,
    /// A transaction contains more operations than `max_ops_per_txn`.
    TransactionTooLarge { count: usize, max: usize },
    /// A transaction touches the same key twice.
    DuplicateKeyInTransaction { key: Vec<u8> },
    /// A compare-and-swap check failed: the current value is not the expected value. Both values are
    /// base64-encoded for display.
    CasConflict { key: Vec<u8>, expected: Option<Vec<u8>>, actual: Option<Vec<u8>> },
    /// A compaction/snapshot is already in progress.
    CompactionInProgress,
    /// Persistent data on disk is corrupt.
    Corruption(String),
    /// An operating-system level I/O failure.
    Io(std::io::Error),
}

/// What a [`StoreError`] says.
pub enum StoreFault {
    EmptyKey,
    KeyTooLarge { size: nat, max: nat },
    ValueTooLarge { size: nat, max: nat },
    EmptyTransaction,
    TransactionTooLarge { count: nat, max: nat },
    DuplicateKeyInTransaction { key: Seq<u8> },
    CasConflict { key: Seq<u8>, expected: Option<Seq<u8>>, actual: Option<Seq<u8>> },
    CompactionInProgress,
    Corruption(Seq<char>),
    Io,
}

/// The view of an optional byte string.
pub open spec fn bytes_option(v: Option<Vec<u8>>) -> Option<Seq<u8>> {
    match v {
        Some(b) => Some(b@),
        None => None,
    }
}

impl View for StoreError {
    type V = StoreFault;

    open spec fn view(&self) -> StoreFault {
        match *self {
            StoreError::EmptyKey => StoreFault::EmptyKey,
            StoreError::KeyTooLarge { size, max } => StoreFault::KeyTooLarge {
                size: size as nat,
                max: max as nat,
            },
            StoreError::ValueTooLarge { size, max } => StoreFault::ValueTooLarge {
                size: size as nat,
                max: max as nat,
            },
            StoreError::EmptyTransaction => StoreFault::EmptyTransaction,
            StoreError::TransactionTooLarge { count, max } => StoreFault::TransactionTooLarge {
                count: count as nat,
                max: max as nat,
            },
            StoreError::DuplicateKeyInTransaction { key } => StoreFault::DuplicateKeyInTransaction {
                key: key@,
            },
            StoreError::CasConflict { key, expected, actual } => StoreFault::CasConflict {
                key: key@,
                expected: bytes_option(expected),
                actual: bytes_option(actual),
            },
            StoreError::CompactionInProgress => StoreFault::CompactionInProgress,
            StoreError::Corruption(message) => StoreFault::Corruption(message@),
            StoreError::Io(e) => StoreFault::Io,
        }
    }
}

/// The identifier of each error.
pub open spec fn store_kind(e: StoreFault) -> Seq<char> {
    match e {
        StoreFault::EmptyKey => "empty_key"@,
        StoreFault::KeyTooLarge { .. } => "key_too_large"@,
        StoreFault::ValueTooLarge { .. } => "value_too_large"@,
        StoreFault::EmptyTransaction => "empty_transaction"@,
        StoreFault::TransactionTooLarge { .. } => "transaction_too_large"@,
        StoreFault::DuplicateKeyInTransaction { .. } => "duplicate_key_in_transaction"@,
        StoreFault::CasConflict { .. } => "cas_conflict"@,
        StoreFault::CompactionInProgress => "compaction_in_progress"@,
        StoreFault::Corruption(_) => "corruption"@,
        StoreFault::Io => "io_error"@,
    }
}

/// How a value is shown in a conflict message: in base64.
pub open spec fn value_mention(v: Option<Seq<u8>>) -> Seq<char> {
    match v {
        None => "<absent>"@,
        Some(b) => text::base64_text(b),
    }
}

/// The message of each error whose text the store decides; the one of an I/O error ends in the
/// system's own words.
pub open spec fn store_message(e: StoreFault) -> Seq<char> {
    match e {
        StoreFault::EmptyKey => "key must not be empty"@,
        StoreFault::KeyTooLarge { size, max } => "key size "@ + text::decimal(size)
            + " bytes exceeds the configured maximum of "@ + text::decimal(max) + " bytes"@,
        StoreFault::ValueTooLarge { size, max } => "value size "@ + text::decimal(size)
            + " bytes exceeds the configured maximum of "@ + text::decimal(max) + " bytes"@,
        StoreFault::EmptyTransaction => "transaction must contain at least one operation"@,
        StoreFault::TransactionTooLarge { count, max } => "transaction contains "@ + text::decimal(
            count,
        ) + " operations, maximum allowed is "@ + text::decimal(max),
        StoreFault::DuplicateKeyInTransaction { key } =>
            "transaction contains multiple operations for the same key: "@ + lossy(key),
        StoreFault::CasConflict { key, expected, actual } =>
            "compare-and-swap conflict on key '"@ + lossy(key) + "': expected "@ + value_mention(
            expected,
        ) + ", actual "@ + value_mention(actual),
        StoreFault::CompactionInProgress => "a snapshot/compaction is already in progress"@,
        StoreFault::Corruption(message) => "persistent data is corrupt: "@ + message,
        StoreFault::Io => "I/O error: "@,
    }
}

fn fmt_ov(v: &Option<Vec<u8>>) -> (r: String)
    ensures
        r@ == value_mention(bytes_option(*v)),
{
    match v {
        None => "<absent>".to_string(),
        Some(v) => text::encode_base64(v.as_slice()),
    }
}

impl StoreError {
    /// Stable error kind identifier used in structured error responses.
    pub fn kind(&self) -> (r: &'static str)
        ensures
            r@ == store_kind(self@),
    {
        match self {
            StoreError::EmptyKey => "empty_key",
            StoreError::KeyTooLarge { .. } => "key_too_large",
            StoreError::ValueTooLarge { .. } => "value_too_large",
            StoreError::EmptyTransaction => "empty_transaction",
            StoreError::TransactionTooLarge { .. } => "transaction_too_large",
            StoreError::DuplicateKeyInTransaction { .. } => "duplicate_key_in_transaction",
            StoreError::CasConflict { .. } => "cas_conflict",
            StoreError::CompactionInProgress => "compaction_in_progress",
            StoreError::Corruption(_) => "corruption",
            StoreError::Io(_) => "io_error",
        }
    }

    /// The message for people.
    pub fn message(&self) -> (r: String)
        ensures
            self@ !is Io ==> r@ == store_message(self@),
            self@ is Io ==> store_message(self@).is_prefix_of(r@),
    {
        let mut s = String::new();
        match self {
            StoreError::EmptyKey => {
                s.append("key must not be empty");
            },
            StoreError::KeyTooLarge { size, max } => {
                s.append("key size ");
                s.append(text::size_text(*size).as_str());
                s.append(" bytes exceeds the configured maximum of ");
                s.append(text::size_text(*max).as_str());
                s.append(" bytes");
            },
            StoreError::ValueTooLarge { size, max } => {
                s.append("value size ");
                s.append(text::size_text(*size).as_str());
                s.append(" bytes exceeds the configured maximum of ");
                s.append(text::size_text(*max).as_str());
                s.append(" bytes");
            },
            StoreError::EmptyTransaction => {
                s.append("transaction must contain at least one operation");
            },
            StoreError::TransactionTooLarge { count, max } => {
                s.append("transaction contains ");
                s.append(text::size_text(*count).as_str());
                s.append(" operations, maximum allowed is ");
                s.append(text::size_text(*max).as_str());
            },
            StoreError::DuplicateKeyInTransaction { key } => {
                s.append("transaction contains multiple operations for the same key: ");
                s.append(lossy_text(key.as_slice()).as_str());
            },
            StoreError::CasConflict { key, expected, actual } => {
                s.append("compare-and-swap conflict on key '");
                s.append(lossy_text(key.as_slice()).as_str());
                s.append("': expected ");
                s.append(fmt_ov(expected).as_str());
                s.append(", actual ");
                s.append(fmt_ov(actual).as_str());
            },
            StoreError::CompactionInProgress => {
                s.append("a snapshot/compaction is already in progress");
            },
            StoreError::Corruption(message) => {
                s.append("persistent data is corrupt: ");
                s.append(message.as_str());
            },
            StoreError::Io(e) => {
                s.append("I/O error: ");
                s.append(io_error_text(e).as_str());
            },
        }
        assert(self@ !is Io ==> s@ =~= store_message(self@));
        assert(self@ is Io ==> store_message(self@) =~= s@.take(store_message(self@).len() as int));
        s
    }
}

impl From<std::io::Error> for StoreError {
    fn from(e: std::io::Error) -> (r: StoreError) {
        StoreError::Io(e)
    }
}

impl FromSpecImpl<std::io::Error> for StoreError {
    open spec fn obeys_from_spec() -> bool {
        true
    }

    open spec fn from_spec(e: std::io::Error) -> StoreError {
        StoreError::Io(e)
    }
}

/// All errors of the versioned store, its configuration and its HTTP interface.
#[derive(Debug)]
pub enum KvError {
    /// A configuration value is not acceptable.
    InvalidConfig(String),
    /// Key is empty.
    EmptyKey,
    /// Key exceeds the configured `max_key_bytes`.
    KeyTooLarge { size: usize, limit: usize },
    /// Value exceeds the configured `max_value_bytes`.
    ValueTooLarge { size: usize, limit: usize },
    /// A transaction was submitted with zero operations.
    EmptyTransaction,
    /// A transaction contains more operations than `max_txn_ops`.
    TooManyOperations { count: usize, limit: usize },
    /// A transaction touches the same key twice.
    ContradictoryKey(String),
    /// A compare-and-swap condition does not hold.
    CasConflict(String),
    /// The key has no value at the position that was read.
    KeyNotFound(String),
    /// The position that was asked for has not been committed yet.
    VersionNotFound(u64),
    /// The log on disk is corrupt.
    CorruptWal { offset: u64, message: String },
    /// The snapshot on disk is corrupt.
    CorruptSnapshot(String),
    /// A request that cannot be understood.
    InvalidRequest(String),
    /// A field that should hold base64 does not.
    InvalidBase64 { field: String, message: String },
    /// No such endpoint.
    RouteNotFound(String),
    /// An operating-system level I/O failure.
    Io(std::io::Error),
}

/// What a [`KvError`] says.
pub enum KvFault {
    InvalidConfig(Seq<char>),
    EmptyKey,
    KeyTooLarge { size: nat, limit: nat },
    ValueTooLarge { size: nat, limit: nat },
    EmptyTransaction,
    TooManyOperations { count: nat, limit: nat },
    ContradictoryKey(Seq<char>),
    CasConflict(Seq<char>),
    KeyNotFound(Seq<char>),
    VersionNotFound(u64),
    CorruptWal { offset: u64, message: Seq<char> },
    CorruptSnapshot(Seq<char>),
    InvalidRequest(Seq<char>),
    InvalidBase64 { field: Seq<char>, message: Seq<char> },
    RouteNotFound(Seq<char>),
    Io,
}

impl View for KvError {
    type V = KvFault;

    open spec fn view(&self) -> KvFault {
        match *self {
            KvError::InvalidConfig(m) => KvFault::InvalidConfig(m@),
            KvError::EmptyKey => KvFault::EmptyKey,
            KvError::KeyTooLarge { size, limit } => KvFault::KeyTooLarge {
                size: size as nat,
                limit: limit as nat,
            },
            KvError::ValueTooLarge { size, limit } => KvFault::ValueTooLarge {
                size: size as nat,
                limit: limit as nat,
            },
            KvError::EmptyTransaction => KvFault::EmptyTransaction,
            KvError::TooManyOperations { count, limit } => KvFault::TooManyOperations {
                count: count as nat,
                limit: limit as nat,
            },
            KvError::ContradictoryKey(k) => KvFault::ContradictoryKey(k@),
            KvError::CasConflict(k) => KvFault::CasConflict(k@),
            KvError::KeyNotFound(k) => KvFault::KeyNotFound(k@),
            KvError::VersionNotFound(lsn) => KvFault::VersionNotFound(lsn),
            KvError::CorruptWal { offset, message } => KvFault::CorruptWal {
                offset,
                message: message@,
            },
            KvError::CorruptSnapshot(m) => KvFault::CorruptSnapshot(m@),
            KvError::InvalidRequest(m) => KvFault::InvalidRequest(m@),
            KvError::InvalidBase64 { field, message } => KvFault::InvalidBase64 {
                field: field@,
                message: message@,
            },
            KvError::RouteNotFound(r) => KvFault::RouteNotFound(r@),
            KvError::Io(e) => KvFault::Io,
        }
    }
}

/// The code of each error.
pub open spec fn kv_code(e: KvFault) -> Seq<char> {
    match e {
        KvFault::InvalidConfig(_) => "INVALID_CONFIG"@,
        KvFault::EmptyKey => "EMPTY_KEY"@,
        KvFault::KeyTooLarge { .. } => "KEY_TOO_LARGE"@,
        KvFault::ValueTooLarge { .. } => "VALUE_TOO_LARGE"@,
        KvFault::EmptyTransaction => "EMPTY_TRANSACTION"@,
        KvFault::TooManyOperations { .. } => "TOO_MANY_OPERATIONS"@,
        KvFault::ContradictoryKey(_) => "CONTRADICTORY_KEY"@,
        KvFault::CasConflict(_) => "CAS_CONFLICT"@,
        KvFault::KeyNotFound(_) => "KEY_NOT_FOUND"@,
        KvFault::VersionNotFound(_) => "VERSION_NOT_FOUND"@,
        KvFault::CorruptWal { .. } => "CORRUPT_WAL"@,
        KvFault::CorruptSnapshot(_) => "CORRUPT_SNAPSHOT"@,
        KvFault::InvalidRequest(_) => "INVALID_REQUEST"@,
        KvFault::InvalidBase64 { .. } => "INVALID_BASE64"@,
        KvFault::RouteNotFound(_) => "ROUTE_NOT_FOUND"@,
        KvFault::Io => "IO_ERROR"@,
    }
}

/// The HTTP status of each error.
pub open spec fn kv_status(e: KvFault) -> u16 {
    match e {
        KvFault::KeyNotFound(_) => 404,
        KvFault::VersionNotFound(_) => 404,
        KvFault::RouteNotFound(_) => 404,
        KvFault::CasConflict(_) => 409,
        KvFault::InvalidConfig(_) => 500,
        KvFault::CorruptWal { .. } => 500,
        KvFault::CorruptSnapshot(_) => 500,
        KvFault::Io => 500,
        _ => 400,
    }
}

/// The message of each error whose text the store decides; the one of an I/O error ends in the
/// system's own words.
pub open spec fn kv_message(e: KvFault) -> Seq<char> {
    match e {
        KvFault::InvalidConfig(m) => "invalid configuration: "@ + m,
        KvFault::EmptyKey => "key must not be empty"@,
        KvFault::KeyTooLarge { size, limit } => "key size "@ + text::decimal(size)
            + " exceeds the limit of "@ + text::decimal(limit) + " bytes"@,
        KvFault::ValueTooLarge { size, limit } => "value size "@ + text::decimal(size)
            + " exceeds the limit of "@ + text::decimal(limit) + " bytes"@,
        KvFault::EmptyTransaction => "transaction must contain at least one operation"@,
        KvFault::TooManyOperations { count, limit } => "transaction contains "@ + text::decimal(
            count,
        ) + " operations, the limit is "@ + text::decimal(limit),
        KvFault::ContradictoryKey(k) => "transaction touches key more than once: "@ + k,
        KvFault::CasConflict(k) => "compare-and-swap conflict on key: "@ + k,
        KvFault::KeyNotFound(k) => "key not found: "@ + k,
        KvFault::VersionNotFound(lsn) => "log position not committed yet: "@ + text::decimal(
            lsn as nat,
        ),
        KvFault::CorruptWal { offset, message } => "corrupt WAL at offset "@ + text::decimal(
            offset as nat,
        ) + ": "@ + message,
        KvFault::CorruptSnapshot(m) => "corrupt snapshot: "@ + m,
        KvFault::InvalidRequest(m) => "invalid request: "@ + m,
        KvFault::InvalidBase64 { field, message } => "invalid base64 in "@ + field + ": "@
            + message,
        KvFault::RouteNotFound(r) => "route not found: "@ + r,
        KvFault::Io => "I/O error: "@,
    }
}

impl KvError {
    /// Stable error code used in structured error responses.
    pub fn code(&self) -> (r: &'static str)
        ensures
            r@ == kv_code(self@),
    {
        match self {
            KvError::InvalidConfig(_) => "INVALID_CONFIG",
            KvError::EmptyKey => "EMPTY_KEY",
            KvError::KeyTooLarge { .. } => "KEY_TOO_LARGE",
            KvError::ValueTooLarge { .. } => "VALUE_TOO_LARGE",
            KvError::EmptyTransaction => "EMPTY_TRANSACTION",
            KvError::TooManyOperations { .. } => "TOO_MANY_OPERATIONS",
            KvError::ContradictoryKey(_) => "CONTRADICTORY_KEY",
            KvError::CasConflict(_) => "CAS_CONFLICT",
            KvError::KeyNotFound(_) => "KEY_NOT_FOUND",
            KvError::VersionNotFound(_) => "VERSION_NOT_FOUND",
            KvError::CorruptWal { .. } => "CORRUPT_WAL",
            KvError::CorruptSnapshot(_) => "CORRUPT_SNAPSHOT",
            KvError::InvalidRequest(_) => "INVALID_REQUEST",
            KvError::InvalidBase64 { .. } => "INVALID_BASE64",
            KvError::RouteNotFound(_) => "ROUTE_NOT_FOUND",
            KvError::Io(_) => "IO_ERROR",
        }
    }

    /// HTTP status of the error.
    pub fn status(&self) -> (r: u16)
        ensures
            r == kv_status(self@),
    {
        match self {
            KvError::KeyNotFound(_) => 404,
            KvError::VersionNotFound(_) => 404,
            KvError::RouteNotFound(_) => 404,
            KvError::CasConflict(_) => 409,
            KvError::InvalidConfig(_) => 500,
            KvError::CorruptWal { .. } => 500,
            KvError::CorruptSnapshot(_) => 500,
            KvError::Io(_) => 500,
            _ => 400,
        }
    }

    /// The message for people.
    pub fn message(&self) -> (r: String)
        ensures
            self@ !is Io ==> r@ == kv_message(self@),
            self@ is Io ==> kv_message(self@).is_prefix_of(r@),
    {
        let mut s = String::new();
        match self {
            KvError::InvalidConfig(m) => {
                s.append("invalid configuration: ");
                s.append(m.as_str());
            },
            KvError::EmptyKey => {
                s.append("key must not be empty");
            },
            KvError::KeyTooLarge { size, limit } => {
                s.append("key size ");
                s.append(text::size_text(*size).as_str());
                s.append(" exceeds the limit of ");
                s.append(text::size_text(*limit).as_str());
                s.append(" bytes");
            },
            KvError::ValueTooLarge { size, limit } => {
                s.append("value size ");
                s.append(text::size_text(*size).as_str());
                s.append(" exceeds the limit of ");
                s.append(text::size_text(*limit).as_str());
                s.append(" bytes");
            },
            KvError::EmptyTransaction => {
                s.append("transaction must contain at least one operation");
            },
            KvError::TooManyOperations { count, limit } => {
                s.append("transaction contains ");
                s.append(text::size_text(*count).as_str());
                s.append(" operations, the limit is ");
                s.append(text::size_text(*limit).as_str());
            },
            KvError::ContradictoryKey(k) => {
                s.append("transaction touches key more than once: ");
                s.append(k.as_str());
            },
            KvError::CasConflict(k) => {
                s.append("compare-and-swap conflict on key: ");
                s.append(k.as_str());
            },
            KvError::KeyNotFound(k) => {
                s.append("key not found: ");
                s.append(k.as_str());
            },
            KvError::VersionNotFound(lsn) => {
                s.append("log position not committed yet: ");
                s.append(text::number_text(*lsn).as_str());
            },
            KvError::CorruptWal { offset, message } => {
                s.append("corrupt WAL at offset ");
                s.append(text::number_text(*offset).as_str());
                s.append(": ");
                s.append(message.as_str());
            },
            KvError::CorruptSnapshot(m) => {
                s.append("corrupt snapshot: ");
                s.append(m.as_str());
            },
            KvError::InvalidRequest(m) => {
                s.append("invalid request: ");
                s.append(m.as_str());
            },
            KvError::InvalidBase64 { field, message } => {
                s.append("invalid base64 in ");
                s.append(field.as_str());
                s.append(": ");
                s.append(message.as_str());
            },
            KvError::RouteNotFound(r) => {
                s.append("route not found: ");
                s.append(r.as_str());
            },
            KvError::Io(e) => {
                s.append("I/O error: ");
                s.append(io_error_text(e).as_str());
            },
        }
        assert(self@ !is Io ==> s@ =~= kv_message(self@));
        assert(self@ is Io ==> kv_message(self@) =~= s@.take(kv_message(self@).len() as int));
        s
    }
}

impl From<std::io::Error> for KvError {
    fn from(e: std::io::Error) -> (r: KvError) {
        KvError::Io(e)
    }
}

impl FromSpecImpl<std::io::Error> for KvError {
    open spec fn obeys_from_spec() -> bool {
        true
    }

    open spec fn from_spec(e: std::io::Error) -> KvError {
        KvError::Io(e)
    }
}

/// Result alias used throughout the crate.
pub type Result<T> = std::result::Result<T, StoreError>;

} // verus!
