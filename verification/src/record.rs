//! On-disk record types shared by the write-ahead log and snapshots.
//!
//! Records are serialized with `bincode` and embedded in length+CRC framed records (see
//! [`crate::frame`]). LSNs (log sequence numbers) are assigned per committed transaction and are
//! strictly increasing; the snapshot stores the LSN it was taken at, and recovery applies only WAL
//! records with LSNs strictly greater than that.

use crate::keymap::KeyMap;
use crate::layout;
use crate::layout::{EntrySnapshotView, HeaderView, MutationView, RecordView};
use crate::order;
use crate::table::Entry;
use crate::text;
use vstd::prelude::*;
use vstd::string::*;

verus! {

/// A single mutation applied to the key table.
///
/// Delete is modeled explicitly rather than as a tombstone value; a recreated key gets a strictly
/// higher version.
#[derive(Debug, Clone, PartialEq, Eq)]
pub enum Mutation {
    Put { key: Vec<u8>, value: Vec<u8> },
    Delete { key: Vec<u8> },
}

impl View for Mutation {
    type V = MutationView;

    open spec fn view(&self) -> MutationView {
        match *self {
            Mutation::Put { key, value } => MutationView::Put { key: key@, value: value@ },
            Mutation::Delete { key } => MutationView::Delete { key: key@ },
        }
    }
}

/// The views of a sequence of mutations.
pub open spec fn mutation_views(ms: Seq<Mutation>) -> Seq<MutationView> {
    ms.map_values(|m: Mutation| m@)
}

impl Mutation {
    /// The key that the mutation is about.
    pub fn key(&self) -> (r: &[u8])
        ensures
            r@ == layout::mutation_key(self@),
    {
        match self {
            Mutation::Put { key, .. } => key.as_slice(),
            Mutation::Delete { key } => key.as_slice(),
        }
    }

    /// Copies the mutation.
    pub fn copy(&self) -> (r: Mutation)
        ensures
            r@ == self@,
    {
        match self {
            Mutation::Put { key, value } => Mutation::Put {
                key: order::copy_bytes(key.as_slice()),
                value: order::copy_bytes(value.as_slice()),
            },
            Mutation::Delete { key } => Mutation::Delete {
                key: order::copy_bytes(key.as_slice()),
            },
        }
    }
}

/// One committed transaction as written to the WAL.
#[derive(Debug, Clone, PartialEq, Eq)]
pub struct LogRecord {
    /// Log sequence number: index of the committed transaction, starting at 1.
    pub lsn: u64,
    /// Mutations in transaction submission order.
    pub mutations: Vec<Mutation>,
}

impl View for LogRecord {
    type V = RecordView;

    open spec fn view(&self) -> RecordView {
        RecordView { lsn: self.lsn, mutations: mutation_views(self.mutations@) }
    }
}

impl LogRecord {
    /// Copies the record.
    pub fn copy(&self) -> (r: LogRecord)
        ensures
            r@ == self@,
    {
        let mut mutations: Vec<Mutation> = Vec::new();
        let mut i: usize = 0;
        while i < self.mutations.len()
            invariant
                i <= self.mutations@.len(),
                mutations@.len() == i,
                forall|j: int| 0 <= j < i ==> (#[trigger] mutations@[j])@ == self.mutations@[j]@,
            decreases self.mutations@.len() - i,
        {
            mutations.push(self.mutations[i].copy());
            i += 1;
        }
        assert(mutation_views(mutations@) =~= mutation_views(self.mutations@));
        LogRecord { lsn: self.lsn, mutations }
    }
}

/// The views of a sequence of records.
pub open spec fn record_views(rs: Seq<LogRecord>) -> Seq<RecordView> {
    rs.map_values(|r: LogRecord| r@)
}

/// Magic prefix of a snapshot file ("KVSSNAP1").
pub const SNAPSHOT_MAGIC: [u8; 8] = [0x4B, 0x56, 0x53, 0x53, 0x4E, 0x41, 0x50, 0x31];

/// Snapshot file header (inside the first frame).
#[derive(Debug, Clone, PartialEq, Eq)]
pub struct SnapshotHeader {
    pub magic: [u8; 8],
    /// LSN of the last committed transaction included in the snapshot.
    pub lsn: u64,
    /// Number of live keys in the snapshot.
    pub key_count: u64,
}

impl View for SnapshotHeader {
    type V = HeaderView;

    open spec fn view(&self) -> HeaderView {
        HeaderView { magic: self.magic@, lsn: self.lsn, key_count: self.key_count }
    }
}

/// One key/value/version entry inside a snapshot.
#[derive(Debug, Clone, PartialEq, Eq)]
pub struct EntrySnapshot {
    pub key: Vec<u8>,
    pub value: Vec<u8>,
    /// LSN of the transaction that last modified this key.
    pub version: u64,
}

impl View for EntrySnapshot {
    type V = EntrySnapshotView;

    open spec fn view(&self) -> EntrySnapshotView {
        EntrySnapshotView { key: self.key@, value: self.value@, version: self.version }
    }
}

/// Fully decoded snapshot.
#[derive(Debug)]
pub struct Snapshot {
    pub lsn: u64,
    pub entries: KeyMap<Entry>,
}

/// A mutation in the types that `serde` itself serializes: `Ok` for a put, `Err` for a delete.
pub type PlainMutation = std::result::Result<(Vec<u8>, Vec<u8>), Vec<u8>>;

/// The mutation that a plain value stands for.
pub open spec fn plain_mutation(p: PlainMutation) -> MutationView {
    match p {
        Ok((key, value)) => MutationView::Put { key: key@, value: value@ },
        Err(key) => MutationView::Delete { key: key@ },
    }
}

/// The record that plain values stand for.
pub open spec fn plain_record(lsn: u64, ms: Seq<PlainMutation>) -> RecordView {
    RecordView { lsn, mutations: ms.map_values(|p: PlainMutation| plain_mutation(p)) }
}

/// What `bincode::deserialize` says of bytes that hold no log record.
pub uninterp spec fn record_fault(bytes: Seq<u8>) -> Seq<char>;

/// What `bincode::deserialize` says of bytes that hold no snapshot header.
pub uninterp spec fn header_fault(bytes: Seq<u8>) -> Seq<char>;

/// What `bincode::deserialize` says of bytes that hold no snapshot entry.
pub uninterp spec fn entry_fault(bytes: Seq<u8>) -> Seq<char>;

/// Calls `bincode::serialize` on a log record. It writes integers in little-endian order and full
/// width, a sequence behind its length as `u64` and a variant behind its number as `u32` (`Ok` is 0,
/// `Err` is 1), and has no size limit, so it does not fail here.
#[verifier::external_body]
pub(crate) fn serialize_record(rec: &(u64, Vec<PlainMutation>)) -> (r: Result<Vec<u8>, String>)
    ensures
        r is Ok,
        r->Ok_0@ == layout::record_layout(plain_record(rec.0, rec.1@)),
{
    bincode::serialize(rec).map_err(|e| e.to_string())
}

/// Calls `bincode::deserialize` for a log record. It succeeds exactly where the bytes start with
/// the layout of a record, gives that record, and ignores what follows; the text of a failure
/// depends on the bytes alone.
#[verifier::external_body]
pub(crate) fn deserialize_record(bytes: &[u8]) -> (r: Result<(u64, Vec<PlainMutation>), String>)
    ensures
        match r {
            Ok(rec) => layout::record_layout(plain_record(rec.0, rec.1@)).is_prefix_of(bytes@),
            Err(e) => e@ == record_fault(bytes@) && forall|q: RecordView| !#[trigger]
                layout::record_layout(q).is_prefix_of(bytes@),
        },
{
    bincode::deserialize(bytes).map_err(|e: bincode::Error| e.to_string())
}

/// Calls `bincode::serialize` on a snapshot header: the eight bytes of the magic as they are, then
/// two integers in little-endian order. It does not fail here.
#[verifier::external_body]
pub(crate) fn serialize_header(header: &([u8; 8], u64, u64)) -> (r: Result<Vec<u8>, String>)
    ensures
        r is Ok,
        r->Ok_0@ == layout::header_layout(
            (HeaderView { magic: header.0@, lsn: header.1, key_count: header.2 }),
        ),
{
    bincode::serialize(header).map_err(|e| e.to_string())
}

/// Calls `bincode::deserialize` for a snapshot header. It succeeds exactly where the bytes start
/// with the layout of a header, gives that header, and ignores what follows; the text of a failure
/// depends on the bytes alone.
#[verifier::external_body]
pub(crate) fn deserialize_header(bytes: &[u8]) -> (r: Result<([u8; 8], u64, u64), String>)
    ensures
        match r {
            Ok(h) => layout::starts_with_header(
                (HeaderView { magic: h.0@, lsn: h.1, key_count: h.2 }),
                bytes@,
            ),
            Err(e) => e@ == header_fault(bytes@) && forall|q: HeaderView|
                !layout::starts_with_header(q, bytes@),
        },
{
    bincode::deserialize(bytes).map_err(|e: bincode::Error| e.to_string())
}

/// Calls `bincode::serialize` on a snapshot entry: two byte strings, each behind its length as
/// `u64`, then an integer, all in little-endian order. It does not fail here.
#[verifier::external_body]
pub(crate) fn serialize_entry(entry: &(Vec<u8>, Vec<u8>, u64)) -> (r: Result<Vec<u8>, String>)
    ensures
        r is Ok,
        r->Ok_0@ == layout::entry_layout(
            (EntrySnapshotView { key: entry.0@, value: entry.1@, version: entry.2 }),
        ),
{
    bincode::serialize(entry).map_err(|e| e.to_string())
}

/// Calls `bincode::deserialize` for a snapshot entry. It succeeds exactly where the bytes start
/// with the layout of an entry, gives that entry, and ignores what follows; the text of a failure
/// depends on the bytes alone.
#[verifier::external_body]
pub(crate) fn deserialize_entry(bytes: &[u8]) -> (r: Result<(Vec<u8>, Vec<u8>, u64), String>)
    ensures
        match r {
            Ok(e) => layout::entry_layout(
                (EntrySnapshotView { key: e.0@, value: e.1@, version: e.2 }),
            ).is_prefix_of(bytes@),
            Err(e) => e@ == entry_fault(bytes@) && forall|q: EntrySnapshotView| !#[trigger]
                layout::entry_layout(q).is_prefix_of(bytes@),
        },
{
    bincode::deserialize(bytes).map_err(|e: bincode::Error| e.to_string())
}

/// Serializes a log record.
pub fn encode_record(rec: &LogRecord) -> (r: Result<Vec<u8>, String>)
    ensures
        r is Ok,
        r->Ok_0@ == layout::record_layout(rec@),
{
    let mut plain: Vec<PlainMutation> = Vec::new();
    let mut i: usize = 0;
    while i < rec.mutations.len()
        invariant
            i <= rec.mutations@.len(),
            plain@.len() == i,
            forall|j: int|
                0 <= j < i ==> plain_mutation(#[trigger] plain@[j]) == rec.mutations@[j]@,
        decreases rec.mutations@.len() - i,
    {
        let p: PlainMutation = match &rec.mutations[i] {
            Mutation::Put { key, value } => Ok(
                (order::copy_bytes(key.as_slice()), order::copy_bytes(value.as_slice())),
            ),
            Mutation::Delete { key } => Err(order::copy_bytes(key.as_slice())),
        };
        plain.push(p);
        i += 1;
    }
    assert(plain_record(rec.lsn, plain@).mutations =~= mutation_views(rec.mutations@));
    serialize_record(&(rec.lsn, plain))
}

/// What is said of bytes that hold no log record, where `bincode` says `fault` of the plain values
/// that stand for one. Of a variant number that no mutation has, the plain values would give their
/// own names; a mutation gives the range of its numbers.
pub open spec fn record_error(fault: Seq<char>) -> Seq<char> {
    let names = "`Ok` or `Err`"@;
    if names.is_suffix_of(fault) {
        fault.take(fault.len() - names.len()) + "variant index 0 <= i < 2"@
    } else {
        fault
    }
}

/// The text of a decoding error, from what `bincode` says of the plain values.
pub fn record_error_text(fault: &str) -> (r: String)
    ensures
        r@ == record_error(fault@),
{
    match text::strip_suffix(fault, "`Ok` or `Err`") {
        Some(rest) => {
            let mut s = rest.to_string();
            s.append("variant index 0 <= i < 2");
            s
        },
        None => fault.to_string(),
    }
}

/// Reads the log record that a payload holds.
pub fn decode_record(bytes: &[u8]) -> (r: Result<LogRecord, String>)
    ensures
        match r {
            Ok(rec) => layout::record_in(bytes@) == Some(rec@),
            Err(e) => layout::record_in(bytes@) is None && e@ == record_error(
                record_fault(bytes@),
            ),
        },
{
    let (lsn, plain) = match deserialize_record(bytes) {
        Ok(rec) => rec,
        Err(e) => return Err(record_error_text(e.as_str())),
    };
    let ghost view = plain_record(lsn, plain@);
    proof {
        assert(bytes@.len() == bytes.len());
        layout::lemma_record_unique(view, layout::record_in(bytes@)->Some_0, bytes@);
    }
    let mut mutations: Vec<Mutation> = Vec::new();
    let mut i: usize = 0;
    while i < plain.len()
        invariant
            i <= plain@.len(),
            mutations@.len() == i,
            forall|j: int|
                0 <= j < i ==> (#[trigger] mutations@[j])@ == plain_mutation(plain@[j]),
        decreases plain@.len() - i,
    {
        let m: Mutation = match &plain[i] {
            Ok(kv) => Mutation::Put {
                key: order::copy_bytes(kv.0.as_slice()),
                value: order::copy_bytes(kv.1.as_slice()),
            },
            Err(key) => Mutation::Delete { key: order::copy_bytes(key.as_slice()) },
        };
        mutations.push(m);
        i += 1;
    }
    assert(mutation_views(mutations@) =~= view.mutations);
    Ok(LogRecord { lsn, mutations })
}

/// Serializes a snapshot header.
pub fn encode_header(header: &SnapshotHeader) -> (r: Result<Vec<u8>, String>)
    ensures
        r is Ok,
        r->Ok_0@ == layout::header_layout(header@),
{
    serialize_header(&(header.magic, header.lsn, header.key_count))
}

/// Reads the snapshot header that a payload holds.
pub fn decode_header(bytes: &[u8]) -> (r: Result<SnapshotHeader, String>)
    ensures
        match r {
            Ok(h) => layout::header_in(bytes@) == Some(h@),
            Err(e) => layout::header_in(bytes@) is None && e@ == header_fault(bytes@),
        },
{
    match deserialize_header(bytes) {
        Ok(h) => {
            let header = SnapshotHeader { magic: h.0, lsn: h.1, key_count: h.2 };
            proof {
                layout::lemma_header_unique(
                    header@,
                    layout::header_in(bytes@)->Some_0,
                    bytes@,
                );
            }
            Ok(header)
        },
        Err(e) => Err(e),
    }
}

/// Serializes a snapshot entry.
pub fn encode_entry(entry: EntrySnapshot) -> (r: Result<Vec<u8>, String>)
    ensures
        r is Ok,
        r->Ok_0@ == layout::entry_layout(entry@),
{
    serialize_entry(&(entry.key, entry.value, entry.version))
}

/// Reads the snapshot entry that a payload holds.
pub fn decode_entry(bytes: &[u8]) -> (r: Result<EntrySnapshot, String>)
    ensures
        match r {
            Ok(e) => layout::entry_in(bytes@) == Some(e@),
            Err(e) => layout::entry_in(bytes@) is None && e@ == entry_fault(bytes@),
        },
{
    match deserialize_entry(bytes) {
        Ok(e) => {
            let entry = EntrySnapshot { key: e.0, value: e.1, version: e.2 };
            proof {
                assert(bytes@.len() == bytes.len());
                layout::lemma_entry_unique(entry@, layout::entry_in(bytes@)->Some_0, bytes@);
            }
            Ok(entry)
        },
        Err(e) => Err(e),
    }
}

/// A record is decoded as the record that was encoded, whatever stands behind it.
pub proof fn lemma_record_is_decoded(
    rec: &LogRecord,
    encoded: Result<Vec<u8>, String>,
    behind: Seq<u8>,
    bytes: &[u8],
    r: Result<LogRecord, String>,
)
    requires
        call_ensures(encode_record, (rec,), encoded),
        encoded is Ok ==> bytes@ == encoded->Ok_0@ + behind,
        bytes@.len() <= u64::MAX,
        call_ensures(decode_record, (bytes,), r),
    ensures
        encoded is Ok,
        r is Ok,
        r->Ok_0.lsn == rec.lsn,
        r->Ok_0.mutations@.len() == rec.mutations@.len(),
        forall|i: int|
            0 <= i < rec.mutations@.len() ==> (#[trigger] r->Ok_0.mutations@[i])@
                == rec.mutations@[i]@,
{
    layout::lemma_record_round_trip(rec@, behind);
    let a = mutation_views(r->Ok_0.mutations@);
    let b = mutation_views(rec.mutations@);
    assert(a == b);
    assert(a.len() == r->Ok_0.mutations@.len());
    assert(b.len() == rec.mutations@.len());
    assert forall|i: int| 0 <= i < rec.mutations@.len() implies (
    #[trigger] r->Ok_0.mutations@[i])@ == rec.mutations@[i]@ by {
        assert(a[i] == b[i]);
    }
}

/// A header and an entry of a snapshot are decoded as what was encoded.
pub proof fn lemma_snapshot_parts_are_decoded(
    header: &SnapshotHeader,
    encoded: Result<Vec<u8>, String>,
    bytes: &[u8],
    r: Result<SnapshotHeader, String>,
    entry: EntrySnapshot,
    encoded2: Result<Vec<u8>, String>,
    bytes2: &[u8],
    r2: Result<EntrySnapshot, String>,
)
    requires
        call_ensures(encode_header, (header,), encoded),
        encoded is Ok ==> bytes@ == encoded->Ok_0@,
        call_ensures(decode_header, (bytes,), r),
        call_ensures(encode_entry, (entry,), encoded2),
        encoded2 is Ok ==> bytes2@ == encoded2->Ok_0@,
        bytes2@.len() <= u64::MAX,
        call_ensures(decode_entry, (bytes2,), r2),
    ensures
        r is Ok,
        r->Ok_0.magic@ == header.magic@,
        r->Ok_0.lsn == header.lsn,
        r->Ok_0.key_count == header.key_count,
        r2 is Ok,
        r2->Ok_0.key@ == entry.key@,
        r2->Ok_0.value@ == entry.value@,
        r2->Ok_0.version == entry.version,
{
    layout::lemma_header_round_trip(header@, Seq::empty());
    assert(bytes@ + Seq::<u8>::empty() =~= bytes@);
    assert(bytes2@ + Seq::<u8>::empty() =~= bytes2@);
    layout::lemma_entry_round_trip(entry@, Seq::empty());
}

} // verus!
