//! The byte layout of serialized records: fixed-width little-endian integers, lengths and
//! variant numbers in front of what they announce, and nothing between.

use crate::endian;
use vstd::prelude::*;

verus! {

/// A mutation of the key table.
pub enum MutationView {
    Put { key: Seq<u8>, value: Seq<u8> },
    Delete { key: Seq<u8> },
}

/// One committed transaction.
pub struct RecordView {
    pub lsn: u64,
    pub mutations: Seq<MutationView>,
}

/// The head of a snapshot.
pub struct HeaderView {
    pub magic: Seq<u8>,
    pub lsn: u64,
    pub key_count: u64,
}

/// One entry of a snapshot.
pub struct EntrySnapshotView {
    pub key: Seq<u8>,
    pub value: Seq<u8>,
    pub version: u64,
}

/// A byte string behind its length.
pub open spec fn bytes_layout(b: Seq<u8>) -> Seq<u8> {
    endian::le64(b.len() as u64) + b
}

/// A mutation behind its variant number.
pub open spec fn mutation_layout(m: MutationView) -> Seq<u8> {
    match m {
        MutationView::Put { key, value } => endian::le32(0) + bytes_layout(key) + bytes_layout(value),
        MutationView::Delete { key } => endian::le32(1) + bytes_layout(key),
    }
}

/// Mutations one behind the other.
pub open spec fn mutations_layout(ms: Seq<MutationView>) -> Seq<u8>
    decreases ms.len(),
{
    if ms.len() == 0 {
        Seq::empty()
    } else {
        mutation_layout(ms[0]) + mutations_layout(ms.skip(1))
    }
}

/// A log record.
pub open spec fn record_layout(r: RecordView) -> Seq<u8> {
    endian::le64(r.lsn) + endian::le64(r.mutations.len() as u64) + mutations_layout(r.mutations)
}

/// A snapshot header. Its magic has a fixed size and stands without a length.
pub open spec fn header_layout(h: HeaderView) -> Seq<u8> {
    h.magic + endian::le64(h.lsn) + endian::le64(h.key_count)
}

/// A snapshot entry.
pub open spec fn entry_layout(e: EntrySnapshotView) -> Seq<u8> {
    bytes_layout(e.key) + bytes_layout(e.value) + endian::le64(e.version)
}

/// The record at the start of a byte string.
pub open spec fn record_in(s: Seq<u8>) -> Option<RecordView> {
    if exists|r: RecordView| #[trigger] record_layout(r).is_prefix_of(s) {
        Some(choose|r: RecordView| #[trigger] record_layout(r).is_prefix_of(s))
    } else {
        None
    }
}

/// A header with a magic of eight bytes whose layout the byte string starts with.
pub open spec fn starts_with_header(h: HeaderView, s: Seq<u8>) -> bool {
    h.magic.len() == 8 && header_layout(h).is_prefix_of(s)
}

/// The header at the start of a byte string.
pub open spec fn header_in(s: Seq<u8>) -> Option<HeaderView> {
    if exists|h: HeaderView| starts_with_header(h, s) {
        Some(choose|h: HeaderView| starts_with_header(h, s))
    } else {
        None
    }
}

/// The snapshot entry at the start of a byte string.
pub open spec fn entry_in(s: Seq<u8>) -> Option<EntrySnapshotView> {
    if exists|e: EntrySnapshotView| #[trigger] entry_layout(e).is_prefix_of(s) {
        Some(choose|e: EntrySnapshotView| #[trigger] entry_layout(e).is_prefix_of(s))
    } else {
        None
    }
}

proof fn lemma_le64(a: u64, b: u64, s: Seq<u8>)
    requires
        endian::le64(a).is_prefix_of(s),
        endian::le64(b).is_prefix_of(s),
    ensures
        a == b,
        endian::le64(a).len() == 8,
{
    endian::lemma_le64(a);
    endian::lemma_le64(b);
    assert(endian::le64(a) =~= endian::le64(b));
}

proof fn lemma_le32(a: u32, b: u32, s: Seq<u8>)
    requires
        endian::le32(a).is_prefix_of(s),
        endian::le32(b).is_prefix_of(s),
    ensures
        a == b,
        endian::le32(a).len() == 4,
{
    endian::lemma_le32(a);
    endian::lemma_le32(b);
    assert(endian::le32(a) =~= endian::le32(b));
}

/// A concatenation is a prefix exactly where its first part is one and its second part is one of
/// what is left.
proof fn lemma_prefix_split(a: Seq<u8>, b: Seq<u8>, s: Seq<u8>)
    requires
        (a + b).is_prefix_of(s),
    ensures
        a.is_prefix_of(s),
        b.is_prefix_of(s.skip(a.len() as int)),
{
    assert(s.take((a + b).len() as int) =~= a + b);
    assert(a =~= s.take(a.len() as int)) by {
        assert forall|i: int| 0 <= i < a.len() implies a[i] == s.take(a.len() as int)[i] by {
            assert((a + b)[i] == s[i]);
        }
    }
    let t = s.skip(a.len() as int);
    assert(b =~= t.take(b.len() as int)) by {
        assert forall|i: int| 0 <= i < b.len() implies b[i] == t.take(b.len() as int)[i] by {
            assert((a + b)[a.len() + i] == s[a.len() + i]);
        }
    }
}

proof fn lemma_bytes_unique(a: Seq<u8>, b: Seq<u8>, s: Seq<u8>)
    requires
        bytes_layout(a).is_prefix_of(s),
        bytes_layout(b).is_prefix_of(s),
        s.len() <= u64::MAX,
    ensures
        a == b,
{
    lemma_prefix_split(endian::le64(a.len() as u64), a, s);
    lemma_prefix_split(endian::le64(b.len() as u64), b, s);
    assert(a.len() <= s.len() && b.len() <= s.len());
    lemma_le64(a.len() as u64, b.len() as u64, s);
    assert(a =~= b);
}

proof fn lemma_mutation_unique(a: MutationView, b: MutationView, s: Seq<u8>)
    requires
        mutation_layout(a).is_prefix_of(s),
        mutation_layout(b).is_prefix_of(s),
        s.len() <= u64::MAX,
    ensures
        a == b,
{
    lemma_mutation_parts(a, s);
    lemma_mutation_parts(b, s);
    let ta = mutation_tag(a);
    let tb = mutation_tag(b);
    lemma_le32(ta, tb, s);
    let t = s.skip(4);
    lemma_bytes_unique(mutation_key(a), mutation_key(b), t);
    if let MutationView::Put { key, value } = a {
        let u = t.skip(bytes_layout(key).len() as int);
        lemma_bytes_unique(value, b->value, u);
    }
}

spec fn mutation_tag(m: MutationView) -> u32 {
    match m {
        MutationView::Put { .. } => 0,
        MutationView::Delete { .. } => 1,
    }
}

/// The key that a mutation is about.
pub open spec fn mutation_key(m: MutationView) -> Seq<u8> {
    match m {
        MutationView::Put { key, .. } => key,
        MutationView::Delete { key } => key,
    }
}

proof fn lemma_mutation_parts(m: MutationView, s: Seq<u8>)
    requires
        mutation_layout(m).is_prefix_of(s),
    ensures
        endian::le32(mutation_tag(m)).is_prefix_of(s),
        endian::le32(mutation_tag(m)).len() == 4,
        bytes_layout(mutation_key(m)).is_prefix_of(s.skip(4)),
        m matches MutationView::Put { key, value } ==> bytes_layout(value).is_prefix_of(
            s.skip(4).skip(bytes_layout(key).len() as int),
        ),
        mutation_layout(m).len() >= 12,
{
    endian::lemma_le32(mutation_tag(m));
    endian::lemma_le64(mutation_key(m).len() as u64);
    match m {
        MutationView::Put { key, value } => {
            assert(mutation_layout(m) =~= endian::le32(0) + (bytes_layout(key) + bytes_layout(value)));
            lemma_prefix_split(endian::le32(0), bytes_layout(key) + bytes_layout(value), s);
            lemma_prefix_split(bytes_layout(key), bytes_layout(value), s.skip(4));
        },
        MutationView::Delete { key } => {
            lemma_prefix_split(endian::le32(1), bytes_layout(key), s);
        },
    }
}

proof fn lemma_mutations_unique(a: Seq<MutationView>, b: Seq<MutationView>, s: Seq<u8>)
    requires
        a.len() == b.len(),
        mutations_layout(a).is_prefix_of(s),
        mutations_layout(b).is_prefix_of(s),
        s.len() <= u64::MAX,
    ensures
        a == b,
    decreases a.len(),
{
    if a.len() > 0 {
        lemma_prefix_split(mutation_layout(a[0]), mutations_layout(a.skip(1)), s);
        lemma_prefix_split(mutation_layout(b[0]), mutations_layout(b.skip(1)), s);
        lemma_mutation_unique(a[0], b[0], s);
        lemma_mutations_unique(a.skip(1), b.skip(1), s.skip(mutation_layout(a[0]).len() as int));
        assert forall|i: int| 0 <= i < a.len() implies a[i] == b[i] by {
            if i > 0 {
                assert(a.skip(1)[i - 1] == b.skip(1)[i - 1]);
            }
        }
    }
    assert(a =~= b);
}

proof fn lemma_mutations_count(ms: Seq<MutationView>)
    ensures
        ms.len() <= mutations_layout(ms).len(),
    decreases ms.len(),
{
    if ms.len() > 0 {
        lemma_mutations_count(ms.skip(1));
        assert(mutation_layout(ms[0]).is_prefix_of(mutation_layout(ms[0])));
        lemma_mutation_parts(ms[0], mutation_layout(ms[0]));
    }
}

/// At most one record stands at the start of a byte string.
pub proof fn lemma_record_unique(a: RecordView, b: RecordView, s: Seq<u8>)
    requires
        record_layout(a).is_prefix_of(s),
        record_layout(b).is_prefix_of(s),
        s.len() <= u64::MAX,
    ensures
        a == b,
{
    lemma_record_parts(a, s);
    lemma_record_parts(b, s);
    lemma_le64(a.lsn, b.lsn, s);
    lemma_le64(a.mutations.len() as u64, b.mutations.len() as u64, s.skip(8));
    lemma_mutations_count(a.mutations);
    lemma_mutations_count(b.mutations);
    lemma_mutations_unique(a.mutations, b.mutations, s.skip(8).skip(8));
}

proof fn lemma_record_parts(r: RecordView, s: Seq<u8>)
    requires
        record_layout(r).is_prefix_of(s),
    ensures
        endian::le64(r.lsn).is_prefix_of(s),
        endian::le64(r.mutations.len() as u64).is_prefix_of(s.skip(8)),
        mutations_layout(r.mutations).is_prefix_of(s.skip(8).skip(8)),
{
    endian::lemma_le64(r.lsn);
    endian::lemma_le64(r.mutations.len() as u64);
    let n = endian::le64(r.mutations.len() as u64);
    let ms = mutations_layout(r.mutations);
    assert(record_layout(r) =~= endian::le64(r.lsn) + (n + ms));
    lemma_prefix_split(endian::le64(r.lsn), n + ms, s);
    lemma_prefix_split(n, ms, s.skip(8));
}

/// At most one header stands at the start of a byte string.
pub proof fn lemma_header_unique(a: HeaderView, b: HeaderView, s: Seq<u8>)
    requires
        starts_with_header(a, s),
        starts_with_header(b, s),
    ensures
        a == b,
{
    lemma_header_parts(a, s);
    lemma_header_parts(b, s);
    assert(a.magic =~= b.magic);
    lemma_le64(a.lsn, b.lsn, s.skip(8));
    lemma_le64(a.key_count, b.key_count, s.skip(8).skip(8));
}

proof fn lemma_header_parts(h: HeaderView, s: Seq<u8>)
    requires
        starts_with_header(h, s),
    ensures
        h.magic.is_prefix_of(s),
        endian::le64(h.lsn).is_prefix_of(s.skip(8)),
        endian::le64(h.key_count).is_prefix_of(s.skip(8).skip(8)),
{
    endian::lemma_le64(h.lsn);
    endian::lemma_le64(h.key_count);
    assert(header_layout(h) =~= h.magic + (endian::le64(h.lsn) + endian::le64(h.key_count)));
    lemma_prefix_split(h.magic, endian::le64(h.lsn) + endian::le64(h.key_count), s);
    lemma_prefix_split(endian::le64(h.lsn), endian::le64(h.key_count), s.skip(8));
}

/// At most one snapshot entry stands at the start of a byte string.
pub proof fn lemma_entry_unique(a: EntrySnapshotView, b: EntrySnapshotView, s: Seq<u8>)
    requires
        entry_layout(a).is_prefix_of(s),
        entry_layout(b).is_prefix_of(s),
        s.len() <= u64::MAX,
    ensures
        a == b,
{
    lemma_entry_parts(a, s);
    lemma_entry_parts(b, s);
    lemma_bytes_unique(a.key, b.key, s);
    let t = s.skip(bytes_layout(a.key).len() as int);
    lemma_bytes_unique(a.value, b.value, t);
    lemma_le64(a.version, b.version, t.skip(bytes_layout(a.value).len() as int));
}

proof fn lemma_entry_parts(e: EntrySnapshotView, s: Seq<u8>)
    requires
        entry_layout(e).is_prefix_of(s),
    ensures
        bytes_layout(e.key).is_prefix_of(s),
        bytes_layout(e.value).is_prefix_of(s.skip(bytes_layout(e.key).len() as int)),
        endian::le64(e.version).is_prefix_of(
            s.skip(bytes_layout(e.key).len() as int).skip(bytes_layout(e.value).len() as int),
        ),
{
    let k = bytes_layout(e.key);
    let v = bytes_layout(e.value);
    let n = endian::le64(e.version);
    assert(entry_layout(e) =~= k + (v + n));
    lemma_prefix_split(k, v + n, s);
    lemma_prefix_split(v, n, s.skip(k.len() as int));
}

/// A record is read back from its own layout, whatever stands behind it.
pub proof fn lemma_record_round_trip(r: RecordView, after: Seq<u8>)
    requires
        (record_layout(r) + after).len() <= u64::MAX,
    ensures
        record_in(record_layout(r) + after) == Some(r),
{
    let s = record_layout(r) + after;
    assert(record_layout(r) =~= s.take(record_layout(r).len() as int));
    assert(record_layout(r).is_prefix_of(s));
    let q = record_in(s)->Some_0;
    lemma_record_unique(r, q, s);
}

/// A header is read back from its own layout, whatever stands behind it.
pub proof fn lemma_header_round_trip(h: HeaderView, after: Seq<u8>)
    requires
        h.magic.len() == 8,
    ensures
        header_in(header_layout(h) + after) == Some(h),
{
    let s = header_layout(h) + after;
    assert(header_layout(h) =~= s.take(header_layout(h).len() as int));
    assert(starts_with_header(h, s));
    let q = header_in(s)->Some_0;
    lemma_header_unique(h, q, s);
}

/// A snapshot entry is read back from its own layout, whatever stands behind it.
pub proof fn lemma_entry_round_trip(e: EntrySnapshotView, after: Seq<u8>)
    requires
        (entry_layout(e) + after).len() <= u64::MAX,
    ensures
        entry_in(entry_layout(e) + after) == Some(e),
{
    let s = entry_layout(e) + after;
    assert(entry_layout(e) =~= s.take(entry_layout(e).len() as int));
    assert(entry_layout(e).is_prefix_of(s));
    let q = entry_in(s)->Some_0;
    lemma_entry_unique(e, q, s);
}

} // verus!
