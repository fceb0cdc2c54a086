//! Snapshot persistence: a full image of the key table at one LSN.
//!
//! Snapshot files live in the data directory:
//! - `snapshot.tmp` is written and fsynced first,
//! - then atomically renamed over `snapshot.bin`,
//! - then the containing directory is fsynced.
//!
//! On startup the snapshot (if present) is loaded; WAL records with LSNs greater than the snapshot
//! LSN are replayed afterwards. A snapshot whose magic/version/CRC checks fail is hard corruption
//! rather than being silently ignored.
//!
//! This module makes and reads the bytes of a snapshot file; the file is its caller's.

use crate::endian;
use crate::error::{StoreError, StoreFault};
use crate::frame;
use crate::frame::{FrameError, FrameFault, FrameReader};
use crate::keymap::KeyMap;
use crate::layout;
use crate::layout::{EntrySnapshotView, HeaderView};
use crate::order;
use crate::record;
use crate::record::{EntrySnapshot, LogRecord, Mutation, Snapshot, SnapshotHeader, SNAPSHOT_MAGIC};
use crate::table;
use crate::table::{Entries, Entry, EntryView};
use crate::text;
use vstd::prelude::*;
use vstd::string::*;

verus! {

/// Loaded snapshot metadata, also kept in memory for the status endpoint.
#[derive(Debug, Clone, Copy)]
pub struct SnapshotMeta {
    pub lsn: u64,
}

/// The path of the snapshot file in a directory.
pub fn snapshot_path(dir: &str) -> (r: String)
    ensures
        r@ == text::joined(dir@, "snapshot.bin"@),
{
    text::join_path(dir, "snapshot.bin")
}

/// The snapshot entry of a key.
pub open spec fn entry_of(m: Entries, key: Seq<u8>) -> EntrySnapshotView {
    EntrySnapshotView { key, value: m[key].value, version: m[key].version }
}

/// The frames of the entries of some keys, in order.
pub open spec fn entries_bytes(m: Entries, keys: Seq<Seq<u8>>) -> Seq<u8>
    decreases keys.len(),
{
    if keys.len() == 0 {
        Seq::empty()
    } else {
        entries_bytes(m, keys.drop_last()) + frame::frame_bytes(
            layout::entry_layout(entry_of(m, keys.last())),
        )
    }
}

/// The header of a snapshot of `m` at `lsn`.
pub open spec fn header_of(lsn: u64, m: Entries) -> HeaderView {
    HeaderView { magic: SNAPSHOT_MAGIC@, lsn, key_count: m.dom().len() as u64 }
}

/// A snapshot file: a frame with the header, then a frame for each entry in the order of the keys.
pub open spec fn snapshot_bytes(lsn: u64, m: Entries) -> Seq<u8> {
    frame::frame_bytes(layout::header_layout(header_of(lsn, m))) + entries_bytes(
        m,
        order::sorted_keys(m.dom()),
    )
}

/// Why the entries of a snapshot ended.
pub enum EntryStop {
    Frame(FrameFault),
    Entry(Seq<char>),
}

/// The entries of a snapshot up to where they ended.
pub struct EntryScan {
    pub entries: Seq<EntrySnapshotView>,
    pub stop: EntryStop,
}

/// The entries in `data` from offset `pos` on.
pub open spec fn scan_entries(data: Seq<u8>, pos: nat) -> EntryScan
    decreases data.len() - pos,
{
    match frame::frame_at(data, pos as int) {
        Err(f) => EntryScan { entries: Seq::empty(), stop: EntryStop::Frame(f) },
        Ok(payload) => match layout::entry_in(payload) {
            None => EntryScan {
                entries: Seq::empty(),
                stop: EntryStop::Entry(record::entry_fault(payload)),
            },
            Some(e) => {
                let rest = scan_entries(data, pos + 16 + payload.len());
                EntryScan { entries: seq![e] + rest.entries, stop: rest.stop }
            },
        },
    }
}

/// The table that entries make up, a later entry of a key in place of an earlier one.
pub open spec fn table_of(es: Seq<EntrySnapshotView>) -> Entries
    decreases es.len(),
{
    if es.len() == 0 {
        Map::empty()
    } else {
        let e = es.last();
        table_of(es.drop_last()).insert(e.key, EntryView { value: e.value, version: e.version })
    }
}

/// The LSN and the table that a snapshot file holds, or why it is corrupt.
pub open spec fn load_bytes(path: Seq<char>, data: Seq<u8>) -> Result<(u64, Entries), StoreFault> {
    match frame::frame_at(data, 0) {
        Err(f) => Err(
            StoreFault::Corruption(
                "cannot read snapshot header from "@ + path + ": "@ + frame::frame_message(f),
            ),
        ),
        Ok(payload) => match layout::header_in(payload) {
            None => Err(
                StoreFault::Corruption(
                    "invalid snapshot header in "@ + path + ": "@ + record::header_fault(payload),
                ),
            ),
            Some(header) => if header.magic != SNAPSHOT_MAGIC@ {
                Err(StoreFault::Corruption("bad snapshot magic in "@ + path))
            } else {
                let scan = scan_entries(data, 16 + payload.len());
                match scan.stop {
                    EntryStop::Frame(FrameFault::Eof) => if scan.entries.len() != header.key_count {
                        Err(
                            StoreFault::Corruption(
                                "snapshot declares "@ + text::decimal(header.key_count as nat)
                                    + " keys but contains "@ + text::decimal(scan.entries.len()),
                            ),
                        )
                    } else {
                        Ok((header.lsn, table_of(scan.entries)))
                    },
                    EntryStop::Frame(f) => Err(
                        StoreFault::Corruption(
                            "error reading snapshot entry from "@ + path + ": "@
                                + frame::frame_message(f),
                        ),
                    ),
                    EntryStop::Entry(message) => Err(
                        StoreFault::Corruption(
                            "invalid snapshot entry in "@ + path + ": "@ + message,
                        ),
                    ),
                }
            },
        },
    }
}

fn same_magic(a: &[u8; 8], b: &[u8; 8]) -> (r: bool)
    ensures
        r == (a@ == b@),
{
    order::same_bytes(a.as_slice(), b.as_slice())
}

fn corruption(head: &str, path: &str, message: &str) -> (r: StoreError)
    ensures
        r@ == StoreFault::Corruption(head@ + path@ + ": "@ + message@),
{
    let mut s = head.to_string();
    s.append(path);
    s.append(": ");
    s.append(message);
    StoreError::Corruption(s)
}

/// Load a snapshot from the bytes of its file. Returns `Ok(None)` if no snapshot exists.
pub fn load(path: &str, file: Option<Vec<u8>>) -> (r: Result<Option<Snapshot>, StoreError>)
    ensures
        match r {
            Ok(None) => file is None,
            Ok(Some(s)) => file is Some && s.entries.wf() && load_bytes(path@, file->Some_0@)
                == Ok::<_, StoreFault>((s.lsn, s.entries@)),
            Err(e) => file is Some && load_bytes(path@, file->Some_0@) == Err::<
                (u64, Entries),
                _,
            >(e@),
        },
{
    let data = match file {
        Some(data) => data,
        None => return Ok(None),
    };
    let ghost bytes = data@;
    assert(bytes.len() == data.len());
    let mut reader = FrameReader::new(data);
    let header_payload = match reader.next_frame() {
        Ok(p) => p,
        Err(other) => {
            return Err(
                corruption(
                    "cannot read snapshot header from ",
                    path,
                    other.message().as_str(),
                ),
            );
        },
    };
    let header = match record::decode_header(header_payload.as_slice()) {
        Ok(h) => h,
        Err(e) => {
            return Err(corruption("invalid snapshot header in ", path, e.as_str()));
        },
    };
    if !same_magic(&header.magic, &SNAPSHOT_MAGIC) {
        let mut s = "bad snapshot magic in ".to_string();
        s.append(path);
        return Err(StoreError::Corruption(s));
    }
    let ghost begin = reader.at();
    let ghost whole = scan_entries(bytes, begin);
    let ghost mut done: Seq<EntrySnapshotView> = Seq::empty();
    let mut entries: KeyMap<Entry> = KeyMap::new();
    let mut seen: u64 = 0;
    assert(done + whole.entries =~= whole.entries);
    assert(begin <= bytes.len());
    loop
        invariant
            file == Some(data),
            bytes == data@,
            header_payload@ == frame::frame_at(bytes, 0)->Ok_0,
            frame::frame_at(bytes, 0) is Ok,
            layout::header_in(header_payload@) == Some(header@),
            header.magic@ == SNAPSHOT_MAGIC@,
            begin == 16 + header_payload@.len(),
            reader.data() == bytes,
            begin <= reader.at() <= bytes.len(),
            bytes.len() <= u64::MAX,
            whole == scan_entries(bytes, begin),
            whole.entries == done + scan_entries(bytes, reader.at()).entries,
            whole.stop == scan_entries(bytes, reader.at()).stop,
            seen == done.len(),
            seen <= reader.at(),
            entries.wf(),
            entries@ == table_of(done),
        ensures
            whole.stop == EntryStop::Frame(FrameFault::Eof),
            whole.entries == done,
            seen == done.len(),
            entries.wf(),
            entries@ == table_of(done),
        decreases bytes.len() - reader.at(),
    {
        let ghost pos = reader.at();
        let payload = match reader.next_frame() {
            Ok(p) => p,
            Err(FrameError::Eof) => {
                assert(whole.entries =~= done);
                break ;
            },
            Err(other) => {
                return Err(
                    corruption(
                        "error reading snapshot entry from ",
                        path,
                        other.message().as_str(),
                    ),
                );
            },
        };
        match record::decode_entry(payload.as_slice()) {
            Ok(e) => {
                proof {
                    assert(scan_entries(bytes, pos).entries =~= seq![e@] + scan_entries(
                        bytes,
                        reader.at(),
                    ).entries);
                    assert(done + scan_entries(bytes, pos).entries =~= done.push(e@)
                        + scan_entries(bytes, reader.at()).entries);
                    assert(done.push(e@).drop_last() =~= done);
                    done = done.push(e@);
                }
                entries.insert(e.key, Entry { value: e.value, version: e.version });
                seen += 1;
            },
            Err(err) => {
                return Err(corruption("invalid snapshot entry in ", path, err.as_str()));
            },
        }
    }
    if seen != header.key_count {
        let mut s = "snapshot declares ".to_string();
        s.append(text::number_text(header.key_count).as_str());
        s.append(" keys but contains ");
        s.append(text::number_text(seen).as_str());
        return Err(StoreError::Corruption(s));
    }
    Ok(Some(Snapshot { lsn: header.lsn, entries }))
}

/// The bytes of a snapshot file containing every live entry. `lsn` is the commit position the
/// snapshot represents.
pub fn write(lsn: u64, table: &KeyMap<Entry>) -> (r: Result<(SnapshotMeta, Vec<u8>), StoreError>)
    requires
        table.wf(),
    ensures
        r is Ok,
        r->Ok_0.0.lsn == lsn,
        r->Ok_0.1@ == snapshot_bytes(lsn, table@),
{
    let mut file: Vec<u8> = Vec::new();
    let header = SnapshotHeader { magic: SNAPSHOT_MAGIC, lsn, key_count: table.len() as u64 };
    let header_payload = match record::encode_header(&header) {
        Ok(p) => p,
        Err(e) => {
            let mut s = "cannot serialize snapshot header: ".to_string();
            s.append(e.as_str());
            return Err(StoreError::Corruption(s));
        },
    };
    frame::write_frame(&mut file, header_payload.as_slice());
    let ghost head = file@;
    let ghost keys = table.key_seq();
    proof {
        table.lemma_entries();
        assert(header@ == header_of(lsn, table@));
        assert(head =~= frame::frame_bytes(layout::header_layout(header_of(lsn, table@))));
        assert(keys.take(0) =~= Seq::empty());
        assert(head =~= head + entries_bytes(table@, keys.take(0)));
    }
    let n: usize = table.len();
    let mut i: usize = 0;
    while i < n
        invariant
            i <= n,
            n == keys.len(),
            table.wf(),
            keys == table.key_seq(),
            forall|j: int|
                0 <= j < keys.len() ==> table@[#[trigger] keys[j]] == table.val_seq()[j]@,
            file@ == head + entries_bytes(table@, keys.take(i as int)),
        decreases n - i,
    {
        let entry = table.val_at(i);
        let e = EntrySnapshot {
            key: order::copy_bytes(table.key_at(i).as_slice()),
            value: order::copy_bytes(entry.value.as_slice()),
            version: entry.version,
        };
        proof {
            assert(keys.take(i + 1).drop_last() =~= keys.take(i as int));
            assert(keys.take(i + 1).last() == keys[i as int]);
            assert(e@ == entry_of(table@, keys[i as int]));
        }
        let ghost view = e@;
        let payload = match record::encode_entry(e) {
            Ok(p) => p,
            Err(err) => {
                let mut s = "cannot serialize snapshot entry: ".to_string();
                s.append(err.as_str());
                return Err(StoreError::Corruption(s));
            },
        };
        frame::write_frame(&mut file, payload.as_slice());
        assert(file@ =~= head + entries_bytes(table@, keys.take(i + 1)));
        i += 1;
    }
    assert(keys.take(i as int) =~= keys);
    Ok((SnapshotMeta { lsn }, file))
}

/// Apply a decoded record to an in-memory table during replay. LSNs are validated by the caller;
/// this helper performs the state mutation only.
pub fn apply_record(table: &mut KeyMap<Entry>, rec: &LogRecord)
    requires
        old(table).wf(),
    ensures
        final(table).wf(),
        final(table)@ == table::apply_mutations(old(table)@, rec.lsn, rec@.mutations),
{
    let ghost before = table@;
    let ghost ops = rec@.mutations;
    let mut i: usize = 0;
    assert(ops.take(0) =~= Seq::empty());
    while i < rec.mutations.len()
        invariant
            i <= rec.mutations@.len(),
            ops == record::mutation_views(rec.mutations@),
            table.wf(),
            table@ == table::apply_mutations(before, rec.lsn, ops.take(i as int)),
        decreases rec.mutations@.len() - i,
    {
        assert(ops.take(i + 1).drop_last() =~= ops.take(i as int));
        assert(ops.take(i + 1).last() == rec.mutations@[i as int]@);
        match &rec.mutations[i] {
            Mutation::Put { key, value } => {
                table.insert(
                    order::copy_bytes(key.as_slice()),
                    Entry { value: order::copy_bytes(value.as_slice()), version: rec.lsn },
                );
            },
            Mutation::Delete { key } => {
                // A removed key keeps no version; removing a missing key still uses up an LSN.
                table.remove(key.as_slice());
            },
        }
        i += 1;
    }
    assert(ops.take(i as int) =~= ops);
}

/// A frame with an entry behind entries that end cleanly adds that entry.
proof fn lemma_scan_entries_append(data: Seq<u8>, pos: nat, e: EntrySnapshotView)
    requires
        pos <= data.len(),
        scan_entries(data, pos).stop == EntryStop::Frame(FrameFault::Eof),
        layout::entry_layout(e).len() <= frame::MAX_PAYLOAD_LEN,
    ensures
        ({
            let more = scan_entries(data + frame::frame_bytes(layout::entry_layout(e)), pos);
            &&& more.entries == scan_entries(data, pos).entries.push(e)
            &&& more.stop == EntryStop::Frame(FrameFault::Eof)
        }),
    decreases data.len() - pos,
{
    let payload = layout::entry_layout(e);
    let added = frame::frame_bytes(payload);
    let more = data + added;
    match frame::frame_at(data, pos as int) {
        Err(f) => {
            assert(pos == data.len());
            frame::lemma_frame_round_trip(data, payload, Seq::empty());
            assert(data + added + Seq::<u8>::empty() =~= more);
            layout::lemma_entry_round_trip(e, Seq::empty());
            assert(payload + Seq::<u8>::empty() =~= payload);
            let rest = scan_entries(more, pos + 16 + payload.len());
            assert(rest.entries =~= Seq::<EntrySnapshotView>::empty());
            assert(scan_entries(more, pos).entries =~= scan_entries(data, pos).entries.push(e));
        },
        Ok(p) => {
            frame::lemma_frame_at_prefix(data, pos as int, added);
            lemma_scan_entries_append(data, pos + 16 + p.len(), e);
            let first = layout::entry_in(p)->Some_0;
            assert(scan_entries(more, pos).entries =~= scan_entries(data, pos).entries.push(e));
        },
    }
}

/// The entries of each key, in order.
spec fn entries_of(m: Entries, keys: Seq<Seq<u8>>) -> Seq<EntrySnapshotView> {
    keys.map_values(|k: Seq<u8>| entry_of(m, k))
}

proof fn lemma_scan_written(head: Seq<u8>, m: Entries, keys: Seq<Seq<u8>>)
    requires
        forall|i: int|
            0 <= i < keys.len() ==> layout::entry_layout(entry_of(m, #[trigger] keys[i])).len()
                <= frame::MAX_PAYLOAD_LEN,
    ensures
        scan_entries(head + entries_bytes(m, keys), head.len()).entries == entries_of(m, keys),
        scan_entries(head + entries_bytes(m, keys), head.len()).stop == EntryStop::Frame(
            FrameFault::Eof,
        ),
    decreases keys.len(),
{
    if keys.len() == 0 {
        assert(head + entries_bytes(m, keys) =~= head);
        assert(scan_entries(head, head.len()).entries =~= entries_of(m, keys));
    } else {
        let before = keys.drop_last();
        let e = entry_of(m, keys.last());
        lemma_scan_written(head, m, before);
        lemma_scan_entries_append(head + entries_bytes(m, before), head.len(), e);
        assert(head + entries_bytes(m, keys) =~= head + entries_bytes(m, before)
            + frame::frame_bytes(layout::entry_layout(e)));
        assert(entries_of(m, before).push(e) =~= entries_of(m, keys));
    }
}

proof fn lemma_table_of_entries(m: Entries, keys: Seq<Seq<u8>>)
    ensures
        table_of(entries_of(m, keys)).dom() == keys.to_set(),
        forall|k: Seq<u8>|
            keys.contains(k) ==> #[trigger] table_of(entries_of(m, keys))[k] == m[k],
    decreases keys.len(),
{
    let t = table_of(entries_of(m, keys));
    if keys.len() == 0 {
        assert(t.dom() =~= keys.to_set());
    } else {
        let before = keys.drop_last();
        lemma_table_of_entries(m, before);
        assert(entries_of(m, keys).drop_last() =~= entries_of(m, before));
        assert forall|k: Seq<u8>| t.dom().contains(k) <==> keys.to_set().contains(k) by {
            if keys.contains(k) {
                let i = choose|i: int| 0 <= i < keys.len() && keys[i] == k;
                if i < before.len() {
                    assert(before[i] == k);
                    assert(before.to_set().contains(k));
                }
            }
            if before.to_set().contains(k) {
                let i = choose|i: int| 0 <= i < before.len() && before[i] == k;
                assert(keys[i] == k);
            }
            if k == keys.last() {
                assert(keys[keys.len() - 1] == k);
            }
        }
        assert(t.dom() =~= keys.to_set());
        assert forall|k: Seq<u8>| keys.contains(k) implies #[trigger] t[k] == m[k] by {
            if k != keys.last() {
                let i = choose|i: int| 0 <= i < keys.len() && keys[i] == k;
                assert(before[i] == k);
                assert(before.contains(k));
                assert(table_of(entries_of(m, before))[k] == m[k]);
            }
        }
    }
}

/// Loading a snapshot gives back the LSN and the table that were written. An entry whose serialized
/// form is longer than a frame may be cannot be read back.
pub proof fn lemma_snapshot_round_trip(path: Seq<char>, lsn: u64, m: Entries)
    requires
        m.dom().finite(),
        m.dom().len() <= u64::MAX,
        forall|k: Seq<u8>| #[trigger]
            m.dom().contains(k) ==> layout::entry_layout(entry_of(m, k)).len()
                <= frame::MAX_PAYLOAD_LEN,
    ensures
        load_bytes(path, snapshot_bytes(lsn, m)) == Ok::<_, StoreFault>((lsn, m)),
{
    let keys = order::sorted_keys(m.dom());
    order::lemma_sorted_exists(m.dom());
    let header = header_of(lsn, m);
    let payload = layout::header_layout(header);
    let head = frame::frame_bytes(payload);
    let tail = entries_bytes(m, keys);
    endian::lemma_le64(header.lsn);
    endian::lemma_le64(header.key_count);
    assert(payload.len() == 24);
    frame::lemma_frame_round_trip(Seq::empty(), payload, tail);
    assert(Seq::<u8>::empty() + head + tail =~= snapshot_bytes(lsn, m));
    layout::lemma_header_round_trip(header, Seq::empty());
    assert(payload + Seq::<u8>::empty() =~= payload);
    assert forall|i: int| 0 <= i < keys.len() implies layout::entry_layout(
        entry_of(m, #[trigger] keys[i]),
    ).len() <= frame::MAX_PAYLOAD_LEN by {
        assert(keys.to_set().contains(keys[i]));
    }
    lemma_scan_written(head, m, keys);
    lemma_table_of_entries(m, keys);
    order::lemma_sorted_distinct(keys);
    keys.unique_seq_to_set();
    let t = table_of(entries_of(m, keys));
    assert forall|k: Seq<u8>| t.dom().contains(k) implies t[k] == m[k] by {
        assert(keys.to_set().contains(k));
        assert(keys.contains(k));
    }
    assert(t =~= m);
}

/// A frame that was cut short behind entries that end cleanly is torn.
proof fn lemma_scan_entries_torn(data: Seq<u8>, pos: nat, e: EntrySnapshotView, n: int)
    requires
        pos <= data.len(),
        scan_entries(data, pos).stop == EntryStop::Frame(FrameFault::Eof),
        layout::entry_layout(e).len() <= frame::MAX_PAYLOAD_LEN,
        0 < n < frame::frame_bytes(layout::entry_layout(e)).len(),
    ensures
        scan_entries(data + frame::frame_bytes(layout::entry_layout(e)).take(n), pos).stop
            == EntryStop::Frame(FrameFault::Torn),
    decreases data.len() - pos,
{
    let added = frame::frame_bytes(layout::entry_layout(e)).take(n);
    match frame::frame_at(data, pos as int) {
        Err(f) => {
            assert(pos == data.len());
            frame::lemma_cut_frame_is_torn(data, layout::entry_layout(e), n);
        },
        Ok(p) => {
            frame::lemma_frame_at_prefix(data, pos as int, added);
            lemma_scan_entries_torn(data, pos + 16 + p.len(), e, n);
        },
    }
}

proof fn lemma_scan_cut(head: Seq<u8>, m: Entries, keys: Seq<Seq<u8>>, n: int)
    requires
        0 <= n < entries_bytes(m, keys).len(),
        forall|i: int|
            0 <= i < keys.len() ==> layout::entry_layout(entry_of(m, #[trigger] keys[i])).len()
                <= frame::MAX_PAYLOAD_LEN,
    ensures
        ({
            let scan = scan_entries(head + entries_bytes(m, keys).take(n), head.len());
            ||| scan.stop == EntryStop::Frame(FrameFault::Torn)
            ||| scan.stop == EntryStop::Frame(FrameFault::Eof) && scan.entries.len() < keys.len()
        }),
    decreases keys.len(),
{
    let before = keys.drop_last();
    let e = entry_of(m, keys.last());
    let written = entries_bytes(m, before);
    let added = frame::frame_bytes(layout::entry_layout(e));
    let all = entries_bytes(m, keys);
    assert(all == written + added);
    if n < written.len() {
        lemma_scan_cut(head, m, before, n);
        assert(all.take(n) =~= written.take(n));
    } else {
        lemma_scan_written(head, m, before);
        if n == written.len() {
            assert(all.take(n) =~= written);
        } else {
            let k = n - written.len();
            lemma_scan_entries_torn(head + written, head.len(), e, k);
            assert(head + all.take(n) =~= head + written + added.take(k));
        }
    }
}

/// A snapshot file that was cut short anywhere is refused.
pub proof fn lemma_cut_snapshot_is_refused(path: Seq<char>, lsn: u64, m: Entries, n: int)
    requires
        m.dom().finite(),
        m.dom().len() <= u64::MAX,
        forall|k: Seq<u8>| #[trigger]
            m.dom().contains(k) ==> layout::entry_layout(entry_of(m, k)).len()
                <= frame::MAX_PAYLOAD_LEN,
        0 <= n < snapshot_bytes(lsn, m).len(),
    ensures
        load_bytes(path, snapshot_bytes(lsn, m).take(n)) matches Err(StoreFault::Corruption(_)),
{
    let keys = order::sorted_keys(m.dom());
    order::lemma_sorted_exists(m.dom());
    order::lemma_sorted_distinct(keys);
    keys.unique_seq_to_set();
    let header = header_of(lsn, m);
    let payload = layout::header_layout(header);
    let head = frame::frame_bytes(payload);
    let tail = entries_bytes(m, keys);
    let cut = snapshot_bytes(lsn, m).take(n);
    endian::lemma_le64(header.lsn);
    endian::lemma_le64(header.key_count);
    assert(payload.len() == 24);
    frame::lemma_frame_round_trip(Seq::empty(), payload, Seq::empty());
    assert(head.len() == 40);
    if n < head.len() {
        if n > 0 {
            frame::lemma_cut_frame_is_torn(Seq::empty(), payload, n);
            assert(Seq::<u8>::empty() + head.take(n) =~= cut);
        }
    } else {
        let rest = tail.take(n - head.len());
        frame::lemma_frame_round_trip(Seq::empty(), payload, rest);
        assert(Seq::<u8>::empty() + head + rest =~= cut);
        assert(head + rest =~= cut);
        layout::lemma_header_round_trip(header, Seq::empty());
        assert(payload + Seq::<u8>::empty() =~= payload);
        assert forall|i: int| 0 <= i < keys.len() implies layout::entry_layout(
            entry_of(m, #[trigger] keys[i]),
        ).len() <= frame::MAX_PAYLOAD_LEN by {
            assert(keys.to_set().contains(keys[i]));
        }
        lemma_scan_cut(head, m, keys, n - head.len());
    }
}

/// What stands behind entries that end cleanly is scanned as it would be there.
proof fn lemma_scan_entries_through(data: Seq<u8>, pos: nat, behind: Seq<u8>)
    requires
        pos <= data.len(),
        scan_entries(data, pos).stop == EntryStop::Frame(FrameFault::Eof),
    ensures
        ({
            let whole = scan_entries(data + behind, pos);
            let rest = scan_entries(data + behind, data.len());
            &&& whole.stop == rest.stop
            &&& whole.entries.len() == scan_entries(data, pos).entries.len() + rest.entries.len()
        }),
    decreases data.len() - pos,
{
    if let Ok(p) = frame::frame_at(data, pos as int) {
        frame::lemma_frame_at_prefix(data, pos as int, behind);
        lemma_scan_entries_through(data, pos + 16 + p.len(), behind);
    } else {
        assert(pos == data.len());
    }
}

proof fn lemma_header_read(lsn: u64, m: Entries, behind: Seq<u8>)
    ensures
        ({
            let payload = layout::header_layout(header_of(lsn, m));
            let data = frame::frame_bytes(payload) + behind;
            &&& payload.len() == 24
            &&& frame::frame_bytes(payload).len() == 40
            &&& frame::frame_at(data, 0) == Ok::<_, FrameFault>(payload)
            &&& layout::header_in(payload) == Some(header_of(lsn, m))
        }),
{
    let header = header_of(lsn, m);
    let payload = layout::header_layout(header);
    let head = frame::frame_bytes(payload);
    endian::lemma_le64(header.lsn);
    endian::lemma_le64(header.key_count);
    assert(payload.len() == 24);
    frame::lemma_frame_round_trip(Seq::empty(), payload, behind);
    assert(Seq::<u8>::empty() + head + behind =~= head + behind);
    layout::lemma_header_round_trip(header, Seq::empty());
    assert(payload + Seq::<u8>::empty() =~= payload);
}

/// Behind its header, a snapshot must hold as many entries as it declares and end there.
proof fn lemma_unfit_entries(path: Seq<char>, lsn: u64, m: Entries, data: Seq<u8>, behind: Seq<u8>)
    requires
        m.dom().len() <= u64::MAX,
        data == frame::frame_bytes(layout::header_layout(header_of(lsn, m))) + behind,
        ({
            let scan = scan_entries(data, 40);
            scan.stop == EntryStop::Frame(FrameFault::Eof) ==> scan.entries.len() != m.dom().len()
        }),
    ensures
        load_bytes(path, data) matches Err(StoreFault::Corruption(_)),
{
    lemma_header_read(lsn, m, behind);
}

/// A snapshot file with anything behind its last entry is refused: more entries than it declares, or
/// bytes that are none.
pub proof fn lemma_longer_snapshot_is_refused(
    path: Seq<char>,
    lsn: u64,
    m: Entries,
    behind: Seq<u8>,
)
    requires
        m.dom().finite(),
        m.dom().len() <= u64::MAX,
        forall|k: Seq<u8>| #[trigger]
            m.dom().contains(k) ==> layout::entry_layout(entry_of(m, k)).len()
                <= frame::MAX_PAYLOAD_LEN,
        behind.len() > 0,
    ensures
        load_bytes(path, snapshot_bytes(lsn, m) + behind) matches Err(StoreFault::Corruption(_)),
{
    let keys = order::sorted_keys(m.dom());
    order::lemma_sorted_exists(m.dom());
    order::lemma_sorted_distinct(keys);
    keys.unique_seq_to_set();
    let head = frame::frame_bytes(layout::header_layout(header_of(lsn, m)));
    let tail = entries_bytes(m, keys);
    let data = head + tail;
    assert(snapshot_bytes(lsn, m) == data);
    assert(data + behind =~= head + (tail + behind));
    assert forall|i: int| 0 <= i < keys.len() implies layout::entry_layout(
        entry_of(m, #[trigger] keys[i]),
    ).len() <= frame::MAX_PAYLOAD_LEN by {
        assert(keys.to_set().contains(keys[i]));
    }
    assert(head.len() == 40) by {
        lemma_header_read(lsn, m, tail);
    }
    lemma_longer_scan(head, m, keys, behind);
    lemma_unfit_entries(path, lsn, m, data + behind, tail + behind);
}

proof fn lemma_longer_scan(head: Seq<u8>, m: Entries, keys: Seq<Seq<u8>>, behind: Seq<u8>)
    requires
        behind.len() > 0,
        forall|i: int|
            0 <= i < keys.len() ==> layout::entry_layout(entry_of(m, #[trigger] keys[i])).len()
                <= frame::MAX_PAYLOAD_LEN,
    ensures
        ({
            let scan = scan_entries(head + entries_bytes(m, keys) + behind, head.len());
            scan.stop == EntryStop::Frame(FrameFault::Eof) ==> scan.entries.len() > keys.len()
        }),
{
    let data = head + entries_bytes(m, keys);
    lemma_scan_written(head, m, keys);
    assert(entries_of(m, keys).len() == keys.len());
    lemma_scan_entries_through(data, head.len(), behind);
    lemma_more_behind(data, behind);
}

/// Bytes behind entries are more entries, or do not end cleanly.
proof fn lemma_more_behind(data: Seq<u8>, behind: Seq<u8>)
    requires
        behind.len() > 0,
    ensures
        ({
            let rest = scan_entries(data + behind, data.len());
            rest.stop == EntryStop::Frame(FrameFault::Eof) ==> rest.entries.len() > 0
        }),
{
}

/// A snapshot file in which one byte of an entry's frame was changed, outside the frame's length, is
/// refused, whatever stands behind it. The frame is the one behind the first `j` entries.
pub proof fn lemma_changed_snapshot_is_refused(
    path: Seq<char>,
    lsn: u64,
    m: Entries,
    j: int,
    i: int,
    b: u8,
    behind: Seq<u8>,
)
    requires
        m.dom().finite(),
        m.dom().len() <= u64::MAX,
        forall|k: Seq<u8>| #[trigger]
            m.dom().contains(k) ==> layout::entry_layout(entry_of(m, k)).len()
                <= frame::MAX_PAYLOAD_LEN,
        0 <= j < m.dom().len(),
        ({
            let f = frame::frame_bytes(
                layout::entry_layout(entry_of(m, order::sorted_keys(m.dom())[j])),
            );
            0 <= i < f.len() && !(4 <= i < 8) && f[i] != b
        }),
    ensures
        ({
            let keys = order::sorted_keys(m.dom());
            let head = frame::frame_bytes(layout::header_layout(header_of(lsn, m)));
            let f = frame::frame_bytes(layout::entry_layout(entry_of(m, keys[j])));
            load_bytes(
                path,
                head + entries_bytes(m, keys.take(j)) + f.update(i, b) + behind,
            ) matches Err(StoreFault::Corruption(_))
        }),
{
    let keys = order::sorted_keys(m.dom());
    order::lemma_sorted_exists(m.dom());
    order::lemma_sorted_distinct(keys);
    keys.unique_seq_to_set();
    let some = keys.take(j);
    let head = frame::frame_bytes(layout::header_layout(header_of(lsn, m)));
    let payload = layout::entry_layout(entry_of(m, keys[j]));
    let changed = frame::frame_bytes(payload).update(i, b);
    let rest = changed + behind;
    let data = head + entries_bytes(m, some);
    assert(data + changed + behind =~= head + (entries_bytes(m, some) + rest));
    assert(keys.to_set().contains(keys[j]));
    assert(head.len() == 40) by {
        lemma_header_read(lsn, m, rest);
    }
    assert forall|x: int| 0 <= x < some.len() implies layout::entry_layout(
        entry_of(m, #[trigger] some[x]),
    ).len() <= frame::MAX_PAYLOAD_LEN by {
        assert(keys.to_set().contains(keys[x]));
    }
    lemma_changed_scan(head, m, some, payload, i, b, behind);
    lemma_unfit_entries(
        path,
        lsn,
        m,
        data + changed + behind,
        entries_bytes(m, some) + rest,
    );
}

proof fn lemma_changed_scan(
    head: Seq<u8>,
    m: Entries,
    keys: Seq<Seq<u8>>,
    payload: Seq<u8>,
    i: int,
    b: u8,
    behind: Seq<u8>,
)
    requires
        forall|x: int|
            0 <= x < keys.len() ==> layout::entry_layout(entry_of(m, #[trigger] keys[x])).len()
                <= frame::MAX_PAYLOAD_LEN,
        payload.len() <= frame::MAX_PAYLOAD_LEN,
        0 <= i < frame::frame_bytes(payload).len(),
        !(4 <= i < 8),
        frame::frame_bytes(payload)[i] != b,
    ensures
        scan_entries(
            head + entries_bytes(m, keys) + frame::frame_bytes(payload).update(i, b) + behind,
            head.len(),
        ).stop != EntryStop::Frame(FrameFault::Eof),
{
    let data = head + entries_bytes(m, keys);
    let changed = frame::frame_bytes(payload).update(i, b);
    let rest = changed + behind;
    assert(data + changed + behind =~= data + rest);
    frame::lemma_changed_byte_is_corrupt(data, payload, behind, i, b);
    lemma_corrupt_frame_stops(data + rest, data.len());
    lemma_scan_written(head, m, keys);
    lemma_scan_entries_through(data, head.len(), rest);
}

proof fn lemma_corrupt_frame_stops(data: Seq<u8>, pos: nat)
    requires
        frame::frame_at(data, pos as int) matches Err(FrameFault::Corrupt(_)),
    ensures
        scan_entries(data, pos).stop != EntryStop::Frame(FrameFault::Eof),
{
}

/// A snapshot file in which one byte of the header's frame was changed, outside the frame's length,
/// is refused.
pub proof fn lemma_changed_header_is_refused(
    path: Seq<char>,
    lsn: u64,
    m: Entries,
    i: int,
    b: u8,
)
    requires
        0 <= i < 40,
        !(4 <= i < 8),
        snapshot_bytes(lsn, m)[i] != b,
    ensures
        load_bytes(path, snapshot_bytes(lsn, m).update(i, b)) matches Err(
            StoreFault::Corruption(_),
        ),
{
    let payload = layout::header_layout(header_of(lsn, m));
    let head = frame::frame_bytes(payload);
    let tail = entries_bytes(m, order::sorted_keys(m.dom()));
    lemma_header_read(lsn, m, tail);
    frame::lemma_changed_byte_is_corrupt(Seq::empty(), payload, tail, i, b);
    assert(Seq::<u8>::empty() + head.update(i, b) + tail =~= snapshot_bytes(lsn, m).update(i, b));
}

/// Each entry of a snapshot is taken over as it is; of two entries of one key the later one holds.
pub proof fn lemma_table_of(es: Seq<EntrySnapshotView>, e: EntrySnapshotView, k: Seq<u8>)
    ensures
        ({
            let before = table_of(es);
            let after = table_of(es.push(e));
            &&& table_of(Seq::empty()).dom() == Set::<Seq<u8>>::empty()
            &&& after.dom().contains(e.key)
            &&& after[e.key].value == e.value
            &&& after[e.key].version == e.version
            &&& k != e.key ==> (after.dom().contains(k) <==> before.dom().contains(k))
            &&& k != e.key && before.dom().contains(k) ==> after[k] == before[k]
        }),
{
    assert(es.push(e).drop_last() =~= es);
}

} // verus!
