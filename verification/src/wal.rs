//! Write-ahead log: strictly ordered, CRC-framed, size-rotated segments.
//!
//! Segment files live inside the data directory and are named `wal-<index:020>` with monotonically
//! increasing zero-padded indices. Only the last (active) segment is appended to; previous segments
//! are sealed and eligible for deletion once a snapshot past their last LSN has become durable.
//!
//! All mutations of a transaction are written as one [`LogRecord`] inside one frame and fsynced
//! before the transaction is acknowledged, so recovery sees each committed transaction exactly
//! once:
//! - fully present frame  -> record is committed and replayed;
//! - partial tail frame   -> torn by crash, truncated on open;
//! - record LSN <= snapshot LSN -> skipped (never double-applied);
//! - LSN gap              -> treated as corruption.
//!
//! This module decides; the files themselves are read and written by its caller.

use crate::error::{StoreError, StoreFault};
use crate::frame;
use crate::frame::{FrameError, FrameFault, FrameReader};
use crate::layout;
use crate::layout::RecordView;
use crate::order;
use crate::record;
use crate::record::LogRecord;
pub use crate::store::{WalEntry, WalOp};
use crate::table;
use crate::table::{Table, TableView};
use crate::text;
use vstd::prelude::*;
use vstd::string::*;

verus! {

/// The name of a segment file: `wal-` and the index in twenty digits.
pub open spec fn segment_name_text(index: u64) -> Seq<char> {
    let digits = text::decimal(index as nat);
    "wal-"@ + text::zeros((20 - digits.len()) as nat) + digits
}

/// The path of a segment in a directory.
pub open spec fn segment_path_text(dir: Seq<char>, index: u64) -> Seq<char> {
    text::joined(dir, segment_name_text(index))
}

/// The index that a file name stands for, if it is the name of a segment: `wal-` and twenty bytes
/// that are a number.
pub open spec fn segment_index(name: Seq<u8>) -> Option<u64> {
    if name.len() == 24 && name[0] == 119 && name[1] == 97 && name[2] == 108 && name[3] == 45 {
        match text::unsigned_value(name.skip(4)) {
            Some(n) => if n <= u64::MAX {
                Some(n as u64)
            } else {
                None
            },
            None => None,
        }
    } else {
        None
    }
}

proof fn lemma_decimal_len(n: nat, k: nat)
    requires
        k >= 1,
        n < vstd::arithmetic::power::pow(10, k),
    ensures
        1 <= text::decimal(n).len() <= k,
    decreases k,
{
    vstd::arithmetic::power::lemma_pow1(10);
    if n >= 10 {
        if k == 1 {
            assert(false);
        }
        vstd::arithmetic::power::lemma_pow_adds(10, 1, (k - 1) as nat);
        let p = vstd::arithmetic::power::pow(10, (k - 1) as nat);
        assert(vstd::arithmetic::power::pow(10, k) == 10 * p);
        assert(n / 10 < p);
        lemma_decimal_len(n / 10, (k - 1) as nat);
    }
}

proof fn lemma_twenty_digits(n: u64)
    ensures
        1 <= text::decimal(n as nat).len() <= 20,
{
    assert(vstd::arithmetic::power::pow(10, 20) == 100_000_000_000_000_000_000) by {
        reveal_with_fuel(vstd::arithmetic::power::pow, 21);
    }
    lemma_decimal_len(n as nat, 20);
}

/// The name of the segment file with an index.
pub fn segment_name(index: u64) -> (r: String)
    ensures
        r@ == segment_name_text(index),
{
    let digits = text::number_text(index);
    proof {
        lemma_twenty_digits(index);
    }
    let n: usize = digits.as_str().unicode_len();
    let mut s = "wal-".to_string();
    let mut i: usize = n;
    proof {
        reveal_strlit("0");
        assert(s@ =~= "wal-"@ + text::zeros(0));
    }
    while i < 20
        invariant
            1 <= n <= i <= 20,
            s@ == "wal-"@ + text::zeros((i - n) as nat),
            "0"@ =~= seq!['0'],
        decreases 20 - i,
    {
        s.append("0");
        i += 1;
        assert(s@ =~= "wal-"@ + text::zeros((i - n) as nat));
    }
    s.append(digits.as_str());
    s
}

/// The path of the segment with an index.
pub fn segment_path(dir: &str, index: u64) -> (r: String)
    ensures
        r@ == segment_path_text(dir@, index),
{
    text::join_path(dir, segment_name(index).as_str())
}

/// Parse a segment index from a file name.
pub fn parse_segment_name(name: &str) -> (r: Option<u64>)
    ensures
        r == segment_index(name.spec_bytes()),
{
    let b: &[u8] = name.as_bytes();
    if b.len() != 24 || b[0] != 119 || b[1] != 97 || b[2] != 108 || b[3] != 45 {
        return None;
    }
    let rest = vstd::slice::slice_subrange(b, 4, 24);
    assert(rest@ =~= b@.skip(4));
    text::read_unsigned(rest)
}

/// Why a scan of a segment ended.
pub enum Stop {
    /// At a frame boundary or inside a frame, as the reader says.
    Frame(FrameFault),
    /// At a frame whose payload is no record.
    Record(Seq<char>),
}

/// The records of a segment up to where its scan ended.
pub struct Scan {
    pub records: Seq<RecordView>,
    /// The offset behind the last record.
    pub end: nat,
    pub stop: Stop,
}

/// The records in `data` from offset `pos` on.
pub open spec fn scan_from(data: Seq<u8>, pos: nat) -> Scan
    decreases data.len() - pos,
{
    match frame::frame_at(data, pos as int) {
        Err(f) => Scan { records: Seq::empty(), end: pos, stop: Stop::Frame(f) },
        Ok(payload) => match layout::record_in(payload) {
            None => Scan {
                records: Seq::empty(),
                end: pos,
                stop: Stop::Record(record::record_error(record::record_fault(payload))),
            },
            Some(r) => {
                let rest = scan_from(data, pos + 16 + payload.len());
                Scan { records: seq![r] + rest.records, end: rest.end, stop: rest.stop }
            },
        },
    }
}

/// The greatest LSN among records, or 0.
pub open spec fn greatest_lsn(rs: Seq<RecordView>) -> u64
    decreases rs.len(),
{
    if rs.len() == 0 {
        0
    } else if rs.last().lsn > greatest_lsn(rs.drop_last()) {
        rs.last().lsn
    } else {
        greatest_lsn(rs.drop_last())
    }
}

/// What a whole segment holds.
pub struct SegmentScan {
    /// The length of the valid data.
    pub size: nat,
    pub last_lsn: u64,
    pub records: Seq<RecordView>,
}

/// What a segment holds, or why it is corrupt. Only a tail may end in a torn frame.
pub open spec fn segment_scan(path: Seq<char>, data: Seq<u8>, allow_torn_tail: bool) -> Result<
    SegmentScan,
    StoreFault,
> {
    let scan = scan_from(data, 0);
    match scan.stop {
        Stop::Frame(FrameFault::Corrupt(message)) => Err(
            StoreFault::Corruption("WAL segment "@ + path + ": "@ + message),
        ),
        Stop::Frame(FrameFault::Torn) if !allow_torn_tail => Err(
            StoreFault::Corruption("torn frame inside non-tail segment "@ + path),
        ),
        Stop::Record(message) => Err(
            StoreFault::Corruption("invalid record in "@ + path + ": "@ + message),
        ),
        _ => Ok(
            SegmentScan {
                size: scan.end,
                last_lsn: greatest_lsn(scan.records),
                records: scan.records,
            },
        ),
    }
}

/// The records of a segment, with the length of its valid data and the greatest LSN.
pub fn scan_segment(path: &str, data: Vec<u8>, allow_torn_tail: bool) -> (r: Result<
    (u64, u64, Vec<LogRecord>),
    StoreError,
>)
    ensures
        match r {
            Ok((size, last_lsn, records)) => segment_scan(path@, data@, allow_torn_tail) == Ok::<
                _,
                StoreFault,
            >(
                (SegmentScan {
                    size: size as nat,
                    last_lsn,
                    records: record::record_views(records@),
                }),
            ) && size <= data@.len(),
            Err(e) => segment_scan(path@, data@, allow_torn_tail) == Err::<SegmentScan, _>(e@),
        },
{
    let ghost bytes = data@;
    let ghost whole = scan_from(bytes, 0);
    let mut reader = FrameReader::new(data);
    let mut records: Vec<LogRecord> = Vec::new();
    let mut last_lsn: u64 = 0;
    assert(record::record_views(records@) =~= Seq::empty());
    assert(Seq::<RecordView>::empty() + whole.records =~= whole.records);
    loop
        invariant
            bytes == data@,
            reader.data() == bytes,
            0 <= reader.at() <= bytes.len(),
            whole == scan_from(bytes, 0),
            whole.records == record::record_views(records@) + scan_from(
                bytes,
                reader.at(),
            ).records,
            whole.end == scan_from(bytes, reader.at()).end,
            whole.stop == scan_from(bytes, reader.at()).stop,
            last_lsn == greatest_lsn(record::record_views(records@)),
        ensures
            bytes == data@,
            reader.data() == bytes,
            0 <= reader.at() <= bytes.len(),
            whole.records == record::record_views(records@),
            whole.end == reader.at(),
            last_lsn == greatest_lsn(record::record_views(records@)),
            match whole.stop {
                Stop::Frame(FrameFault::Eof) => true,
                Stop::Frame(FrameFault::Torn) => allow_torn_tail,
                _ => false,
            },
        decreases bytes.len() - reader.at(),
    {
        let ghost pos = reader.at();
        let payload = match reader.next_frame() {
            Ok(p) => p,
            Err(e) => {
                assert(whole.records =~= record::record_views(records@));
                match e {
                    FrameError::Eof => {
                        break ;
                    },
                    FrameError::Torn => {
                        if allow_torn_tail {
                            break ;
                        }
                        let mut s = "torn frame inside non-tail segment ".to_string();
                        s.append(path);
                        return Err(StoreError::Corruption(s));
                    },
                    FrameError::Corrupt(message) => {
                        let mut s = "WAL segment ".to_string();
                        s.append(path);
                        s.append(": ");
                        s.append(message.as_str());
                        return Err(StoreError::Corruption(s));
                    },
                    FrameError::Io(e) => {
                        return Err(StoreError::Io(e));
                    },
                }
            },
        };
        match record::decode_record(payload.as_slice()) {
            Ok(rec) => {
                let ghost before = record::record_views(records@);
                if rec.lsn > last_lsn {
                    last_lsn = rec.lsn;
                }
                records.push(rec);
                proof {
                    let after = record::record_views(records@);
                    assert(after =~= before.push(rec@));
                    assert(after.drop_last() =~= before);
                    assert(scan_from(bytes, pos).records =~= seq![rec@] + scan_from(
                        bytes,
                        reader.at(),
                    ).records);
                    assert(before + scan_from(bytes, pos).records =~= after + scan_from(
                        bytes,
                        reader.at(),
                    ).records);
                }
            },
            Err(message) => {
                let mut s = "invalid record in ".to_string();
                s.append(path);
                s.append(": ");
                s.append(message.as_str());
                return Err(StoreError::Corruption(s));
            },
        }
    }
    Ok((reader.position(), last_lsn, records))
}

/// The LSN of the last record of a segment, or 0, or why it cannot be read to its end.
pub open spec fn last_lsn_in(path: Seq<char>, data: Seq<u8>) -> Result<u64, StoreFault> {
    let scan = scan_from(data, 0);
    match scan.stop {
        Stop::Frame(FrameFault::Eof) => if scan.records.len() == 0 {
            Ok(0)
        } else {
            Ok(scan.records.last().lsn)
        },
        Stop::Frame(f) => Err(
            StoreFault::Corruption(
                "cannot scan sealed segment "@ + path + ": "@ + frame::frame_message(f),
            ),
        ),
        Stop::Record(message) => Err(
            StoreFault::Corruption("invalid record in "@ + path + ": "@ + message),
        ),
    }
}

/// Scan the bytes of a segment and return its last record's LSN (0 if empty).
pub fn last_lsn_in_file(path: &str, data: Vec<u8>) -> (r: Result<u64, StoreError>)
    ensures
        match r {
            Ok(lsn) => last_lsn_in(path@, data@) == Ok::<_, StoreFault>(lsn),
            Err(e) => last_lsn_in(path@, data@) == Err::<u64, _>(e@),
        },
{
    let ghost bytes = data@;
    let ghost whole = scan_from(bytes, 0);
    let ghost mut done: Seq<RecordView> = Seq::empty();
    let mut reader = FrameReader::new(data);
    let mut last: u64 = 0;
    assert(Seq::<RecordView>::empty() + whole.records =~= whole.records);
    loop
        invariant
            bytes == data@,
            reader.data() == bytes,
            0 <= reader.at() <= bytes.len(),
            whole == scan_from(bytes, 0),
            whole.records == done + scan_from(bytes, reader.at()).records,
            whole.stop == scan_from(bytes, reader.at()).stop,
            done.len() == 0 ==> last == 0,
            done.len() > 0 ==> last == done.last().lsn,
        decreases bytes.len() - reader.at(),
    {
        let ghost pos = reader.at();
        match reader.next_frame() {
            Ok(payload) => match record::decode_record(payload.as_slice()) {
                Ok(rec) => {
                    last = rec.lsn;
                    proof {
                        assert(scan_from(bytes, pos).records =~= seq![rec@] + scan_from(
                            bytes,
                            reader.at(),
                        ).records);
                        assert(done + scan_from(bytes, pos).records =~= done.push(rec@)
                            + scan_from(bytes, reader.at()).records);
                        done = done.push(rec@);
                    }
                },
                Err(message) => {
                    let mut s = "invalid record in ".to_string();
                    s.append(path);
                    s.append(": ");
                    s.append(message.as_str());
                    return Err(StoreError::Corruption(s));
                },
            },
            Err(FrameError::Eof) => {
                assert(whole.records =~= done);
                return Ok(last);
            },
            Err(other) => {
                let mut s = "cannot scan sealed segment ".to_string();
                s.append(path);
                s.append(": ");
                s.append(other.message().as_str());
                return Err(StoreError::Corruption(s));
            },
        }
    }
}

/// A sealed WAL segment that may be removed after compaction.
#[derive(Debug)]
pub struct SealedSegment {
    pub index: u64,
    pub path: String,
    pub size: u64,
    /// LSN of the last record contained in this segment (0 if empty).
    pub end_lsn: u64,
}

/// What a [`SealedSegment`] says.
pub struct SealedView {
    pub index: u64,
    pub path: Seq<char>,
    pub size: u64,
    pub end_lsn: u64,
}

impl View for SealedSegment {
    type V = SealedView;

    open spec fn view(&self) -> SealedView {
        SealedView {
            index: self.index,
            path: self.path@,
            size: self.size,
            end_lsn: self.end_lsn,
        }
    }
}

/// The views of a sequence of sealed segments.
pub open spec fn sealed_views(v: Seq<SealedSegment>) -> Seq<SealedView> {
    v.map_values(|s: SealedSegment| s@)
}

/// The sizes of segments, added up.
pub open spec fn sealed_bytes(v: Seq<SealedView>) -> nat
    decreases v.len(),
{
    if v.len() == 0 {
        0
    } else {
        sealed_bytes(v.drop_last()) + v.last().size as nat
    }
}

/// A segment file as it was found on disk.
#[derive(Debug)]
pub struct SegmentFile {
    pub index: u64,
    pub data: Vec<u8>,
}

/// What a [`SegmentFile`] holds.
pub struct SegmentView {
    pub index: u64,
    pub data: Seq<u8>,
}

impl View for SegmentFile {
    type V = SegmentView;

    open spec fn view(&self) -> SegmentView {
        SegmentView { index: self.index, data: self.data@ }
    }
}

/// The views of a sequence of segment files.
pub open spec fn segment_views(v: Seq<SegmentFile>) -> Seq<SegmentView> {
    v.map_values(|s: SegmentFile| s@)
}

/// The indices come in ascending order, each once.
pub open spec fn ascending(v: Seq<SegmentView>) -> bool {
    forall|i: int, j: int|
        0 <= i < j < v.len() ==> (#[trigger] v[i]).index < (#[trigger] v[j]).index
}

/// The lengths of segments, added up.
pub open spec fn segment_bytes(v: Seq<SegmentView>) -> nat
    decreases v.len(),
{
    if v.len() == 0 {
        0
    } else {
        segment_bytes(v.drop_last()) + v.last().data.len()
    }
}

/// What recovery has after some segments.
pub struct Recovery {
    pub table: TableView,
    pub records: Seq<RecordView>,
    pub segments: Seq<SealedView>,
}

/// What recovery has after the first `n` segments. Each segment is scanned as a whole before its
/// records are fed to the table, and only the last one may end in a torn frame.
pub open spec fn recover(dir: Seq<char>, segs: Seq<SegmentView>, n: int, start: TableView) -> Result<
    Recovery,
    StoreFault,
>
    decreases n,
{
    if n <= 0 {
        Ok(Recovery { table: start, records: Seq::empty(), segments: Seq::empty() })
    } else {
        match recover(dir, segs, n - 1, start) {
            Err(e) => Err(e),
            Ok(before) => {
                let seg = segs[n - 1];
                let path = segment_path_text(dir, seg.index);
                match segment_scan(path, seg.data, n == segs.len()) {
                    Err(e) => Err(e),
                    Ok(scan) => match table::replay_all(before.table, scan.records) {
                        Err(e) => Err(e),
                        Ok(table) => Ok(
                            Recovery {
                                table,
                                records: before.records + scan.records,
                                segments: before.segments.push(
                                    SealedView {
                                        index: seg.index,
                                        path,
                                        size: scan.size as u64,
                                        end_lsn: scan.last_lsn,
                                    },
                                ),
                            },
                        ),
                    },
                }
            },
        }
    }
}

/// The state of the log's accounting.
pub struct WalView {
    pub dir: Seq<char>,
    pub active_index: u64,
    pub active_size: u64,
    pub sealed: Seq<SealedView>,
    pub total_bytes: u64,
}

/// The log after recovery: the last segment is the active one, and where there is none the first
/// one is still to be created.
pub open spec fn opened(dir: Seq<char>, segments: Seq<SealedView>) -> WalView {
    if segments.len() == 0 {
        WalView { dir, active_index: 1, active_size: 0, sealed: segments, total_bytes: 0 }
    } else {
        WalView {
            dir,
            active_index: segments.last().index,
            active_size: segments.last().size,
            sealed: segments.drop_last(),
            total_bytes: sealed_bytes(segments) as u64,
        }
    }
}

/// The log's accounting: which segment is appended to, which ones are sealed, and how many bytes
/// they hold.
#[derive(Debug)]
pub struct Wal {
    dir: String,
    active_index: u64,
    active_size: u64,
    /// Sealed segments in the order of their indices.
    sealed: Vec<SealedSegment>,
    /// Total bytes across active and sealed segments (drives compaction).
    total_bytes: u64,
}

impl View for Wal {
    type V = WalView;

    closed spec fn view(&self) -> WalView {
        WalView {
            dir: self.dir@,
            active_index: self.active_index,
            active_size: self.active_size,
            sealed: sealed_views(self.sealed@),
            total_bytes: self.total_bytes,
        }
    }
}

impl WalView {
    /// The sealed segments are in order, before the active one, and the bytes add up.
    pub open spec fn wf(self) -> bool {
        &&& forall|i: int, j: int|
            0 <= i < j < self.sealed.len() ==> (#[trigger] self.sealed[i]).index < (
            #[trigger] self.sealed[j]).index
        &&& forall|i: int|
            0 <= i < self.sealed.len() ==> (#[trigger] self.sealed[i]).index < self.active_index
        &&& self.total_bytes == sealed_bytes(self.sealed) + self.active_size
    }
}

proof fn lemma_segment_bytes_grow(v: Seq<SegmentView>, n: int)
    requires
        0 <= n <= v.len(),
    ensures
        segment_bytes(v.take(n)) <= segment_bytes(v),
    decreases v.len() - n,
{
    if n < v.len() {
        lemma_segment_bytes_grow(v, n + 1);
        assert(v.take(n + 1).drop_last() =~= v.take(n));
    } else {
        assert(v.take(n) =~= v);
    }
}

impl Wal {
    /// Open the WAL in `dir` from its segments, in the order of their indices.
    ///
    /// Every valid record, in order across all segments, is fed to `table`. A torn tail on the
    /// final segment is left out: what is valid there ends at the active size. Hard corruption (bad
    /// magic/CRC inside a segment, a record that cannot be decoded, an LSN gap) produces
    /// [`StoreError::Corruption`].
    pub fn open(dir: &str, files: Vec<SegmentFile>, start_table: Table) -> (r: Result<
        (Wal, Vec<LogRecord>, Table),
        StoreError,
    >)
        requires
            start_table.wf(),
            ascending(segment_views(files@)),
            segment_bytes(segment_views(files@)) <= u64::MAX,
        ensures
            match r {
                Ok((wal, records, recovered)) => {
                    let rec = recover(
                        dir@,
                        segment_views(files@),
                        files@.len() as int,
                        start_table@,
                    );
                    &&& rec is Ok
                    &&& rec->Ok_0.table == recovered@
                    &&& rec->Ok_0.records == record::record_views(records@)
                    &&& wal@ == opened(dir@, rec->Ok_0.segments)
                    &&& wal@.wf()
                    &&& recovered.wf()
                },
                Err(e) => recover(
                    dir@,
                    segment_views(files@),
                    files@.len() as int,
                    start_table@,
                ) == Err::<Recovery, _>(e@),
            },
    {
        let ghost segs = segment_views(files@);
        let ghost start = start_table@;
        let mut table = start_table;
        let mut segments = files;
        let count: usize = segments.len();
        let mut sealed: Vec<SealedSegment> = Vec::new();
        let mut all_records: Vec<LogRecord> = Vec::new();
        let mut total_bytes: u64 = 0;
        let mut n: usize = 0;
        assert(record::record_views(all_records@) =~= Seq::empty());
        assert(sealed_views(sealed@) =~= Seq::empty());
        assert(segs.take(0) =~= Seq::empty());
        while n < count
            invariant
                n <= count,
                count == segs.len(),
                segments@.len() == count - n,
                forall|i: int| 0 <= i < count - n ==> (#[trigger] segments@[i])@ == segs[n + i],
                ascending(segs),
                segment_bytes(segs) <= u64::MAX,
                table.wf(),
                sealed@.len() == n,
                forall|i: int| 0 <= i < n ==> (#[trigger] sealed@[i]).index == segs[i].index,
                total_bytes == sealed_bytes(sealed_views(sealed@)),
                total_bytes <= segment_bytes(segs.take(n as int)),
                recover(dir@, segs, n as int, start) == Ok::<_, StoreFault>(
                    (Recovery {
                        table: table@,
                        records: record::record_views(all_records@),
                        segments: sealed_views(sealed@),
                    }),
                ),
                segs == segment_views(files@),
                start == start_table@,
            decreases count - n,
        {
            let seg = segments.remove(0);
            assert(seg@ == segs[n as int]);
            let path = segment_path(dir, seg.index);
            let index: u64 = seg.index;
            let is_last: bool = n + 1 == count;
            let ghost data = seg.data@;
            proof {
                assert(segs.take(n + 1).drop_last() =~= segs.take(n as int));
                assert(segs.take(n + 1).last() == segs[n as int]);
                lemma_segment_bytes_grow(segs, n + 1);
            }
            let (size, end_lsn, records) = match scan_segment(path.as_str(), seg.data, is_last) {
                Ok(scan) => scan,
                Err(e) => {
                    proof {
                        lemma_recover_stops(dir@, segs, n + 1, count as int, start);
                    }
                    return Err(e);
                },
            };
            match table.replay_records(&records) {
                Ok(_) => {},
                Err(e) => {
                    proof {
                        lemma_recover_stops(dir@, segs, n + 1, count as int, start);
                    }
                    return Err(e);
                },
            }
            let ghost before_records = record::record_views(all_records@);
            let ghost before_sealed = sealed_views(sealed@);
            let ghost scanned = record::record_views(records@);
            let mut records = records;
            all_records.append(&mut records);
            total_bytes += size;
            sealed.push(SealedSegment { index, path, size, end_lsn });
            proof {
                assert(record::record_views(all_records@) =~= before_records + scanned);
                assert(sealed_views(sealed@) =~= before_sealed.push(sealed@.last()@));
                assert(sealed_views(sealed@).drop_last() =~= before_sealed);
            }
            n += 1;
        }
        assert(sealed@.len() == count);
        if count == 0 {
            let wal = Wal {
                dir: dir.to_string(),
                active_index: 1,
                active_size: 0,
                sealed,
                total_bytes: 0,
            };
            return Ok((wal, all_records, table));
        }
        let ghost all = sealed_views(sealed@);
        let last = sealed.remove(count - 1);
        proof {
            assert(sealed_views(sealed@) =~= all.drop_last());
            assert(all.last() == last@);
            assert forall|i: int, j: int| 0 <= i < j < all.len() implies (#[trigger] all[i]).index
                < (#[trigger] all[j]).index by {
                assert(segs[i].index < segs[j].index);
            }
        }
        let wal = Wal {
            dir: dir.to_string(),
            active_index: last.index,
            active_size: last.size,
            sealed,
            total_bytes,
        };
        Ok((wal, all_records, table))
    }
}

/// What is to be done to append a record: rotate first or not, and write these bytes.
#[derive(Debug)]
pub struct AppendPlan {
    /// The active segment is sealed and the next one created before the frame is written.
    pub rotate: bool,
    /// The last LSN of the segment that is sealed.
    pub sealed_end_lsn: u64,
    pub frame: Vec<u8>,
}

/// Appending `frame_len` bytes to an active segment that holds some would cross the limit.
pub open spec fn must_rotate(w: WalView, frame_len: int, soft_limit_bytes: u64) -> bool {
    w.active_size > 0 && w.active_size + frame_len > soft_limit_bytes
}

/// The log after its active segment was sealed and the next one created.
pub open spec fn rotated(w: WalView, sealed_end_lsn: u64) -> WalView {
    WalView {
        dir: w.dir,
        active_index: (w.active_index + 1) as u64,
        active_size: 0,
        sealed: w.sealed.push(
            SealedView {
                index: w.active_index,
                path: segment_path_text(w.dir, w.active_index),
                size: w.active_size,
                end_lsn: sealed_end_lsn,
            },
        ),
        total_bytes: w.total_bytes,
    }
}

/// The log after a frame was written to the active segment.
pub open spec fn appended(w: WalView, frame_len: int) -> WalView {
    WalView {
        active_size: (w.active_size + frame_len) as u64,
        total_bytes: (w.total_bytes + frame_len) as u64,
        ..w
    }
}

/// A snapshot at `snapshot_lsn` covers every record of a segment that holds some.
pub open spec fn covered(seg: SealedView, snapshot_lsn: u64) -> bool {
    seg.end_lsn > 0 && seg.end_lsn <= snapshot_lsn
}

/// The segments that a snapshot covers, or those that it does not cover, in order.
pub open spec fn partition(v: Seq<SealedView>, snapshot_lsn: u64, take_covered: bool) -> Seq<
    SealedView,
>
    decreases v.len(),
{
    if v.len() == 0 {
        v
    } else {
        let before = partition(v.drop_last(), snapshot_lsn, take_covered);
        if covered(v.last(), snapshot_lsn) == take_covered {
            before.push(v.last())
        } else {
            before
        }
    }
}

/// The log once the active segment, if it holds anything, is sealed.
pub open spec fn settled(w: WalView, sealed_end_lsn: Option<u64>) -> WalView {
    match sealed_end_lsn {
        Some(end_lsn) => rotated(w, end_lsn),
        None => w,
    }
}

/// What a partition keeps comes in the order of the whole.
proof fn lemma_partition(v: Seq<SealedView>, snapshot_lsn: u64, take_covered: bool)
    requires
        forall|i: int, j: int|
            0 <= i < j < v.len() ==> (#[trigger] v[i]).index < (#[trigger] v[j]).index,
    ensures
        ({
            let p = partition(v, snapshot_lsn, take_covered);
            &&& forall|i: int, j: int|
                0 <= i < j < p.len() ==> (#[trigger] p[i]).index < (#[trigger] p[j]).index
            &&& forall|i: int| 0 <= i < p.len() ==> v.contains(#[trigger] p[i])
        }),
    decreases v.len(),
{
    if v.len() > 0 {
        let w = v.drop_last();
        lemma_partition(w, snapshot_lsn, take_covered);
        let q = partition(w, snapshot_lsn, take_covered);
        let p = partition(v, snapshot_lsn, take_covered);
        assert forall|i: int| 0 <= i < p.len() implies v.contains(#[trigger] p[i]) by {
            if i < q.len() {
                assert(w.contains(q[i]));
                let k = choose|k: int| 0 <= k < w.len() && w[k] == q[i];
                assert(v[k] == p[i]);
            } else {
                assert(v[v.len() - 1] == p[i]);
            }
        }
        assert forall|i: int, j: int| 0 <= i < j < p.len() implies (#[trigger] p[i]).index < (
        #[trigger] p[j]).index by {
            if j < q.len() {
                assert(q[i].index < q[j].index);
            } else {
                assert(w.contains(q[i]));
                let k = choose|k: int| 0 <= k < w.len() && w[k] == q[i];
                assert(v[k].index < v[v.len() - 1].index);
            }
        }
    }
}

impl Wal {
    /// Plans the append of one record (one frame). The active segment is rotated first when
    /// appending would cross `soft_limit_bytes`; the sealed segment then records `lsn - 1` as its
    /// end LSN (commits are serial and LSNs are contiguous). The caller carries the plan out with
    /// [`Wal::rotate_locked`] and [`Wal::record_append`], and fsyncs before it acknowledges the
    /// commit.
    pub fn append(&self, rec: &LogRecord, soft_limit_bytes: u64) -> (r: Result<
        AppendPlan,
        StoreError,
    >)
        ensures
            r is Ok,
            r->Ok_0.frame@ == frame::frame_bytes(layout::record_layout(rec@)),
            r->Ok_0.rotate == must_rotate(self@, r->Ok_0.frame@.len() as int, soft_limit_bytes),
            r->Ok_0.sealed_end_lsn == if rec.lsn > 0 {
                (rec.lsn - 1) as u64
            } else {
                0
            },
    {
        let payload = match record::encode_record(rec) {
            Ok(payload) => payload,
            Err(e) => {
                let mut s = "failed to serialize WAL record: ".to_string();
                s.append(e.as_str());
                return Err(StoreError::Corruption(s));
            },
        };
        let frame = frame::encode_frame(payload.as_slice());
        let frame_len: u64 = frame.len() as u64;
        let rotate: bool = self.active_size > 0 && (self.active_size > soft_limit_bytes || frame_len
            > soft_limit_bytes - self.active_size);
        let sealed_end_lsn: u64 = if rec.lsn > 0 {
            rec.lsn - 1
        } else {
            0
        };
        Ok(AppendPlan { rotate, sealed_end_lsn, frame })
    }

    /// Seals the active segment and goes on to the next one, whose file has been created.
    /// `sealed_end_lsn` is the last record LSN contained in the old segment.
    pub fn rotate_locked(&mut self, sealed_end_lsn: u64)
        requires
            old(self)@.wf(),
            old(self)@.active_index < u64::MAX,
        ensures
            final(self)@ == rotated(old(self)@, sealed_end_lsn),
            final(self)@.wf(),
    {
        let ghost before = self@;
        let old_index: u64 = self.active_index;
        let path = segment_path(self.dir.as_str(), old_index);
        self.sealed.push(
            SealedSegment { index: old_index, path, size: self.active_size, end_lsn: sealed_end_lsn },
        );
        self.active_index = old_index + 1;
        self.active_size = 0;
        proof {
            assert(self@.sealed =~= rotated(before, sealed_end_lsn).sealed);
            assert(self@.sealed.drop_last() =~= before.sealed);
        }
    }

    /// Counts a frame that was written to the active segment.
    pub fn record_append(&mut self, frame_len: u64)
        requires
            old(self)@.wf(),
            old(self)@.total_bytes + frame_len <= u64::MAX,
        ensures
            final(self)@ == appended(old(self)@, frame_len as int),
            final(self)@.wf(),
    {
        self.active_size += frame_len;
        self.total_bytes += frame_len;
    }

    /// Current total bytes of all segments.
    pub fn total_bytes(&self) -> (r: u64)
        ensures
            r == self@.total_bytes,
    {
        self.total_bytes
    }

    /// Index of the currently active segment.
    pub fn active_index(&self) -> (r: u64)
        ensures
            r == self@.active_index,
    {
        self.active_index
    }

    /// Bytes in the currently active segment.
    pub fn active_size(&self) -> (r: u64)
        ensures
            r == self@.active_size,
    {
        self.active_size
    }

    /// Path of the currently active segment.
    pub fn active_path(&self) -> (r: String)
        ensures
            r@ == segment_path_text(self@.dir, self@.active_index),
    {
        segment_path(self.dir.as_str(), self.active_index)
    }

    /// Rotate without appending and partition sealed segments into those fully covered by a
    /// snapshot at `snapshot_lsn` (returned for deletion) and those that must be retained. Called
    /// by the compactor while it holds the commit lock, so no append can race. `sealed_end_lsn` is
    /// the last LSN in the active segment where that holds anything (see [`last_lsn_in_file`]);
    /// the next segment's file has then been created.
    pub fn rotate_and_take_persisted(
        &mut self,
        sealed_end_lsn: Option<u64>,
        snapshot_lsn: u64,
    ) -> (r: Vec<SealedSegment>)
        requires
            old(self)@.wf(),
            sealed_end_lsn is Some <==> old(self)@.active_size > 0,
            sealed_end_lsn is Some ==> old(self)@.active_index < u64::MAX,
        ensures
            final(self)@.wf(),
            sealed_views(r@) == partition(
                settled(old(self)@, sealed_end_lsn).sealed,
                snapshot_lsn,
                true,
            ),
            final(self)@.sealed == partition(
                settled(old(self)@, sealed_end_lsn).sealed,
                snapshot_lsn,
                false,
            ),
            final(self)@.dir == old(self)@.dir,
            final(self)@.active_index == settled(old(self)@, sealed_end_lsn).active_index,
            final(self)@.active_size == 0,
            final(self)@.total_bytes == sealed_bytes(final(self)@.sealed),
    {
        match sealed_end_lsn {
            Some(end_lsn) => {
                self.rotate_locked(end_lsn);
            },
            None => {},
        }
        let ghost before = self@;
        let ghost all = sealed_views(self.sealed@);
        let mut remove: Vec<SealedSegment> = Vec::new();
        let mut keep: Vec<SealedSegment> = Vec::new();
        let mut kept_bytes: u64 = 0;
        let mut i: usize = 0;
        assert(sealed_views(remove@) =~= Seq::empty());
        assert(sealed_views(keep@) =~= Seq::empty());
        assert(all.take(0) =~= Seq::empty());
        while i < self.sealed.len()
            invariant
                i <= self.sealed@.len(),
                all == sealed_views(self.sealed@),
                sealed_bytes(all) <= u64::MAX,
                sealed_views(remove@) == partition(all.take(i as int), snapshot_lsn, true),
                sealed_views(keep@) == partition(all.take(i as int), snapshot_lsn, false),
                kept_bytes == sealed_bytes(sealed_views(keep@)),
                kept_bytes <= sealed_bytes(all.take(i as int)),
            decreases self.sealed@.len() - i,
        {
            let ghost removed = sealed_views(remove@);
            let ghost kept = sealed_views(keep@);
            proof {
                assert(all.take(i + 1).drop_last() =~= all.take(i as int));
                assert(all.take(i + 1).last() == all[i as int]);
                lemma_sealed_bytes_grow(all, i + 1);
            }
            let seg = &self.sealed[i];
            let copy = SealedSegment {
                index: seg.index,
                path: seg.path.clone(),
                size: seg.size,
                end_lsn: seg.end_lsn,
            };
            assert(copy@ == all[i as int]);
            if seg.end_lsn > 0 && seg.end_lsn <= snapshot_lsn {
                remove.push(copy);
                assert(sealed_views(remove@) =~= removed.push(all[i as int]));
            } else {
                kept_bytes += seg.size;
                keep.push(copy);
                assert(sealed_views(keep@) =~= kept.push(all[i as int]));
                assert(sealed_views(keep@).drop_last() =~= kept);
            }
            i += 1;
        }
        proof {
            assert(all.take(i as int) =~= all);
            lemma_partition(all, snapshot_lsn, false);
            let kept = sealed_views(keep@);
            assert forall|i: int| 0 <= i < kept.len() implies (#[trigger] kept[i]).index
                < before.active_index by {
                assert(all.contains(kept[i]));
            }
        }
        self.sealed = keep;
        // The active segment is empty.
        self.total_bytes = kept_bytes;
        remove
    }
}

proof fn lemma_sealed_bytes_grow(v: Seq<SealedView>, n: int)
    requires
        0 <= n <= v.len(),
    ensures
        sealed_bytes(v.take(n)) <= sealed_bytes(v),
    decreases v.len() - n,
{
    if n < v.len() {
        lemma_sealed_bytes_grow(v, n + 1);
        assert(v.take(n + 1).drop_last() =~= v.take(n));
    } else {
        assert(v.take(n) =~= v);
    }
}

/// The indices of the segments among some file names.
pub open spec fn indices_in(names: Seq<String>) -> Set<u64> {
    Set::new(
        |n: u64|
            exists|i: int|
                0 <= i < names.len() && segment_index(
                    vstd::utf8::encode_utf8((#[trigger] names[i])@),
                ) == Some(n),
    )
}

/// Each number is smaller than the ones behind it.
pub open spec fn increasing(v: Seq<u64>) -> bool {
    forall|i: int, j: int| 0 <= i < j < v.len() ==> #[trigger] v[i] < #[trigger] v[j]
}

/// Puts a number into an increasing list, unless it is there.
fn insert_index(v: &mut Vec<u64>, n: u64)
    requires
        increasing(old(v)@),
    ensures
        increasing(final(v)@),
        final(v)@.to_set() == old(v)@.to_set().insert(n),
{
    let ghost before = v@;
    let mut at: usize = 0;
    while at < v.len() && v[at] < n
        invariant
            at <= v@.len(),
            v@ == before,
            forall|i: int| 0 <= i < at ==> #[trigger] v@[i] < n,
        decreases v@.len() - at,
    {
        at += 1;
    }
    if at < v.len() && v[at] == n {
        proof {
            assert(before.contains(n));
            assert(before.to_set() =~= before.to_set().insert(n));
        }
        return ;
    }
    v.insert(at, n);
    proof {
        let after = v@;
        assert(after =~= before.insert(at as int, n));
        assert forall|i: int, j: int| 0 <= i < j < after.len() implies #[trigger] after[i]
            < #[trigger] after[j] by {
            let i1 = if i < at { i } else { i - 1 };
            let j1 = if j < at { j } else { j - 1 };
            if i == at {
                assert(before[at as int] <= before[j1]);
            } else if j != at {
                assert(before[i1] < before[j1]);
            }
        }
        assert forall|x: u64| after.to_set().contains(x) <==> before.to_set().insert(n).contains(
            x,
        ) by {
            if after.contains(x) {
                let i = choose|i: int| 0 <= i < after.len() && after[i] == x;
                if i < at {
                    assert(before[i] == x);
                } else if i > at {
                    assert(before[i - 1] == x);
                }
            }
            if x == n {
                assert(after[at as int] == x);
            } else if before.contains(x) {
                let i = choose|i: int| 0 <= i < before.len() && before[i] == x;
                if i < at {
                    assert(after[i] == x);
                } else {
                    assert(after[i + 1] == x);
                }
            }
        }
        assert(after.to_set() =~= before.to_set().insert(n));
    }
}

/// The indices of the segments among the names of a directory's files, in order and each once.
pub fn segment_indices(names: &Vec<String>) -> (r: Vec<u64>)
    ensures
        increasing(r@),
        r@.to_set() == indices_in(names@),
{
    let mut r: Vec<u64> = Vec::new();
    let mut i: usize = 0;
    assert(r@.to_set() =~= indices_in(names@.take(0)));
    while i < names.len()
        invariant
            i <= names@.len(),
            increasing(r@),
            r@.to_set() == indices_in(names@.take(i as int)),
        decreases names@.len() - i,
    {
        let ghost before = names@.take(i as int);
        let ghost after = names@.take(i + 1);
        assert(after =~= before.push(names@[i as int]));
        let index = parse_segment_name(names[i].as_str());
        proof {
            assert forall|n: u64| indices_in(after).contains(n) <==> indices_in(before).contains(n)
                || index == Some(n) by {
                if indices_in(after).contains(n) {
                    let k = choose|k: int|
                        0 <= k < after.len() && segment_index(
                            vstd::utf8::encode_utf8((#[trigger] after[k])@),
                        ) == Some(n);
                    if k < i {
                        assert(before[k] == after[k]);
                    }
                }
                if indices_in(before).contains(n) {
                    let k = choose|k: int|
                        0 <= k < before.len() && segment_index(
                            vstd::utf8::encode_utf8((#[trigger] before[k])@),
                        ) == Some(n);
                    assert(before[k] == after[k]);
                }
                if index == Some(n) {
                    assert(after[i as int] == names@[i as int]);
                }
            }
        }
        match index {
            Some(n) => {
                insert_index(&mut r, n);
                assert(indices_in(after) =~= indices_in(before).insert(n));
            },
            None => {
                assert(indices_in(after) =~= indices_in(before));
            },
        }
        i += 1;
    }
    assert(names@.take(i as int) =~= names@);
    r
}

/// An error in recovery stays.
proof fn lemma_recover_stops(
    dir: Seq<char>,
    segs: Seq<SegmentView>,
    n: int,
    m: int,
    start: TableView,
)
    requires
        n <= m,
        recover(dir, segs, n, start) is Err,
    ensures
        recover(dir, segs, m, start) == recover(dir, segs, n, start),
    decreases m - n,
{
    if n < m {
        lemma_recover_stops(dir, segs, n, m - 1, start);
    }
}

/// The frame that a record is logged as.
pub open spec fn record_frame(r: RecordView) -> Seq<u8> {
    frame::frame_bytes(layout::record_layout(r))
}

/// A record fits into a frame that can be read back.
pub open spec fn fits(r: RecordView) -> bool {
    layout::record_layout(r).len() <= frame::MAX_PAYLOAD_LEN
}

/// A record appended behind records that end cleanly is scanned as the last one. (A record whose
/// serialized form is longer than a frame may be cannot be read back.)
pub proof fn lemma_scan_append(data: Seq<u8>, pos: nat, r: RecordView)
    requires
        pos <= data.len(),
        scan_from(data, pos).stop == Stop::Frame(FrameFault::Eof),
        fits(r),
    ensures
        ({
            let more = scan_from(data + record_frame(r), pos);
            &&& more.records == scan_from(data, pos).records.push(r)
            &&& more.stop == Stop::Frame(FrameFault::Eof)
            &&& more.end == (data + record_frame(r)).len()
        }),
    decreases data.len() - pos,
{
    let payload = layout::record_layout(r);
    let added = record_frame(r);
    let more = data + added;
    match frame::frame_at(data, pos as int) {
        Err(f) => {
            assert(pos == data.len());
            frame::lemma_frame_round_trip(data, payload, Seq::empty());
            assert(data + added + Seq::<u8>::empty() =~= more);
            layout::lemma_record_round_trip(r, Seq::empty());
            assert(payload + Seq::<u8>::empty() =~= payload);
            let rest = scan_from(more, pos + 16 + payload.len());
            assert(rest.records =~= Seq::<RecordView>::empty());
            assert(scan_from(more, pos).records =~= scan_from(data, pos).records.push(r));
        },
        Ok(p) => {
            frame::lemma_frame_at_prefix(data, pos as int, added);
            lemma_scan_append(data, pos + 16 + p.len(), r);
            assert(scan_from(more, pos).records =~= scan_from(data, pos).records.push(r));
        },
    }
}

/// A record that was cut off while it was being appended is not seen: the scan has the records
/// before it, ends behind them, and finds the tail torn.
pub proof fn lemma_scan_torn_tail(data: Seq<u8>, pos: nat, r: RecordView, n: int)
    requires
        pos <= data.len(),
        scan_from(data, pos).stop == Stop::Frame(FrameFault::Eof),
        fits(r),
        0 < n < record_frame(r).len(),
    ensures
        ({
            let torn = scan_from(data + record_frame(r).take(n), pos);
            &&& torn.records == scan_from(data, pos).records
            &&& torn.stop == Stop::Frame(FrameFault::Torn)
            &&& torn.end == data.len()
        }),
    decreases data.len() - pos,
{
    let payload = layout::record_layout(r);
    let added = record_frame(r).take(n);
    let more = data + added;
    match frame::frame_at(data, pos as int) {
        Err(f) => {
            assert(pos == data.len());
            frame::lemma_cut_frame_is_torn(data, payload, n);
        },
        Ok(p) => {
            frame::lemma_frame_at_prefix(data, pos as int, added);
            lemma_scan_torn_tail(data, pos + 16 + p.len(), r, n);
            assert(scan_from(more, pos).records =~= scan_from(data, pos).records);
        },
    }
}

proof fn lemma_clean_end(data: Seq<u8>, pos: nat)
    requires
        pos <= data.len(),
        scan_from(data, pos).stop == Stop::Frame(FrameFault::Eof),
    ensures
        scan_from(data, pos).end == data.len(),
    decreases data.len() - pos,
{
    if let Ok(p) = frame::frame_at(data, pos as int) {
        lemma_clean_end(data, pos + 16 + p.len());
    }
}

/// Opening a log whose tail was torn in an append gives what opening it without the tail gives.
pub proof fn lemma_torn_tail_dropped(
    dir: Seq<char>,
    segs: Seq<SegmentView>,
    start: TableView,
    r: RecordView,
    n: int,
)
    requires
        segs.len() > 0,
        scan_from(segs.last().data, 0).stop == Stop::Frame(FrameFault::Eof),
        fits(r),
        0 < n < record_frame(r).len(),
    ensures
        recover(
            dir,
            segs.update(
                segs.len() - 1,
                SegmentView {
                    data: segs.last().data + record_frame(r).take(n),
                    ..segs.last()
                },
            ),
            segs.len() as int,
            start,
        ) == recover(dir, segs, segs.len() as int, start),
{
    let last = segs.len() - 1;
    let seg = segs.last();
    let torn = SegmentView { data: seg.data + record_frame(r).take(n), ..seg };
    lemma_scan_torn_tail(seg.data, 0, r, n);
    lemma_clean_end(seg.data, 0);
    lemma_recover_local(dir, segs, segs.update(last, torn), last, start);
}

/// Recovery after the first `n` segments depends on those segments alone.
proof fn lemma_recover_local(
    dir: Seq<char>,
    a: Seq<SegmentView>,
    b: Seq<SegmentView>,
    n: int,
    start: TableView,
)
    requires
        0 <= n < a.len(),
        n < b.len(),
        forall|i: int| 0 <= i < n ==> a[i] == b[i],
    ensures
        recover(dir, a, n, start) == recover(dir, b, n, start),
    decreases n,
{
    if n > 0 {
        lemma_recover_local(dir, a, b, n - 1, start);
    }
}

/// Durability: once a record has been appended to the active segment, opening the log finds it as
/// the last record, behind all that was there, and replays it last.
pub proof fn lemma_append_recovers(
    dir: Seq<char>,
    segs: Seq<SegmentView>,
    start: TableView,
    r: RecordView,
)
    requires
        segs.len() > 0,
        scan_from(segs.last().data, 0).stop == Stop::Frame(FrameFault::Eof),
        recover(dir, segs, segs.len() as int, start) is Ok,
        table::replay_one(recover(dir, segs, segs.len() as int, start)->Ok_0.table, r) is Ok,
        fits(r),
    ensures
        ({
            let before = recover(dir, segs, segs.len() as int, start)->Ok_0;
            let after = recover(
                dir,
                segs.update(
                    segs.len() - 1,
                    SegmentView { data: segs.last().data + record_frame(r), ..segs.last() },
                ),
                segs.len() as int,
                start,
            );
            &&& after is Ok
            &&& after->Ok_0.records == before.records.push(r)
            &&& table::replay_one(before.table, r) == Ok::<_, StoreFault>(after->Ok_0.table)
        }),
{
    let last = segs.len() - 1;
    let seg = segs.last();
    let longer = SegmentView { data: seg.data + record_frame(r), ..seg };
    let more = segs.update(last, longer);
    lemma_scan_append(seg.data, 0, r);
    lemma_recover_local(dir, segs, more, last, start);
    let p = recover(dir, segs, last, start)->Ok_0;
    let scan = scan_from(seg.data, 0);
    let grown = scan_from(longer.data, 0);
    assert(grown.records.drop_last() =~= scan.records);
    assert(p.records + grown.records =~= (p.records + scan.records).push(r));
}

/// A record appended to a new segment, after the rotation of a cleanly ended one, is found as well.
pub proof fn lemma_rotated_append_recovers(
    dir: Seq<char>,
    segs: Seq<SegmentView>,
    start: TableView,
    index: u64,
    r: RecordView,
)
    requires
        segs.len() > 0,
        scan_from(segs.last().data, 0).stop == Stop::Frame(FrameFault::Eof),
        recover(dir, segs, segs.len() as int, start) is Ok,
        table::replay_one(recover(dir, segs, segs.len() as int, start)->Ok_0.table, r) is Ok,
        fits(r),
    ensures
        ({
            let before = recover(dir, segs, segs.len() as int, start)->Ok_0;
            let after = recover(
                dir,
                segs.push(SegmentView { index, data: record_frame(r) }),
                segs.len() as int + 1,
                start,
            );
            &&& after is Ok
            &&& after->Ok_0.records == before.records.push(r)
            &&& table::replay_one(before.table, r) == Ok::<_, StoreFault>(after->Ok_0.table)
        }),
{
    let n = segs.len() as int;
    let added = SegmentView { index, data: record_frame(r) };
    let more = segs.push(added);
    lemma_recover_local(dir, segs, more, n - 1, start);
    let before = recover(dir, segs, n, start)->Ok_0;
    assert(recover(dir, more, n, start) == recover(dir, segs, n, start));
    let none = Seq::<u8>::empty();
    assert(scan_from(none, 0).records =~= Seq::<RecordView>::empty());
    lemma_scan_append(none, 0, r);
    assert(none + record_frame(r) =~= record_frame(r));
    let grown = scan_from(added.data, 0);
    assert(grown.records =~= seq![r]);
    assert(grown.records.drop_last() =~= Seq::<RecordView>::empty());
    assert(table::replay_all(before.table, grown.records.drop_last()) == Ok::<_, StoreFault>(
        before.table,
    ));
    assert(before.records + grown.records =~= before.records.push(r));
}

proof fn lemma_greatest_lsn(rs: Seq<RecordView>, i: int)
    requires
        0 <= i < rs.len(),
    ensures
        rs[i].lsn <= greatest_lsn(rs),
    decreases rs.len(),
{
    if i < rs.len() - 1 {
        lemma_greatest_lsn(rs.drop_last(), i);
        assert(rs.drop_last()[i] == rs[i]);
    }
}

/// Recovery keeps the LSN of the snapshot that it started from.
pub proof fn lemma_recover_keeps_snapshot(
    dir: Seq<char>,
    segs: Seq<SegmentView>,
    n: int,
    start: TableView,
)
    requires
        recover(dir, segs, n, start) is Ok,
    ensures
        recover(dir, segs, n, start)->Ok_0.table.snapshot_lsn == start.snapshot_lsn,
    decreases n,
{
    if n > 0 {
        lemma_recover_keeps_snapshot(dir, segs, n - 1, start);
        let before = recover(dir, segs, n - 1, start)->Ok_0;
        let path = segment_path_text(dir, segs[n - 1].index);
        let scan = segment_scan(path, segs[n - 1].data, n == segs.len())->Ok_0;
        table::lemma_replay_keeps_snapshot(before.table, scan.records);
    }
}

proof fn lemma_recover_without(
    dir: Seq<char>,
    segs: Seq<SegmentView>,
    j: int,
    n: int,
    start: TableView,
)
    requires
        0 <= j <= n < segs.len(),
        j < segs.len() - 1,
        recover(dir, segs, n + 1, start) is Ok,
        greatest_lsn(scan_from(segs[j].data, 0).records) <= start.snapshot_lsn,
    ensures
        recover(dir, segs.remove(j), n, start) is Ok,
        recover(dir, segs.remove(j), n, start)->Ok_0.table == recover(
            dir,
            segs,
            n + 1,
            start,
        )->Ok_0.table,
    decreases n,
{
    let less = segs.remove(j);
    if n == j {
        lemma_recover_local(dir, segs, less, j, start);
        lemma_recover_keeps_snapshot(dir, segs, j, start);
        let t = recover(dir, segs, j, start)->Ok_0.table;
        let rs = scan_from(segs[j].data, 0).records;
        assert forall|i: int| 0 <= i < rs.len() implies (#[trigger] rs[i]).lsn <= t.snapshot_lsn by {
            lemma_greatest_lsn(rs, i);
        }
        table::lemma_covered_records_skipped(t, rs);
    } else {
        lemma_recover_without(dir, segs, j, n - 1, start);
        assert(less[n - 1] == segs[n]);
    }
}

proof fn lemma_recover_replays(dir: Seq<char>, segs: Seq<SegmentView>, n: int, start: TableView)
    requires
        recover(dir, segs, n, start) is Ok,
    ensures
        table::replay_all(start, recover(dir, segs, n, start)->Ok_0.records) == Ok::<_, StoreFault>(
            recover(dir, segs, n, start)->Ok_0.table,
        ),
    decreases n,
{
    if n > 0 {
        lemma_recover_replays(dir, segs, n - 1, start);
        let before = recover(dir, segs, n - 1, start)->Ok_0;
        let scan = scan_from(segs[n - 1].data, 0);
        table::lemma_replay_concat(start, before.records, scan.records);
    }
}

proof fn lemma_recover_onto(
    dir: Seq<char>,
    segs: Seq<SegmentView>,
    n: int,
    start: TableView,
    other: TableView,
)
    requires
        recover(dir, segs, n, start) is Ok,
        table::replay_all(other, recover(dir, segs, n, start)->Ok_0.records) is Ok,
    ensures
        recover(dir, segs, n, other) is Ok,
        recover(dir, segs, n, other)->Ok_0.records == recover(dir, segs, n, start)->Ok_0.records,
        table::replay_all(other, recover(dir, segs, n, start)->Ok_0.records) == Ok::<_, StoreFault>(
            recover(dir, segs, n, other)->Ok_0.table,
        ),
    decreases n,
{
    if n > 0 {
        let before = recover(dir, segs, n - 1, start)->Ok_0;
        let scan = scan_from(segs[n - 1].data, 0);
        let all = before.records + scan.records;
        assert(all.take(before.records.len() as int) =~= before.records);
        if table::replay_all(other, before.records) is Err {
            table::lemma_replay_stops(other, all, before.records.len() as int);
        }
        lemma_recover_onto(dir, segs, n - 1, start, other);
        table::lemma_replay_concat(other, before.records, scan.records);
    }
}

/// The log together with a later snapshot gives the table that it gave before. The snapshot is the
/// table after the first `n` records of the log.
pub proof fn lemma_later_snapshot_recovers(
    dir: Seq<char>,
    segs: Seq<SegmentView>,
    start: TableView,
    n: int,
)
    requires
        start.snapshot_lsn <= start.lsn,
        recover(dir, segs, segs.len() as int, start) is Ok,
        0 <= n <= recover(dir, segs, segs.len() as int, start)->Ok_0.records.len(),
    ensures
        ({
            let before = recover(dir, segs, segs.len() as int, start)->Ok_0;
            let taken = table::replay_all(start, before.records.take(n));
            &&& taken is Ok
            &&& ({
                let after = recover(
                    dir,
                    segs,
                    segs.len() as int,
                    table::start_table(Some((taken->Ok_0.lsn, taken->Ok_0.entries))),
                );
                &&& after is Ok
                &&& after->Ok_0.table.entries == before.table.entries
                &&& after->Ok_0.table.lsn == before.table.lsn
            })
        }),
{
    let before = recover(dir, segs, segs.len() as int, start)->Ok_0;
    lemma_recover_replays(dir, segs, segs.len() as int, start);
    table::lemma_no_double_apply(start, before.records, n);
    let taken = table::replay_all(start, before.records.take(n))->Ok_0;
    let snap = table::start_table(Some((taken.lsn, taken.entries)));
    lemma_recover_onto(dir, segs, segs.len() as int, start, snap);
}

/// Deleting a sealed segment that the snapshot covers does not change what is recovered.
pub proof fn lemma_delete_covered_segment(
    dir: Seq<char>,
    segs: Seq<SegmentView>,
    j: int,
    start: TableView,
)
    requires
        0 <= j < segs.len() - 1,
        recover(dir, segs, segs.len() as int, start) is Ok,
        greatest_lsn(scan_from(segs[j].data, 0).records) <= start.snapshot_lsn,
    ensures
        recover(dir, segs.remove(j), segs.len() - 1, start) is Ok,
        recover(dir, segs.remove(j), segs.len() - 1, start)->Ok_0.table == recover(
            dir,
            segs,
            segs.len() as int,
            start,
        )->Ok_0.table,
{
    lemma_recover_without(dir, segs, j, segs.len() - 1, start);
}

/// The files of the sealed segments that a snapshot does not cover.
pub open spec fn kept_files(
    files: Seq<SegmentView>,
    sealed: Seq<SealedView>,
    snapshot_lsn: u64,
) -> Seq<SegmentView>
    decreases sealed.len(),
{
    if sealed.len() == 0 {
        Seq::empty()
    } else {
        let before = kept_files(files.drop_last(), sealed.drop_last(), snapshot_lsn);
        if covered(sealed.last(), snapshot_lsn) {
            before
        } else {
            before.push(files.last())
        }
    }
}

/// The end LSN noted for each sealed segment is the greatest one in its file.
pub open spec fn end_lsns_noted(files: Seq<SegmentView>, sealed: Seq<SealedView>) -> bool {
    &&& files.len() == sealed.len()
    &&& forall|i: int|
        0 <= i < files.len() ==> (#[trigger] sealed[i]).end_lsn == greatest_lsn(
            scan_from(files[i].data, 0).records,
        )
}

proof fn lemma_recover_kept(
    dir: Seq<char>,
    files: Seq<SegmentView>,
    active: SegmentView,
    sealed: Seq<SealedView>,
    start: TableView,
    k: int,
)
    requires
        end_lsns_noted(files, sealed),
        0 <= k <= files.len(),
        recover(dir, files.push(active), k, start) is Ok,
    ensures
        ({
            let kept = kept_files(files.take(k), sealed.take(k), start.snapshot_lsn);
            let r = recover(dir, kept.push(active), kept.len() as int, start);
            &&& r is Ok
            &&& r->Ok_0.table == recover(dir, files.push(active), k, start)->Ok_0.table
        }),
    decreases k,
{
    if k > 0 {
        lemma_recover_kept(dir, files, active, sealed, start, k - 1);
        let whole = files.push(active);
        let lsn = start.snapshot_lsn;
        let seg = files[k - 1];
        let before = kept_files(files.take(k - 1), sealed.take(k - 1), lsn);
        assert(files.take(k).drop_last() =~= files.take(k - 1));
        assert(sealed.take(k).drop_last() =~= sealed.take(k - 1));
        assert(sealed.take(k).last() == sealed[k - 1]);
        assert(whole[k - 1] == seg);
        if covered(sealed[k - 1], lsn) {
            lemma_recover_keeps_snapshot(dir, whole, k - 1, start);
            let t = recover(dir, whole, k - 1, start)->Ok_0.table;
            let rs = scan_from(seg.data, 0).records;
            assert forall|i: int| 0 <= i < rs.len() implies (#[trigger] rs[i]).lsn
                <= t.snapshot_lsn by {
                lemma_greatest_lsn(rs, i);
            }
            table::lemma_covered_records_skipped(t, rs);
        } else {
            let more = before.push(seg).push(active);
            lemma_recover_local(
                dir,
                before.push(active),
                more,
                before.len() as int,
                start,
            );
            assert(more[before.len() as int] == seg);
        }
    }
}

/// All sealed segments that the snapshot covers may go at once: without their files recovery gives
/// the same table.
pub proof fn lemma_covered_segments_may_go(
    dir: Seq<char>,
    files: Seq<SegmentView>,
    active: SegmentView,
    sealed: Seq<SealedView>,
    start: TableView,
)
    requires
        end_lsns_noted(files, sealed),
        recover(dir, files.push(active), files.len() as int + 1, start) is Ok,
    ensures
        ({
            let kept = kept_files(files, sealed, start.snapshot_lsn).push(active);
            let r = recover(dir, kept, kept.len() as int, start);
            &&& r is Ok
            &&& r->Ok_0.table == recover(
                dir,
                files.push(active),
                files.len() as int + 1,
                start,
            )->Ok_0.table
        }),
{
    let n = files.len() as int;
    let whole = files.push(active);
    assert(recover(dir, whole, n, start) is Ok);
    lemma_recover_kept(dir, files, active, sealed, start, n);
    assert(files.take(n) =~= files);
    assert(sealed.take(n) =~= sealed);
    let kept = kept_files(files, sealed, start.snapshot_lsn);
    assert(whole[n] == active);
    assert(kept.push(active)[kept.len() as int] == active);
}

proof fn lemma_decimal_bytes(n: nat)
    ensures
        vstd::utf8::is_ascii_chars(text::decimal(n)),
        text::all_digits(text::decimal(n).map_values(|c: char| c as u8)),
        text::digits_value(text::decimal(n).map_values(|c: char| c as u8)) == n,
    decreases n,
{
    let chars = text::decimal(n);
    let bytes = chars.map_values(|c: char| c as u8);
    if n < 10 {
        assert(bytes =~= seq![(48 + n) as u8]);
        assert(bytes.drop_last() =~= Seq::<u8>::empty());
        assert(text::digits_value(bytes.drop_last()) == 0);
    } else {
        lemma_decimal_bytes(n / 10);
        let before = text::decimal(n / 10);
        let prev = before.map_values(|c: char| c as u8);
        assert(bytes =~= prev.push((48 + n % 10) as u8));
        assert(bytes.drop_last() =~= prev);
        assert forall|i: int| 0 <= i < bytes.len() implies 48 <= #[trigger] bytes[i] <= 57 by {
            if i < prev.len() {
                assert(bytes[i] == prev[i]);
            }
        }
        assert forall|i: int| 0 <= i < chars.len() implies 0 <= #[trigger] chars[i] as nat <= 127 by {
            if i < before.len() {
                assert(chars[i] == before[i]);
            }
        }
    }
}

proof fn lemma_leading_zeros(k: nat, digits: Seq<u8>)
    requires
        text::all_digits(digits),
    ensures
        text::all_digits(Seq::new(k, |i: int| 48u8) + digits),
        text::digits_value(Seq::new(k, |i: int| 48u8) + digits) == text::digits_value(digits),
    decreases k, digits.len(),
{
    let z = Seq::new(k, |i: int| 48u8);
    let s = z + digits;
    if digits.len() > 1 {
        let d = digits.drop_last();
        assert(text::all_digits(d));
        lemma_leading_zeros(k, d);
        assert(s.drop_last() =~= z + d);
    } else {
        assert(s.drop_last() =~= z);
        assert(digits.drop_last() =~= Seq::<u8>::empty());
        if k == 0 {
            assert(s =~= digits);
        } else {
            let z1 = Seq::new((k - 1) as nat, |i: int| 48u8);
            let one = seq![48u8];
            assert(text::all_digits(one));
            lemma_leading_zeros((k - 1) as nat, one);
            assert(z =~= z1 + one);
            assert(one.drop_last() =~= Seq::<u8>::empty());
            assert(text::digits_value(one.drop_last()) == 0);
            assert(text::digits_value(one) == 0);
        }
    }
}

/// What the bytes of a segment's name are: `wal-`, and twenty digits with the index as their value.
proof fn lemma_name_bytes(index: u64)
    ensures
        ({
            let bytes = vstd::utf8::encode_utf8(segment_name_text(index));
            &&& bytes.len() == 24
            &&& bytes.take(4) == seq![119u8, 97u8, 108u8, 45u8]
            &&& text::all_digits(bytes.skip(4))
            &&& text::digits_value(bytes.skip(4)) == index
        }),
{
    lemma_twenty_digits(index);
    lemma_decimal_bytes(index as nat);
    reveal_strlit("wal-");
    let digits = text::decimal(index as nat);
    let d = digits.map_values(|c: char| c as u8);
    let k = (20 - digits.len()) as nat;
    let name = segment_name_text(index);
    assert(vstd::utf8::is_ascii_chars(name));
    vstd::utf8::is_ascii_chars_encode_utf8(name);
    let bytes = vstd::utf8::encode_utf8(name);
    assert(bytes.len() == 24);
    assert(bytes.take(4) =~= seq![119u8, 97u8, 108u8, 45u8]);
    assert(bytes.skip(4) =~= Seq::new(k, |i: int| 48u8) + d);
    lemma_leading_zeros(k, d);
}

/// The name of a segment stands for its index.
pub proof fn lemma_segment_name_round_trip(index: u64)
    ensures
        segment_index(vstd::utf8::encode_utf8(segment_name_text(index))) == Some(index),
{
    lemma_name_bytes(index);
    let bytes = vstd::utf8::encode_utf8(segment_name_text(index));
    assert(bytes.take(4)[0] == bytes[0] && bytes.take(4)[1] == bytes[1] && bytes.take(4)[2]
        == bytes[2] && bytes.take(4)[3] == bytes[3]);
}

/// Of two strings of as many digits, the one with the smaller value comes first, and those with the
/// same value are the same.
proof fn lemma_digits_in_order(a: Seq<u8>, b: Seq<u8>)
    requires
        a.len() == b.len(),
        forall|i: int| 0 <= i < a.len() ==> 48 <= #[trigger] a[i] <= 57,
        forall|i: int| 0 <= i < b.len() ==> 48 <= #[trigger] b[i] <= 57,
    ensures
        text::digits_value(a) == text::digits_value(b) ==> a == b,
        text::digits_value(a) < text::digits_value(b) ==> exists|i: int|
            i < a.len() && #[trigger] order::before_at(a, b, i),
    decreases a.len(),
{
    if a.len() == 0 {
        assert(a =~= b);
    } else {
        let c = a.drop_last();
        let d = b.drop_last();
        assert forall|i: int| 0 <= i < c.len() implies 48 <= #[trigger] c[i] <= 57 by {
            assert(c[i] == a[i]);
        }
        assert forall|i: int| 0 <= i < d.len() implies 48 <= #[trigger] d[i] <= 57 by {
            assert(d[i] == b[i]);
        }
        lemma_digits_in_order(c, d);
        let n = a.len() - 1;
        assert(48 <= a[n] <= 57 && 48 <= b[n] <= 57);
        assert(a =~= c.push(a[n]));
        assert(b =~= d.push(b[n]));
        if text::digits_value(a) < text::digits_value(b) {
            if text::digits_value(c) < text::digits_value(d) {
                let i = choose|i: int| i < c.len() && #[trigger] order::before_at(c, d, i);
                assert forall|j: int| 0 <= j < i implies a[j] == b[j] by {
                    assert(c[j] == d[j]);
                }
                assert(order::before_at(a, b, i));
            } else {
                assert(c == d);
                assert forall|j: int| 0 <= j < n implies a[j] == b[j] by {
                    assert(c[j] == d[j]);
                }
                assert(order::before_at(a, b, n));
            }
        }
    }
}

proof fn lemma_lower_name_first(i: u64, j: u64)
    requires
        i < j,
    ensures
        order::key_lt(
            vstd::utf8::encode_utf8(segment_name_text(i)),
            vstd::utf8::encode_utf8(segment_name_text(j)),
        ),
{
    lemma_name_bytes(i);
    lemma_name_bytes(j);
    let a = vstd::utf8::encode_utf8(segment_name_text(i));
    let b = vstd::utf8::encode_utf8(segment_name_text(j));
    let c = a.skip(4);
    let d = b.skip(4);
    lemma_digits_in_order(c, d);
    let n = choose|n: int| n < c.len() && #[trigger] order::before_at(c, d, n);
    assert forall|x: int| 0 <= x < n + 4 implies a[x] == b[x] by {
        if x < 4 {
            assert(a.take(4)[x] == b.take(4)[x]);
        } else {
            assert(c[x - 4] == d[x - 4]);
        }
    }
    assert(a[n + 4] == c[n] && b[n + 4] == d[n]);
    assert(order::before_at(a, b, n + 4));
}

/// The names of segments come in the order of their indices.
pub proof fn lemma_segment_names_in_order(i: u64, j: u64)
    ensures
        i < j <==> order::key_lt(
            vstd::utf8::encode_utf8(segment_name_text(i)),
            vstd::utf8::encode_utf8(segment_name_text(j)),
        ),
{
    let a = vstd::utf8::encode_utf8(segment_name_text(i));
    let b = vstd::utf8::encode_utf8(segment_name_text(j));
    if i < j {
        lemma_lower_name_first(i, j);
    } else if i == j {
        order::lemma_lt_irreflexive(a);
    } else {
        lemma_lower_name_first(j, i);
        order::lemma_lt_asymmetric(b, a);
    }
}

// ---------- what the log promises ----------

/// Where a scan ends, the reason is what stands there.
proof fn lemma_scan_end(data: Seq<u8>, pos: nat)
    requires
        pos <= data.len(),
    ensures
        pos <= scan_from(data, pos).end <= data.len(),
        scan_from(data, pos).stop is Frame ==> frame::frame_at(
            data,
            scan_from(data, pos).end as int,
        ) == Err::<Seq<u8>, _>(scan_from(data, pos).stop->Frame_0),
        scan_from(data, pos).end == data.len() <==> scan_from(data, pos).stop == Stop::Frame(
            FrameFault::Eof,
        ),
    decreases data.len() - pos,
{
    if let Ok(p) = frame::frame_at(data, pos as int) {
        frame::lemma_frame_at_prefix(data, pos as int, Seq::empty());
        if layout::record_in(p) is Some {
            lemma_scan_end(data, pos + 16 + p.len());
        }
    }
}

/// What stands behind records that end cleanly is scanned as it would be there.
proof fn lemma_scan_through(data: Seq<u8>, pos: nat, behind: Seq<u8>)
    requires
        pos <= data.len(),
        scan_from(data, pos).stop == Stop::Frame(FrameFault::Eof),
    ensures
        ({
            let whole = scan_from(data + behind, pos);
            let rest = scan_from(data + behind, data.len());
            &&& whole.stop == rest.stop
            &&& whole.end == rest.end
            &&& whole.records == scan_from(data, pos).records + rest.records
        }),
    decreases data.len() - pos,
{
    let more = data + behind;
    let rest = scan_from(more, data.len());
    match frame::frame_at(data, pos as int) {
        Err(_) => {
            assert(pos == data.len());
            assert(Seq::<RecordView>::empty() + rest.records =~= rest.records);
        },
        Ok(p) => {
            frame::lemma_frame_at_prefix(data, pos as int, behind);
            lemma_scan_through(data, pos + 16 + p.len(), behind);
            assert(scan_from(more, pos).records =~= scan_from(data, pos).records + rest.records);
        },
    }
}

proof fn lemma_greatest_push(rs: Seq<RecordView>, r: RecordView)
    ensures
        greatest_lsn(rs.push(r)) == if r.lsn > greatest_lsn(rs) {
            r.lsn
        } else {
            greatest_lsn(rs)
        },
{
    assert(rs.push(r).drop_last() =~= rs);
}

/// A segment without bytes holds nothing.
pub proof fn lemma_empty_segment(
    path: &str,
    data: Vec<u8>,
    tail: bool,
    r: Result<(u64, u64, Vec<LogRecord>), StoreError>,
    last: Result<u64, StoreError>,
)
    requires
        call_ensures(scan_segment, (path, data, tail), r),
        call_ensures(last_lsn_in_file, (path, data), last),
        data@.len() == 0,
    ensures
        r is Ok,
        r->Ok_0.0 == 0,
        r->Ok_0.1 == 0,
        r->Ok_0.2@.len() == 0,
        last is Ok,
        last->Ok_0 == 0,
{
    assert(scan_from(data@, 0).records =~= Seq::<RecordView>::empty());
    assert(record::record_views(r->Ok_0.2@).len() == r->Ok_0.2@.len());
}

/// A segment is read as the records that were appended to it, in order: one more frame behind a
/// segment that ends cleanly is one more record, and its LSN is the last one. (A record too long for
/// a frame cannot be read back.)
pub proof fn lemma_segment_grows(
    path: &str,
    tail: bool,
    data: Vec<u8>,
    r: Result<(u64, u64, Vec<LogRecord>), StoreError>,
    w: &Wal,
    rec: &LogRecord,
    limit: u64,
    plan: Result<AppendPlan, StoreError>,
    more: Vec<u8>,
    r2: Result<(u64, u64, Vec<LogRecord>), StoreError>,
    last: Result<u64, StoreError>,
)
    requires
        call_ensures(scan_segment, (path, data, tail), r),
        r is Ok,
        r->Ok_0.0 == data@.len(),
        call_ensures(Wal::append, (w, rec, limit), plan),
        fits(rec@),
        plan is Ok ==> more@ == data@ + plan->Ok_0.frame@,
        call_ensures(scan_segment, (path, more, tail), r2),
        call_ensures(last_lsn_in_file, (path, more), last),
        more@.len() <= u64::MAX,
    ensures
        plan is Ok,
        r2 is Ok,
        r2->Ok_0.0 == more@.len(),
        r2->Ok_0.1 == if rec.lsn > r->Ok_0.1 {
            rec.lsn
        } else {
            r->Ok_0.1
        },
        r2->Ok_0.2@.len() == r->Ok_0.2@.len() + 1,
        r2->Ok_0.2@[r->Ok_0.2@.len() as int]@ == rec@,
        forall|i: int| 0 <= i < r->Ok_0.2@.len() ==> (#[trigger] r2->Ok_0.2@[i])@ == r->Ok_0.2@[i]@,
        last is Ok,
        last->Ok_0 == rec.lsn,
{
    lemma_scan_end(data@, 0);
    lemma_scan_append(data@, 0, rec@);
    let a = record::record_views(r->Ok_0.2@);
    let b = record::record_views(r2->Ok_0.2@);
    assert(b == a.push(rec@));
    lemma_greatest_push(a, rec@);
    assert(a.len() == r->Ok_0.2@.len());
    assert(b.len() == r2->Ok_0.2@.len());
    assert(b[a.len() as int] == rec@);
    assert forall|i: int| 0 <= i < a.len() implies (#[trigger] r2->Ok_0.2@[i])@
        == r->Ok_0.2@[i]@ by {
        assert(b[i] == a[i]);
    }
}

/// A frame that was only partly written behind a segment that ends cleanly is left out of the last
/// segment, and its bytes are not counted; in any other segment it is corruption.
pub proof fn lemma_segment_without_torn_frame(
    path: &str,
    data: Vec<u8>,
    clean: Result<(u64, u64, Vec<LogRecord>), StoreError>,
    w: &Wal,
    rec: &LogRecord,
    limit: u64,
    plan: Result<AppendPlan, StoreError>,
    n: int,
    torn: Vec<u8>,
    in_tail: Result<(u64, u64, Vec<LogRecord>), StoreError>,
    elsewhere: Result<(u64, u64, Vec<LogRecord>), StoreError>,
)
    requires
        call_ensures(scan_segment, (path, data, true), clean),
        clean is Ok,
        clean->Ok_0.0 == data@.len(),
        call_ensures(Wal::append, (w, rec, limit), plan),
        fits(rec@),
        plan is Ok ==> 0 < n < plan->Ok_0.frame@.len() && torn@ == data@
            + plan->Ok_0.frame@.take(n),
        call_ensures(scan_segment, (path, torn, true), in_tail),
        call_ensures(scan_segment, (path, torn, false), elsewhere),
    ensures
        elsewhere is Err,
        elsewhere->Err_0@ is Corruption,
        in_tail is Ok,
        in_tail->Ok_0.0 == data@.len(),
        in_tail->Ok_0.1 == clean->Ok_0.1,
        in_tail->Ok_0.2@.len() == clean->Ok_0.2@.len(),
        forall|i: int|
            0 <= i < clean->Ok_0.2@.len() ==> (#[trigger] in_tail->Ok_0.2@[i])@
                == clean->Ok_0.2@[i]@,
{
    lemma_scan_end(data@, 0);
    lemma_scan_torn_tail(data@, 0, rec@, n);
    let a = record::record_views(clean->Ok_0.2@);
    let b = record::record_views(in_tail->Ok_0.2@);
    assert(b == a);
    assert(a.len() == clean->Ok_0.2@.len());
    assert(b.len() == in_tail->Ok_0.2@.len());
    assert forall|i: int| 0 <= i < a.len() implies (#[trigger] in_tail->Ok_0.2@[i])@
        == clean->Ok_0.2@[i]@ by {
        assert(b[i] == a[i]);
    }
}

/// A frame with one changed byte, outside its length, is never passed over: the segment is corrupt,
/// whatever stands behind it, and also where it is the last frame of the last segment.
pub proof fn lemma_changed_segment_is_corrupt(
    path: &str,
    tail: bool,
    data: Vec<u8>,
    clean: Result<(u64, u64, Vec<LogRecord>), StoreError>,
    w: &Wal,
    rec: &LogRecord,
    limit: u64,
    plan: Result<AppendPlan, StoreError>,
    i: int,
    b: u8,
    behind: Seq<u8>,
    changed: Vec<u8>,
    r: Result<(u64, u64, Vec<LogRecord>), StoreError>,
    last: Result<u64, StoreError>,
)
    requires
        call_ensures(scan_segment, (path, data, tail), clean),
        clean is Ok,
        clean->Ok_0.0 == data@.len(),
        call_ensures(Wal::append, (w, rec, limit), plan),
        fits(rec@),
        plan is Ok ==> {
            &&& 0 <= i < plan->Ok_0.frame@.len()
            &&& !(4 <= i < 8)
            &&& plan->Ok_0.frame@[i] != b
            &&& changed@ == data@ + plan->Ok_0.frame@.update(i, b) + behind
        },
        call_ensures(scan_segment, (path, changed, tail), r),
        call_ensures(last_lsn_in_file, (path, changed), last),
    ensures
        r is Err,
        r->Err_0@ is Corruption,
        last is Err,
        last->Err_0@ is Corruption,
{
    lemma_scan_end(data@, 0);
    let payload = layout::record_layout(rec@);
    frame::lemma_changed_byte_is_corrupt(data@, payload, behind, i, b);
    let rest = plan->Ok_0.frame@.update(i, b) + behind;
    assert(changed@ =~= data@ + rest);
    lemma_scan_through(data@, 0, rest);
}

/// A frame goes to the active segment unless that holds something already and would grow beyond the
/// limit. The segment that is sealed then ends just before the record.
pub proof fn lemma_append_plan(
    w: &Wal,
    rec: &LogRecord,
    limit: u64,
    plan: Result<AppendPlan, StoreError>,
    size: u64,
)
    requires
        call_ensures(Wal::append, (w, rec, limit), plan),
        call_ensures(Wal::active_size, (w,), size),
    ensures
        plan is Ok,
        plan->Ok_0.rotate <==> size > 0 && size + plan->Ok_0.frame@.len() > limit,
        rec.lsn > 0 ==> plan->Ok_0.sealed_end_lsn == rec.lsn - 1,
{
}

/// Sealing the active segment opens the next one, and keeps all bytes.
pub proof fn lemma_rotate(w: &mut Wal, end_lsn: u64, r: ())
    requires
        call_ensures(Wal::rotate_locked, (w, end_lsn), r),
        old(w)@.active_index < u64::MAX,
    ensures
        final(w)@.active_index == old(w)@.active_index + 1,
        final(w)@.active_size == 0,
        final(w)@.total_bytes == old(w)@.total_bytes,
        final(w)@.dir == old(w)@.dir,
        final(w)@.sealed.len() == old(w)@.sealed.len() + 1,
        forall|i: int|
            0 <= i < old(w)@.sealed.len() ==> #[trigger] final(w)@.sealed[i] == old(w)@.sealed[i],
        ({
            let s = final(w)@.sealed[old(w)@.sealed.len() as int];
            &&& s.index == old(w)@.active_index
            &&& s.size == old(w)@.active_size
            &&& s.end_lsn == end_lsn
            &&& s.path == segment_path_text(old(w)@.dir, old(w)@.active_index)
        }),
{
}

/// A frame that was written makes the active segment and the log longer by its length, and changes
/// nothing else.
pub proof fn lemma_record_append(w: &mut Wal, n: u64, r: ())
    requires
        call_ensures(Wal::record_append, (w, n), r),
        old(w)@.active_size + n <= u64::MAX,
        old(w)@.total_bytes + n <= u64::MAX,
    ensures
        final(w)@.active_size == old(w)@.active_size + n,
        final(w)@.total_bytes == old(w)@.total_bytes + n,
        final(w)@.active_index == old(w)@.active_index,
        final(w)@.sealed == old(w)@.sealed,
        final(w)@.dir == old(w)@.dir,
{
}

proof fn lemma_partition_filter(v: Seq<SealedView>, lsn: u64)
    ensures
        partition(v, lsn, true) == v.filter(|s: SealedView| 0 < s.end_lsn <= lsn),
        partition(v, lsn, false) == v.filter(|s: SealedView| !(0 < s.end_lsn <= lsn)),
        sealed_bytes(partition(v, lsn, true)) + sealed_bytes(partition(v, lsn, false))
            == sealed_bytes(v),
    decreases v.len(),
{
    reveal(Seq::filter);
    if v.len() > 0 {
        lemma_partition_filter(v.drop_last(), lsn);
        let a = partition(v.drop_last(), lsn, true);
        let b = partition(v.drop_last(), lsn, false);
        assert(a.push(v.last()).drop_last() =~= a);
        assert(b.push(v.last()).drop_last() =~= b);
    } else {
        assert(v =~= Seq::empty());
    }
}

/// A compaction seals the active segment where it holds something, gives away exactly the sealed
/// segments that hold records and none beyond the snapshot, and keeps all others in their order. The
/// bytes of the log are those of the segments kept.
pub proof fn lemma_take_persisted(
    w: &mut Wal,
    end_lsn: Option<u64>,
    lsn: u64,
    r: Vec<SealedSegment>,
)
    requires
        old(w)@.wf(),
        end_lsn is Some <==> old(w)@.active_size > 0,
        old(w)@.active_index < u64::MAX,
        call_ensures(Wal::rotate_and_take_persisted, (w, end_lsn, lsn), r),
    ensures
        ({
            let all = if end_lsn is Some {
                old(w)@.sealed.push(
                    SealedView {
                        index: old(w)@.active_index,
                        path: segment_path_text(old(w)@.dir, old(w)@.active_index),
                        size: old(w)@.active_size,
                        end_lsn: end_lsn->Some_0,
                    },
                )
            } else {
                old(w)@.sealed
            };
            &&& sealed_views(r@) == all.filter(|s: SealedView| 0 < s.end_lsn <= lsn)
            &&& final(w)@.sealed == all.filter(|s: SealedView| !(0 < s.end_lsn <= lsn))
        }),
        final(w)@.active_size == 0,
        final(w)@.active_index == old(w)@.active_index + if end_lsn is Some {
            1int
        } else {
            0int
        },
        final(w)@.dir == old(w)@.dir,
        final(w)@.total_bytes + sealed_bytes(sealed_views(r@)) == old(w)@.total_bytes,
{
    let all = settled(old(w)@, end_lsn).sealed;
    lemma_partition_filter(all, lsn);
    if end_lsn is Some {
        assert(all.drop_last() =~= old(w)@.sealed);
    }
}

/// The bytes of sealed segments are the sum of their sizes.
pub proof fn lemma_sealed_bytes(v: Seq<SealedView>, s: SealedView)
    ensures
        sealed_bytes(Seq::empty()) == 0,
        sealed_bytes(v.push(s)) == sealed_bytes(v) + s.size,
{
    assert(v.push(s).drop_last() =~= v);
}

/// Which files are segments: the indices come in ascending order, and are exactly those that the
/// names stand for.
pub proof fn lemma_segment_indices(names: &Vec<String>, r: Vec<u64>, name: &str, index: Option<u64>)
    requires
        call_ensures(segment_indices, (names,), r),
        call_ensures(parse_segment_name, (name,), index),
    ensures
        forall|i: int, j: int| 0 <= i < j < r@.len() ==> #[trigger] r@[i] < #[trigger] r@[j],
        index is Some && (exists|i: int| 0 <= i < names@.len() && (#[trigger] names@[i])@ == name@)
            ==> r@.contains(index->Some_0),
        forall|n: u64| #[trigger]
            r@.contains(n) ==> exists|i: int|
                0 <= i < names@.len() && segment_index(
                    vstd::utf8::encode_utf8((#[trigger] names@[i])@),
                ) == Some(n),
{
    if index is Some && (exists|i: int| 0 <= i < names@.len() && (#[trigger] names@[i])@ == name@) {
        let i = choose|i: int| 0 <= i < names@.len() && (#[trigger] names@[i])@ == name@;
        let n = index->Some_0;
        assert(segment_index(vstd::utf8::encode_utf8(names@[i]@)) == Some(n));
        assert(indices_in(names@).contains(n));
        assert(r@.to_set().contains(n));
    }
    assert forall|n: u64| #[trigger] r@.contains(n) implies exists|i: int|
        0 <= i < names@.len() && segment_index(vstd::utf8::encode_utf8((#[trigger] names@[i])@))
            == Some(n) by {
        assert(r@.to_set().contains(n));
        assert(indices_in(names@).contains(n));
    }
}

/// Only names of twenty-four bytes that start with `wal-` and go on with a number are segments.
pub proof fn lemma_only_segment_names(name: &str, r: Option<u64>)
    requires
        call_ensures(parse_segment_name, (name,), r),
        r is Some,
    ensures
        ({
            let b = vstd::utf8::encode_utf8(name@);
            &&& b.len() == 24
            &&& b.take(4) == vstd::utf8::encode_utf8("wal-"@)
            &&& text::unsigned_value(b.skip(4)) == Some(r->Some_0 as nat)
        }),
{
    let b = vstd::utf8::encode_utf8(name@);
    reveal_strlit("wal-");
    assert(vstd::utf8::is_ascii_chars("wal-"@));
    vstd::utf8::is_ascii_chars_encode_utf8("wal-"@);
    assert(b.take(4) =~= vstd::utf8::encode_utf8("wal-"@));
}

/// A segment's path is its name in the directory, and the name stands for its index.
pub proof fn lemma_segment_path(
    dir: &str,
    index: u64,
    path: String,
    name: String,
    plain: &str,
    joined: String,
    read: Option<u64>,
)
    requires
        call_ensures(segment_path, (dir, index), path),
        call_ensures(segment_name, (index,), name),
        plain@ == name@,
        call_ensures(text::join_path, (dir, plain), joined),
        call_ensures(parse_segment_name, (plain,), read),
    ensures
        path@ == joined@,
        read == Some(index),
{
    lemma_segment_name_round_trip(index);
}

/// Opening a log without segments feeds nothing to the table; the first segment is still to be
/// created.
pub proof fn lemma_open_nothing(
    dir: &str,
    files: Vec<SegmentFile>,
    t: Table,
    r: Result<(Wal, Vec<LogRecord>, Table), StoreError>,
)
    requires
        call_ensures(Wal::open, (dir, files, t), r),
        files@.len() == 0,
    ensures
        r is Ok,
        ({
            let (w, records, after) = r->Ok_0;
            &&& after@ == t@
            &&& records@.len() == 0
            &&& w@.dir == dir@
            &&& w@.active_index == 1
            &&& w@.active_size == 0
            &&& w@.total_bytes == 0
            &&& w@.sealed.len() == 0
        }),
{
    assert(record::record_views(r->Ok_0.1@).len() == r->Ok_0.1@.len());
}

/// Opening a log with one more segment, behind segments that end cleanly. The segment is read to its
/// end, or up to a torn frame; its records are fed to the table behind all others, and it becomes the
/// active one. What is wrong with it, or with the segments before it, is passed on.
pub proof fn lemma_open_one_more(
    dir: &str,
    files: Vec<SegmentFile>,
    t: Table,
    r: Result<(Wal, Vec<LogRecord>, Table), StoreError>,
    before_path: &str,
    before_data: Vec<u8>,
    before: Result<(u64, u64, Vec<LogRecord>), StoreError>,
    more: Vec<SegmentFile>,
    f: SegmentFile,
    path: &str,
    scan: Result<(u64, u64, Vec<LogRecord>), StoreError>,
    r2: Result<(Wal, Vec<LogRecord>, Table), StoreError>,
)
    requires
        call_ensures(Wal::open, (dir, files, t), r),
        call_ensures(Wal::open, (dir, more, t), r2),
        more@ == files@.push(f),
        files@.len() > 0 ==> {
            &&& before_data@ == files@.last().data@
            &&& before_path@ == segment_path_text(dir@, files@.last().index)
            &&& call_ensures(scan_segment, (before_path, before_data, false), before)
            &&& before is Ok
        },
        path@ == segment_path_text(dir@, f.index),
        call_ensures(scan_segment, (path, f.data, true), scan),
        segment_bytes(segment_views(more@)) <= u64::MAX,
    ensures
        r is Err ==> r2 is Err && r2->Err_0@ == r->Err_0@,
        r is Ok && scan is Err ==> r2 is Err && r2->Err_0@ == scan->Err_0@,
        r is Ok && scan is Ok ==> {
            let (w, records, table) = r->Ok_0;
            let (size, last, found) = scan->Ok_0;
            match table::replay_all(table@, record::record_views(found@)) {
                Err(e) => r2 is Err && r2->Err_0@ == e,
                Ok(after) => {
                    let (w2, records2, table2) = r2->Ok_0;
                    &&& r2 is Ok
                    &&& table2@ == after
                    &&& record::record_views(records2@) == record::record_views(records@)
                        + record::record_views(found@)
                    &&& w2@.active_index == f.index
                    &&& w2@.active_size == size
                    &&& w2@.total_bytes == w@.total_bytes + size
                    &&& files@.len() > 0 ==> {
                        let s = w2@.sealed.last();
                        &&& w2@.sealed.len() == w@.sealed.len() + 1
                        &&& w2@.sealed.drop_last() == w@.sealed
                        &&& s.index == w@.active_index
                        &&& s.size == w@.active_size
                        &&& s.path == segment_path_text(dir@, w@.active_index)
                        &&& s.end_lsn == before->Ok_0.1
                    }
                    &&& files@.len() == 0 ==> w2@.sealed.len() == 0
                },
            }
        },
{
    let a = segment_views(files@);
    let b = segment_views(more@);
    let n = files@.len() as int;
    assert(b =~= a.push(f@));
    let start = t@;
    assert(recover(dir@, b, n, start) == recover(dir@, a, n, start)) by {
        if n > 0 {
            lemma_recover_local(dir@, a, b, n - 1, start);
            assert(a[n - 1] == files@.last()@);
            assert(segment_scan(before_path@, before_data@, false) is Ok);
            assert(segment_scan(before_path@, before_data@, true) == segment_scan(
                before_path@,
                before_data@,
                false,
            ));
        }
    }
    assert(b[n] == f@);
    if r is Ok && scan is Ok {
        let rec = recover(dir@, a, n, start)->Ok_0;
        let whole = recover(dir@, b, n + 1, start);
        if whole is Ok {
            let segs = whole->Ok_0.segments;
            assert(segs.drop_last() =~= rec.segments);
            lemma_open_sizes(dir@, b, n + 1, start);
            if n > 0 {
                assert(rec.segments.len() > 0);
                assert(segs.drop_last().drop_last() =~= r->Ok_0.0@.sealed);
                assert(rec.segments.last().end_lsn == before->Ok_0.1);
                assert(segs.drop_last().last() == rec.segments.last());
            } else {
                assert(rec.segments =~= Seq::empty());
            }
        }
    }
}

/// What recovery notes of the segments is one entry for each, and no more bytes than they have.
proof fn lemma_open_sizes(dir: Seq<char>, segs: Seq<SegmentView>, n: int, start: TableView)
    requires
        0 <= n <= segs.len(),
        recover(dir, segs, n, start) is Ok,
        segment_bytes(segs) <= u64::MAX,
    ensures
        recover(dir, segs, n, start)->Ok_0.segments.len() == n,
        sealed_bytes(recover(dir, segs, n, start)->Ok_0.segments) <= segment_bytes(segs.take(n)),
        segment_bytes(segs.take(n)) <= u64::MAX,
    decreases n,
{
    lemma_segment_bytes_grow(segs, n);
    if n > 0 {
        lemma_open_sizes(dir, segs, n - 1, start);
        assert(segs.take(n).drop_last() =~= segs.take(n - 1));
        lemma_scan_end(segs[n - 1].data, 0);
        let now = recover(dir, segs, n, start)->Ok_0.segments;
        let then = recover(dir, segs, n - 1, start)->Ok_0.segments;
        assert(now.drop_last() =~= then);
    } else {
        assert(segs.take(0) =~= Seq::empty());
    }
}

/// A record fits where its serialized form is at most 64 MiB long.
pub proof fn lemma_fits(r: RecordView)
    ensures
        fits(r) <==> layout::record_layout(r).len() <= 0x400_0000,
{
}

} // verus!
