//! The bytes of the versioned store's files.
//!
//! The log is a sequence of frames `u32 len | u32 crc32 | payload`, integers little-endian. A frame
//! that is only partly there, at the end of the log, was torn by a crash: it was never fsynced, so
//! never acknowledged, and is dropped. A frame whose checksum does not match is corruption. The
//! snapshot file is one such frame.

use crate::endian;
use crate::error::{KvError, KvFault};
use crate::frame;
use crate::text;
use vstd::prelude::*;
use vstd::string::*;

verus! {

/// The frame of a payload.
pub open spec fn log_frame_bytes(payload: Seq<u8>) -> Seq<u8> {
    endian::le32(payload.len() as u32) + endian::le32(frame::crc32(payload)) + payload
}

/// Why no frame stands at an offset.
pub enum LogStop {
    /// The data ends here.
    End,
    /// The data ends inside a frame.
    Torn,
    /// The checksum does not match.
    Mismatch,
}

/// What stands in `data` at offset `pos`: a whole frame with its payload, or why there is none.
pub open spec fn log_frame_at(data: Seq<u8>, pos: int) -> Result<Seq<u8>, LogStop> {
    let left = data.len() - pos;
    let len = endian::value32(data.subrange(pos, pos + 4));
    let payload = data.subrange(pos + 8, pos + 8 + len);
    if left <= 0 {
        Err(LogStop::End)
    } else if left < 8 || left < 8 + len {
        Err(LogStop::Torn)
    } else if endian::value32(data.subrange(pos + 4, pos + 8)) != frame::crc32(payload) {
        Err(LogStop::Mismatch)
    } else {
        Ok(payload)
    }
}

/// The payloads of a log up to where its frames ended.
pub struct LogScan {
    pub payloads: Seq<Seq<u8>>,
    /// The offset behind the last frame.
    pub end: nat,
    pub stop: LogStop,
}

/// The payloads in `data` from offset `pos` on.
pub open spec fn scan_log(data: Seq<u8>, pos: nat) -> LogScan
    decreases data.len() - pos,
{
    match log_frame_at(data, pos as int) {
        Err(stop) => LogScan { payloads: Seq::empty(), end: pos, stop },
        Ok(payload) => {
            let rest = scan_log(data, pos + 8 + payload.len());
            LogScan { payloads: seq![payload] + rest.payloads, end: rest.end, stop: rest.stop }
        },
    }
}

/// What a log holds: its payloads and the length of what is whole, or where it is corrupt.
pub open spec fn log_in(data: Seq<u8>) -> Result<(Seq<Seq<u8>>, nat), KvFault> {
    let scan = scan_log(data, 0);
    match scan.stop {
        LogStop::Mismatch => Err(
            KvFault::CorruptWal { offset: scan.end as u64, message: "CRC mismatch"@ },
        ),
        _ => Ok((scan.payloads, scan.end)),
    }
}

/// The payload that a snapshot file holds, or why it is corrupt.
pub open spec fn snapshot_in(data: Seq<u8>) -> Result<Seq<u8>, KvFault> {
    match log_frame_at(data, 0) {
        Ok(payload) => if data.len() == 8 + payload.len() {
            Ok(payload)
        } else {
            Err(
                KvFault::CorruptSnapshot(
                    text::decimal((data.len() - 8 - payload.len()) as nat)
                        + " bytes behind the end"@,
                ),
            )
        },
        Err(LogStop::Mismatch) => Err(KvFault::CorruptSnapshot("CRC mismatch"@)),
        Err(_) => Err(KvFault::CorruptSnapshot("unexpected end of file"@)),
    }
}

/// The views of payloads.
pub open spec fn payload_views(v: Seq<Vec<u8>>) -> Seq<Seq<u8>> {
    v.map_values(|p: Vec<u8>| p@)
}

/// Puts a payload into a frame, unless it is too long for the length field.
pub fn log_frame(payload: &[u8]) -> (r: Result<Vec<u8>, KvError>)
    ensures
        match r {
            Ok(f) => payload@.len() <= u32::MAX && f@ == log_frame_bytes(payload@),
            Err(e) => payload@.len() > u32::MAX && e@ == KvFault::InvalidRequest(
                "a log entry of "@ + text::decimal(payload@.len()) + " bytes is too long"@,
            ),
        },
{
    assert(payload@.len() == payload.len());
    if payload.len() as u64 > 0xFFFF_FFFF {
        let mut s = "a log entry of ".to_string();
        s.append(text::size_text(payload.len()).as_str());
        s.append(" bytes is too long");
        return Err(KvError::InvalidRequest(s));
    }
    let mut buf: Vec<u8> = endian::le32_bytes(payload.len() as u32);
    buf.append(&mut endian::le32_bytes(frame::checksum(payload)));
    buf.extend_from_slice(payload);
    assert(buf@ =~= log_frame_bytes(payload@));
    Ok(buf)
}

/// Why a frame could not be read.
enum LogEnd {
    End,
    Torn,
    Mismatch,
}

fn read_log_frame(data: &[u8], pos: usize) -> (r: Result<Vec<u8>, LogEnd>)
    requires
        pos <= data@.len(),
    ensures
        match r {
            Ok(payload) => log_frame_at(data@, pos as int) == Ok::<_, LogStop>(payload@)
                && pos + 8 + payload@.len() <= data@.len(),
            Err(LogEnd::End) => log_frame_at(data@, pos as int) == Err::<Seq<u8>, _>(LogStop::End),
            Err(LogEnd::Torn) => log_frame_at(data@, pos as int) == Err::<Seq<u8>, _>(
                LogStop::Torn,
            ),
            Err(LogEnd::Mismatch) => log_frame_at(data@, pos as int) == Err::<Seq<u8>, _>(
                LogStop::Mismatch,
            ),
        },
{
    let left: usize = data.len() - pos;
    if left == 0 {
        return Err(LogEnd::End);
    }
    if left < 8 {
        return Err(LogEnd::Torn);
    }
    let len: u32 = endian::read_le32(vstd::slice::slice_subrange(data, pos, pos + 4));
    let stored: u32 = endian::read_le32(vstd::slice::slice_subrange(data, pos + 4, pos + 8));
    if left as u64 - 8 < len as u64 {
        return Err(LogEnd::Torn);
    }
    let payload = vstd::slice::slice_subrange(data, pos + 8, pos + 8 + len as usize);
    if frame::checksum(payload) != stored {
        return Err(LogEnd::Mismatch);
    }
    Ok(vstd::slice::slice_to_vec(payload))
}

/// The payloads of a log, and the length of what is whole. A torn tail is left out; a checksum that
/// does not match is corruption at the offset of its frame.
pub fn log_frames(data: Vec<u8>) -> (r: Result<(Vec<Vec<u8>>, u64), KvError>)
    ensures
        match r {
            Ok((payloads, end)) => log_in(data@) == Ok::<_, KvFault>(
                (payload_views(payloads@), end as nat),
            ) && end <= data@.len(),
            Err(e) => log_in(data@) == Err::<(Seq<Seq<u8>>, nat), _>(e@),
        },
{
    let ghost whole = scan_log(data@, 0);
    let mut payloads: Vec<Vec<u8>> = Vec::new();
    let mut pos: usize = 0;
    assert(data@.len() == data.len());
    assert(payload_views(payloads@) =~= Seq::empty());
    assert(Seq::<Seq<u8>>::empty() + whole.payloads =~= whole.payloads);
    loop
        invariant
            pos <= data@.len() <= usize::MAX,
            whole == scan_log(data@, 0),
            whole.payloads == payload_views(payloads@) + scan_log(data@, pos as nat).payloads,
            whole.end == scan_log(data@, pos as nat).end,
            whole.stop == scan_log(data@, pos as nat).stop,
        decreases data@.len() - pos,
    {
        match read_log_frame(data.as_slice(), pos) {
            Ok(payload) => {
                let ghost before = payload_views(payloads@);
                let ghost here = scan_log(data@, pos as nat);
                pos = pos + 8 + payload.len();
                let ghost view = payload@;
                payloads.push(payload);
                proof {
                    let rest = scan_log(data@, pos as nat);
                    assert(payload_views(payloads@) =~= before.push(view));
                    assert(here.payloads =~= seq![view] + rest.payloads);
                    assert(before + here.payloads =~= before.push(view) + rest.payloads);
                }
            },
            Err(LogEnd::Mismatch) => {
                return Err(
                    KvError::CorruptWal {
                        offset: pos as u64,
                        message: "CRC mismatch".to_string(),
                    },
                );
            },
            Err(_) => {
                assert(whole.payloads =~= payload_views(payloads@));
                return Ok((payloads, pos as u64));
            },
        }
    }
}

/// The payload of a snapshot file.
pub fn snapshot_payload(data: Vec<u8>) -> (r: Result<Vec<u8>, KvError>)
    ensures
        match r {
            Ok(payload) => snapshot_in(data@) == Ok::<_, KvFault>(payload@),
            Err(e) => snapshot_in(data@) == Err::<Seq<u8>, _>(e@),
        },
{
    match read_log_frame(data.as_slice(), 0) {
        Ok(payload) => {
            let behind: usize = data.len() - 8 - payload.len();
            if behind > 0 {
                let mut s = text::size_text(behind);
                s.append(" bytes behind the end");
                return Err(KvError::CorruptSnapshot(s));
            }
            Ok(payload)
        },
        Err(LogEnd::Mismatch) => Err(KvError::CorruptSnapshot("CRC mismatch".to_string())),
        Err(_) => Err(KvError::CorruptSnapshot("unexpected end of file".to_string())),
    }
}

/// Reading a frame where one was written gives its payload back, whatever stands before and behind
/// it.
pub proof fn lemma_log_frame_round_trip(before: Seq<u8>, payload: Seq<u8>, after: Seq<u8>)
    requires
        payload.len() <= u32::MAX,
    ensures
        log_frame_at(before + log_frame_bytes(payload) + after, before.len() as int) == Ok::<
            _,
            LogStop,
        >(payload),
        log_frame_bytes(payload).len() == 8 + payload.len(),
{
    let data = before + log_frame_bytes(payload) + after;
    let pos = before.len() as int;
    let len = payload.len() as u32;
    endian::lemma_le32(len);
    endian::lemma_le32(frame::crc32(payload));
    assert(data.subrange(pos, pos + 4) =~= endian::le32(len));
    assert(data.subrange(pos + 4, pos + 8) =~= endian::le32(frame::crc32(payload)));
    assert(data.subrange(pos + 8, pos + 8 + len) =~= payload);
}

proof fn lemma_log_frame_at_prefix(data: Seq<u8>, pos: int, after: Seq<u8>)
    requires
        0 <= pos,
        log_frame_at(data, pos) is Ok,
    ensures
        log_frame_at(data + after, pos) == log_frame_at(data, pos),
        pos + 8 + log_frame_at(data, pos)->Ok_0.len() <= data.len(),
{
    let len = endian::value32(data.subrange(pos, pos + 4));
    let more = data + after;
    assert(more.subrange(pos, pos + 4) =~= data.subrange(pos, pos + 4));
    assert(more.subrange(pos + 4, pos + 8) =~= data.subrange(pos + 4, pos + 8));
    assert(more.subrange(pos + 8, pos + 8 + len) =~= data.subrange(pos + 8, pos + 8 + len));
}

proof fn lemma_cut_log_frame_is_torn(before: Seq<u8>, payload: Seq<u8>, n: int)
    requires
        payload.len() <= u32::MAX,
        0 < n < log_frame_bytes(payload).len(),
    ensures
        log_frame_at(before + log_frame_bytes(payload).take(n), before.len() as int) == Err::<
            Seq<u8>,
            _,
        >(LogStop::Torn),
{
    let data = before + log_frame_bytes(payload).take(n);
    let pos = before.len() as int;
    let len = payload.len() as u32;
    endian::lemma_le32(len);
    endian::lemma_le32(frame::crc32(payload));
    if n >= 8 {
        assert(data.subrange(pos, pos + 4) =~= endian::le32(len));
    }
}

proof fn lemma_scan_log_append(data: Seq<u8>, pos: nat, payload: Seq<u8>)
    requires
        pos <= data.len(),
        scan_log(data, pos).stop == LogStop::End,
        payload.len() <= u32::MAX,
    ensures
        ({
            let more = scan_log(data + log_frame_bytes(payload), pos);
            &&& more.payloads == scan_log(data, pos).payloads.push(payload)
            &&& more.end == data.len() + 8 + payload.len()
            &&& more.stop == LogStop::End
        }),
        scan_log(data, pos).end == data.len(),
    decreases data.len() - pos,
{
    let added = log_frame_bytes(payload);
    let more = data + added;
    match log_frame_at(data, pos as int) {
        Err(_) => {
            assert(pos == data.len());
            lemma_log_frame_round_trip(data, payload, Seq::empty());
            assert(data + added + Seq::<u8>::empty() =~= more);
            let rest = scan_log(more, pos + 8 + payload.len());
            assert(rest.payloads =~= Seq::<Seq<u8>>::empty());
            assert(scan_log(more, pos).payloads =~= scan_log(data, pos).payloads.push(payload));
        },
        Ok(p) => {
            lemma_log_frame_at_prefix(data, pos as int, added);
            lemma_scan_log_append(data, pos + 8 + p.len(), payload);
            assert(scan_log(more, pos).payloads =~= scan_log(data, pos).payloads.push(payload));
        },
    }
}

/// A frame appended to a log that ends cleanly is found behind all that was there, and the log still
/// ends cleanly.
pub proof fn lemma_appended_frame_is_found(data: Seq<u8>, payload: Seq<u8>)
    requires
        scan_log(data, 0).stop == LogStop::End,
        payload.len() <= u32::MAX,
    ensures
        ({
            let more = data + log_frame_bytes(payload);
            &&& log_in(data) == Ok::<_, KvFault>((scan_log(data, 0).payloads, data.len()))
            &&& log_in(more) == Ok::<_, KvFault>(
                (scan_log(data, 0).payloads.push(payload), more.len()),
            )
            &&& scan_log(more, 0).stop == LogStop::End
        }),
{
    lemma_scan_log_append(data, 0, payload);
    lemma_log_frame_round_trip(Seq::empty(), payload, Seq::empty());
}

proof fn lemma_scan_log_torn(data: Seq<u8>, pos: nat, payload: Seq<u8>, n: int)
    requires
        pos <= data.len(),
        scan_log(data, pos).stop == LogStop::End,
        payload.len() <= u32::MAX,
        0 < n < log_frame_bytes(payload).len(),
    ensures
        ({
            let more = scan_log(data + log_frame_bytes(payload).take(n), pos);
            &&& more.payloads == scan_log(data, pos).payloads
            &&& more.end == scan_log(data, pos).end
            &&& more.stop == LogStop::Torn
        }),
    decreases data.len() - pos,
{
    let added = log_frame_bytes(payload).take(n);
    match log_frame_at(data, pos as int) {
        Err(_) => {
            assert(pos == data.len());
            lemma_cut_log_frame_is_torn(data, payload, n);
        },
        Ok(p) => {
            lemma_log_frame_at_prefix(data, pos as int, added);
            lemma_scan_log_torn(data, pos + 8 + p.len(), payload, n);
        },
    }
}

/// A frame that was only partly written is dropped: the log reads as it did before.
pub proof fn lemma_torn_frame_is_dropped(data: Seq<u8>, payload: Seq<u8>, n: int)
    requires
        scan_log(data, 0).stop == LogStop::End,
        payload.len() <= u32::MAX,
        0 < n < log_frame_bytes(payload).len(),
    ensures
        log_in(data + log_frame_bytes(payload).take(n)) == log_in(data),
{
    lemma_scan_log_torn(data, 0, payload, n);
}

/// A frame with one changed byte, in its checksum or its payload, does not match.
pub proof fn lemma_changed_byte_is_noticed(
    before: Seq<u8>,
    payload: Seq<u8>,
    after: Seq<u8>,
    i: int,
    b: u8,
)
    requires
        payload.len() <= u32::MAX,
        4 <= i < log_frame_bytes(payload).len(),
        log_frame_bytes(payload)[i] != b,
    ensures
        log_frame_at(
            before + log_frame_bytes(payload).update(i, b) + after,
            before.len() as int,
        ) == Err::<Seq<u8>, _>(LogStop::Mismatch),
{
    let whole = log_frame_bytes(payload);
    let data = before + whole.update(i, b) + after;
    let pos = before.len() as int;
    let len = payload.len() as u32;
    let crc = frame::crc32(payload);
    endian::lemma_le32(len);
    endian::lemma_le32(crc);
    assert(data.subrange(pos, pos + 4) =~= endian::le32(len));
    let stored = data.subrange(pos + 4, pos + 8);
    let read = data.subrange(pos + 8, pos + 8 + len);
    if i < 8 {
        assert(read =~= payload);
        assert(stored[i - 4] == b);
        assert(endian::le32(crc)[i - 4] == whole[i]);
        endian::lemma_value32(stored);
    } else {
        assert(stored =~= endian::le32(crc));
        assert(read =~= payload.update(i - 8, b));
        frame::lemma_changed_byte_changes_crc(payload, i - 8, b);
    }
}

/// A snapshot file gives its payload back; cut short anywhere it is refused.
pub proof fn lemma_snapshot_file(payload: Seq<u8>, n: int)
    requires
        payload.len() <= u32::MAX,
        0 <= n < log_frame_bytes(payload).len(),
    ensures
        snapshot_in(log_frame_bytes(payload)) == Ok::<_, KvFault>(payload),
        snapshot_in(log_frame_bytes(payload).take(n)) is Err,
{
    let whole = log_frame_bytes(payload);
    let none = Seq::<u8>::empty();
    lemma_log_frame_round_trip(none, payload, none);
    assert(none + whole + none =~= whole);
    if n > 0 {
        lemma_cut_log_frame_is_torn(none, payload, n);
        assert(none + whole.take(n) =~= whole.take(n));
    }
}

/// Where the frames of a log end, the reason is what stands there.
proof fn lemma_scan_log_end(data: Seq<u8>, pos: nat)
    requires
        pos <= data.len(),
    ensures
        pos <= scan_log(data, pos).end <= data.len(),
        log_frame_at(data, scan_log(data, pos).end as int) == Err::<Seq<u8>, _>(
            scan_log(data, pos).stop,
        ),
        scan_log(data, pos).stop == LogStop::End <==> scan_log(data, pos).end == data.len(),
    decreases data.len() - pos,
{
    if let Ok(p) = log_frame_at(data, pos as int) {
        lemma_log_frame_at_prefix(data, pos as int, Seq::empty());
        lemma_scan_log_end(data, pos + 8 + p.len());
    }
}

/// What stands behind a log that ends cleanly is scanned as it would be there.
proof fn lemma_scan_log_through(data: Seq<u8>, pos: nat, behind: Seq<u8>)
    requires
        pos <= data.len(),
        scan_log(data, pos).stop == LogStop::End,
    ensures
        ({
            let whole = scan_log(data + behind, pos);
            let rest = scan_log(data + behind, data.len());
            &&& whole.stop == rest.stop
            &&& whole.end == rest.end
            &&& whole.payloads == scan_log(data, pos).payloads + rest.payloads
        }),
    decreases data.len() - pos,
{
    let more = data + behind;
    let rest = scan_log(more, data.len());
    match log_frame_at(data, pos as int) {
        Err(_) => {
            assert(pos == data.len());
            assert(Seq::<Seq<u8>>::empty() + rest.payloads =~= rest.payloads);
        },
        Ok(p) => {
            lemma_log_frame_at_prefix(data, pos as int, behind);
            lemma_scan_log_through(data, pos + 8 + p.len(), behind);
            assert(scan_log(more, pos).payloads =~= scan_log(data, pos).payloads + rest.payloads);
        },
    }
}

/// A log without frames holds nothing.
pub proof fn lemma_empty_log(data: Vec<u8>, r: Result<(Vec<Vec<u8>>, u64), KvError>)
    requires
        call_ensures(log_frames, (data,), r),
        data@.len() == 0,
    ensures
        r is Ok,
        r->Ok_0.0@.len() == 0,
        r->Ok_0.1 == 0,
{
    assert(payload_views(r->Ok_0.0@).len() == r->Ok_0.0@.len());
}

/// A payload is framed exactly where its length fits into the length field.
pub proof fn lemma_framed(payload: &[u8], r: Result<Vec<u8>, KvError>)
    requires
        call_ensures(log_frame, (payload,), r),
    ensures
        r is Ok <==> payload@.len() <= u32::MAX,
        r is Ok ==> r->Ok_0@.len() == payload@.len() + 8,
        r is Ok ==> r->Ok_0@.skip(8) == payload@,
{
    if r is Ok {
        lemma_log_frame_round_trip(Seq::empty(), payload@, Seq::empty());
        endian::lemma_le32(payload@.len() as u32);
        endian::lemma_le32(frame::crc32(payload@));
        assert(r->Ok_0@.skip(8) =~= payload@);
    }
}

/// A log is read as the payloads that were framed into it, in order: one more frame behind a log
/// that ends cleanly is one more payload.
pub proof fn lemma_log_grows(
    data: Vec<u8>,
    r: Result<(Vec<Vec<u8>>, u64), KvError>,
    payload: &[u8],
    f: Result<Vec<u8>, KvError>,
    more: Vec<u8>,
    r2: Result<(Vec<Vec<u8>>, u64), KvError>,
)
    requires
        call_ensures(log_frames, (data,), r),
        r is Ok,
        r->Ok_0.1 == data@.len(),
        call_ensures(log_frame, (payload,), f),
        f is Ok,
        more@ == data@ + f->Ok_0@,
        call_ensures(log_frames, (more,), r2),
    ensures
        r2 is Ok,
        r2->Ok_0.1 == more@.len(),
        r2->Ok_0.0@.len() == r->Ok_0.0@.len() + 1,
        r2->Ok_0.0@[r->Ok_0.0@.len() as int]@ == payload@,
        forall|i: int| 0 <= i < r->Ok_0.0@.len() ==> (#[trigger] r2->Ok_0.0@[i])@ == r->Ok_0.0@[i]@,
{
    lemma_scan_log_end(data@, 0);
    lemma_appended_frame_is_found(data@, payload@);
    let a = payload_views(r->Ok_0.0@);
    let b = payload_views(r2->Ok_0.0@);
    assert(b == a.push(payload@));
    assert(a.len() == r->Ok_0.0@.len());
    assert(b.len() == r2->Ok_0.0@.len());
    assert(b[a.len() as int] == payload@);
    assert forall|i: int| 0 <= i < a.len() implies (#[trigger] r2->Ok_0.0@[i])@
        == r->Ok_0.0@[i]@ by {
        assert(b[i] == a[i]);
    }
}

/// A frame that was only partly written behind a log that ends cleanly is left out, and its bytes
/// are not counted.
pub proof fn lemma_log_without_torn_frame(
    data: Vec<u8>,
    r: Result<(Vec<Vec<u8>>, u64), KvError>,
    payload: &[u8],
    f: Result<Vec<u8>, KvError>,
    n: int,
    torn: Vec<u8>,
    r2: Result<(Vec<Vec<u8>>, u64), KvError>,
)
    requires
        call_ensures(log_frames, (data,), r),
        r is Ok,
        r->Ok_0.1 == data@.len(),
        call_ensures(log_frame, (payload,), f),
        f is Ok,
        0 < n < f->Ok_0@.len(),
        torn@ == data@ + f->Ok_0@.take(n),
        call_ensures(log_frames, (torn,), r2),
    ensures
        r2 is Ok,
        r2->Ok_0.1 == data@.len(),
        r2->Ok_0.0@.len() == r->Ok_0.0@.len(),
        forall|i: int| 0 <= i < r->Ok_0.0@.len() ==> (#[trigger] r2->Ok_0.0@[i])@ == r->Ok_0.0@[i]@,
{
    lemma_scan_log_end(data@, 0);
    lemma_torn_frame_is_dropped(data@, payload@, n);
    let a = payload_views(r->Ok_0.0@);
    let b = payload_views(r2->Ok_0.0@);
    assert(b == a);
    assert(a.len() == r->Ok_0.0@.len());
    assert(b.len() == r2->Ok_0.0@.len());
    assert forall|i: int| 0 <= i < a.len() implies (#[trigger] r2->Ok_0.0@[i])@
        == r->Ok_0.0@[i]@ by {
        assert(b[i] == a[i]);
    }
}

/// A frame with one changed byte, in its checksum or its payload, is never passed over: the log is
/// corrupt at the frame's offset, whatever stands behind it, and also where it is the last one.
pub proof fn lemma_changed_log_is_corrupt(
    data: Vec<u8>,
    r: Result<(Vec<Vec<u8>>, u64), KvError>,
    payload: &[u8],
    f: Result<Vec<u8>, KvError>,
    i: int,
    b: u8,
    behind: Seq<u8>,
    changed: Vec<u8>,
    r2: Result<(Vec<Vec<u8>>, u64), KvError>,
)
    requires
        call_ensures(log_frames, (data,), r),
        r is Ok,
        r->Ok_0.1 == data@.len(),
        call_ensures(log_frame, (payload,), f),
        f is Ok,
        4 <= i < f->Ok_0@.len(),
        f->Ok_0@[i] != b,
        changed@ == data@ + f->Ok_0@.update(i, b) + behind,
        call_ensures(log_frames, (changed,), r2),
    ensures
        r2 is Err,
        r2->Err_0@ is CorruptWal,
        data@.len() <= u64::MAX ==> r2->Err_0@->offset == data@.len(),
{
    lemma_scan_log_end(data@, 0);
    lemma_changed_byte_is_noticed(data@, payload@, behind, i, b);
    let tail = f->Ok_0@.update(i, b) + behind;
    assert(changed@ =~= data@ + tail);
    lemma_scan_log_through(data@, 0, tail);
}

/// A snapshot file is taken exactly as it was framed: its payload is given back; one that was cut
/// short, has bytes behind its end, or has one changed byte in its checksum or payload is refused.
pub proof fn lemma_snapshot_payload(
    payload: &[u8],
    f: Result<Vec<u8>, KvError>,
    data: Vec<u8>,
    r: Result<Vec<u8>, KvError>,
)
    requires
        call_ensures(log_frame, (payload,), f),
        f is Ok,
        call_ensures(snapshot_payload, (data,), r),
    ensures
        data@ == f->Ok_0@ ==> r is Ok && r->Ok_0@ == payload@,
        forall|n: int|
            0 <= n < f->Ok_0@.len() && data@ == #[trigger] f->Ok_0@.take(n) ==> r is Err
                && r->Err_0@ is CorruptSnapshot,
        forall|behind: Seq<u8>|
            behind.len() > 0 && data@ == #[trigger] (f->Ok_0@ + behind) ==> r is Err
                && r->Err_0@ is CorruptSnapshot,
        forall|i: int, b: u8|
            4 <= i < f->Ok_0@.len() && f->Ok_0@[i] != b && data@ == #[trigger] f->Ok_0@.update(i, b)
                ==> r is Err && r->Err_0@ is CorruptSnapshot,
{
    let whole = f->Ok_0@;
    let none = Seq::<u8>::empty();
    assert(whole == log_frame_bytes(payload@));
    lemma_log_frame_round_trip(none, payload@, none);
    lemma_snapshot_file(payload@, 0);
    assert forall|n: int| 0 <= n < whole.len() && data@ == #[trigger] whole.take(n) implies r is Err
        && r->Err_0@ is CorruptSnapshot by {
        lemma_snapshot_file(payload@, n);
    }
    assert forall|behind: Seq<u8>|
        behind.len() > 0 && data@ == #[trigger] (whole + behind) implies r is Err
        && r->Err_0@ is CorruptSnapshot by {
        lemma_log_frame_round_trip(none, payload@, behind);
        assert(none + whole + behind =~= data@);
    }
    assert forall|i: int, b: u8|
        4 <= i < whole.len() && whole[i] != b && data@ == #[trigger] whole.update(
            i,
            b,
        ) implies r is Err && r->Err_0@ is CorruptSnapshot by {
        lemma_changed_byte_is_noticed(none, payload@, none, i, b);
        assert(none + whole.update(i, b) + none =~= data@);
    }
}

} // verus!
