//! Binary framing for WAL records and snapshots.
//!
//! Frame layout (all integers little-endian):
//!
//! ```text
//! +-----------+----------------+-------------+
//! | magic(4)  | payload_len(4) | payload     |
//! | 0x4B565331| u32            | len bytes   |
//! +-----------+----------------+-------------+
//! ```
//!
//! followed by a checksum frame:
//!
//! ```text
//! +-----------+------------+
//! | magic(4)  | crc32(4)   |
//! | 0x4B565332| u32        |
//! +-----------+------------+
//! ```
//!
//! Framing payload and checksum separately lets the reader tell a torn tail (a partially appended
//! record after a crash) from payload corruption: no byte at a frame boundary is a clean end, a
//! short read inside a frame is a torn record, and a bad magic, length or checksum is corruption.

use crate::endian;
use crate::error;
use crate::text;
use vstd::prelude::*;
use vstd::std_specs::convert::FromSpecImpl;
use vstd::string::*;

verus! {

/// Magic marking the start of a payload frame ("KVS1").
pub const MAGIC_PAYLOAD: [u8; 4] = [0x4B, 0x56, 0x53, 0x31];

/// Magic marking the checksum frame that follows the payload.
pub const MAGIC_CHECKSUM: [u8; 4] = [0x4B, 0x56, 0x53, 0x32];

/// Maximum payload size of a single frame (64 MiB). A larger frame is treated as corruption
/// rather than allocated.
pub const MAX_PAYLOAD_LEN: u32 = 64 * 1024 * 1024;

/// One step of the division by the CRC-32 polynomial, bits reversed: the lowest bit leaves.
pub open spec fn crc_bit(x: u32) -> u32 {
    if x & 1 == 1 {
        (x >> 1) ^ 0xEDB8_8320
    } else {
        x >> 1
    }
}

/// The remainder after one more byte.
#[verifier::opaque]
pub open spec fn crc_byte(x: u32, b: u8) -> u32 {
    crc_bit(crc_bit(crc_bit(crc_bit(crc_bit(crc_bit(crc_bit(crc_bit(x ^ (b as u32)))))))))
}

/// The remainder after bytes, from all ones on.
pub open spec fn crc_bytes(bytes: Seq<u8>) -> u32
    decreases bytes.len(),
{
    if bytes.len() == 0 {
        0xFFFF_FFFF
    } else {
        crc_byte(crc_bytes(bytes.drop_last()), bytes.last())
    }
}

/// The CRC-32 (IEEE) checksum of bytes.
#[verifier::opaque]
pub open spec fn crc32(bytes: Seq<u8>) -> u32 {
    crc_bytes(bytes) ^ 0xFFFF_FFFF
}

/// Calls `crc32fast::Hasher` (`new`, `update`, `finalize`), which computes the CRC-32 (IEEE)
/// checksum.
#[verifier::external_body]
pub(crate) fn checksum(bytes: &[u8]) -> (r: u32)
    ensures
        r == crc32(bytes@),
{
    let mut hasher = crc32fast::Hasher::new();
    hasher.update(bytes);
    hasher.finalize()
}

/// Errors encountered while reading frames.
#[derive(Debug)]
pub enum FrameError {
    /// Clean end of file exactly between frames.
    Eof,
    /// A frame was only partially present (torn tail after a crash).
    Torn,
    /// Frame magic/CRC/length check failed.
    Corrupt(String),
    /// Underlying I/O failure.
    Io(std::io::Error),
}

/// What a [`FrameError`] says.
pub enum FrameFault {
    Eof,
    Torn,
    Corrupt(Seq<char>),
    Io,
}

impl View for FrameError {
    type V = FrameFault;

    open spec fn view(&self) -> FrameFault {
        match *self {
            FrameError::Eof => FrameFault::Eof,
            FrameError::Torn => FrameFault::Torn,
            FrameError::Corrupt(message) => FrameFault::Corrupt(message@),
            FrameError::Io(_) => FrameFault::Io,
        }
    }
}

/// The message of each error whose text the reader decides; the one of an I/O error ends in the
/// system's own words.
pub open spec fn frame_message(e: FrameFault) -> Seq<char> {
    match e {
        FrameFault::Eof => "end of frames"@,
        FrameFault::Torn => "torn (incomplete) frame at tail"@,
        FrameFault::Corrupt(message) => "corrupt frame: "@ + message,
        FrameFault::Io => "I/O error: "@,
    }
}

impl FrameError {
    /// The message for people.
    pub fn message(&self) -> (r: String)
        ensures
            self@ !is Io ==> r@ == frame_message(self@),
            self@ is Io ==> frame_message(self@).is_prefix_of(r@),
    {
        let mut s = String::new();
        match self {
            FrameError::Eof => {
                s.append("end of frames");
            },
            FrameError::Torn => {
                s.append("torn (incomplete) frame at tail");
            },
            FrameError::Corrupt(message) => {
                s.append("corrupt frame: ");
                s.append(message.as_str());
            },
            FrameError::Io(e) => {
                s.append("I/O error: ");
                s.append(error::io_error_text(e).as_str());
            },
        }
        assert(self@ !is Io ==> s@ =~= frame_message(self@));
        assert(self@ is Io ==> frame_message(self@) =~= s@.take(frame_message(self@).len() as int));
        s
    }
}

impl From<std::io::Error> for FrameError {
    fn from(e: std::io::Error) -> (r: FrameError) {
        FrameError::Io(e)
    }
}

impl FromSpecImpl<std::io::Error> for FrameError {
    open spec fn obeys_from_spec() -> bool {
        true
    }

    open spec fn from_spec(e: std::io::Error) -> FrameError {
        FrameError::Io(e)
    }
}

/// The wire form of a payload. The length field holds the low 32 bits of the length.
pub open spec fn frame_bytes(payload: Seq<u8>) -> Seq<u8> {
    framed(payload, crc32(payload))
}

/// A payload with a checksum as a frame.
pub open spec fn framed(payload: Seq<u8>, crc: u32) -> Seq<u8> {
    MAGIC_PAYLOAD@ + endian::le32((payload.len() % 0x1_0000_0000) as u32) + payload
        + MAGIC_CHECKSUM@ + endian::le32(crc)
}

/// Four bytes as a list of hexadecimal numbers.
pub open spec fn magic_text(m: Seq<u8>) -> Seq<char> {
    "["@ + text::hex_byte(m[0]) + ", "@ + text::hex_byte(m[1]) + ", "@ + text::hex_byte(m[2])
        + ", "@ + text::hex_byte(m[3]) + "]"@
}

/// What stands in `data` at offset `pos`: a whole frame with its payload, or why there is none.
pub open spec fn frame_at(data: Seq<u8>, pos: int) -> Result<Seq<u8>, FrameFault> {
    let left = data.len() - pos;
    let magic = data.subrange(pos, pos + 4);
    let len = endian::value32(data.subrange(pos + 4, pos + 8));
    let payload = data.subrange(pos + 8, pos + 8 + len);
    if left <= 0 {
        Err(FrameFault::Eof)
    } else if left < 4 {
        Err(FrameFault::Torn)
    } else if magic != MAGIC_PAYLOAD@ {
        Err(
            FrameFault::Corrupt(
                "bad payload magic "@ + magic_text(magic) + " at offset "@ + text::decimal(
                    pos as nat,
                ),
            ),
        )
    } else if left < 8 {
        Err(FrameFault::Torn)
    } else if len > MAX_PAYLOAD_LEN {
        Err(
            FrameFault::Corrupt(
                "frame payload length "@ + text::decimal(len) + " exceeds limit "@
                    + text::decimal(MAX_PAYLOAD_LEN as nat),
            ),
        )
    } else if left < 12 + len {
        Err(FrameFault::Torn)
    } else if data.subrange(pos + 8 + len, pos + 12 + len) != MAGIC_CHECKSUM@ {
        Err(FrameFault::Corrupt("bad checksum frame magic"@))
    } else if left < 16 + len {
        Err(FrameFault::Torn)
    } else {
        match crc_fault(
            endian::value32(data.subrange(pos + 12 + len, pos + 16 + len)),
            crc32(payload),
            (pos + 16 + len) as nat,
        ) {
            Some(f) => Err(f),
            None => Ok(payload),
        }
    }
}

/// What is wrong with a frame that ends at `end`, if its stored checksum is not the computed one.
pub open spec fn crc_fault(stored: nat, computed: u32, end: nat) -> Option<FrameFault> {
    if stored == computed {
        None
    } else {
        Some(
            FrameFault::Corrupt(
                "CRC mismatch at frame ending at offset "@ + text::decimal(end),
            ),
        )
    }
}

/// Puts `payload` and its checksum into the two-frame wire format.
pub fn frame_with(payload: &[u8], crc: u32) -> (r: Vec<u8>)
    ensures
        r@ == framed(payload@, crc),
{
    let len: u32 = (payload.len() as u64 % 0x1_0000_0000) as u32;
    let mut buf: Vec<u8> = Vec::new();
    buf.extend_from_slice(MAGIC_PAYLOAD.as_slice());
    buf.append(&mut endian::le32_bytes(len));
    buf.extend_from_slice(payload);
    buf.extend_from_slice(MAGIC_CHECKSUM.as_slice());
    buf.append(&mut endian::le32_bytes(crc));
    assert(buf@ =~= framed(payload@, crc));
    buf
}

/// Encode `payload` into the two-frame wire format.
pub fn encode_frame(payload: &[u8]) -> (r: Vec<u8>)
    ensures
        r@ == frame_bytes(payload@),
{
    let crc: u32 = checksum(payload);
    frame_with(payload, crc)
}

/// Compares the stored checksum of a frame that ends at `end` with the computed one.
pub fn check_crc(stored: u32, computed: u32, end: u64) -> (r: Result<(), FrameError>)
    ensures
        match r {
            Ok(_) => crc_fault(stored as nat, computed, end as nat) is None,
            Err(e) => crc_fault(stored as nat, computed, end as nat) == Some(e@),
        },
{
    if stored == computed {
        return Ok(());
    }
    let mut s = "CRC mismatch at frame ending at offset ".to_string();
    s.append(text::number_text(end).as_str());
    Err(FrameError::Corrupt(s))
}

/// Append an encoded frame to a buffer (no fsync; caller decides durability).
pub fn write_frame(w: &mut Vec<u8>, payload: &[u8])
    ensures
        final(w)@ == old(w)@ + frame_bytes(payload@),
{
    let mut frame = encode_frame(payload);
    w.append(&mut frame);
}

fn magic_label(m: &[u8]) -> (r: String)
    requires
        m@.len() == 4,
    ensures
        r@ == magic_text(m@),
{
    let mut s = "[".to_string();
    s.append(text::hex_text(m[0]).as_str());
    s.append(", ");
    s.append(text::hex_text(m[1]).as_str());
    s.append(", ");
    s.append(text::hex_text(m[2]).as_str());
    s.append(", ");
    s.append(text::hex_text(m[3]).as_str());
    s.append("]");
    s
}

fn is_magic(m: &[u8], magic: &[u8; 4]) -> (r: bool)
    requires
        m@.len() == 4,
    ensures
        r == (m@ == magic@),
{
    let r = m[0] == magic[0] && m[1] == magic[1] && m[2] == magic[2] && m[3] == magic[3];
    assert(r ==> m@ =~= magic@);
    r
}

/// Streaming frame reader over the bytes of a file.
pub struct FrameReader {
    inner: Vec<u8>,
    /// Byte offset of the next frame to read.
    pos: u64,
}

impl FrameReader {
    /// The bytes that are read.
    pub closed spec fn data(&self) -> Seq<u8> {
        self.inner@
    }

    /// The offset of the next frame.
    pub closed spec fn at(&self) -> nat {
        self.pos as nat
    }

    /// A reader at the start of `inner`.
    pub fn new(inner: Vec<u8>) -> (r: FrameReader)
        ensures
            r.data() == inner@,
            r.at() == 0,
    {
        FrameReader { inner, pos: 0 }
    }

    /// Current byte offset of the reader (also the length of valid data so far).
    pub fn position(&self) -> (r: u64)
        ensures
            r == self.at(),
    {
        self.pos
    }

    /// Moves the reader to an offset counted from the start, which is also returned.
    pub fn seek(&mut self, pos: u64) -> (r: u64)
        ensures
            r == pos,
            final(self).at() == pos,
            final(self).data() == old(self).data(),
    {
        self.pos = pos;
        pos
    }

    /// Read the next full frame. Returns [`FrameError::Eof`] at a clean frame boundary and
    /// [`FrameError::Torn`] for a partial tail frame. The reader moves only past whole frames.
    pub fn next_frame(&mut self) -> (r: Result<Vec<u8>, FrameError>)
        ensures
            final(self).data() == old(self).data(),
            match r {
                Ok(payload) => {
                    &&& frame_at(old(self).data(), old(self).at() as int) == Ok::<_, FrameFault>(payload@)
                    &&& final(self).at() == old(self).at() + 16 + payload@.len()
                },
                Err(e) => {
                    &&& frame_at(old(self).data(), old(self).at() as int) == Err::<Seq<u8>, _>(e@)
                    &&& final(self).at() == old(self).at()
                },
            },
    {
        let total: u64 = self.inner.len() as u64;
        if self.pos >= total {
            return Err(FrameError::Eof);
        }
        let start: usize = self.pos as usize;
        let left: usize = self.inner.len() - start;
        if left < 4 {
            return Err(FrameError::Torn);
        }
        let data: &[u8] = self.inner.as_slice();
        let magic = vstd::slice::slice_subrange(data, start, start + 4);
        if !is_magic(magic, &MAGIC_PAYLOAD) {
            let mut s = "bad payload magic ".to_string();
            s.append(magic_label(magic).as_str());
            s.append(" at offset ");
            s.append(text::number_text(self.pos).as_str());
            return Err(FrameError::Corrupt(s));
        }
        if left < 8 {
            return Err(FrameError::Torn);
        }
        let len: u32 = endian::read_le32(
            vstd::slice::slice_subrange(data, start + 4, start + 8),
        );
        if len > MAX_PAYLOAD_LEN {
            let mut s = "frame payload length ".to_string();
            s.append(text::number_text(len as u64).as_str());
            s.append(" exceeds limit ");
            s.append(text::number_text(MAX_PAYLOAD_LEN as u64).as_str());
            return Err(FrameError::Corrupt(s));
        }
        let size: usize = len as usize;
        if left < 12 + size {
            return Err(FrameError::Torn);
        }
        let body: usize = start + 8;
        let crc_magic = vstd::slice::slice_subrange(data, body + size, body + size + 4);
        if !is_magic(crc_magic, &MAGIC_CHECKSUM) {
            return Err(FrameError::Corrupt("bad checksum frame magic".to_string()));
        }
        if left < 16 + size {
            return Err(FrameError::Torn);
        }
        let payload = vstd::slice::slice_subrange(data, body, body + size);
        let stored_crc: u32 = endian::read_le32(
            vstd::slice::slice_subrange(data, body + size + 4, body + size + 8),
        );
        let end: u64 = self.pos + 16 + len as u64;
        match check_crc(stored_crc, checksum(payload), end) {
            Ok(_) => {},
            Err(e) => return Err(e),
        }
        let payload = vstd::slice::slice_to_vec(payload);
        self.pos = end;
        Ok(payload)
    }
}

/// Reading a frame where one was written gives its payload back, whatever stands before and
/// behind it.
pub proof fn lemma_frame_round_trip(before: Seq<u8>, payload: Seq<u8>, after: Seq<u8>)
    requires
        payload.len() <= MAX_PAYLOAD_LEN,
    ensures
        frame_at(before + frame_bytes(payload) + after, before.len() as int) == Ok::<_, FrameFault>(
            payload,
        ),
        frame_bytes(payload).len() == 16 + payload.len(),
{
    let data = before + frame_bytes(payload) + after;
    let pos = before.len() as int;
    let len = payload.len() as u32;
    endian::lemma_le32(len);
    endian::lemma_le32(crc32(payload));
    assert(data.subrange(pos, pos + 4) =~= MAGIC_PAYLOAD@);
    assert(data.subrange(pos + 4, pos + 8) =~= endian::le32(len));
    assert(data.subrange(pos + 8, pos + 8 + len) =~= payload);
    assert(data.subrange(pos + 8 + len, pos + 12 + len) =~= MAGIC_CHECKSUM@);
    assert(data.subrange(pos + 12 + len, pos + 16 + len) =~= endian::le32(crc32(payload)));
}

/// A frame that was cut short, but not before its first byte, is read as torn.
pub proof fn lemma_cut_frame_is_torn(before: Seq<u8>, payload: Seq<u8>, n: int)
    requires
        payload.len() <= MAX_PAYLOAD_LEN,
        0 < n < frame_bytes(payload).len(),
    ensures
        frame_at(before + frame_bytes(payload).take(n), before.len() as int) == Err::<Seq<u8>, _>(
            FrameFault::Torn,
        ),
{
    let frame = frame_bytes(payload);
    let data = before + frame.take(n);
    let pos = before.len() as int;
    let len = payload.len() as u32;
    endian::lemma_le32(len);
    endian::lemma_le32(crc32(payload));
    if n >= 4 {
        assert(data.subrange(pos, pos + 4) =~= MAGIC_PAYLOAD@);
    }
    if n >= 8 {
        assert(data.subrange(pos + 4, pos + 8) =~= endian::le32(len));
    }
    if n >= 12 + len {
        assert(data.subrange(pos + 8 + len, pos + 12 + len) =~= MAGIC_CHECKSUM@);
    }
}

/// What stands at an offset before the end of a whole frame does not depend on what follows the
/// frame.
pub proof fn lemma_frame_at_prefix(data: Seq<u8>, pos: int, after: Seq<u8>)
    requires
        0 <= pos,
        frame_at(data, pos) is Ok,
    ensures
        frame_at(data + after, pos) == frame_at(data, pos),
        pos + 16 + frame_at(data, pos)->Ok_0.len() <= data.len(),
{
    let len = endian::value32(data.subrange(pos + 4, pos + 8));
    let more = data + after;
    assert(more.subrange(pos, pos + 4) =~= data.subrange(pos, pos + 4));
    assert(more.subrange(pos + 4, pos + 8) =~= data.subrange(pos + 4, pos + 8));
    assert(more.subrange(pos + 8, pos + 8 + len) =~= data.subrange(pos + 8, pos + 8 + len));
    assert(more.subrange(pos + 8 + len, pos + 12 + len) =~= data.subrange(
        pos + 8 + len,
        pos + 12 + len,
    ));
    assert(more.subrange(pos + 12 + len, pos + 16 + len) =~= data.subrange(
        pos + 12 + len,
        pos + 16 + len,
    ));
}

proof fn lemma_crc_bit_injective(x: u32, y: u32)
    requires
        crc_bit(x) == crc_bit(y),
    ensures
        x == y,
{
    assert((if x & 1 == 1 {
        (x >> 1) ^ 0xEDB8_8320
    } else {
        x >> 1
    }) == (if y & 1 == 1 {
        (y >> 1) ^ 0xEDB8_8320
    } else {
        y >> 1
    }) ==> x == y) by (bit_vector);
}

proof fn lemma_crc_byte_injective(x: u32, b: u8, y: u32, c: u8)
    requires
        crc_byte(x, b) == crc_byte(y, c),
    ensures
        x ^ (b as u32) == y ^ (c as u32),
        b == c ==> x == y,
        x == y ==> b == c,
{
    reveal(crc_byte);
    let x0 = x ^ (b as u32);
    let y0 = y ^ (c as u32);
    let (x1, y1) = (crc_bit(x0), crc_bit(y0));
    let (x2, y2) = (crc_bit(x1), crc_bit(y1));
    let (x3, y3) = (crc_bit(x2), crc_bit(y2));
    let (x4, y4) = (crc_bit(x3), crc_bit(y3));
    let (x5, y5) = (crc_bit(x4), crc_bit(y4));
    let (x6, y6) = (crc_bit(x5), crc_bit(y5));
    let (x7, y7) = (crc_bit(x6), crc_bit(y6));
    lemma_crc_bit_injective(x7, y7);
    lemma_crc_bit_injective(x6, y6);
    lemma_crc_bit_injective(x5, y5);
    lemma_crc_bit_injective(x4, y4);
    lemma_crc_bit_injective(x3, y3);
    lemma_crc_bit_injective(x2, y2);
    lemma_crc_bit_injective(x1, y1);
    lemma_crc_bit_injective(x0, y0);
    assert(b == c && x ^ (b as u32) == y ^ (c as u32) ==> x == y) by (bit_vector);
    assert(x == y && x ^ (b as u32) == y ^ (c as u32) ==> b == c) by (bit_vector);
}

proof fn lemma_crc_bytes_differ(bytes: Seq<u8>, i: int, b: u8)
    requires
        0 <= i < bytes.len(),
        bytes[i] != b,
    ensures
        crc_bytes(bytes.update(i, b)) != crc_bytes(bytes),
    decreases bytes.len(),
{
    let other = bytes.update(i, b);
    if i == bytes.len() - 1 {
        assert(other.drop_last() =~= bytes.drop_last());
    } else {
        lemma_crc_bytes_differ(bytes.drop_last(), i, b);
        assert(other.drop_last() =~= bytes.drop_last().update(i, b));
    }
    if crc_bytes(other) == crc_bytes(bytes) {
        lemma_crc_byte_injective(
            crc_bytes(other.drop_last()),
            other.last(),
            crc_bytes(bytes.drop_last()),
            bytes.last(),
        );
    }
}

/// A checksum tells bytes apart that differ in one place.
pub proof fn lemma_changed_byte_changes_crc(bytes: Seq<u8>, i: int, b: u8)
    requires
        0 <= i < bytes.len(),
        bytes[i] != b,
    ensures
        crc32(bytes.update(i, b)) != crc32(bytes),
{
    reveal(crc32);
    lemma_crc_bytes_differ(bytes, i, b);
    let x = crc_bytes(bytes.update(i, b));
    let y = crc_bytes(bytes);
    assert(x != y ==> x ^ 0xFFFF_FFFF != y ^ 0xFFFF_FFFF) by (bit_vector);
}

/// A frame with one changed byte (so also with one flipped bit) is read as corrupt, unless the byte
/// belongs to the length.
pub proof fn lemma_changed_byte_is_corrupt(
    before: Seq<u8>,
    payload: Seq<u8>,
    after: Seq<u8>,
    i: int,
    b: u8,
)
    requires
        payload.len() <= MAX_PAYLOAD_LEN,
        0 <= i < frame_bytes(payload).len(),
        !(4 <= i < 8),
        frame_bytes(payload)[i] != b,
    ensures
        frame_at(
            before + frame_bytes(payload).update(i, b) + after,
            before.len() as int,
        ) matches Err(FrameFault::Corrupt(_)),
{
    let frame = frame_bytes(payload);
    let changed = frame.update(i, b);
    let data = before + changed + after;
    let pos = before.len() as int;
    let len = payload.len() as u32;
    let crc = crc32(payload);
    endian::lemma_le32(len);
    endian::lemma_le32(crc);
    if i < 4 {
        assert(data[pos + i] == b);
        assert(data.subrange(pos, pos + 4)[i] == b);
        assert(MAGIC_PAYLOAD@[i] == frame[i]);
    } else {
        assert(data.subrange(pos, pos + 4) =~= MAGIC_PAYLOAD@);
        assert(data.subrange(pos + 4, pos + 8) =~= endian::le32(len));
        let magic = data.subrange(pos + 8 + len, pos + 12 + len);
        let stored = data.subrange(pos + 12 + len, pos + 16 + len);
        let read = data.subrange(pos + 8, pos + 8 + len);
        if i < 8 + len {
            assert(read =~= payload.update(i - 8, b));
            assert(magic =~= MAGIC_CHECKSUM@);
            assert(stored =~= endian::le32(crc));
            lemma_changed_byte_changes_crc(payload, i - 8, b);
        } else if i < 12 + len {
            assert(magic[i - 8 - len] == b);
            assert(MAGIC_CHECKSUM@[i - 8 - len] == frame[i]);
        } else {
            assert(read =~= payload);
            assert(magic =~= MAGIC_CHECKSUM@);
            assert(stored[i - 12 - len] == b);
            assert(endian::le32(crc)[i - 12 - len] == frame[i]);
            endian::lemma_value32(stored);
        }
    }
}

/// A frame of at most 64 MiB is read back where it was written, and the reader moves behind it; a
/// longer one is refused.
pub proof fn lemma_frame_is_read_back(
    payload: &[u8],
    f: Vec<u8>,
    before: Seq<u8>,
    after: Seq<u8>,
    reader: &mut FrameReader,
    r: Result<Vec<u8>, FrameError>,
)
    requires
        call_ensures(encode_frame, (payload,), f),
        old(reader).data() == before + f@ + after,
        old(reader).at() == before.len(),
        call_ensures(FrameReader::next_frame, (reader,), r),
    ensures
        payload@.len() <= 0x400_0000 ==> {
            &&& f@.len() == payload@.len() + 16
            &&& r is Ok
            &&& r->Ok_0@ == payload@
            &&& final(reader).at() == before.len() + f@.len()
        },
        0x400_0000 < payload@.len() <= u32::MAX ==> {
            &&& r is Err
            &&& r->Err_0@ is Corrupt
            &&& final(reader).at() == before.len()
        },
        final(reader).data() == old(reader).data(),
{
    if payload@.len() <= 0x400_0000 {
        lemma_frame_round_trip(before, payload@, after);
    } else if payload@.len() <= u32::MAX {
        let data = before + f@ + after;
        let pos = before.len() as int;
        let len = payload@.len() as u32;
        endian::lemma_le32(len);
        endian::lemma_le32(crc32(payload@));
        assert(data.subrange(pos, pos + 4) =~= MAGIC_PAYLOAD@);
        assert(data.subrange(pos + 4, pos + 8) =~= endian::le32(len));
    }
}

/// A reader at the end says so; one before a part of a frame finds it torn. Neither moves.
pub proof fn lemma_no_whole_frame(
    payload: &[u8],
    f: Vec<u8>,
    before: Seq<u8>,
    n: int,
    reader: &mut FrameReader,
    r: Result<Vec<u8>, FrameError>,
)
    requires
        call_ensures(encode_frame, (payload,), f),
        payload@.len() <= 0x400_0000,
        0 <= n < f@.len(),
        old(reader).data() == before + f@.take(n),
        old(reader).at() == before.len(),
        call_ensures(FrameReader::next_frame, (reader,), r),
    ensures
        r is Err,
        n == 0 ==> r->Err_0@ is Eof,
        n > 0 ==> r->Err_0@ is Torn,
        final(reader).at() == old(reader).at(),
{
    if n > 0 {
        lemma_cut_frame_is_torn(before, payload@, n);
    }
}

/// A checksum is accepted exactly where the stored one is the computed one.
pub proof fn lemma_check_crc(stored: u32, computed: u32, end: u64, r: Result<(), FrameError>)
    requires
        call_ensures(check_crc, (stored, computed, end), r),
    ensures
        r is Ok <==> stored == computed,
        r is Err ==> r->Err_0@ is Corrupt,
{
}

} // verus!
