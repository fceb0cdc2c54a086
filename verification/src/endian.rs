//! Numbers as bytes, the lowest byte first.

use vstd::prelude::*;

verus! {

/// A 32-bit number in little-endian order.
#[verifier::opaque]
pub open spec fn le32(n: u32) -> Seq<u8> {
    seq![
        (n % 0x100) as u8,
        (n / 0x100 % 0x100) as u8,
        (n / 0x1_0000 % 0x100) as u8,
        (n / 0x100_0000) as u8,
    ]
}

/// A 64-bit number in little-endian order.
#[verifier::opaque]
pub open spec fn le64(n: u64) -> Seq<u8> {
    seq![
        (n % 0x100) as u8,
        (n / 0x100 % 0x100) as u8,
        (n / 0x1_0000 % 0x100) as u8,
        (n / 0x100_0000 % 0x100) as u8,
        (n / 0x1_0000_0000 % 0x100) as u8,
        (n / 0x100_0000_0000 % 0x100) as u8,
        (n / 0x1_0000_0000_0000 % 0x100) as u8,
        (n / 0x100_0000_0000_0000) as u8,
    ]
}

/// The number that four bytes in little-endian order stand for.
#[verifier::opaque]
pub open spec fn value32(s: Seq<u8>) -> nat {
    (s[0] + 0x100 * s[1] + 0x1_0000 * s[2] + 0x100_0000 * s[3]) as nat
}

/// The number that eight bytes in little-endian order stand for.
#[verifier::opaque]
pub open spec fn value64(s: Seq<u8>) -> nat {
    (s[0] + 0x100 * s[1] + 0x1_0000 * s[2] + 0x100_0000 * s[3] + 0x1_0000_0000 * s[4]
        + 0x100_0000_0000 * s[5] + 0x1_0000_0000_0000 * s[6] + 0x100_0000_0000_0000 * s[7]) as nat
}

/// A 32-bit number is read back from its bytes.
pub proof fn lemma_le32(n: u32)
    ensures
        le32(n).len() == 4,
        value32(le32(n)) == n,
{
    reveal(le32);
    reveal(value32);
    assert(n / 0x100 / 0x100 == n / 0x1_0000);
    assert(n / 0x1_0000 / 0x100 == n / 0x100_0000);
}

/// A 64-bit number is read back from its bytes.
pub proof fn lemma_le64(n: u64)
    ensures
        le64(n).len() == 8,
        value64(le64(n)) == n,
{
    reveal(le64);
    reveal(value64);
    assert(n / 0x100 / 0x100 == n / 0x1_0000);
    assert(n / 0x1_0000 / 0x100 == n / 0x100_0000);
    assert(n / 0x100_0000 / 0x100 == n / 0x1_0000_0000);
    assert(n / 0x1_0000_0000 / 0x100 == n / 0x100_0000_0000);
    assert(n / 0x100_0000_0000 / 0x100 == n / 0x1_0000_0000_0000);
    assert(n / 0x1_0000_0000_0000 / 0x100 == n / 0x100_0000_0000_0000);
}

/// Four bytes are the bytes of the number that they stand for.
pub proof fn lemma_value32(s: Seq<u8>)
    requires
        s.len() == 4,
    ensures
        value32(s) <= u32::MAX,
        le32(value32(s) as u32) == s,
{
    reveal(le32);
    reveal(value32);
    let n = value32(s);
    assert(n % 0x100 == s[0]);
    assert(n / 0x100 == s[1] + 0x100 * s[2] + 0x1_0000 * s[3]);
    assert(n / 0x1_0000 == s[2] + 0x100 * s[3]);
    assert(n / 0x100_0000 == s[3]);
    assert(le32(n as u32) =~= s);
}

/// The bytes of a 32-bit number.
pub fn le32_bytes(n: u32) -> (r: Vec<u8>)
    ensures
        r@ == le32(n),
{
    proof {
        reveal(le32);
    }
    let mut r: Vec<u8> = Vec::new();
    r.push((n % 0x100) as u8);
    r.push((n / 0x100 % 0x100) as u8);
    r.push((n / 0x1_0000 % 0x100) as u8);
    r.push((n / 0x100_0000) as u8);
    assert(r@ =~= le32(n));
    r
}

/// Reads a 32-bit number from its bytes.
pub fn read_le32(s: &[u8]) -> (r: u32)
    requires
        s@.len() == 4,
    ensures
        r == value32(s@),
{
    proof {
        reveal(value32);
    }
    s[0] as u32 + 0x100 * s[1] as u32 + 0x1_0000 * s[2] as u32 + 0x100_0000 * s[3] as u32
}

} // verus!
