//! Little-endian integers, as the corpus stores them.

use vstd::prelude::*;

verus! {

/// The two bytes of `x`, least significant first.
#[verifier::opaque]
pub open spec fn le_u16(x: u16) -> Seq<u8> {
    seq![(x % 256) as u8, (x / 256) as u8]
}

/// The four bytes of `x`, least significant first.
#[verifier::opaque]
pub open spec fn le_u32(x: u32) -> Seq<u8> {
    seq![
        (x % 256) as u8,
        (x / 256 % 256) as u8,
        (x / 65536 % 256) as u8,
        (x / 16777216) as u8,
    ]
}

/// The number whose little-endian bytes are the first two of `b`.
#[verifier::opaque]
pub open spec fn from_le_u16(b: Seq<u8>) -> u16 {
    (b[0] as int + 256 * b[1] as int) as u16
}

/// The number whose little-endian bytes are the first four of `b`.
#[verifier::opaque]
pub open spec fn from_le_u32(b: Seq<u8>) -> u32 {
    (b[0] as int + 256 * b[1] as int + 65536 * b[2] as int + 16777216 * b[3] as int) as u32
}

/// A 16-bit number takes two bytes.
pub broadcast proof fn lemma_le_u16_len(x: u16)
    ensures
        #[trigger] le_u16(x).len() == 2,
{
    reveal(le_u16);
}

/// A 32-bit number takes four bytes.
pub broadcast proof fn lemma_le_u32_len(x: u32)
    ensures
        #[trigger] le_u32(x).len() == 4,
{
    reveal(le_u32);
}

/// Reading back what was written gives the number again.
pub proof fn lemma_le_u16_round_trip(x: u16)
    ensures
        le_u16(x).len() == 2,
        from_le_u16(le_u16(x)) == x,
{
    reveal(le_u16);
    reveal(from_le_u16);
}

/// Reading back what was written gives the number again.
pub proof fn lemma_le_u32_round_trip(x: u32)
    ensures
        le_u32(x).len() == 4,
        from_le_u32(le_u32(x)) == x,
{
    reveal(le_u32);
    reveal(from_le_u32);
}

/// Appends the little-endian bytes of `x` to `buf`.
pub fn push_u16(buf: &mut Vec<u8>, x: u16)
    ensures
        final(buf)@ == old(buf)@ + le_u16(x),
{
    buf.push((x % 256) as u8);
    buf.push((x / 256) as u8);
    reveal(le_u16);
    assert(buf@ =~= old(buf)@ + le_u16(x));
}

/// Appends the little-endian bytes of `x` to `buf`.
pub fn push_u32(buf: &mut Vec<u8>, x: u32)
    ensures
        final(buf)@ == old(buf)@ + le_u32(x),
{
    buf.push((x % 256) as u8);
    buf.push((x / 256 % 256) as u8);
    buf.push((x / 65536 % 256) as u8);
    buf.push((x / 16777216) as u8);
    reveal(le_u32);
    assert(buf@ =~= old(buf)@ + le_u32(x));
}

/// Reads the little-endian number stored in the two bytes from `at`.
pub fn read_u16(bytes: &[u8], at: usize) -> (x: u16)
    requires
        at + 2 <= bytes@.len(),
    ensures
        x == from_le_u16(bytes@.subrange(at as int, at + 2)),
{
    let lo: u16 = bytes[at] as u16;
    let hi: u16 = bytes[at + 1] as u16;
    reveal(from_le_u16);
    lo + 256 * hi
}

/// Reads the little-endian number stored in the four bytes from `at`.
pub fn read_u32(bytes: &[u8], at: usize) -> (x: u32)
    requires
        at + 4 <= bytes@.len(),
    ensures
        x == from_le_u32(bytes@.subrange(at as int, at + 4)),
{
    let b0: u32 = bytes[at] as u32;
    let b1: u32 = bytes[at + 1] as u32;
    let b2: u32 = bytes[at + 2] as u32;
    let b3: u32 = bytes[at + 3] as u32;
    reveal(from_le_u32);
    b0 + 256 * b1 + 65536 * b2 + 16777216 * b3
}

} // verus!
