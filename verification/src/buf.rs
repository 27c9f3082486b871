//! Big-endian integers and raw bytes in growing vectors and shrinking slices.
//!
//! The reading and writing itself is that of the `bytes` crate; what the library relies on is
//! stated here, over the functions `be16` and `be32`.

use bytes::{Buf, BufMut};
use vstd::prelude::*;

verus! {

/// The two bytes of `n`, high byte first.
pub open spec fn be16(n: u16) -> Seq<u8> {
    seq![(n / 256) as u8, (n % 256) as u8]
}

/// The four bytes of `n`, high byte first.
pub open spec fn be32(n: u32) -> Seq<u8> {
    seq![
        (n / 0x100_0000) as u8,
        (n / 0x1_0000 % 256) as u8,
        (n / 0x100 % 256) as u8,
        (n % 256) as u8,
    ]
}

/// The number whose two bytes, high byte first, stand at `i` of `s`.
pub open spec fn u16_at(s: Seq<u8>, i: int) -> u16 {
    (s[i] * 256 + s[i + 1]) as u16
}

/// The number whose four bytes, high byte first, stand at `i` of `s`.
pub open spec fn u32_at(s: Seq<u8>, i: int) -> u32 {
    (s[i] * 0x100_0000 + s[i + 1] * 0x1_0000 + s[i + 2] * 0x100 + s[i + 3]) as u32
}

/// What `be16` wrote, `u16_at` reads.
pub proof fn lemma_u16_at_be16(s: Seq<u8>, i: int, n: u16)
    requires
        0 <= i,
        i + 2 <= s.len(),
        s.subrange(i, i + 2) == be16(n),
    ensures
        u16_at(s, i) == n,
{
    assert(s.subrange(i, i + 2)[0] == s[i]);
    assert(s.subrange(i, i + 2)[1] == s[i + 1]);
}

/// What `be32` wrote, `u32_at` reads.
pub proof fn lemma_u32_at_be32(s: Seq<u8>, i: int, n: u32)
    requires
        0 <= i,
        i + 4 <= s.len(),
        s.subrange(i, i + 4) == be32(n),
    ensures
        u32_at(s, i) == n,
{
    let t = s.subrange(i, i + 4);
    assert(t[0] == s[i] && t[1] == s[i + 1] && t[2] == s[i + 2] && t[3] == s[i + 3]);
}

/// The bytes of a number, high byte first, are its digits to the base 256.
pub proof fn lemma_big_endian(m: u16, n: u32)
    ensures
        be16(m).len() == 2,
        be16(m)[0] * 256 + be16(m)[1] == m,
        be32(n).len() == 4,
        be32(n)[0] * 0x100_0000 + be32(n)[1] * 0x1_0000 + be32(n)[2] * 0x100 + be32(n)[3] == n,
{
}

/// A two-byte number is read as its digits to the base 256, and a four-byte number too.
pub proof fn lemma_digits_at(s: Seq<u8>, i: int)
    requires
        0 <= i,
        i + 4 <= s.len(),
    ensures
        u16_at(s, i) == s[i] * 256 + s[i + 1],
        u32_at(s, i) == s[i] * 0x100_0000 + s[i + 1] * 0x1_0000 + s[i + 2] * 0x100 + s[i + 3],
{
}

/// A two-byte field keeps a length below two to the sixteenth, and of a longer one what is left
/// over of whole multiples of that.
pub proof fn lemma_low16(n: nat, k: nat)
    ensures
        n < 0x1_0000 ==> low16(n) == n,
        low16(n + 0x1_0000 * k) == low16(n),
{
    vstd::arithmetic::div_mod::lemma_mod_multiples_vanish(k as int, n as int, 0x1_0000);
}

/// `n` modulo two to the sixteenth: what a two-byte field keeps of a length.
pub open spec fn low16(n: nat) -> u16 {
    (n % 0x1_0000) as u16
}

/// The low sixteen bits of a length.
pub fn low16_of(n: usize) -> (r: u16)
    ensures
        r == low16(n as nat),
{
    assert(n as u16 == n % 0x1_0000) by (bit_vector);
    #[verifier::truncate]
    let r: u16 = n as u16;
    r
}

/// `bytes::BufMut::put_u16` on a vector: appends the two bytes of `n`, high byte first. The
/// vector must have room below `isize::MAX` bytes, beyond which it panics.
#[verifier::external_body]
pub(crate) fn put_u16(buf: &mut Vec<u8>, n: u16)
    requires
        old(buf)@.len() + 2 <= isize::MAX,
    ensures
        final(buf)@ == old(buf)@ + be16(n),
{
    buf.put_u16(n)
}

/// `bytes::BufMut::put_u32` on a vector: appends the four bytes of `n`, high byte first. The
/// vector must have room below `isize::MAX` bytes, beyond which it panics.
#[verifier::external_body]
pub(crate) fn put_u32(buf: &mut Vec<u8>, n: u32)
    requires
        old(buf)@.len() + 4 <= isize::MAX,
    ensures
        final(buf)@ == old(buf)@ + be32(n),
{
    buf.put_u32(n)
}

/// `bytes::BufMut::put_slice` on a vector: appends the bytes of `src`. The vector must have room
/// below `isize::MAX` bytes, beyond which it panics.
#[verifier::external_body]
pub(crate) fn put_slice(buf: &mut Vec<u8>, src: &[u8])
    requires
        old(buf)@.len() + src@.len() <= isize::MAX,
    ensures
        final(buf)@ == old(buf)@ + src@,
{
    buf.put_slice(src)
}

/// `bytes::Buf::get_u16` on a slice: reads two bytes, high byte first, and drops them from the
/// front. It panics where fewer are left.
#[verifier::external_body]
pub(crate) fn get_u16(buf: &mut &[u8]) -> (r: u16)
    requires
        old(buf)@.len() >= 2,
    ensures
        r == u16_at(old(buf)@, 0),
        final(buf)@ == old(buf)@.skip(2),
{
    buf.get_u16()
}

/// `bytes::Buf::get_u32` on a slice: reads four bytes, high byte first, and drops them from the
/// front. It panics where fewer are left.
#[verifier::external_body]
pub(crate) fn get_u32(buf: &mut &[u8]) -> (r: u32)
    requires
        old(buf)@.len() >= 4,
    ensures
        r == u32_at(old(buf)@, 0),
        final(buf)@ == old(buf)@.skip(4),
{
    buf.get_u32()
}

/// `bytes::Buf::advance` on a slice: drops `cnt` bytes from the front. It panics where fewer are
/// left.
#[verifier::external_body]
pub(crate) fn advance(buf: &mut &[u8], cnt: usize)
    requires
        cnt <= old(buf)@.len(),
    ensures
        final(buf)@ == old(buf)@.skip(cnt as int),
{
    buf.advance(cnt)
}

} // verus!
