//! Little-endian integer fields inside a byte sequence.
use vstd::arithmetic::div_mod::lemma_fundamental_div_mod_converse;
use vstd::prelude::*;

verus! {

/// The unsigned 16-bit value stored little-endian at `b[i..i + 2]`.
pub open spec fn u16_at(b: Seq<u8>, i: int) -> int {
    b[i] as int + b[i + 1] as int * 256
}

/// The unsigned 32-bit value stored little-endian at `b[i..i + 4]`.
pub open spec fn u32_at(b: Seq<u8>, i: int) -> int {
    b[i] as int + b[i + 1] as int * 0x100 + b[i + 2] as int * 0x1_0000 + b[i + 3] as int
        * 0x100_0000
}

/// The two little-endian bytes of `x`.
pub open spec fn le16(x: int) -> Seq<u8> {
    seq![(x % 256) as u8, (x / 256 % 256) as u8]
}

/// The four little-endian bytes of `x`.
pub open spec fn le32(x: int) -> Seq<u8> {
    seq![
        (x % 0x100) as u8,
        (x / 0x100 % 0x100) as u8,
        (x / 0x1_0000 % 0x100) as u8,
        (x / 0x100_0000 % 0x100) as u8,
    ]
}

/// Decoding the encoding of a 16-bit value gives the value back.
pub proof fn lemma_le16_inverse(x: int)
    requires
        0 <= x < 0x1_0000,
    ensures
        le16(x).len() == 2,
        u16_at(le16(x), 0) == x,
{
    assert(u16_at(le16(x), 0) == x) by (nonlinear_arith)
        requires
            0 <= x < 0x1_0000,
            le16(x)[0] as int == x % 256,
            le16(x)[1] as int == x / 256 % 256,
    {
    }
}

/// Decoding the encoding of a 32-bit value gives the value back.
pub proof fn lemma_le32_inverse(x: int)
    requires
        0 <= x < 0x1_0000_0000,
    ensures
        le32(x).len() == 4,
        u32_at(le32(x), 0) == x,
{
    let s = le32(x);
    assert(s[0] as int == x % 0x100);
    assert(s[1] as int == x / 0x100 % 0x100);
    assert(s[2] as int == x / 0x1_0000 % 0x100);
    assert(s[3] as int == x / 0x100_0000 % 0x100);
    assert(u32_at(s, 0) == x) by (nonlinear_arith)
        requires
            0 <= x < 0x1_0000_0000,
            s[0] as int == x % 0x100,
            s[1] as int == x / 0x100 % 0x100,
            s[2] as int == x / 0x1_0000 % 0x100,
            s[3] as int == x / 0x100_0000 % 0x100,
    {
    }
}

/// Encoding the 16-bit value stored at `b[i..i + 2]` gives those two bytes back.
pub proof fn lemma_le16_of_u16_at(b: Seq<u8>, i: int)
    requires
        0 <= i,
        i + 2 <= b.len(),
    ensures
        le16(u16_at(b, i)) == b.subrange(i, i + 2),
{
    let x = u16_at(b, i);
    lemma_fundamental_div_mod_converse(x, 256, b[i + 1] as int, b[i] as int);
    lemma_fundamental_div_mod_converse(b[i + 1] as int, 256, 0, b[i + 1] as int);
    assert(le16(x) =~= b.subrange(i, i + 2));
}

/// Encoding the 32-bit value stored at `b[i..i + 4]` gives those four bytes back.
pub proof fn lemma_le32_of_u32_at(b: Seq<u8>, i: int)
    requires
        0 <= i,
        i + 4 <= b.len(),
    ensures
        le32(u32_at(b, i)) == b.subrange(i, i + 4),
{
    let x = u32_at(b, i);
    let b0 = b[i] as int;
    let b1 = b[i + 1] as int;
    let b2 = b[i + 2] as int;
    let b3 = b[i + 3] as int;
    lemma_fundamental_div_mod_converse(x, 0x100, b1 + b2 * 0x100 + b3 * 0x1_0000, b0);
    lemma_fundamental_div_mod_converse(b1 + b2 * 0x100 + b3 * 0x1_0000, 0x100, b2 + b3 * 0x100, b1);
    lemma_fundamental_div_mod_converse(x, 0x1_0000, b2 + b3 * 0x100, b0 + b1 * 0x100);
    lemma_fundamental_div_mod_converse(b2 + b3 * 0x100, 0x100, b3, b2);
    lemma_fundamental_div_mod_converse(x, 0x100_0000, b3, b0 + b1 * 0x100 + b2 * 0x1_0000);
    lemma_fundamental_div_mod_converse(b3, 0x100, 0, b3);
    assert(le32(x) =~= b.subrange(i, i + 4));
}

/// Reads the 16-bit little-endian value at `b[i..i + 2]`.
pub fn read_u16(b: &[u8], i: usize) -> (r: u16)
    requires
        i + 2 <= b@.len(),
    ensures
        r as int == u16_at(b@, i as int),
{
    b[i] as u16 + b[i + 1] as u16 * 256
}

/// Reads the 32-bit little-endian value at `b[i..i + 4]`.
pub fn read_u32(b: &[u8], i: usize) -> (r: u32)
    requires
        i + 4 <= b@.len(),
    ensures
        r as int == u32_at(b@, i as int),
{
    b[i] as u32 + b[i + 1] as u32 * 0x100 + b[i + 2] as u32 * 0x1_0000 + b[i + 3] as u32
        * 0x100_0000
}

/// Appends the two little-endian bytes of `x`.
pub fn push_u16(out: &mut Vec<u8>, x: u16)
    ensures
        final(out)@ == old(out)@ + le16(x as int),
{
    out.push((x % 256) as u8);
    out.push((x / 256) as u8);
    assert(final(out)@ =~= old(out)@ + le16(x as int));
}

/// Appends the four little-endian bytes of `x`.
pub fn push_u32(out: &mut Vec<u8>, x: u32)
    ensures
        final(out)@ == old(out)@ + le32(x as int),
{
    out.push((x % 0x100) as u8);
    out.push((x / 0x100 % 0x100) as u8);
    out.push((x / 0x1_0000 % 0x100) as u8);
    out.push((x / 0x100_0000) as u8);
    assert(final(out)@ =~= old(out)@ + le32(x as int));
}

/// `b` with `b[pos..pos + 4]` replaced by the four little-endian bytes of `x`.
pub open spec fn overwrite32(b: Seq<u8>, pos: int, x: int) -> Seq<u8> {
    b.subrange(0, pos) + le32(x) + b.subrange(pos + 4, b.len() as int)
}

/// Overwrites `out[pos..pos + 4]` with the four little-endian bytes of `x`.
pub fn patch_u32(out: &mut Vec<u8>, pos: usize, x: u32)
    requires
        pos + 4 <= old(out)@.len(),
    ensures
        final(out)@ == overwrite32(old(out)@, pos as int, x as int),
{
    let n = out.len();
    assert(pos + 4 <= n);
    out[pos] = (x % 0x100) as u8;
    out[pos + 1] = (x / 0x100 % 0x100) as u8;
    out[pos + 2] = (x / 0x1_0000 % 0x100) as u8;
    out[pos + 3] = (x / 0x100_0000) as u8;
    assert(final(out)@ =~= old(out)@.subrange(0, pos as int) + le32(x as int) + old(out)@.subrange(
        pos + 4,
        old(out)@.len() as int,
    ));
}

} // verus!
