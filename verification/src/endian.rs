//! Big-endian encoding of the fixed-width integers that the file formats use.

use vstd::prelude::*;

verus! {

/// The four bytes of `x`, most significant first.
#[verifier::opaque]
pub open spec fn be_u32(x: u32) -> Seq<u8> {
    seq![
        (x / 0x100_0000) as u8,
        (x / 0x1_0000 % 0x100) as u8,
        (x / 0x100 % 0x100) as u8,
        (x % 0x100) as u8,
    ]
}

/// The eight bytes of `x`, most significant first.
#[verifier::opaque]
pub open spec fn be_u64(x: u64) -> Seq<u8> {
    seq![
        (x / 0x100_0000_0000_0000) as u8,
        (x / 0x1_0000_0000_0000 % 0x100) as u8,
        (x / 0x100_0000_0000 % 0x100) as u8,
        (x / 0x1_0000_0000 % 0x100) as u8,
        (x / 0x100_0000 % 0x100) as u8,
        (x / 0x1_0000 % 0x100) as u8,
        (x / 0x100 % 0x100) as u8,
        (x % 0x100) as u8,
    ]
}

/// The number whose big-endian bytes are the first four bytes of `s`.
#[verifier::opaque]
pub open spec fn from_be_u32(s: Seq<u8>) -> u32
    recommends
        s.len() >= 4,
{
    (s[0] * 0x100_0000 + s[1] * 0x1_0000 + s[2] * 0x100 + s[3]) as u32
}

/// The number whose big-endian bytes are the first eight bytes of `s`.
#[verifier::opaque]
pub open spec fn from_be_u64(s: Seq<u8>) -> u64
    recommends
        s.len() >= 8,
{
    (s[0] * 0x100_0000_0000_0000 + s[1] * 0x1_0000_0000_0000 + s[2] * 0x100_0000_0000 + s[3]
        * 0x1_0000_0000 + s[4] * 0x100_0000 + s[5] * 0x1_0000 + s[6] * 0x100 + s[7]) as u64
}

proof fn lemma_join_split_u32(x: u32)
    by (bit_vector)
    ensures
        ((x / 0x100_0000) as u8) * 0x100_0000 + ((x / 0x1_0000 % 0x100) as u8) * 0x1_0000 + ((x
            / 0x100 % 0x100) as u8) * 0x100 + ((x % 0x100) as u8) == x,
{
}

proof fn lemma_join_split_u64(x: u64)
    by (bit_vector)
    ensures
        ((x / 0x100_0000_0000_0000) as u8) * 0x100_0000_0000_0000 + ((x / 0x1_0000_0000_0000
            % 0x100) as u8) * 0x1_0000_0000_0000 + ((x / 0x100_0000_0000 % 0x100) as u8)
            * 0x100_0000_0000 + ((x / 0x1_0000_0000 % 0x100) as u8) * 0x1_0000_0000 + ((x
            / 0x100_0000 % 0x100) as u8) * 0x100_0000 + ((x / 0x1_0000 % 0x100) as u8) * 0x1_0000
            + ((x / 0x100 % 0x100) as u8) * 0x100 + ((x % 0x100) as u8) == x,
{
}

proof fn lemma_split_join_u32(b0: u8, b1: u8, b2: u8, b3: u8)
    by (bit_vector)
    ensures
        ({
            let x = (b0 * 0x100_0000 + b1 * 0x1_0000 + b2 * 0x100 + b3) as u32;
            &&& (x / 0x100_0000) as u8 == b0
            &&& (x / 0x1_0000 % 0x100) as u8 == b1
            &&& (x / 0x100 % 0x100) as u8 == b2
            &&& (x % 0x100) as u8 == b3
        }),
{
}

proof fn lemma_split_join_u64(b0: u8, b1: u8, b2: u8, b3: u8, b4: u8, b5: u8, b6: u8, b7: u8)
    by (bit_vector)
    ensures
        ({
            let x = (b0 * 0x100_0000_0000_0000 + b1 * 0x1_0000_0000_0000 + b2 * 0x100_0000_0000
                + b3 * 0x1_0000_0000 + b4 * 0x100_0000 + b5 * 0x1_0000 + b6 * 0x100 + b7) as u64;
            &&& (x / 0x100_0000_0000_0000) as u8 == b0
            &&& (x / 0x1_0000_0000_0000 % 0x100) as u8 == b1
            &&& (x / 0x100_0000_0000 % 0x100) as u8 == b2
            &&& (x / 0x1_0000_0000 % 0x100) as u8 == b3
            &&& (x / 0x100_0000 % 0x100) as u8 == b4
            &&& (x / 0x1_0000 % 0x100) as u8 == b5
            &&& (x / 0x100 % 0x100) as u8 == b6
            &&& (x % 0x100) as u8 == b7
        }),
{
}

/// Decoding undoes encoding, whatever follows the encoded bytes.
pub proof fn lemma_from_be_u32_of_be_u32(x: u32, rest: Seq<u8>)
    ensures
        be_u32(x).len() == 4,
        from_be_u32(be_u32(x) + rest) == x,
{
    reveal(be_u32);
    reveal(from_be_u32);
    let b = be_u32(x);
    let s = b + rest;
    assert(s[0] == b[0] && s[1] == b[1] && s[2] == b[2] && s[3] == b[3]);
    lemma_join_split_u32(x);
}

/// Decoding undoes encoding, whatever follows the encoded bytes.
pub proof fn lemma_from_be_u64_of_be_u64(x: u64, rest: Seq<u8>)
    ensures
        be_u64(x).len() == 8,
        from_be_u64(be_u64(x) + rest) == x,
{
    reveal(be_u64);
    reveal(from_be_u64);
    let b = be_u64(x);
    let s = b + rest;
    assert(s[0] == b[0] && s[1] == b[1] && s[2] == b[2] && s[3] == b[3]);
    assert(s[4] == b[4] && s[5] == b[5] && s[6] == b[6] && s[7] == b[7]);
    lemma_join_split_u64(x);
}

/// Encoding undoes decoding: four bytes are the encoding of the number they spell.
pub proof fn lemma_be_u32_of_from_be_u32(s: Seq<u8>)
    requires
        s.len() == 4,
    ensures
        be_u32(from_be_u32(s)) == s,
{
    reveal(be_u32);
    reveal(from_be_u32);
    lemma_split_join_u32(s[0], s[1], s[2], s[3]);
    assert(be_u32(from_be_u32(s)) =~= s);
}

/// Encoding undoes decoding: eight bytes are the encoding of the number they spell.
pub proof fn lemma_be_u64_of_from_be_u64(s: Seq<u8>)
    requires
        s.len() == 8,
    ensures
        be_u64(from_be_u64(s)) == s,
{
    reveal(be_u64);
    reveal(from_be_u64);
    lemma_split_join_u64(s[0], s[1], s[2], s[3], s[4], s[5], s[6], s[7]);
    assert(be_u64(from_be_u64(s)) =~= s);
}

/// Only the first four bytes count.
pub proof fn lemma_from_be_u32_prefix(s: Seq<u8>, t: Seq<u8>)
    requires
        s.len() >= 4,
        t.len() >= 4,
        s.take(4) == t.take(4),
    ensures
        from_be_u32(s) == from_be_u32(t),
{
    reveal(from_be_u32);
    assert(s[0] == s.take(4)[0] && s[1] == s.take(4)[1] && s[2] == s.take(4)[2] && s[3] == s.take(
        4,
    )[3]);
    assert(t[0] == t.take(4)[0] && t[1] == t.take(4)[1] && t[2] == t.take(4)[2] && t[3] == t.take(
        4,
    )[3]);
}

/// Only the first eight bytes count.
pub proof fn lemma_from_be_u64_prefix(s: Seq<u8>, t: Seq<u8>)
    requires
        s.len() >= 8,
        t.len() >= 8,
        s.take(8) == t.take(8),
    ensures
        from_be_u64(s) == from_be_u64(t),
{
    reveal(from_be_u64);
    let a = s.take(8);
    let b = t.take(8);
    assert(s[0] == a[0] && s[1] == a[1] && s[2] == a[2] && s[3] == a[3]);
    assert(s[4] == a[4] && s[5] == a[5] && s[6] == a[6] && s[7] == a[7]);
    assert(t[0] == b[0] && t[1] == b[1] && t[2] == b[2] && t[3] == b[3]);
    assert(t[4] == b[4] && t[5] == b[5] && t[6] == b[6] && t[7] == b[7]);
}

/// Appends the big-endian bytes of `x` to `buf`.
pub fn put_u32(buf: &mut Vec<u8>, x: u32)
    ensures
        final(buf)@ == old(buf)@ + be_u32(x),
        be_u32(x).len() == 4,
{
    buf.push((x / 0x100_0000) as u8);
    buf.push((x / 0x1_0000 % 0x100) as u8);
    buf.push((x / 0x100 % 0x100) as u8);
    buf.push((x % 0x100) as u8);
    proof {
        reveal(be_u32);
    }
    assert(buf@ =~= old(buf)@ + be_u32(x));
}

/// Appends the big-endian bytes of `x` to `buf`.
pub fn put_u64(buf: &mut Vec<u8>, x: u64)
    ensures
        final(buf)@ == old(buf)@ + be_u64(x),
        be_u64(x).len() == 8,
{
    buf.push((x / 0x100_0000_0000_0000) as u8);
    buf.push((x / 0x1_0000_0000_0000 % 0x100) as u8);
    buf.push((x / 0x100_0000_0000 % 0x100) as u8);
    buf.push((x / 0x1_0000_0000 % 0x100) as u8);
    buf.push((x / 0x100_0000 % 0x100) as u8);
    buf.push((x / 0x1_0000 % 0x100) as u8);
    buf.push((x / 0x100 % 0x100) as u8);
    buf.push((x % 0x100) as u8);
    proof {
        reveal(be_u64);
    }
    assert(buf@ =~= old(buf)@ + be_u64(x));
}

/// Reads the big-endian number in the four bytes of `bytes` that start at `at`.
pub fn get_u32(bytes: &[u8], at: usize) -> (x: u32)
    requires
        at + 4 <= bytes@.len(),
    ensures
        x == from_be_u32(bytes@.skip(at as int)),
{
    let b0: u32 = bytes[at] as u32;
    let b1: u32 = bytes[at + 1] as u32;
    let b2: u32 = bytes[at + 2] as u32;
    let b3: u32 = bytes[at + 3] as u32;
    proof {
        reveal(from_be_u32);
    }
    b0 * 0x100_0000 + b1 * 0x1_0000 + b2 * 0x100 + b3
}

/// Reads the big-endian number in the eight bytes of `bytes` that start at `at`.
pub fn get_u64(bytes: &[u8], at: usize) -> (x: u64)
    requires
        at + 8 <= bytes@.len(),
    ensures
        x == from_be_u64(bytes@.skip(at as int)),
{
    let b0: u64 = bytes[at] as u64;
    let b1: u64 = bytes[at + 1] as u64;
    let b2: u64 = bytes[at + 2] as u64;
    let b3: u64 = bytes[at + 3] as u64;
    let b4: u64 = bytes[at + 4] as u64;
    let b5: u64 = bytes[at + 5] as u64;
    let b6: u64 = bytes[at + 6] as u64;
    let b7: u64 = bytes[at + 7] as u64;
    proof {
        reveal(from_be_u64);
    }
    b0 * 0x100_0000_0000_0000 + b1 * 0x1_0000_0000_0000 + b2 * 0x100_0000_0000 + b3
        * 0x1_0000_0000 + b4 * 0x100_0000 + b5 * 0x1_0000 + b6 * 0x100 + b7
}

} // verus!
