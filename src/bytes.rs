//! Little-endian 32-bit length fields and byte-sequence helpers.
use vstd::prelude::*;

verus! {

/// The number that four bytes encode, least significant byte first.
pub open spec fn le32(s: Seq<u8>) -> nat
    recommends
        s.len() >= 4,
{
    s[0] as nat + 256 * (s[1] as nat) + 65536 * (s[2] as nat) + 16777216 * (s[3] as nat)
}

/// The four little-endian bytes of `n`.
pub open spec fn u32_le(n: u32) -> Seq<u8> {
    seq![
        (n % 256) as u8,
        (n / 256 % 256) as u8,
        (n / 256 / 256 % 256) as u8,
        (n / 256 / 256 / 256) as u8,
    ]
}

/// Decoding the encoding of a length gives the length back.
pub proof fn lemma_le32_of_u32_le(n: u32)
    ensures
        u32_le(n).len() == 4,
        le32(u32_le(n)) == n,
{
    let q1 = n / 256;
    let q2 = q1 / 256;
    let q3 = q2 / 256;
    assert(n == 256 * q1 + n % 256);
    assert(q1 == 256 * q2 + q1 % 256);
    assert(q2 == 256 * q3 + q2 % 256);
    assert(q3 < 256);
    assert(le32(u32_le(n)) == n % 256 + 256 * (q1 % 256) + 65536 * (q2 % 256) + 16777216 * q3);
}

/// Appends the four little-endian bytes of `n` to `out`.
pub fn push_u32_le(out: &mut Vec<u8>, n: u32)
    ensures
        final(out)@ == old(out)@ + u32_le(n),
{
    out.push((n % 256) as u8);
    out.push((n / 256 % 256) as u8);
    out.push((n / 256 / 256 % 256) as u8);
    out.push((n / 256 / 256 / 256) as u8);
    assert(final(out)@ =~= old(out)@ + u32_le(n));
}

/// Reads the little-endian 32-bit number stored at `pos`.
pub fn read_u32_le(b: &[u8], pos: usize) -> (r: u32)
    requires
        pos + 4 <= b@.len(),
    ensures
        r as nat == le32(b@.subrange(pos as int, pos + 4)),
{
    let b0 = b[pos] as u32;
    let b1 = b[pos + 1] as u32;
    let b2 = b[pos + 2] as u32;
    let b3 = b[pos + 3] as u32;
    assert(256 * b1 <= 256 * 255) by (nonlinear_arith)
        requires
            b1 <= 255,
    ;
    assert(65536 * b2 <= 65536 * 255) by (nonlinear_arith)
        requires
            b2 <= 255,
    ;
    assert(16777216 * b3 <= 16777216 * 255) by (nonlinear_arith)
        requires
            b3 <= 255,
    ;
    b0 + 256 * b1 + 65536 * b2 + 16777216 * b3
}

/// Appends `src` to `out`, byte by byte.
pub fn push_bytes(out: &mut Vec<u8>, src: &[u8])
    ensures
        final(out)@ == old(out)@ + src@,
{
    let mut i: usize = 0;
    while i < src.len()
        invariant
            i <= src@.len(),
            out@ == old(out)@ + src@.subrange(0, i as int),
        decreases src@.len() - i,
    {
        out.push(src[i]);
        i = i + 1;
        assert(out@ =~= old(out)@ + src@.subrange(0, i as int));
    }
    assert(src@.subrange(0, i as int) =~= src@);
}

/// A fresh vector holding the bytes of `b` from `start` up to `end`.
pub fn copy_range(b: &[u8], start: usize, end: usize) -> (r: Vec<u8>)
    requires
        start <= end <= b@.len(),
    ensures
        r@ == b@.subrange(start as int, end as int),
{
    let mut r: Vec<u8> = Vec::new();
    let mut i: usize = start;
    while i < end
        invariant
            start <= i <= end <= b@.len(),
            r@ == b@.subrange(start as int, i as int),
        decreases end - i,
    {
        r.push(b[i]);
        i = i + 1;
        assert(r@ =~= b@.subrange(start as int, i as int));
    }
    r
}

} // verus!
