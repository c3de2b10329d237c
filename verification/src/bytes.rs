//! Little-endian `u32` framing and byte-vector helpers.

use vstd::prelude::*;

verus! {

/// The four little-endian bytes of `n`.
pub open spec fn le32_bytes(n: u32) -> Seq<u8> {
    seq![(n % 256) as u8, ((n / 256) % 256) as u8, ((n / 65536) % 256) as u8, (n / 16777216) as u8]
}

/// The `u32` whose little-endian bytes are `b[0..4]`.
pub open spec fn le32_value(b: Seq<u8>) -> u32
    recommends
        b.len() >= 4,
{
    (b[0] + 256 * b[1] + 65536 * b[2] + 16777216 * b[3]) as u32
}

/// Decoding the encoding of `n` gives `n` back.
pub proof fn lemma_le32_round_trip(n: u32)
    ensures
        le32_value(le32_bytes(n)) == n,
        le32_bytes(n).len() == 4,
{
    let b = le32_bytes(n);
    assert(b[0] == n % 256);
    assert(b[1] == (n / 256) % 256);
    assert(b[2] == (n / 65536) % 256);
    assert(b[3] == n / 16777216);
    assert((n % 256) + 256 * ((n / 256) % 256) + 65536 * ((n / 65536) % 256) + 16777216 * (n
        / 16777216) == n) by (nonlinear_arith);
}

/// Encodes `n` as four little-endian bytes.
pub fn le32_encode(n: u32) -> (b: [u8; 4])
    ensures
        b@ == le32_bytes(n),
{
    let b = [(n % 256) as u8, ((n / 256) % 256) as u8, ((n / 65536) % 256) as u8, (n / 16777216) as u8];
    assert(b@ =~= le32_bytes(n));
    b
}

/// Decodes the little-endian `u32` at `data[offset..offset + 4]`.
pub fn le32_decode(data: &[u8], offset: usize) -> (n: u32)
    requires
        offset + 4 <= data@.len(),
    ensures
        n == le32_value(data@.subrange(offset as int, offset + 4)),
{
    let b0 = data[offset] as u32;
    let b1 = data[offset + 1] as u32;
    let b2 = data[offset + 2] as u32;
    let b3 = data[offset + 3] as u32;
    let ghost s = data@.subrange(offset as int, offset + 4);
    assert(s[0] == b0 && s[1] == b1 && s[2] == b2 && s[3] == b3);
    b0 + 256 * b1 + 65536 * b2 + 16777216 * b3
}

/// Appends all of `src` to `out`.
pub fn push_all(out: &mut Vec<u8>, src: &[u8])
    ensures
        final(out)@ == old(out)@ + src@,
{
    let mut k: usize = 0;
    while k < src.len()
        invariant
            k <= src@.len(),
            out@ == old(out)@ + src@.subrange(0, k as int),
        decreases src@.len() - k,
    {
        out.push(src[k]);
        k = k + 1;
    }
    assert(src@.subrange(0, src@.len() as int) == src@);
}

/// A copy of `data[from..to]`.
pub fn copy_range(data: &[u8], from: usize, to: usize) -> (v: Vec<u8>)
    requires
        from <= to <= data@.len(),
    ensures
        v@ == data@.subrange(from as int, to as int),
{
    let mut v: Vec<u8> = Vec::new();
    let mut k: usize = from;
    while k < to
        invariant
            from <= k <= to,
            to <= data@.len(),
            v@ == data@.subrange(from as int, k as int),
        decreases to - k,
    {
        v.push(data[k]);
        k = k + 1;
    }
    v
}

} // verus!
