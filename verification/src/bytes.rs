use vstd::prelude::*;

verus! {

/// The unsigned integer held little-endian in the first four bytes of `b`.
pub open spec fn le_u32(b: Seq<u8>) -> nat {
    (b[0] + 256 * b[1] + 65536 * b[2] + 16777216 * b[3]) as nat
}

/// The unsigned integer held big-endian in the three bytes `b1 b2 b3`.
pub open spec fn be_u24(b1: u8, b2: u8, b3: u8) -> nat {
    (65536 * b1 + 256 * b2 + b3) as nat
}

/// Reads the little-endian `u32` at the start of `data`.
pub fn read_le_u32(data: &[u8]) -> (v: u32)
    requires
        data@.len() >= 4,
    ensures
        v == le_u32(data@),
{
    (data[0] as u32) + (data[1] as u32) * 256 + (data[2] as u32) * 65536 + (data[3] as u32)
        * 16777216
}

/// Reads the big-endian 24-bit integer `b1 b2 b3`.
pub fn read_be_u24(b1: u8, b2: u8, b3: u8) -> (v: u32)
    ensures
        v == be_u24(b1, b2, b3),
        v < 16777216,
{
    (b1 as u32) * 65536 + (b2 as u32) * 256 + (b3 as u32)
}

/// The three bytes that hold `v` big-endian.
pub open spec fn be_u24_bytes(v: u32) -> Seq<u8> {
    seq![(v / 65536 % 256) as u8, (v / 256 % 256) as u8, (v % 256) as u8]
}

/// The index of the first byte `b` in `d` at or after `i`, or `d.len()`.
pub open spec fn first_index_from(d: Seq<u8>, b: u8, i: int) -> int
    decreases d.len() - i,
{
    if i < 0 || i >= d.len() {
        d.len() as int
    } else if d[i] == b {
        i
    } else {
        first_index_from(d, b, i + 1)
    }
}

/// The index of the first byte `b` in `d`, or `d.len()` where there is none.
pub open spec fn first_index(d: Seq<u8>, b: u8) -> int {
    first_index_from(d, b, 0)
}

/// Finds the first byte `b` of `d`.
pub fn find_byte(d: &[u8], b: u8) -> (p: usize)
    ensures
        p == first_index(d@, b),
{
    let mut i: usize = 0;
    while i < d.len() && d[i] != b
        invariant
            i <= d@.len(),
            first_index(d@, b) == first_index_from(d@, b, i as int),
        decreases d@.len() - i,
    {
        i = i + 1;
    }
    i
}

/// A vector holding the bytes `d[a..b]`.
pub fn copy_range(d: &[u8], a: usize, b: usize) -> (v: Vec<u8>)
    requires
        a <= b <= d@.len(),
    ensures
        v@ == d@.subrange(a as int, b as int),
{
    let mut v: Vec<u8> = Vec::new();
    let mut k = a;
    while k < b
        invariant
            a <= k <= b,
            b <= d@.len(),
            v@ == d@.subrange(a as int, k as int),
        decreases b - k,
    {
        v.push(d[k]);
        assert(d@.subrange(a as int, k + 1) =~= d@.subrange(a as int, k as int).push(d@[k as int]));
        k = k + 1;
    }
    v
}

} // verus!
