//! Byte-string helpers: copying ranges and big-endian integers.

use vstd::prelude::*;

verus! {

/// Appends `src[start..end]` to `out`.
pub fn append_range(out: &mut Vec<u8>, src: &[u8], start: usize, end: usize)
    requires
        start <= end <= src@.len(),
    ensures
        final(out)@ == old(out)@ + src@.subrange(start as int, end as int),
{
    let mut j: usize = start;
    while j < end
        invariant
            start <= j <= end <= src@.len(),
            out@ == old(out)@ + src@.subrange(start as int, j as int),
        decreases end - j,
    {
        out.push(src[j]);
        assert(src@.subrange(start as int, j + 1) =~= src@.subrange(start as int, j as int).push(
            src@[j as int],
        ));
        j = j + 1;
    }
}

/// A copy of `src[start..end]`.
pub fn copy_range(src: &[u8], start: usize, end: usize) -> (v: Vec<u8>)
    requires
        start <= end <= src@.len(),
    ensures
        v@ == src@.subrange(start as int, end as int),
{
    let mut v: Vec<u8> = Vec::new();
    append_range(&mut v, src, start, end);
    assert(v@ =~= src@.subrange(start as int, end as int));
    v
}


/// The first zero byte at or after `from`.
pub open spec fn first_zero(data: Seq<u8>, from: int) -> Option<int>
    decreases data.len() - from,
{
    if from < 0 || from >= data.len() {
        None
    } else if data[from] == 0 {
        Some(from)
    } else {
        first_zero(data, from + 1)
    }
}

/// The first zero byte from `from` is at `z` when none comes before it.
pub proof fn lemma_first_zero_after(data: Seq<u8>, from: int, z: int)
    requires
        0 <= from <= z < data.len(),
        data[z] == 0,
        forall|t: int| from <= t < z ==> #[trigger] data[t] != 0,
    ensures
        first_zero(data, from) == Some(z),
    decreases z - from,
{
    if from < z {
        lemma_first_zero_after(data, from + 1, z);
    }
}

/// What `first_zero` finds is a zero byte with none before it from `from`;
/// where it finds none, there is none.
pub proof fn lemma_first_zero(data: Seq<u8>, from: int)
    requires
        0 <= from,
    ensures
        first_zero(data, from) matches Some(z) ==> from <= z < data.len() && data[z] == 0 && forall|
            t: int,
        | from <= t < z ==> data[t] != 0,
        first_zero(data, from) is None ==> forall|t: int| from <= t < data.len() ==> data[t] != 0,
    decreases data.len() - from,
{
    if from < data.len() && data[from] != 0 {
        lemma_first_zero(data, from + 1);
    }
}

/// The first zero byte of `data` at or after `from`.
pub fn find_zero(data: &[u8], from: usize) -> (r: Option<usize>)
    ensures
        match first_zero(data@, from as int) {
            Some(z) => r == Some(z as usize),
            None => r is None,
        },
        r matches Some(z) ==> from <= z < data@.len() && first_zero(data@, from as int) == Some(z as int),
{
    proof {
        lemma_first_zero(data@, from as int);
    }
    let mut i = from;
    while i < data.len()
        invariant
            from <= i,
            forall|t: int| from <= t < i && t < data@.len() ==> data@[t] != 0,
        decreases data@.len() - i,
    {
        if data[i] == 0 {
            proof {
                lemma_first_zero_after(data@, from as int, i as int);
            }
            return Some(i);
        }
        i = i + 1;
    }
    None
}

/// `n` as two big-endian bytes.
pub open spec fn be16(n: u16) -> Seq<u8> {
    seq![(n >> 8u16) as u8, n as u8]
}

/// The low 24 bits of `n` as three big-endian bytes.
pub open spec fn be24(n: u32) -> Seq<u8> {
    seq![(n >> 16u32) as u8, (n >> 8u32) as u8, n as u8]
}

/// `n` as four big-endian bytes.
pub open spec fn be32(n: u32) -> Seq<u8> {
    seq![(n >> 24u32) as u8, (n >> 16u32) as u8, (n >> 8u32) as u8, n as u8]
}

/// `n` as eight big-endian bytes.
pub open spec fn be64(n: u64) -> Seq<u8> {
    be32((n >> 32u64) as u32) + be32(n as u32)
}

/// The value of two big-endian bytes at `at`.
pub open spec fn be16_value(b: Seq<u8>, at: int) -> u16 {
    (b[at] * 0x100 + b[at + 1]) as u16
}

/// The value of three big-endian bytes at `at`.
pub open spec fn be24_value(b: Seq<u8>, at: int) -> u32 {
    (b[at] * 0x10000 + b[at + 1] * 0x100 + b[at + 2]) as u32
}

/// The value of four big-endian bytes at `at`.
pub open spec fn be32_value(b: Seq<u8>, at: int) -> u32 {
    (b[at] * 0x1000000 + b[at + 1] * 0x10000 + b[at + 2] * 0x100 + b[at + 3]) as u32
}

/// The value of eight big-endian bytes at `at`.
pub open spec fn be64_value(b: Seq<u8>, at: int) -> u64 {
    (be32_value(b, at) * 0x100000000 + be32_value(b, at + 4)) as u64
}

/// Appends `n` as two big-endian bytes.
pub fn push_be16(out: &mut Vec<u8>, n: u16)
    ensures
        final(out)@ == old(out)@ + be16(n),
{
    out.push((n >> 8u16) as u8);
    out.push(n as u8);
    assert(final(out)@ =~= old(out)@ + be16(n));
}

/// Appends the low 24 bits of `n` as three big-endian bytes.
pub fn push_be24(out: &mut Vec<u8>, n: u32)
    ensures
        final(out)@ == old(out)@ + be24(n),
{
    out.push((n >> 16u32) as u8);
    out.push((n >> 8u32) as u8);
    out.push(n as u8);
    assert(final(out)@ =~= old(out)@ + be24(n));
}

/// Appends `n` as four big-endian bytes.
pub fn push_be32(out: &mut Vec<u8>, n: u32)
    ensures
        final(out)@ == old(out)@ + be32(n),
{
    out.push((n >> 24u32) as u8);
    out.push((n >> 16u32) as u8);
    out.push((n >> 8u32) as u8);
    out.push(n as u8);
    assert(final(out)@ =~= old(out)@ + be32(n));
}

/// Appends `n` as eight big-endian bytes.
pub fn push_be64(out: &mut Vec<u8>, n: u64)
    ensures
        final(out)@ == old(out)@ + be64(n),
{
    push_be32(out, (n >> 32u64) as u32);
    push_be32(out, n as u32);
    assert(final(out)@ =~= old(out)@ + be64(n));
}

/// Reads two big-endian bytes.
pub fn read_be16(b: &[u8], at: usize) -> (n: u16)
    requires
        at + 2 <= b@.len(),
    ensures
        n == be16_value(b@, at as int),
{
    let x: u8 = b[at];
    let y: u8 = b[at + 1];
    assert(((x as u16) << 8u16) | (y as u16) == (x * 0x100 + y) as u16) by (bit_vector);
    ((x as u16) << 8u16) | (y as u16)
}

/// Reads three big-endian bytes.
pub fn read_be24(b: &[u8], at: usize) -> (n: u32)
    requires
        at + 3 <= b@.len(),
    ensures
        n == be24_value(b@, at as int),
        n < 0x1000000,
{
    let x: u8 = b[at];
    let y: u8 = b[at + 1];
    let z: u8 = b[at + 2];
    assert(((x as u32) << 16u32) | ((y as u32) << 8u32) | (z as u32) == (x * 0x10000 + y * 0x100
        + z) as u32) by (bit_vector);
    assert(x * 0x10000 + y * 0x100 + z < 0x1000000) by (nonlinear_arith)
        requires
            x < 256,
            y < 256,
            z < 256,
    ;
    ((x as u32) << 16u32) | ((y as u32) << 8u32) | (z as u32)
}

/// Reads four big-endian bytes.
pub fn read_be32(b: &[u8], at: usize) -> (n: u32)
    requires
        at + 4 <= b@.len(),
    ensures
        n == be32_value(b@, at as int),
{
    let w: u8 = b[at];
    let x: u8 = b[at + 1];
    let y: u8 = b[at + 2];
    let z: u8 = b[at + 3];
    assert(((w as u32) << 24u32) | ((x as u32) << 16u32) | ((y as u32) << 8u32) | (z as u32) == (w
        * 0x1000000 + x * 0x10000 + y * 0x100 + z) as u32) by (bit_vector);
    ((w as u32) << 24u32) | ((x as u32) << 16u32) | ((y as u32) << 8u32) | (z as u32)
}

/// Reads eight big-endian bytes.
pub fn read_be64(b: &[u8], at: usize) -> (n: u64)
    requires
        at + 8 <= b@.len(),
    ensures
        n == be64_value(b@, at as int),
{
    let len: usize = b.len();
    assert(at + 4 <= len);
    let hi: u32 = read_be32(b, at);
    let lo: u32 = read_be32(b, at + 4);
    assert(((hi as u64) << 32u64) | (lo as u64) == (hi * 0x100000000 + lo) as u64) by (bit_vector);
    ((hi as u64) << 32u64) | (lo as u64)
}

/// Big-endian bytes read back as the number they were written from.
pub proof fn lemma_be_roundtrip(a: u16, b: u32, c: u64)
    ensures
        be16_value(be16(a), 0) == a,
        be32_value(be32(b), 0) == b,
        be64_value(be64(c), 0) == c,
        b < 0x1000000 ==> be24_value(be24(b), 0) == b,
{
    assert((((a >> 8u16) as u8) * 0x100 + (a as u8)) as u16 == a) by (bit_vector);
    assert((((b >> 24u32) as u8) * 0x1000000 + ((b >> 16u32) as u8) * 0x10000 + ((b >> 8u32) as u8)
        * 0x100 + (b as u8)) as u32 == b) by (bit_vector);
    assert(b < 0x1000000 ==> (((b >> 16u32) as u8) * 0x10000 + ((b >> 8u32) as u8) * 0x100 + (b as u8)) as u32 == b)
        by (bit_vector);
    let hi = (c >> 32u64) as u32;
    let lo = c as u32;
    assert((((hi >> 24u32) as u8) * 0x1000000 + ((hi >> 16u32) as u8) * 0x10000 + ((hi >> 8u32) as u8)
        * 0x100 + (hi as u8)) as u32 == hi) by (bit_vector);
    assert((((lo >> 24u32) as u8) * 0x1000000 + ((lo >> 16u32) as u8) * 0x10000 + ((lo >> 8u32) as u8)
        * 0x100 + (lo as u8)) as u32 == lo) by (bit_vector);
    assert(((((c >> 32u64) as u32) as int) * 0x100000000 + ((c as u32) as int)) as u64 == c) by (bit_vector);
    let s = be64(c);
    assert(s.subrange(0, 4) =~= be32(hi));
    assert(be32_value(s, 0) == be32_value(be32(hi), 0));
    assert(be32_value(s, 4) == be32_value(be32(lo), 0));
}

} // verus!
