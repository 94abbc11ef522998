//! Byte-buffer primitives: little-endian reads and in-place writes at
//! computed offsets, with a splice model of every mutation.

use vstd::prelude::*;
use vstd::arithmetic::div_mod::{lemma_fundamental_div_mod, lemma_div_denominator};

verus! {

/// The 32-bit little-endian value stored at `i`.
pub open spec fn le_u32_at(s: Seq<u8>, i: int) -> u32
    recommends
        0 <= i,
        i + 4 <= s.len(),
{
    (s[i] + s[i + 1] * 0x100 + s[i + 2] * 0x10000 + s[i + 3] * 0x1000000) as u32
}

/// The 64-bit little-endian value stored at `i`.
pub open spec fn le_u64_at(s: Seq<u8>, i: int) -> u64
    recommends
        0 <= i,
        i + 8 <= s.len(),
{
    (le_u32_at(s, i) + le_u32_at(s, i + 4) * 0x100000000) as u64
}

/// The four little-endian bytes of `v`.
pub open spec fn le_bytes_of_u32(v: u32) -> Seq<u8> {
    seq![
        (v % 0x100) as u8,
        ((v / 0x100) % 0x100) as u8,
        ((v / 0x10000) % 0x100) as u8,
        (v / 0x1000000) as u8,
    ]
}

/// `s` with the bytes at `[i, i + b.len())` replaced by `b`.
pub open spec fn splice(s: Seq<u8>, i: int, b: Seq<u8>) -> Seq<u8>
    recommends
        0 <= i,
        i + b.len() <= s.len(),
{
    s.subrange(0, i) + b + s.subrange(i + b.len(), s.len() as int)
}

/// How a splice reads back: same length, the new bytes inside the window,
/// the old bytes outside it.
pub proof fn lemma_splice_facts(s: Seq<u8>, i: int, b: Seq<u8>)
    requires
        0 <= i,
        i + b.len() <= s.len(),
    ensures
        splice(s, i, b).len() == s.len(),
        forall|j: int| 0 <= j < i ==> #[trigger] splice(s, i, b)[j] == s[j],
        forall|j: int| i <= j < i + b.len() ==> #[trigger] splice(s, i, b)[j] == b[j - i],
        forall|j: int| i + b.len() <= j < s.len() ==> #[trigger] splice(s, i, b)[j] == s[j],
{
}

/// Splicing in the bytes a window already holds changes nothing.
pub proof fn lemma_splice_identity(s: Seq<u8>, i: int, b: Seq<u8>)
    requires
        0 <= i,
        i + b.len() <= s.len(),
        s.subrange(i, i + b.len() as int) == b,
    ensures
        splice(s, i, b) == s,
{
    lemma_splice_facts(s, i, b);
    assert forall|j: int| 0 <= j < s.len() implies splice(s, i, b)[j] == s[j] by {
        if i <= j < i + b.len() {
            assert(b[j - i] == s.subrange(i, i + b.len() as int)[j - i]);
        }
    }
    assert(splice(s, i, b) =~= s);
}

/// A value decomposes into its four little-endian bytes.
pub proof fn lemma_u32_le_decomposition(v: u32)
    ensures
        v == (v % 0x100) + ((v / 0x100) % 0x100) * 0x100 + ((v / 0x10000) % 0x100) * 0x10000 + (v
            / 0x1000000) * 0x1000000,
        v / 0x1000000 < 0x100,
{
    let x = v as int;
    lemma_fundamental_div_mod(x, 0x100);
    lemma_fundamental_div_mod(x / 0x100, 0x100);
    lemma_fundamental_div_mod(x / 0x10000, 0x100);
    lemma_div_denominator(x, 0x100, 0x100);
    lemma_div_denominator(x, 0x10000, 0x100);
    assert(x / 0x100 / 0x100 == x / 0x10000);
    assert(x / 0x10000 / 0x100 == x / 0x1000000);
}

/// The four little-endian bytes of `v` read back as `v`.
pub proof fn lemma_le_bytes_of_u32_reads_back(v: u32)
    ensures
        le_bytes_of_u32(v).len() == 4,
        le_u32_at(le_bytes_of_u32(v), 0) == v,
{
    lemma_u32_le_decomposition(v);
}

/// After splicing the bytes of `v` at `i`, the 32-bit read at `i` yields `v`.
pub proof fn lemma_le_u32_at_splice(s: Seq<u8>, i: int, v: u32)
    requires
        0 <= i,
        i + 4 <= s.len(),
    ensures
        le_u32_at(splice(s, i, le_bytes_of_u32(v)), i) == v,
{
    let b = le_bytes_of_u32(v);
    lemma_splice_facts(s, i, b);
    let t = splice(s, i, b);
    assert(t[i] == b[0] && t[i + 1] == b[1] && t[i + 2] == b[2] && t[i + 3] == b[3]);
    lemma_u32_le_decomposition(v);
}

/// Two buffers that agree on a four-byte window read the same value there.
pub proof fn lemma_le_u32_at_agree(s: Seq<u8>, t: Seq<u8>, i: int)
    requires
        0 <= i,
        i + 4 <= s.len(),
        i + 4 <= t.len(),
        forall|j: int| i <= j < i + 4 ==> s[j] == t[j],
    ensures
        le_u32_at(s, i) == le_u32_at(t, i),
{
}

/// Reads the 32-bit little-endian value at `i`.
pub fn read_u32_at(data: &Vec<u8>, i: usize) -> (r: u32)
    requires
        i + 4 <= data.len(),
    ensures
        r == le_u32_at(data@, i as int),
{
    let b0 = data[i] as u32;
    let b1 = data[i + 1] as u32;
    let b2 = data[i + 2] as u32;
    let b3 = data[i + 3] as u32;
    b0 + b1 * 0x100 + b2 * 0x10000 + b3 * 0x1000000
}

/// Reads the 64-bit little-endian value at `i`.
pub fn read_u64_at(data: &Vec<u8>, i: usize) -> (r: u64)
    requires
        i + 8 <= data.len(),
    ensures
        r == le_u64_at(data@, i as int),
{
    let lo = read_u32_at(data, i) as u64;
    let hi = read_u32_at(data, i + 4) as u64;
    lo + hi * 0x100000000
}

/// Overwrites the bytes at `[i, i + src.len())` with `src`.
pub fn write_bytes_at(data: &mut Vec<u8>, i: usize, src: &Vec<u8>)
    requires
        i + src.len() <= old(data).len(),
    ensures
        final(data)@ == splice(old(data)@, i as int, src@),
        final(data).len() == old(data).len(),
{
    proof {
        lemma_splice_facts(old(data)@, i as int, src@);
    }
    let n = src.len();
    let mut j: usize = 0;
    while j < n
        invariant
            n == src.len(),
            i + n <= data.len(),
            data.len() == old(data).len(),
            0 <= j <= n,
            forall|m: int| 0 <= m < i + j ==> #[trigger] data@[m] == splice(
                old(data)@,
                i as int,
                src@,
            )[m],
            forall|m: int| i + j <= m < data.len() ==> #[trigger] data@[m] == old(data)@[m],
        decreases n - j,
    {
        data[i + j] = src[j];
        j = j + 1;
    }
    proof {
        assert(data@ =~= splice(old(data)@, i as int, src@));
    }
}

/// Writes `v` at `i` as four little-endian bytes.
pub fn write_u32_at(data: &mut Vec<u8>, i: usize, v: u32)
    requires
        i + 4 <= old(data).len(),
    ensures
        final(data)@ == splice(old(data)@, i as int, le_bytes_of_u32(v)),
        final(data).len() == old(data).len(),
        le_u32_at(final(data)@, i as int) == v,
{
    proof {
        lemma_u32_le_decomposition(v);
        lemma_le_u32_at_splice(old(data)@, i as int, v);
    }
    let mut bytes: Vec<u8> = Vec::new();
    bytes.push((v % 0x100) as u8);
    bytes.push(((v / 0x100) % 0x100) as u8);
    bytes.push(((v / 0x10000) % 0x100) as u8);
    bytes.push((v / 0x1000000) as u8);
    assert(bytes@ =~= le_bytes_of_u32(v));
    write_bytes_at(data, i, &bytes);
}

} // verus!
