//! ULEB128 codec: unsigned little-endian base-128 variable-length integers.
//!
//! Each byte carries seven value bits; the high bit says that another byte
//! follows. The decoder accumulates into a 32-bit value and rejects an
//! encoding whose tenth byte is anything but `0x00` or `0x01`, the guard
//! against archives that claim arbitrarily long integers. The encoder always
//! produces the shortest (canonical) encoding.

use vstd::prelude::*;
use vstd::arithmetic::div_mod::{
    lemma_add_mod_noop, lemma_fundamental_div_mod, lemma_mod_twice,
    lemma_mod_multiples_basic, lemma_small_mod,
};
use vstd::arithmetic::mul::{lemma_mul_is_distributive_add, lemma_mul_is_associative};

verus! {

/// The seven value bits of one encoded byte.
pub open spec fn uleb_low(b: u8) -> nat {
    (b % 0x80) as nat
}

/// Whether the byte says that another byte follows.
pub open spec fn uleb_cont(b: u8) -> bool {
    b >= 0x80
}

/// Byte length of the encoding that starts at `i`, seen from its `k`-th byte
/// on, or `None` where decoding fails: the buffer ends first, or the tenth
/// byte is neither `0x00` nor `0x01`.
pub open spec fn uleb_len_from(s: Seq<u8>, i: int, k: int) -> Option<int>
    decreases 10 - k,
{
    if k < 0 || k > 9 {
        None
    } else if i + k < 0 || i + k >= s.len() {
        None
    } else if k == 9 && s[i + 9] != 0 && s[i + 9] != 1 {
        None
    } else if !uleb_cont(s[i + k]) {
        Some(k + 1)
    } else {
        uleb_len_from(s, i, k + 1)
    }
}

/// Byte length of the encoding that starts at `i`, or `None` where decoding
/// fails.
pub open spec fn uleb_len_at(s: Seq<u8>, i: int) -> Option<int> {
    uleb_len_from(s, i, 0)
}

/// The unbounded value carried by `len` encoded bytes starting at `i`.
pub open spec fn uleb_value_at(s: Seq<u8>, i: int, len: int) -> nat
    decreases len,
{
    if len <= 0 {
        0
    } else {
        uleb_low(s[i]) + 0x80 * uleb_value_at(s, i + 1, len - 1)
    }
}

/// What decoding at `i` returns: the value reduced to 32 bits, and the byte
/// length consumed; `None` where decoding fails.
pub open spec fn spec_uleb_result(s: Seq<u8>, i: int) -> Option<(u32, int)> {
    match uleb_len_at(s, i) {
        Some(l) => Some(((uleb_value_at(s, i, l) % 0x100000000) as u32, l)),
        None => None,
    }
}

/// 128 to the power `k`.
pub open spec fn pow128(k: int) -> nat
    decreases k,
{
    if k <= 0 {
        1
    } else {
        0x80 * pow128(k - 1)
    }
}

/// The canonical (shortest) encoding of `v`.
pub open spec fn uleb_encode(v: nat) -> Seq<u8>
    decreases v,
{
    if v < 0x80 {
        seq![v as u8]
    } else {
        seq![(0x80 + v % 0x80) as u8] + uleb_encode(v / 0x80)
    }
}

/// Byte length of the canonical encoding of `v`.
pub open spec fn uleb_len(v: nat) -> nat
    decreases v,
{
    if v < 0x80 {
        1
    } else {
        (1 + uleb_len(v / 0x80)) as nat
    }
}

/// One decoded value: the 32-bit value and the number of bytes it occupied.
pub struct ULeb128Read {
    pub value: u32,
    pub length: u8,
}

/// Appending one more byte to the decoded window adds its seven value bits,
/// scaled by the window's weight.
pub proof fn lemma_uleb_value_snoc(s: Seq<u8>, i: int, k: int)
    requires
        k >= 0,
    ensures
        uleb_value_at(s, i, k + 1) == uleb_value_at(s, i, k) + uleb_low(s[i + k]) * pow128(k),
    decreases k,
{
    if k == 0 {
        assert(uleb_value_at(s, i, 1) == uleb_low(s[i]) + 0x80 * uleb_value_at(s, i + 1, 0));
        assert(pow128(0) == 1);
    } else {
        lemma_uleb_value_snoc(s, i + 1, k - 1);
        assert(uleb_value_at(s, i, k + 1) == uleb_low(s[i]) + 0x80 * uleb_value_at(
            s,
            i + 1,
            k,
        ));
        assert(uleb_value_at(s, i, k) == uleb_low(s[i]) + 0x80 * uleb_value_at(s, i + 1, k - 1));
        assert(uleb_value_at(s, i + 1, k) == uleb_value_at(s, i + 1, k - 1) + uleb_low(s[i + k])
            * pow128(k - 1));
        assert(0x80 * (uleb_value_at(s, i + 1, k - 1) + uleb_low(s[i + k]) * pow128(k - 1))
            == 0x80 * uleb_value_at(s, i + 1, k - 1) + 0x80 * (uleb_low(s[i + k]) * pow128(
            k - 1,
        ))) by {
            lemma_mul_is_distributive_add(
                0x80,
                uleb_value_at(s, i + 1, k - 1) as int,
                (uleb_low(s[i + k]) * pow128(k - 1)) as int,
            );
        }
        assert(0x80 * (uleb_low(s[i + k]) * pow128(k - 1)) == uleb_low(s[i + k]) * (0x80 * pow128(
            k - 1,
        ))) by {
            lemma_mul_is_associative(0x80, uleb_low(s[i + k]) as int, pow128(k - 1) as int);
            lemma_mul_is_associative(uleb_low(s[i + k]) as int, 0x80, pow128(k - 1) as int);
        }
        assert(pow128(k) == 0x80 * pow128(k - 1));
    }
}

/// For `k` of five or more, the weight `128^k` vanishes modulo `2^32`.
pub proof fn lemma_pow128_vanishes(k: int)
    requires
        k >= 5,
    ensures
        pow128(k) % 0x100000000 == 0,
    decreases k,
{
    if k == 5 {
        assert(pow128(0) == 1);
        assert(pow128(1) == 0x80);
        assert(pow128(2) == 0x4000);
        assert(pow128(3) == 0x200000);
        assert(pow128(4) == 0x10000000);
        assert(pow128(5) == 0x800000000);
    } else {
        lemma_pow128_vanishes(k - 1);
        let q = pow128(k - 1) as int / 0x100000000;
        lemma_fundamental_div_mod(pow128(k - 1) as int, 0x100000000);
        assert(pow128(k - 1) == 0x100000000 * q);
        assert(pow128(k) == 0x80 * (0x100000000 * q));
        assert(0x80 * (0x100000000 * q) == (0x80 * q) * 0x100000000) by {
            lemma_mul_is_associative(0x80, 0x100000000, q);
            lemma_mul_is_associative(0x80, q, 0x100000000);
        }
        lemma_mod_multiples_basic(0x80 * q, 0x100000000);
    }
}

/// The first five weights, spelled out.
pub proof fn lemma_pow128_small()
    ensures
        pow128(0) == 1,
        pow128(1) == 0x80,
        pow128(2) == 0x4000,
        pow128(3) == 0x200000,
        pow128(4) == 0x10000000,
{
}

/// Reads `data` at `offset` as one ULEB128 value. Returns the decoded 32-bit
/// value together with the number of bytes consumed, or `None` where the
/// buffer ends inside the encoding or the length guard trips.
pub fn read_uleb128(data: &Vec<u8>, offset: usize) -> (r: Option<ULeb128Read>)
    ensures
        match r {
            Some(u) => {
                &&& spec_uleb_result(data@, offset as int) == Some((u.value, u.length as int))
                &&& 1 <= u.length <= 10
                &&& offset + u.length <= data.len()
            },
            None => spec_uleb_result(data@, offset as int) is None,
        },
{
    let ghost s = data@;
    let ghost i = offset as int;
    let mut k: usize = 0;
    let mut result: u32 = 0;
    loop
        invariant
            s == data@,
            i == offset as int,
            0 <= k <= 9,
            k > 0 ==> offset + k <= data.len(),
            uleb_len_from(s, i, 0) == uleb_len_from(s, i, k as int),
            result as nat == uleb_value_at(s, i, k as int) % 0x100000000,
        decreases 10 - k,
    {
        if offset >= data.len() || k >= data.len() - offset {
            assert(uleb_len_from(s, i, k as int) is None);
            return None;
        }
        let b = data[offset + k];
        if k == 9 && b != 0 && b != 1 {
            assert(uleb_len_from(s, i, 9) is None);
            return None;
        }
        let low: u8 = b % 0x80;
        proof {
            lemma_uleb_value_snoc(s, i, k as int);
        }
        let ghost full = uleb_value_at(s, i, k as int);
        let ghost c = (uleb_low(b) * pow128(k as int)) as int;
        if k <= 4 {
            let p: u64 = if k == 0 {
                1
            } else if k == 1 {
                0x80
            } else if k == 2 {
                0x4000
            } else if k == 3 {
                0x200000
            } else {
                0x10000000
            };
            proof {
                lemma_pow128_small();
                assert(p as nat == pow128(k as int));
                assert(low as u64 * p <= 127 * 0x10000000) by (nonlinear_arith)
                    requires
                        low < 0x80,
                        p <= 0x10000000,
                ;
            }
            let sum: u64 = result as u64 + (low as u64) * p;
            proof {
                // (full % M + c) % M == (full + c) % M
                lemma_mod_twice(full as int, 0x100000000);
                lemma_add_mod_noop(full as int % 0x100000000, c, 0x100000000);
                lemma_add_mod_noop(full as int, c, 0x100000000);
            }
            result = (sum % 0x100000000u64) as u32;
            assert(result as nat == uleb_value_at(s, i, k as int + 1) % 0x100000000);
        } else {
            proof {
                // the weight of this byte is a multiple of 2^32
                lemma_pow128_vanishes(k as int);
                let m = pow128(k as int) as int;
                let q = m / 0x100000000;
                lemma_fundamental_div_mod(m, 0x100000000);
                assert(m == 0x100000000 * q);
                assert(c == uleb_low(b) * (0x100000000 * q));
                assert(uleb_low(b) * (0x100000000 * q) == (uleb_low(b) * q) * 0x100000000) by {
                    lemma_mul_is_associative(uleb_low(b) as int, 0x100000000, q);
                    lemma_mul_is_associative(uleb_low(b) as int, q, 0x100000000);
                }
                lemma_mod_multiples_basic(uleb_low(b) as int * q, 0x100000000);
                assert(c % 0x100000000 == 0);
                lemma_add_mod_noop(full as int, c, 0x100000000);
                assert((full + c) % 0x100000000 == full as int % 0x100000000);
            }
            assert(result as nat == uleb_value_at(s, i, k as int + 1) % 0x100000000);
        }
        if b < 0x80 {
            assert(!uleb_cont(s[i + k]));
            assert(uleb_len_from(s, i, k as int) == Some(k as int + 1));
            return Some(ULeb128Read { value: result, length: (k + 1) as u8 });
        }
        assert(uleb_cont(s[i + k]));
        assert(uleb_len_from(s, i, k as int) == uleb_len_from(s, i, k as int + 1));
        assert(k < 9);
        k = k + 1;
    }
}

/// Encodes `value` canonically: seven bits per byte, continuation bit on all
/// but the last byte, never a padding byte.
pub fn write_uleb128(value: u32) -> (r: Vec<u8>)
    ensures
        r@ == uleb_encode(value as nat),
        r.len() == uleb_len(value as nat),
        1 <= r.len() <= 5,
{
    proof {
        lemma_uleb_encode_len(value as nat);
        lemma_uleb_len_le_5(value as nat);
    }
    let mut buf: Vec<u8> = Vec::new();
    let mut val: u32 = value;
    loop
        invariant
            uleb_encode(value as nat) == buf@ + uleb_encode(val as nat),
            uleb_encode(value as nat).len() == uleb_len(value as nat),
            1 <= uleb_len(value as nat) <= 5,
        decreases val,
    {
        if val < 0x80 {
            buf.push(val as u8);
            assert(uleb_encode(val as nat) == seq![val as u8]);
            assert(buf@ == uleb_encode(value as nat));
            return buf;
        }
        let byte: u8 = (val % 0x80) as u8 + 0x80;
        let ghost prev = val as nat;
        buf.push(byte);
        val = val / 0x80;
        proof {
            assert(uleb_encode(prev) == seq![(0x80 + prev % 0x80) as u8] + uleb_encode(
                prev / 0x80,
            ));
            assert(byte == (0x80 + prev % 0x80) as u8);
            assert(val as nat == prev / 0x80);
            assert(uleb_encode(value as nat) == buf@ + uleb_encode(val as nat));
        }
    }
}

/// The canonical encoding is as long as `uleb_len` says.
pub proof fn lemma_uleb_encode_len(v: nat)
    ensures
        uleb_encode(v).len() == uleb_len(v),
    decreases v,
{
    if v >= 0x80 {
        lemma_uleb_encode_len(v / 0x80);
    }
}

/// A 32-bit value encodes in at most five bytes.
pub proof fn lemma_uleb_len_le_5(v: nat)
    requires
        v < 0x100000000,
    ensures
        1 <= uleb_len(v) <= 5,
{
    if v >= 0x80 {
        let v1 = v / 0x80;
        assert(v1 < 0x2000000);
        assert(uleb_len(v) == 1 + uleb_len(v1));
        if v1 >= 0x80 {
            let v2 = v1 / 0x80;
            assert(v2 < 0x40000);
            assert(uleb_len(v1) == 1 + uleb_len(v2));
            if v2 >= 0x80 {
                let v3 = v2 / 0x80;
                assert(v3 < 0x800);
                assert(uleb_len(v2) == 1 + uleb_len(v3));
                if v3 >= 0x80 {
                    let v4 = v3 / 0x80;
                    assert(v4 < 0x10);
                    assert(uleb_len(v3) == 1 + uleb_len(v4));
                    assert(uleb_len(v4) == 1);
                } else {
                    assert(uleb_len(v3) == 1);
                }
            } else {
                assert(uleb_len(v2) == 1);
            }
        } else {
            assert(uleb_len(v1) == 1);
        }
    } else {
        assert(uleb_len(v) == 1);
    }
}

/// In the canonical encoding every byte but the last has the continuation
/// bit, the last does not, and the carried value is the encoded one.
pub proof fn lemma_uleb_encode_wf(v: nat)
    ensures
        forall|j: int|
            0 <= j < uleb_encode(v).len() - 1 ==> uleb_cont(#[trigger] uleb_encode(v)[j]),
        !uleb_cont(uleb_encode(v)[uleb_encode(v).len() - 1]),
        uleb_value_at(uleb_encode(v), 0, uleb_encode(v).len() as int) == v,
    decreases v,
{
    let e = uleb_encode(v);
    if v < 0x80 {
        assert(e == seq![v as u8]);
        assert(uleb_value_at(e, 0, 1) == uleb_low(e[0]) + 0x80 * uleb_value_at(e, 1, 0));
        assert(uleb_low(e[0]) == v);
    } else {
        lemma_uleb_encode_wf(v / 0x80);
        let t = uleb_encode(v / 0x80);
        assert(e == seq![(0x80 + v % 0x80) as u8] + t);
        assert(e.len() == 1 + t.len());
        assert(uleb_cont(e[0]));
        assert(forall|j: int| 1 <= j < e.len() ==> e[j] == t[j - 1]);
        assert(e[e.len() - 1] == t[t.len() - 1]);
        assert(e.subrange(1, 1 + t.len() as int) =~= t.subrange(0, t.len() as int));
        lemma_uleb_value_at_shift(e, 1, t, 0, t.len() as int);
        assert(uleb_value_at(e, 1, t.len() as int) == uleb_value_at(t, 0, t.len() as int));
        assert(uleb_value_at(e, 0, e.len() as int) == uleb_low(e[0]) + 0x80 * uleb_value_at(
            e,
            1,
            t.len() as int,
        ));
        assert(uleb_low(e[0]) == v % 0x80);
        lemma_fundamental_div_mod(v as int, 0x80);
    }
}

/// The carried value reads the same through any two windows that hold the
/// same bytes.
pub proof fn lemma_uleb_value_at_shift(s: Seq<u8>, i: int, t: Seq<u8>, j: int, len: int)
    requires
        0 <= len,
        0 <= i,
        i + len <= s.len(),
        0 <= j,
        j + len <= t.len(),
        s.subrange(i, i + len) == t.subrange(j, j + len),
    ensures
        uleb_value_at(s, i, len) == uleb_value_at(t, j, len),
    decreases len,
{
    if len > 0 {
        let ss = s.subrange(i, i + len);
        let tt = t.subrange(j, j + len);
        assert(s[i] == t[j]) by {
            assert(ss[0] == s[i]);
            assert(tt[0] == t[j]);
        }
        assert(s.subrange(i + 1, i + len) =~= t.subrange(j + 1, j + len)) by {
            assert forall|q: int| 0 <= q < len - 1 implies #[trigger] s.subrange(i + 1, i + len)[q]
                == t.subrange(j + 1, j + len)[q] by {
                assert(ss[q + 1] == s[i + q + 1]);
                assert(tt[q + 1] == t[j + q + 1]);
            }
        }
        lemma_uleb_value_at_shift(s, i + 1, t, j + 1, len - 1);
        assert(uleb_value_at(s, i, len) == uleb_low(s[i]) + 0x80 * uleb_value_at(
            s,
            i + 1,
            len - 1,
        ));
        assert(uleb_value_at(t, j, len) == uleb_low(t[j]) + 0x80 * uleb_value_at(
            t,
            j + 1,
            len - 1,
        ));
    }
}

/// A decoded length lies between `k + 1` and ten, within the buffer.
pub proof fn lemma_uleb_len_from_bounds(s: Seq<u8>, i: int, k: int, l: int)
    requires
        uleb_len_from(s, i, k) == Some(l),
    ensures
        k + 1 <= l <= 10,
        0 <= i + k,
        i + l <= s.len(),
        !uleb_cont(s[i + l - 1]),
        forall|m: int| k <= m < l - 1 ==> uleb_cont(#[trigger] s[i + m]),
    decreases 10 - k,
{
    if !(k < 0 || k > 9) && !(i + k < 0 || i + k >= s.len()) && !(k == 9 && s[i + 9] != 0 && s[i
        + 9] != 1) && uleb_cont(s[i + k]) {
        lemma_uleb_len_from_bounds(s, i, k + 1, l);
    }
}

/// Decoding reads only the bytes of the window it returns: a buffer of the
/// same length that agrees there decodes identically.
pub proof fn lemma_uleb_decode_agree(s: Seq<u8>, t: Seq<u8>, i: int, k: int, l: int)
    requires
        s.len() == t.len(),
        uleb_len_from(s, i, k) == Some(l),
        forall|m: int| i + k <= m < i + l ==> s[m] == t[m],
    ensures
        uleb_len_from(t, i, k) == Some(l),
        uleb_value_at(t, i + k, l - k) == uleb_value_at(s, i + k, l - k),
    decreases 10 - k,
{
    lemma_uleb_len_from_bounds(s, i, k, l);
    if uleb_cont(s[i + k]) {
        lemma_uleb_decode_agree(s, t, i, k + 1, l);
        assert(uleb_value_at(t, i + k, l - k) == uleb_low(t[i + k]) + 0x80 * uleb_value_at(
            t,
            i + k + 1,
            l - k - 1,
        ));
        assert(uleb_value_at(s, i + k, l - k) == uleb_low(s[i + k]) + 0x80 * uleb_value_at(
            s,
            i + k + 1,
            l - k - 1,
        ));
    } else {
        assert(l == k + 1);
        assert(uleb_value_at(t, i + k, 1) == uleb_low(t[i + k]) + 0x80 * uleb_value_at(
            t,
            i + k + 1,
            0,
        ));
        assert(uleb_value_at(s, i + k, 1) == uleb_low(s[i + k]) + 0x80 * uleb_value_at(
            s,
            i + k + 1,
            0,
        ));
    }
}

/// Helper: where the window `[i + k, i + L)` holds a run of continuation
/// bytes closed by one terminator, decoding from its `k`-th byte finds
/// exactly length `L`.
proof fn lemma_uleb_len_from_window(s: Seq<u8>, i: int, k: int, len: int)
    requires
        0 <= k < len <= 9,
        0 <= i,
        i + len <= s.len(),
        forall|m: int| k <= m < len - 1 ==> uleb_cont(#[trigger] s[i + m]),
        !uleb_cont(s[i + len - 1]),
    ensures
        uleb_len_from(s, i, k) == Some(len),
    decreases len - k,
{
    if k < len - 1 {
        assert(uleb_cont(s[i + k]));
        lemma_uleb_len_from_window(s, i, k + 1, len);
    }
}

/// A canonical encoding placed in a buffer decodes to its value, consuming
/// exactly its own bytes.
pub proof fn lemma_uleb_encode_decodes_at(s: Seq<u8>, i: int, v: nat)
    requires
        v < 0x100000000,
        0 <= i,
        i + uleb_encode(v).len() <= s.len(),
        s.subrange(i, i + uleb_encode(v).len() as int) == uleb_encode(v),
    ensures
        uleb_len_at(s, i) == Some(uleb_encode(v).len() as int),
        uleb_value_at(s, i, uleb_encode(v).len() as int) == v,
        spec_uleb_result(s, i) == Some((v as u32, uleb_encode(v).len() as int)),
    decreases v,
{
    let e = uleb_encode(v);
    let len = e.len() as int;
    lemma_uleb_encode_wf(v);
    lemma_uleb_encode_len(v);
    lemma_uleb_len_le_5(v);
    assert(forall|m: int| 0 <= m < len ==> s[i + m] == #[trigger] e[m]) by {
        assert(forall|m: int| 0 <= m < len ==> s[i + m] == #[trigger] s.subrange(i, i + len)[m]);
    }
    assert forall|m: int| 0 <= m < len - 1 implies uleb_cont(#[trigger] s[i + m]) by {
        assert(s[i + m] == e[m]);
        assert(uleb_cont(e[m]));
    }
    assert(s[i + len - 1] == e[len - 1]);
    lemma_uleb_len_from_window(s, i, 0, len);
    assert(e.subrange(0, len) =~= e);
    lemma_uleb_value_at_shift(s, i, e, 0, len);
    lemma_small_mod(v, 0x100000000);
}

/// The carried value of a `len`-byte window is below `128^len`.
pub proof fn lemma_uleb_value_upper(s: Seq<u8>, i: int, len: int)
    ensures
        uleb_value_at(s, i, len) < pow128(len),
    decreases len,
{
    if len > 0 {
        lemma_uleb_value_upper(s, i + 1, len - 1);
        assert(uleb_low(s[i]) < 0x80);
        assert(0x80 * uleb_value_at(s, i + 1, len - 1) <= 0x80 * (pow128(len - 1) - 1))
            by (nonlinear_arith)
            requires
                uleb_value_at(s, i + 1, len - 1) <= pow128(len - 1) - 1,
        ;
    }
}

/// A positive value is at least the weight of the last byte of its canonical
/// encoding.
pub proof fn lemma_uleb_len_lower(v: nat)
    requires
        v > 0,
    ensures
        v >= pow128(uleb_len(v) as int - 1),
    decreases v,
{
    if v >= 0x80 {
        lemma_uleb_len_lower(v / 0x80);
        let l1 = uleb_len(v / 0x80) as int;
        assert(v / 0x80 >= pow128(l1 - 1));
        lemma_fundamental_div_mod(v as int, 0x80);
        assert(v >= 0x80 * (v / 0x80));
        assert(0x80 * (v / 0x80) >= 0x80 * pow128(l1 - 1)) by (nonlinear_arith)
            requires
                v / 0x80 >= pow128(l1 - 1),
        ;
        assert(pow128(l1) == 0x80 * pow128(l1 - 1));
    }
}

/// `128^k` never shrinks as `k` grows.
pub proof fn lemma_pow128_monotonic(k: int, m: int)
    requires
        k <= m,
    ensures
        pow128(k) <= pow128(m),
    decreases m - k,
{
    if k < m {
        lemma_pow128_monotonic(k, m - 1);
        if m > 0 {
            assert(pow128(m) == 0x80 * pow128(m - 1));
            assert(pow128(m - 1) >= 1) by {
                lemma_pow128_positive(m - 1);
            }
        }
    }
}

/// `128^k` is positive.
pub proof fn lemma_pow128_positive(k: int)
    ensures
        pow128(k) >= 1,
    decreases k,
{
    if k > 0 {
        lemma_pow128_positive(k - 1);
    }
}

/// Round trip: the canonical encoding of any 32-bit value decodes back to
/// that value, consuming exactly the encoding's length, and no decodable
/// byte string carrying that value is shorter.
pub proof fn lemma_uleb128_round_trip(v: u32)
    ensures
        uleb_encode(v as nat).len() == uleb_len(v as nat),
        1 <= uleb_len(v as nat) <= 5,
        spec_uleb_result(uleb_encode(v as nat), 0) == Some((v, uleb_len(v as nat) as int)),
        forall|t: Seq<u8>, l: int|
            uleb_len_at(t, 0) == Some(l) && uleb_value_at(t, 0, l) % 0x100000000 == v as nat
                ==> uleb_len(v as nat) <= l,
{
    let e = uleb_encode(v as nat);
    lemma_uleb_encode_len(v as nat);
    lemma_uleb_len_le_5(v as nat);
    assert(e.subrange(0, e.len() as int) == e);
    lemma_uleb_encode_decodes_at(e, 0, v as nat);
    assert forall|t: Seq<u8>, l: int|
        uleb_len_at(t, 0) == Some(l) && uleb_value_at(t, 0, l) % 0x100000000 == v as nat
        implies uleb_len(v as nat) <= l by {
        lemma_uleb_len_from_bounds(t, 0, 0, l);
        if l < uleb_len(v as nat) {
            // a shorter window carries too small a value
            lemma_uleb_value_upper(t, 0, l);
            lemma_pow128_monotonic(l, 4);
            lemma_pow128_small();
            assert(uleb_value_at(t, 0, l) < 0x10000000);
            lemma_small_mod(uleb_value_at(t, 0, l), 0x100000000);
            assert(uleb_value_at(t, 0, l) == v as nat);
            if v as nat > 0 {
                lemma_uleb_len_lower(v as nat);
                lemma_pow128_monotonic(l, uleb_len(v as nat) as int - 1);
                assert(false);
            }
        }
    }
}

} // verus!
