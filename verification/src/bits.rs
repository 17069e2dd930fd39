//! Mathematical model of big-endian bit extraction from a byte sequence.
//!
//! A field of `n` bits starting at global bit index `start` (bit 0 is the
//! most significant bit of byte 0) has the integer value of those bits read
//! most-significant first. `field_value` is the reference meaning that every
//! read operation of the crate is proved against.

use vstd::prelude::*;
use vstd::arithmetic::power2::{pow2, lemma_pow2_unfold, lemma2_to64};

verus! {

/// The bit at global index `i` of `bytes`, where index 0 is the most
/// significant bit of `bytes[0]`: either 0 or 1.
pub open spec fn bit_of(bytes: Seq<u8>, i: int) -> int
    recommends
        0 <= i < 8 * bytes.len(),
{
    ((bytes[i / 8] >> ((7 - i % 8) as u8)) & 1) as int
}

/// The value of the `n`-bit span starting at bit `start`, most significant
/// bit first.
pub open spec fn field_value(bytes: Seq<u8>, start: int, n: int) -> int
    recommends
        0 <= start,
        0 <= n,
        start + n <= 8 * bytes.len(),
    decreases n,
{
    if n <= 0 {
        0
    } else {
        field_value(bytes, start, n - 1) * 2 + bit_of(bytes, start + n - 1)
    }
}

/// The all-ones value of an `n`-bit field, the sentinel that marks a missing
/// observation.
pub open spec fn all_ones(n: int) -> int {
    pow2(n as nat) - 1
}

proof fn lemma_bit_of_bound(bytes: Seq<u8>, i: int)
    ensures
        0 <= bit_of(bytes, i) <= 1,
{
    let b = bytes[i / 8];
    let sh = (7 - i % 8) as u8;
    assert((b >> sh) & 1 <= 1) by (bit_vector);
}

/// A field value is always in range for its width.
pub proof fn lemma_field_value_bound(bytes: Seq<u8>, start: int, n: int)
    requires
        0 <= n,
    ensures
        0 <= field_value(bytes, start, n) < pow2(n as nat),
    decreases n,
{
    if n == 0 {
        assert(pow2(0) == 1) by {
            lemma2_to64();
        };
    } else {
        lemma_field_value_bound(bytes, start, n - 1);
        lemma_bit_of_bound(bytes, start + n - 1);
        lemma_pow2_unfold(n as nat);
    }
}

/// A field value depends only on the bits of its own span: two byte
/// sequences that agree on every bit of the span yield the same value, no
/// matter how the surrounding bits differ.
pub proof fn lemma_field_value_agree(b1: Seq<u8>, b2: Seq<u8>, start: int, n: int)
    requires
        forall|i: int| start <= i < start + n ==> bit_of(b1, i) == bit_of(b2, i),
    ensures
        field_value(b1, start, n) == field_value(b2, start, n),
    decreases n,
{
    if n > 0 {
        lemma_field_value_agree(b1, b2, start, n - 1);
    }
}

/// Splitting a span: the value of an `(a + b)`-bit field equals the value of
/// its first `a` bits shifted up by `b` places, plus the value of its last
/// `b` bits. Reading two consecutive fields therefore yields the same pair
/// of values as reading the combined span and splitting it MSB-first.
pub proof fn lemma_field_value_concat(bytes: Seq<u8>, start: int, a: int, b: int)
    requires
        0 <= a,
        0 <= b,
    ensures
        field_value(bytes, start, a + b) == field_value(bytes, start, a) * pow2(b as nat)
            + field_value(bytes, start + a, b),
    decreases b,
{
    if b == 0 {
        assert(pow2(0) == 1) by {
            lemma2_to64();
        };
    } else {
        lemma_field_value_concat(bytes, start, a, b - 1);
        lemma_pow2_unfold(b as nat);
        let x = field_value(bytes, start, a);
        let p = pow2((b - 1) as nat) as int;
        assert((x * p) * 2 == x * (2 * p)) by (nonlinear_arith);
    }
}

/// The bytes of a `count`-character text field starting at bit `start`:
/// each text byte is an eight-bit field, whether or not the field is
/// byte-aligned in the stream.
pub open spec fn text_field_bytes(bytes: Seq<u8>, start: int, count: int) -> Seq<u8> {
    Seq::new(count as nat, |i: int| field_value(bytes, start + 8 * i, 8) as u8)
}

/// The bits `[s, s + n)` of a single byte, extracted by shift and mask, as
/// the executable code computes them.
pub open spec fn extract_bits(b: u8, s: int, n: int) -> int
    recommends
        0 <= s,
        1 <= n,
        s + n <= 8,
{
    ((b >> ((8 - s - n) as u8)) & (0xFFu8 >> ((8 - n) as u8))) as int
}

/// Shift-and-mask extraction from one byte agrees with the bit-span model:
/// bits `[s, s + n)` of byte `k` are the field of width `n` at global bit
/// index `8 * k + s`.
pub proof fn lemma_extract_bits(bytes: Seq<u8>, k: int, s: int, n: int)
    requires
        0 <= k < bytes.len(),
        0 <= s,
        1 <= n,
        s + n <= 8,
    ensures
        field_value(bytes, 8 * k + s, n) == extract_bits(bytes[k], s, n),
    decreases n,
{
    let bb = bytes[k];
    let i = 8 * k + s + n - 1;
    assert(i / 8 == k && i % 8 == s + n - 1) by (nonlinear_arith)
        requires
            0 <= s + n - 1 < 8,
            i == 8 * k + (s + n - 1),
    ;
    let sh_v: u8 = (8 - s - n) as u8;
    let mk_v: u8 = (8 - n) as u8;
    assert(bit_of(bytes, i) == ((bb >> sh_v) & 1) as int);
    assert(extract_bits(bb, s, n) == ((bb >> sh_v) & (0xFFu8 >> mk_v)) as int);
    if n == 1 {
        assert(field_value(bytes, 8 * k + s, 0) == 0);
        assert(field_value(bytes, 8 * k + s, 1) == bit_of(bytes, i));
        assert((bb >> sh_v) & (0xFFu8 >> mk_v) == (bb >> sh_v) & 1) by (bit_vector)
            requires
                mk_v == 7,
        ;
    } else {
        lemma_extract_bits(bytes, k, s, n - 1);
        let sh_p: u8 = (8 - s - (n - 1)) as u8;
        let mk_p: u8 = (8 - (n - 1)) as u8;
        assert(extract_bits(bb, s, n - 1) == ((bb >> sh_p) & (0xFFu8 >> mk_p)) as int);
        assert(((bb >> sh_v) & (0xFFu8 >> mk_v)) == ((bb >> sh_p) & (0xFFu8 >> mk_p)) * 2 + ((bb
            >> sh_v) & 1)) by (bit_vector)
            requires
                sh_p == sh_v + 1,
                mk_p == mk_v + 1,
                sh_v <= 6,
                mk_v <= 6,
        ;
    }
}

} // verus!
