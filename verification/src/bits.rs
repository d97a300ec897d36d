//! The bits of a 64-bit carrier value, and the algebra of the bitwise
//! operators over them.
//!
//! Elements of every supported width are read into `u64` before any bit
//! arithmetic is done.  The lemmas here say what each operator does to each
//! bit, so that the rest of the crate reasons about bits and never about
//! the operators themselves.
use vstd::arithmetic::div_mod::{
    lemma_fundamental_div_mod, lemma_fundamental_div_mod_converse, lemma_mod_bound,
};
use vstd::prelude::*;

verus! {

/// A number is its quotient by `w` times `w` plus its remainder, and the
/// remainder is at least zero and less than `w`.
pub proof fn lemma_split(x: int, w: int)
    requires
        w > 0,
    ensures
        x == (x / w) * w + x % w,
        0 <= x % w < w,
        x >= 0 ==> x / w >= 0,
{
    lemma_fundamental_div_mod(x, w);
    lemma_mod_bound(x, w);
    assert(w * (x / w) == (x / w) * w) by (nonlinear_arith);
    if x >= 0 {
        assert(x / w >= 0) by (nonlinear_arith)
            requires
                x == (x / w) * w + x % w,
                0 <= x % w < w,
                x >= 0,
                w > 0,
        ;
    }
}

/// The quotient and remainder of `q * w + r` by `w` are `q` and `r` when
/// `r` is at least zero and less than `w`.
pub proof fn lemma_join(q: int, r: int, w: int)
    requires
        w > 0,
        0 <= r < w,
    ensures
        (q * w + r) / w == q,
        (q * w + r) % w == r,
{
    lemma_fundamental_div_mod_converse(q * w + r, w, q, r);
}

/// Multiplying by a positive number keeps the order.
pub proof fn lemma_scale(a: int, b: int, w: int)
    requires
        w > 0,
    ensures
        a < b <==> a * w < b * w,
        a <= b <==> a * w <= b * w,
        a < b ==> a * w + w <= b * w,
{
    assert(a < b <==> a * w < b * w) by (nonlinear_arith)
        requires
            w > 0,
    ;
    assert(a <= b <==> a * w <= b * w) by (nonlinear_arith)
        requires
            w > 0,
    ;
    assert(a < b ==> a * w + w <= b * w) by (nonlinear_arith)
        requires
            w > 0,
    ;
}

/// Whether the bit at position `pos` of `x` is set; position 0 is the least
/// significant bit.
pub open spec fn bit(x: u64, pos: int) -> bool {
    (x >> (pos as u64)) & 1 == 1
}

/// The value whose `n` least significant bits are set and no others.
pub open spec fn low_mask(n: int) -> u64 {
    if n >= 64 {
        u64::MAX
    } else {
        ((1u64 << (n as u64)) - 1) as u64
    }
}

/// The element widths this crate supports.
pub open spec fn supported_width(w: int) -> bool {
    w == 8 || w == 16 || w == 32 || w == 64
}

proof fn lemma_bit_shift(x: u64, s: u64, k: u64)
    by (bit_vector)
    requires
        s < 64,
        k < 64,
    ensures
        ((x >> s) >> k) & 1 == 1 <==> (k + s < 64 && (x >> ((k + s) as u64)) & 1 == 1),
        ((x << s) >> k) & 1 == 1 <==> (k >= s && (x >> ((k - s) as u64)) & 1 == 1),
        ((1u64 << s) >> k) & 1 == 1 <==> k == s,
{
}

proof fn lemma_bit_logic(a: u64, b: u64, k: u64)
    by (bit_vector)
    requires
        k < 64,
    ensures
        ((a & b) >> k) & 1 == 1 <==> ((a >> k) & 1 == 1 && (b >> k) & 1 == 1),
        ((a | b) >> k) & 1 == 1 <==> ((a >> k) & 1 == 1 || (b >> k) & 1 == 1),
        ((!a) >> k) & 1 == 1 <==> !((a >> k) & 1 == 1),
        (0xffff_ffff_ffff_ffffu64 >> k) & 1 == 1,
        !((0u64 >> k) & 1 == 1),
{
}

proof fn lemma_bit_low_mask(x: u64, n: u64, k: u64)
    by (bit_vector)
    requires
        n < 64,
        k < 64,
    ensures
        (1u64 << n) >= 1,
        ((((1u64 << n) - 1) as u64) >> k) & 1 == 1 <==> k < n,
        x <= ((1u64 << n) - 1) as u64 && n <= k ==> !((x >> k) & 1 == 1),
        x & (((1u64 << n) - 1) as u64) <= ((1u64 << n) - 1) as u64,
{
}

proof fn lemma_low_step(x: u64, n: u64)
    by (bit_vector)
    requires
        n < 64,
    ensures
        n < 63 ==> x & (((1u64 << ((n + 1) as u64)) - 1) as u64) == (x & (((1u64 << n) - 1) as u64)) | (
        x & (1u64 << n)),
        n == 63 ==> x == (x & (((1u64 << n) - 1) as u64)) | (x & (1u64 << n)),
        (x >> n) & 1 == 1 ==> x & (1u64 << n) == 1u64 << n,
        !((x >> n) & 1 == 1) ==> x & (1u64 << n) == 0,
        x & (((1u64 << 0) - 1) as u64) == 0,
        x & 0xffff_ffff_ffff_ffffu64 == x,
{
}

/// The value whose `n` least significant bits are set and no others.
pub fn mask_below(n: u8) -> (m: u64)
    ensures
        m == low_mask(n as int),
{
    if n >= 64 {
        u64::MAX
    } else {
        proof {
            lemma_bit_low_mask(0, n as u64, 0);
        }
        (1u64 << n) - 1
    }
}

/// The value that has the bits of `new` where `mask` has a bit and the bits
/// of `old` elsewhere.
pub open spec fn spec_splice(old: u64, mask: u64, new: u64) -> u64 {
    (old & !mask) | (new & mask)
}

/// Each bit of a splice comes from `new` under the mask and from `old`
/// outside it.
pub proof fn lemma_splice_bits(old: u64, mask: u64, new: u64)
    ensures
        forall|k: int|
            0 <= k < 64 ==> #[trigger] bit(spec_splice(old, mask, new), k) == if bit(mask, k) {
                bit(new, k)
            } else {
                bit(old, k)
            },
{
    lemma_not_bits(mask);
    lemma_and_bits(old, !mask);
    lemma_and_bits(new, mask);
    lemma_or_bits(old & !mask, new & mask);
}

/// Erases the bits of `old` under `mask` and writes the bits of `new`
/// under `mask` in their place.
pub fn splice(old: u64, mask: u64, new: u64) -> (r: u64)
    ensures
        r == spec_splice(old, mask, new),
{
    (old & !mask) | (new & mask)
}

/// Shifting right by `s` moves every bit `s` positions down.
pub proof fn lemma_shr_bits(x: u64, s: u64)
    requires
        s < 64,
    ensures
        forall|k: int| 0 <= k < 64 ==> (#[trigger] bit(x >> s, k) <==> k + s < 64 && bit(x, k + s)),
{
    assert forall|k: int| 0 <= k < 64 implies (#[trigger] bit(x >> s, k) <==> k + s < 64 && bit(
        x,
        k + s,
    )) by {
        lemma_bit_shift(x, s, k as u64);
    }
}

/// Shifting left by `s` moves every bit `s` positions up and fills with
/// zeros.
pub proof fn lemma_shl_bits(x: u64, s: u64)
    requires
        s < 64,
    ensures
        forall|k: int| 0 <= k < 64 ==> (#[trigger] bit(x << s, k) <==> k >= s && bit(x, k - s)),
{
    assert forall|k: int| 0 <= k < 64 implies (#[trigger] bit(x << s, k) <==> k >= s && bit(
        x,
        k - s,
    )) by {
        lemma_bit_shift(x, s, k as u64);
    }
}

/// A bit of `a & b` is set when it is set in both.
pub proof fn lemma_and_bits(a: u64, b: u64)
    ensures
        forall|k: int| 0 <= k < 64 ==> (#[trigger] bit(a & b, k) <==> bit(a, k) && bit(b, k)),
{
    assert forall|k: int| 0 <= k < 64 implies (#[trigger] bit(a & b, k) <==> bit(a, k) && bit(b, k)) by {
        lemma_bit_logic(a, b, k as u64);
    }
}

/// A bit of `a | b` is set when it is set in either.
pub proof fn lemma_or_bits(a: u64, b: u64)
    ensures
        forall|k: int| 0 <= k < 64 ==> (#[trigger] bit(a | b, k) <==> bit(a, k) || bit(b, k)),
{
    assert forall|k: int| 0 <= k < 64 implies (#[trigger] bit(a | b, k) <==> bit(a, k) || bit(b, k)) by {
        lemma_bit_logic(a, b, k as u64);
    }
}

/// A bit of `!a` is set when it is clear in `a`.
pub proof fn lemma_not_bits(a: u64)
    ensures
        forall|k: int| 0 <= k < 64 ==> (#[trigger] bit(!a, k) <==> !bit(a, k)),
{
    assert forall|k: int| 0 <= k < 64 implies (#[trigger] bit(!a, k) <==> !bit(a, k)) by {
        lemma_bit_logic(a, a, k as u64);
    }
}

/// `low_mask(n)` has exactly the bits below `n`.
pub proof fn lemma_low_mask_bits(n: int)
    requires
        0 <= n,
    ensures
        forall|k: int| 0 <= k < 64 ==> (#[trigger] bit(low_mask(n), k) <==> k < n),
{
    assert forall|k: int| 0 <= k < 64 implies (#[trigger] bit(low_mask(n), k) <==> k < n) by {
        if n >= 64 {
            lemma_bit_logic(0, 0, k as u64);
        } else {
            lemma_bit_low_mask(0, n as u64, k as u64);
        }
    }
}

/// `1 << p` has exactly the bit at `p`.
pub proof fn lemma_one_bits(p: u64)
    requires
        p < 64,
    ensures
        forall|k: int| 0 <= k < 64 ==> (#[trigger] bit(1u64 << p, k) <==> k == p),
{
    assert forall|k: int| 0 <= k < 64 implies (#[trigger] bit(1u64 << p, k) <==> k == p) by {
        lemma_bit_shift(0, p, k as u64);
    }
}

/// Zero has no bit set and `u64::MAX` has them all.
pub proof fn lemma_const_bits()
    ensures
        forall|k: int| 0 <= k < 64 ==> !#[trigger] bit(0, k),
        forall|k: int| 0 <= k < 64 ==> #[trigger] bit(u64::MAX, k),
{
    assert forall|k: int| 0 <= k < 64 implies !#[trigger] bit(0, k) by {
        lemma_bit_logic(0, 0, k as u64);
    }
    assert forall|k: int| 0 <= k < 64 implies #[trigger] bit(u64::MAX, k) by {
        lemma_bit_logic(0, 0, k as u64);
    }
}

/// A value no greater than `low_mask(n)` has no bit at or above `n`.
pub proof fn lemma_bounded_bits(x: u64, n: int)
    requires
        0 <= n,
        x <= low_mask(n),
    ensures
        forall|k: int| 0 <= n <= k < 64 ==> !#[trigger] bit(x, k),
{
    assert forall|k: int| 0 <= n <= k < 64 implies !#[trigger] bit(x, k) by {
        lemma_bit_low_mask(x, n as u64, k as u64);
    }
}

/// Masking with `low_mask(n)` bounds the result by it.
pub proof fn lemma_masked_bound(x: u64, n: int)
    requires
        0 <= n,
    ensures
        x & low_mask(n) <= low_mask(n),
{
    if n < 64 {
        lemma_bit_low_mask(x, n as u64, 0);
    }
}

/// Two values that agree on their `n` lowest bits agree under
/// `low_mask(n)`.
pub proof fn lemma_low_bits_equal(a: u64, b: u64, n: int)
    requires
        0 <= n <= 64,
        forall|k: int| 0 <= k < n ==> bit(a, k) == bit(b, k),
    ensures
        a & low_mask(n) == b & low_mask(n),
    decreases n,
{
    if n == 0 {
        lemma_low_step(a, 0);
        lemma_low_step(b, 0);
    } else {
        let m = n - 1;
        lemma_low_bits_equal(a, b, m);
        lemma_low_step(a, m as u64);
        lemma_low_step(b, m as u64);
        assert(bit(a, m) == bit(b, m));
        if n == 64 {
            lemma_low_step(a, 0);
            lemma_low_step(b, 0);
        }
    }
}

/// A value is determined by its bits.
pub proof fn lemma_bits_equal(a: u64, b: u64)
    requires
        forall|k: int| 0 <= k < 64 ==> bit(a, k) == bit(b, k),
    ensures
        a == b,
{
    lemma_low_bits_equal(a, b, 64);
    lemma_low_step(a, 0);
    lemma_low_step(b, 0);
}

} // verus!
