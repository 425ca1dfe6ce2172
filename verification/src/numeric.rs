//! Number-theoretic vocabulary shared by the whole crate: the value of a
//! big-endian byte string, bitwise conjunction on naturals, bit segments of a
//! number and their positional recomposition.

use vstd::arithmetic::div_mod::{
    lemma_basic_div, lemma_div_decreases, lemma_div_denominator, lemma_div_multiples_vanish,
    lemma_div_pos_is_pos, lemma_mod_bound, lemma_mod_breakdown, lemma_mod_decreases, lemma_multiply_divide_lt,
    lemma_small_mod,
};
use vstd::arithmetic::mul::{
    lemma_mul_is_associative, lemma_mul_is_commutative, lemma_mul_nonnegative,
};
use vstd::arithmetic::power2::{
    lemma2_to64, lemma_pow2_adds, lemma_pow2_pos, lemma_pow2_strictly_increases, lemma_pow2_unfold,
    pow2,
};
use vstd::prelude::*;

verus! {

/// The natural number that `bytes` denotes when read most significant byte
/// first. The empty string denotes zero.
pub open spec fn be_value(bytes: Seq<u8>) -> nat
    decreases bytes.len(),
{
    if bytes.len() == 0 {
        0
    } else {
        be_value(bytes.drop_last()) * 256 + bytes.last() as nat
    }
}

/// Bitwise conjunction of two natural numbers, bit by bit from the least
/// significant end.
pub open spec fn bit_and(a: nat, b: nat) -> nat
    decreases a,
{
    if a == 0 {
        0
    } else {
        2 * bit_and(a / 2, b / 2) + if a % 2 == 1 && b % 2 == 1 {
            1nat
        } else {
            0nat
        }
    }
}

/// Bits `[index * width, (index + 1) * width)` of `secret`, moved down to
/// position zero.
pub open spec fn segment_value(secret: nat, width: nat, index: nat) -> nat {
    (secret / pow2(index * width)) % pow2(width)
}

/// The first `count` segments of `secret`, least significant first.
pub open spec fn segments_of(secret: nat, width: nat, count: nat) -> Seq<nat> {
    Seq::new(count, |i: int| segment_value(secret, width, i as nat))
}

/// The positional sum `values[0] + values[1] * 2^width + values[2] * 2^(2 * width) + ...`.
pub open spec fn weighted_sum(values: Seq<nat>, width: nat) -> nat
    decreases values.len(),
{
    if values.len() == 0 {
        0
    } else {
        weighted_sum(values.drop_last(), width) + values.last() * pow2(
            ((values.len() - 1) * width) as nat,
        )
    }
}

/// Conjunction with the mask of the `n` lowest bits keeps exactly those bits.
pub proof fn lemma_low_mask(n: nat, v: nat)
    ensures
        bit_and((pow2(n) - 1) as nat, v) == v % pow2(n),
    decreases n,
{
    lemma_pow2_pos(n);
    if n == 0 {
        lemma2_to64();
    } else {
        let half = pow2((n - 1) as nat);
        lemma_pow2_pos((n - 1) as nat);
        lemma_pow2_unfold(n);
        let a = (pow2(n) - 1) as nat;
        assert(a == 2 * (half - 1) + 1);
        assert(a / 2 == half - 1 && a % 2 == 1);
        lemma_low_mask((n - 1) as nat, v / 2);
        lemma_mod_breakdown(v as int, 2, half as int);
        assert(pow2(n) == 2 * half);
    }
}

/// Conjunction with the mask that covers bits `[lsb, msb)` keeps those bits
/// of `v` in place and clears the rest.
pub proof fn lemma_band_mask(v: nat, lsb: nat, msb: nat)
    requires
        lsb <= msb,
    ensures
        pow2(lsb) <= pow2(msb),
        bit_and((pow2(msb) - pow2(lsb)) as nat, v) == ((v / pow2(lsb)) % pow2((msb - lsb) as nat))
            * pow2(lsb),
    decreases lsb,
{
    lemma_pow2_pos(lsb);
    lemma_pow2_pos(msb);
    lemma_pow2_pos((msb - lsb) as nat);
    lemma_pow2_adds(lsb, (msb - lsb) as nat);
    assert(pow2(lsb) <= pow2(msb)) by (nonlinear_arith)
        requires
            pow2(msb) == pow2(lsb) * pow2((msb - lsb) as nat),
            pow2((msb - lsb) as nat) > 0,
            pow2(lsb) > 0,
    ;
    if lsb == 0 {
        lemma2_to64();
        lemma_low_mask(msb, v);
    } else {
        let m = (pow2(msb) - pow2(lsb)) as nat;
        let hi = pow2((msb - 1) as nat);
        let lo = pow2((lsb - 1) as nat);
        lemma_pow2_unfold(msb);
        lemma_pow2_unfold(lsb);
        lemma_pow2_pos((lsb - 1) as nat);
        lemma_band_mask(v / 2, (lsb - 1) as nat, (msb - 1) as nat);
        assert(m == 2 * (hi - lo));
        let kept = (v / pow2(lsb)) % pow2((msb - lsb) as nat);
        assert((v / 2) / lo == v / pow2(lsb)) by {
            lemma_div_denominator(v as int, 2, lo as int);
        }
        assert(bit_and((hi - lo) as nat, v / 2) == kept * lo);
        assert(2 * (kept * lo) == kept * pow2(lsb)) by {
            lemma_mul_is_associative(2, kept as int, lo as int);
            lemma_mul_is_commutative(2, kept as int);
            lemma_mul_is_associative(kept as int, 2, lo as int);
        }
        if m == 0 {
            assert(hi == lo);
            assert(bit_and(0, v / 2) == 0);
        } else {
            assert(m / 2 == hi - lo && m % 2 == 0);
        }
    }
}

/// Conjunction with the mask that covers bits `[lsb, msb)`, then a shift down
/// by `lsb`, gives those bits of `v` as a number.
pub proof fn lemma_mask_and_shift(v: nat, lsb: nat, msb: nat)
    requires
        lsb <= msb,
    ensures
        pow2(lsb) <= pow2(msb),
        bit_and((pow2(msb) - pow2(lsb)) as nat, v) / pow2(lsb) == (v / pow2(lsb)) % pow2(
            (msb - lsb) as nat,
        ),
{
    lemma_band_mask(v, lsb, msb);
    let unit = pow2(lsb) as int;
    let kept = ((v / pow2(lsb)) % pow2((msb - lsb) as nat)) as int;
    lemma_pow2_pos(lsb);
    lemma_pow2_pos((msb - lsb) as nat);
    lemma_mod_bound((v / pow2(lsb)) as int, pow2((msb - lsb) as nat) as int);
    lemma_mul_nonnegative(kept, unit);
    lemma_mul_is_commutative(kept, unit);
    lemma_div_multiples_vanish(kept, unit);
    assert(bit_and((pow2(msb) - pow2(lsb)) as nat, v) as int == unit * kept);
}

/// A segment is below `2^width` and never above the number it is cut from.
pub proof fn lemma_segment_bounds(secret: nat, width: nat, index: nat)
    ensures
        segment_value(secret, width, index) < pow2(width),
        segment_value(secret, width, index) <= secret,
{
    let shifted = secret / pow2(index * width);
    lemma_pow2_pos(index * width);
    lemma_pow2_pos(width);
    lemma_mod_bound(shifted as int, pow2(width) as int);
    lemma_div_pos_is_pos(secret as int, pow2(index * width) as int);
    lemma_mod_decreases(shifted, pow2(width));
    if secret > 0 {
        if pow2(index * width) > 1 {
            lemma_div_decreases(secret as int, pow2(index * width) as int);
        }
    }
}

/// A segment that starts at or above the bit length of the number is zero.
pub proof fn lemma_segment_beyond_length(secret: nat, width: nat, index: nat)
    requires
        secret < pow2(index * width),
    ensures
        segment_value(secret, width, index) == 0,
{
    lemma_pow2_pos(width);
    lemma_basic_div(secret as int, pow2(index * width) as int);
    lemma_small_mod(0, pow2(width));
}

/// Of a number below `2^top`, the bits from `lsb` up all lie below `top`: to
/// cut `width` bits from `lsb` or only those up to `top` gives the same.
pub proof fn lemma_segment_clipped(secret: nat, lsb: nat, width: nat, top: nat)
    requires
        secret < pow2(top),
        lsb <= top,
        top - lsb <= width,
    ensures
        (secret / pow2(lsb)) % pow2((top - lsb) as nat) == (secret / pow2(lsb)) % pow2(width),
{
    let rest = (top - lsb) as nat;
    let shifted = secret / pow2(lsb);
    lemma_pow2_pos(lsb);
    lemma_pow2_adds(lsb, rest);
    lemma_multiply_divide_lt(secret as int, pow2(lsb) as int, pow2(rest) as int);
    lemma_div_pos_is_pos(secret as int, pow2(lsb) as int);
    if rest < width {
        lemma_pow2_strictly_increases(rest, width);
    }
    lemma_small_mod(shifted, pow2(rest));
    lemma_small_mod(shifted, pow2(width));
}

/// Taking one more value into the positional sum adds that value times the
/// weight of its position.
pub proof fn lemma_weighted_sum_step(values: Seq<nat>, width: nat, i: int)
    requires
        0 <= i < values.len(),
    ensures
        weighted_sum(values.take(i + 1), width) == weighted_sum(values.take(i), width) + values[i]
            * pow2((i * width) as nat),
{
    assert(values.take(i + 1).drop_last() =~= values.take(i));
}

/// The segments of a number, each weighted by its position, sum to the number
/// truncated to the bits they cover.
pub proof fn lemma_segments_recompose(secret: nat, width: nat, count: nat)
    ensures
        weighted_sum(segments_of(secret, width, count), width) == secret % pow2(count * width),
    decreases count,
{
    if count == 0 {
        lemma2_to64();
    } else {
        let before = (count - 1) as nat;
        let all = segments_of(secret, width, count);
        assert(all.drop_last() =~= segments_of(secret, width, before));
        assert(all.last() == segment_value(secret, width, before));
        lemma_segments_recompose(secret, width, before);
        lemma_pow2_pos(before * width);
        lemma_pow2_pos(width);
        lemma_pow2_adds(before * width, width);
        assert(before * width + width == count * width) by (nonlinear_arith)
            requires
                before + 1 == count,
        ;
        lemma_mod_breakdown(secret as int, pow2(before * width) as int, pow2(width) as int);
        lemma_mul_is_commutative(
            pow2(before * width) as int,
            ((secret / pow2(before * width)) % pow2(width)) as int,
        );
    }
}

} // verus!
