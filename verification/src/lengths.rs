//! Durations and sample counts at different rates.

use crate::rounding;
use crate::rounding::{Dyadic, Precision};
use vstd::arithmetic::div_mod::*;
use vstd::arithmetic::power2::*;
use vstd::prelude::*;

verus! {

/// An integer as an exact number.
pub open spec fn whole(value: nat) -> rounding::Scaled {
    rounding::Scaled { mantissa: value, exponent: 0 }
}

/// How many samples at `target_rate` stand for `length` samples at
/// `source_rate`: the length is divided by the one rate and multiplied by the
/// other, each time in double precision, and rounded up.
pub open spec fn converted(length: nat, source_rate: nat, target_rate: nat) -> int {
    rounding::capped(
        rounding::ceiling(
            rounding::product(rounding::nearest(length, source_rate, 53), whole(target_rate), 53),
        ),
    )
}

/// See [`converted`].
pub fn converted_length(length: i32, source_rate: i32, target_rate: i32) -> (result: i32)
    requires
        length >= 0,
        source_rate > 0,
        target_rate > 0,
    ensures
        result == converted(length as nat, source_rate as nat, target_rate as nat),
        result >= 0,
{
    let seconds = rounding::round_ratio(length as u128, source_rate as u128, Precision::Double);
    let rate = Dyadic { mantissa: target_rate as u64, exponent: 0 };
    rounding::ceiling_capped(rounding::multiply(seconds, rate, Precision::Double))
}

/// As many samples stand for a length as its duration takes: `exact` is the
/// smallest integer that is not below `length * target_rate / source_rate`.
/// Only where that is an integer itself, the roundings may lead to one more.
pub proof fn lemma_converted(length: nat, source_rate: nat, target_rate: nat, exact: nat)
    requires
        source_rate > 0,
        target_rate > 0,
        length * target_rate <= 0x1_0000_0000_0000,
        exact < i32::MAX,
        exact > 0 ==> (exact - 1) * source_rate < length * target_rate,
        length * target_rate <= exact * source_rate,
    ensures
        exact <= converted(length, source_rate, target_rate) <= exact + 1,
        length * target_rate < exact * source_rate ==> converted(length, source_rate, target_rate)
            == exact,
        length == 0 ==> converted(length, source_rate, target_rate) == 0,
{
    lemma2_to64();
    lemma2_to64_rest();
    let seconds = rounding::nearest(length, source_rate, 53);
    let x = rounding::product(seconds, whole(target_rate), 53);
    if length == 0 {
        assert(0 * target_rate == 0) by (nonlinear_arith);
        assert(exact == 0) by (nonlinear_arith)
            requires
                exact > 0 ==> (exact - 1) * source_rate < 0,
                source_rate > 0,
        ;
        assert(0 * pow2(0) == 0) by (nonlinear_arith);
        rounding::lemma_ceiling_at_most(x, 0);
    } else {
        rounding::lemma_near_nearest(length, source_rate, 53);
        rounding::lemma_near_product(seconds, length, source_rate, 1, target_rate, 53);
        rounding::lemma_near_rounded(x, length * target_rate, source_rate, 3, 53, exact);
    }
}

/// `count * numerator / denominator` in double precision, rounded up.
pub open spec fn scaled_up(count: nat, numerator: nat, denominator: nat) -> int {
    rounding::capped(
        rounding::ceiling(
            rounding::quotient(rounding::nearest(numerator * count, 1, 53), whole(denominator), 53),
        ),
    )
}

/// See [`scaled_up`].
pub fn scaled_length(count: i32, numerator: i32, denominator: i32) -> (result: i32)
    requires
        count >= 0,
        numerator > 0,
        denominator > 0,
    ensures
        result == scaled_up(count as nat, numerator as nat, denominator as nat),
        result >= 0,
{
    assert(numerator as int * count as int <= 0x7fff_ffff * 0x7fff_ffff) by (nonlinear_arith)
        requires
            0 <= numerator <= 0x7fff_ffff,
            0 <= count <= 0x7fff_ffff,
    ;
    assert(numerator as int * count as int >= 0) by (nonlinear_arith)
        requires
            0 <= numerator,
            0 <= count,
    ;
    let total: u128 = numerator as u128 * count as u128;
    let product = rounding::round_ratio(total, 1, Precision::Double);
    let divisor = Dyadic { mantissa: denominator as u64, exponent: 0 };
    rounding::ceiling_capped(rounding::divide(product, divisor, Precision::Double))
}

/// Up to 2^52, no rounding shows: the length is the smallest integer that is
/// not below `count * numerator / denominator`.
pub proof fn lemma_scaled_up_exact(count: nat, numerator: nat, denominator: nat, length: nat)
    requires
        denominator > 0,
        numerator * count < 0x10_0000_0000_0000,
        length > 0 ==> (length - 1) * denominator < numerator * count,
        numerator * count <= length * denominator,
    ensures
        scaled_up(count, numerator, denominator) == rounding::capped(length),
{
    let total = numerator * count;
    let x = rounding::nearest(total, 1, 53);
    let q = rounding::quotient(x, whole(denominator), 53);
    lemma2_to64();
    lemma2_to64_rest();
    rounding::lemma_nearest_exact(total, 53);
    if total == 0 {
        assert(length == 0) by (nonlinear_arith)
            requires
                length > 0 ==> (length - 1) * denominator < 0,
                denominator > 0,
        ;
        assert(0 * pow2(0) == 0) by (nonlinear_arith);
        rounding::lemma_ceiling_at_most(q, 0);
        return ;
    }
    if x.exponent >= 0 {
        lemma_pow2_pos(x.exponent as nat);
        let power = pow2(x.exponent as nat);
        assert(x.mantissa * power >= x.mantissa) by (nonlinear_arith)
            requires
                power >= 1,
        ;
    }
    let p = pow2((-x.exponent) as nat);
    assert(x.mantissa == total * p);
    // Not above.
    let limit = rounding::Scaled { mantissa: length, exponent: -x.exponent };
    assert(length <= total) by (nonlinear_arith)
        requires
            length > 0 ==> (length - 1) * denominator < total,
            denominator > 0,
    ;
    assert(x.mantissa <= length * (denominator * p)) by (nonlinear_arith)
        requires
            x.mantissa == total * p,
            total <= length * denominator,
    ;
    assert(rounding::ratio_at_most(x.mantissa, denominator, limit));
    rounding::lemma_nearest_at_most(x.mantissa, denominator, 53, limit);
    rounding::lemma_ceiling_at_most(q, length);
    // Not below.
    lemma_not_below(total, denominator, length, x);
}

/// The half of [`lemma_scaled_up_exact`] that speaks of the rounding down.
proof fn lemma_not_below(total: nat, denominator: nat, length: nat, x: rounding::Scaled)
    requires
        denominator > 0,
        0 < total < 0x10_0000_0000_0000,
        length > 0,
        (length - 1) * denominator < total,
        x.exponent < 0,
        x.mantissa == total * pow2((-x.exponent) as nat),
        x.mantissa > 0,
    ensures
        rounding::ceiling(rounding::quotient(x, whole(denominator), 53)) >= length,
{
    let p = pow2((-x.exponent) as nat);
    let r = rounding::nearest(x.mantissa, denominator, 53);
    let q = rounding::quotient(x, whole(denominator), 53);
    let m = r.mantissa;
    let e = r.exponent;
    let full = pow2(53);
    lemma2_to64();
    lemma2_to64_rest();
    rounding::lemma_nearest_error(x.mantissa, denominator, 53);
    let n = rounding::numerator_at(x.mantissa, e);
    let d = rounding::denominator_at(denominator, e);
    assert(n * full <= d * m * full + n);
    let over = rounding::numerator_at(m, -q.exponent);
    let under = rounding::denominator_at(1, -q.exponent);
    assert(q.exponent == e + x.exponent);
    if q.exponent > 0 {
        let s = pow2(q.exponent as nat);
        lemma_pow2_adds((-x.exponent) as nat, q.exponent as nat);
        lemma_pow2_pos((-x.exponent) as nat);
        assert(over > (length - 1) * under) by (nonlinear_arith)
            requires
                n == total * p,
                d == denominator * (p * s),
                n * full <= d * m * full + n,
                over == m * s,
                under == 1,
                (length - 1) * denominator < total,
                total < full,
                p > 0,
                denominator > 0,
        ;
    } else {
        let s = pow2((-q.exponent) as nat);
        lemma_pow2_pos((-q.exponent) as nat);
        assert(total * s * full <= denominator * m * full + total * s) by {
            if e >= 0 {
                let f = pow2(e as nat);
                lemma_pow2_adds(e as nat, (-q.exponent) as nat);
                lemma_pow2_pos(e as nat);
                assert(total * s * full <= denominator * m * full + total * s) by (nonlinear_arith)
                    requires
                        n == total * (f * s),
                        d == denominator * f,
                        n * full <= d * m * full + n,
                        f > 0,
                ;
            } else {
                lemma_pow2_adds((-x.exponent) as nat, (-e) as nat);
                let f = pow2((-e) as nat);
                assert(n == total * s) by (nonlinear_arith)
                    requires
                        n == total * p * f,
                        s == p * f,
                ;
            }
        }
        assert(over > (length - 1) * under) by (nonlinear_arith)
            requires
                total * s * full <= denominator * m * full + total * s,
                over == m,
                under == s,
                s > 0,
                (length - 1) * denominator < total,
                total < full,
                denominator > 0,
        ;
    }
    lemma_pow2_pos((-q.exponent) as nat);
    assert(under > 0);
    lemma_fundamental_div_mod(over as int, under as int);
    assert(rounding::ceiling(q) >= length) by (nonlinear_arith)
        requires
            over == under * (over / under) + over % under,
            over > (length - 1) * under,
            over % under == 0 ==> rounding::ceiling(q) == over / under,
            over % under != 0 ==> rounding::ceiling(q) == over / under + 1,
            over % under < under,
            under > 0,
    ;
}

/// The size of `milliseconds` at `rate`, in samples, in double precision.
pub open spec fn span(rate: nat, milliseconds: int) -> rounding::Scaled {
    rounding::quotient(
        rounding::nearest(rate * vstd::math::abs(milliseconds), 1, 53),
        whole(1000),
        53,
    )
}

/// `milliseconds` at `rate`, rounded to samples.
pub open spec fn span_samples(rate: nat, milliseconds: int) -> int {
    rounding::signed_half_up(span(rate, milliseconds), milliseconds < 0)
}

/// `milliseconds` at `rate`, rounded to hops of `hop` samples. Against a hop
/// of no samples every duration is beyond all bounds.
pub open spec fn span_hops(rate: nat, milliseconds: int, hop: int) -> int {
    if hop == 0 {
        if milliseconds == 0 {
            0
        } else if milliseconds < 0 {
            i32::MIN as int
        } else {
            i32::MAX as int
        }
    } else {
        rounding::signed_half_up(
            rounding::quotient(span(rate, milliseconds), whole(vstd::math::abs(hop)), 53),
            (milliseconds < 0) != (hop < 0),
        )
    }
}

/// The absolute value of an `i32`.
fn absolute(value: i32) -> (result: u32)
    ensures
        result == vstd::math::abs(value as int),
        result <= 0x8000_0000,
{
    if value < 0 {
        (0 - value as i64) as u32
    } else {
        value as u32
    }
}

/// See [`span`].
fn span_size(rate: i32, milliseconds: i32) -> (result: Dyadic)
    requires
        rate > 0,
    ensures
        result@ == span(rate as nat, milliseconds as int),
        result.mantissa <= 0x20_0000_0000_0000,
        -256 <= result.exponent <= 256,
{
    let magnitude = absolute(milliseconds);
    assert(rate as int * magnitude as int <= 0x7fff_ffff * 0x8000_0000) by (nonlinear_arith)
        requires
            0 <= rate <= 0x7fff_ffff,
            0 <= magnitude <= 0x8000_0000,
    ;
    assert(rate as int * magnitude as int >= 0) by (nonlinear_arith)
        requires
            0 <= rate,
            0 <= magnitude,
    ;
    let total: u128 = rate as u128 * magnitude as u128;
    let product = rounding::round_ratio(total, 1, Precision::Double);
    rounding::divide(product, Dyadic { mantissa: 1000, exponent: 0 }, Precision::Double)
}

/// See [`span_samples`].
pub fn samples_in(rate: i32, milliseconds: i32) -> (result: i32)
    requires
        rate > 0,
    ensures
        result == span_samples(rate as nat, milliseconds as int),
{
    rounding::round_signed(span_size(rate, milliseconds), milliseconds < 0)
}

/// See [`span_hops`].
pub fn hops_in(rate: i32, milliseconds: i32, hop: i32) -> (result: i32)
    requires
        rate > 0,
    ensures
        result == span_hops(rate as nat, milliseconds as int, hop as int),
{
    if hop == 0 {
        if milliseconds == 0 {
            0
        } else if milliseconds < 0 {
            i32::MIN
        } else {
            i32::MAX
        }
    } else {
        let divisor = Dyadic { mantissa: absolute(hop) as u64, exponent: 0 };
        let count = rounding::divide(span_size(rate, milliseconds), divisor, Precision::Double);
        rounding::round_signed(count, (milliseconds < 0) != (hop < 0))
    }
}

/// A duration is rounded to the nearest number of samples, and to the nearest
/// number of hops: the difference is at most half of one, but for the
/// roundings on the way.
pub proof fn lemma_span_nearest(rate: nat, milliseconds: nat, hop: nat)
    requires
        0 < rate <= i32::MAX,
        0 < milliseconds <= 0x10_0000,
        0 < hop,
        rate * milliseconds <= 0x7fff_0000,
        hop <= 0x1_0000,
    ensures
        -501 <= span_samples(rate, milliseconds as int) * 1000 - rate * milliseconds <= 501,
        -(500 * hop + 1) <= span_hops(rate, milliseconds as int, hop as int) * (1000 * hop) - rate
            * milliseconds <= 500 * hop + 1,
{
    let total = rate * milliseconds;
    lemma2_to64();
    lemma2_to64_rest();
    assert(total > 0) by (nonlinear_arith)
        requires
            total == rate * milliseconds,
            rate > 0,
            milliseconds > 0,
    ;
    assert(rate * vstd::math::abs(milliseconds as int) == total);
    let first = rounding::nearest(total, 1, 53);
    let second = span(rate, milliseconds as int);
    let third = rounding::quotient(second, whole(hop), 53);
    rounding::lemma_near_nearest(total, 1, 53);
    rounding::lemma_near_quotient(first, total, 1, 1, 1000, 53);
    assert(1 * 1000 == 1000nat);
    rounding::lemma_near_quotient(second, total, 1000, 3, hop, 53);
    let up1: nat = ((total as int + 999) / 1000) as nat;
    rounding::lemma_near_rounded(second, total, 1000, 3, 53, up1);
    let size: nat = 1000 * hop;
    let up2: nat = ((total as int + size as int - 1) / size as int) as nat;
    assert((up2 as int - 1) * size < total && total <= up2 * size) by {
        lemma_fundamental_div_mod(total as int + size as int - 1, size as int);
        lemma_mod_bound(total as int + size as int - 1, size as int);
        assert((up2 as int - 1) * size == size * up2 - size && up2 * size == size * up2)
            by (nonlinear_arith);
    }
    rounding::lemma_near_rounded(third, total, size, 5, 53, up2);
    let h = rounding::half_up(third) as int;
    assert(h <= i32::MAX) by (nonlinear_arith)
        requires
            2 * (h * size - total) < size + 2,
            size >= 1000,
            total <= 0x7fff_0000,
    ;
    assert(h * (1000 * hop) == h * size);
}

/// A duration of half a sample or more is rounded to at least one sample, one
/// of a quarter or less to none, and rounding does not go past a power of two.
pub proof fn lemma_span_range(rate: nat, milliseconds: nat)
    requires
        0 < rate <= i32::MAX,
        0 < milliseconds <= 5000,
    ensures
        rate * milliseconds >= 500 ==> span_samples(rate, milliseconds as int) >= 1,
        rate * milliseconds <= 250 ==> span_samples(rate, milliseconds as int) == 0,
        rate * milliseconds <= 0x400_0000 * 1000 ==> span_samples(rate, milliseconds as int)
            <= 0x400_0000,
{
    let total = rate * milliseconds;
    assert(0 < total <= 0x7fff_ffff * 5000) by (nonlinear_arith)
        requires
            0 < rate <= 0x7fff_ffff,
            0 < milliseconds <= 5000,
            total == rate * milliseconds,
    ;
    assert(rate * vstd::math::abs(milliseconds as int) == total);
    let x = rounding::nearest(total, 1, 53);
    rounding::lemma_nearest_integer_error(total, 53);
    lemma2_to64();
    lemma2_to64_rest();
    if x.exponent >= 0 {
        lemma_pow2_pos(x.exponent as nat);
        let low = pow2(52);
        let p = pow2(x.exponent as nat);
        assert(low * p >= low) by (nonlinear_arith)
            requires
                p >= 1,
        ;
    }
    let shift = (-x.exponent) as nat;
    let p = pow2(shift);
    lemma_pow2_pos(shift);
    let q = rounding::quotient(x, whole(1000), 53);
    if total >= 500 {
        let half = pow2((shift - 1) as nat);
        lemma_pow2_unfold(shift);
        assert(x.mantissa > 0 && x.mantissa >= 1000 * half) by (nonlinear_arith)
            requires
                x.mantissa == total * p,
                p == 2 * half,
                p > 0,
                total >= 500,
        ;
        if shift == 1 {
            assert(1000 * half == 1000);
        }
        rounding::lemma_nearest_at_least(x.mantissa, 1000, 53, shift - 1);
        rounding::lemma_half_up_positive(q);
    }
    if total <= 250 {
        let limit = rounding::Scaled { mantissa: 1, exponent: shift - 2 };
        if shift >= 2 {
            lemma_pow2_adds(2, (shift - 2) as nat);
            let quarter = pow2((shift - 2) as nat);
            assert(x.mantissa <= 1 * (1000 * quarter)) by (nonlinear_arith)
                requires
                    x.mantissa == total * p,
                    p == 4 * quarter,
                    total <= 250,
            ;
            if shift == 2 {
                assert(1000 * quarter == 1000);
            }
        } else {
            assert(p * pow2((2 - shift) as nat) == 4) by {
                lemma_pow2_adds(shift, (2 - shift) as nat);
            }
            let rest = pow2((2 - shift) as nat);
            assert(x.mantissa * rest <= 1000) by (nonlinear_arith)
                requires
                    x.mantissa == total * p,
                    p * rest == 4,
                    total <= 250,
            ;
        }
        rounding::lemma_nearest_at_most(x.mantissa, 1000, 53, limit);
        rounding::lemma_half_up_zero(q);
    }
    if total <= 0x400_0000 * 1000 {
        let limit = rounding::Scaled { mantissa: 0x400_0000, exponent: shift as int };
        assert(x.mantissa <= 0x400_0000 * (1000 * p)) by (nonlinear_arith)
            requires
                x.mantissa == total * p,
                total <= 0x400_0000 * 1000,
        ;
        rounding::lemma_nearest_at_most(x.mantissa, 1000, 53, limit);
        rounding::lemma_ceiling_at_most(q, 0x400_0000);
    }
}

/// The source frame for target frame `index`: `index * source / target` in
/// single precision, rounded down.
pub open spec fn nearest_index(index: nat, source: nat, target: nat) -> int {
    rounding::capped(
        rounding::floor(
            rounding::quotient(
                rounding::product(
                    rounding::nearest(index, 1, 24),
                    rounding::nearest(source, 1, 24),
                    24,
                ),
                rounding::nearest(target, 1, 24),
                24,
            ),
        ),
    )
}

/// The source frame of each target frame, see [`nearest_index`].
pub fn nearest_indices(source: i32, target: i32) -> (indices: Vec<i32>)
    requires
        source >= 0,
        target > 0,
    ensures
        indices@.len() == target,
        forall|i: int|
            0 <= i < target ==> #[trigger] indices@[i] == nearest_index(
                i as nat,
                source as nat,
                target as nat,
            ),
{
    let scale = rounding::round_ratio(source as u128, 1, Precision::Single);
    let divisor = rounding::round_ratio(target as u128, 1, Precision::Single);
    proof {
        rounding::lemma_nearest_positive(target as nat, 1, 24);
    }
    let mut indices: Vec<i32> = Vec::new();
    let mut index: i32 = 0;
    while index < target
        invariant
            0 <= index <= target,
            scale@ == rounding::nearest(source as nat, 1, 24),
            scale.mantissa <= 0x20_0000_0000_0000,
            -128 <= scale.exponent <= 128,
            divisor@ == rounding::nearest(target as nat, 1, 24),
            0 < divisor.mantissa <= 0x20_0000_0000_0000,
            -128 <= divisor.exponent <= 128,
            indices@.len() == index,
            forall|i: int|
                0 <= i < index ==> #[trigger] indices@[i] == nearest_index(
                    i as nat,
                    source as nat,
                    target as nat,
                ),
        decreases target - index,
    {
        let position = rounding::round_ratio(index as u128, 1, Precision::Single);
        let product = rounding::multiply(position, scale, Precision::Single);
        let quotient = rounding::divide(product, divisor, Precision::Single);
        indices.push(rounding::floor_capped(quotient));
        index = index + 1;
    }
    indices
}

/// Below 2^24, no rounding shows: the source frame is the whole part of
/// `index * source / target`.
pub proof fn lemma_nearest_index_exact(index: nat, source: nat, target: nat)
    requires
        index < 0x100_0000,
        source < 0x100_0000,
        0 < target < 0x100_0000,
        index * source < 0x100_0000,
    ensures
        nearest_index(index, source, target) == index as int * source as int / target as int,
{
    let a = rounding::nearest(index, 1, 24);
    let b = rounding::nearest(source, 1, 24);
    let c = rounding::nearest(target, 1, 24);
    let product = rounding::product(a, b, 24);
    let total = index * source;
    lemma2_to64();
    rounding::lemma_nearest_exact(index, 24);
    rounding::lemma_nearest_exact(source, 24);
    rounding::lemma_nearest_exact(target, 24);
    lemma_small_exponent(target, c);
    if total == 0 {
        assert(index == 0 || source == 0) by (nonlinear_arith)
            requires
                index * source == 0,
        ;
        assert(a.mantissa * b.mantissa == 0) by (nonlinear_arith)
            requires
                a.mantissa == 0 || b.mantissa == 0,
        ;
        rounding::lemma_floor_zero(rounding::quotient(product, c, 24));
        lemma_div_of0(target as int);
        return ;
    }
    assert(index > 0 && source > 0) by (nonlinear_arith)
        requires
            index * source > 0,
    ;
    lemma_small_exponent(index, a);
    lemma_small_exponent(source, b);
    let p1 = pow2((-a.exponent) as nat);
    let p2 = pow2((-b.exponent) as nat);
    let shift: nat = (-a.exponent - b.exponent) as nat;
    lemma_pow2_adds((-a.exponent) as nat, (-b.exponent) as nat);
    assert(a.mantissa * b.mantissa == total * pow2(shift)) by (nonlinear_arith)
        requires
            a.mantissa == index * p1,
            b.mantissa == source * p2,
            pow2(shift) == p1 * p2,
            total == index * source,
    ;
    rounding::lemma_nearest_shifted(total, shift, 24);
    assert(product == rounding::nearest(total, 1, 24));
    rounding::lemma_nearest_exact(total, 24);
    lemma_small_exponent(total, product);
    lemma_whole_part(total, target, product, c);
}

/// The whole part of a quotient of integers below 2^24 is not changed by the
/// rounding.
proof fn lemma_whole_part(total: nat, target: nat, x: rounding::Scaled, y: rounding::Scaled)
    requires
        0 < total < 0x100_0000,
        0 < target < 0x100_0000,
        x.exponent <= 0,
        x.mantissa == total * pow2((-x.exponent) as nat),
        y.exponent <= 0,
        y.mantissa == target * pow2((-y.exponent) as nat),
    ensures
        rounding::capped(rounding::floor(rounding::quotient(x, y, 24))) == total as int
            / target as int,
{
    lemma2_to64();
    let d: nat = (-x.exponent) as nat;
    let c: nat = (-y.exponent) as nat;
    let r = rounding::nearest(x.mantissa, y.mantissa, 24);
    let q = rounding::quotient(x, y, 24);
    let e = r.exponent;
    let m = r.mantissa;
    lemma_pow2_pos(d);
    lemma_pow2_pos(c);
    assert(x.mantissa > 0 && y.mantissa > 0) by (nonlinear_arith)
        requires
            x.mantissa == total * pow2(d),
            y.mantissa == target * pow2(c),
            pow2(d) > 0,
            pow2(c) > 0,
            total > 0,
            target > 0,
    ;
    rounding::lemma_exponent_exists(x.mantissa, y.mantissa, 24);
    let n = rounding::numerator_at(x.mantissa, e);
    let den = rounding::denominator_at(y.mantissa, e);
    let low: nat = 0x80_0000;
    assert(low * den <= n);
    assert(q.exponent == e - d + c);
    // Both sides of the fraction, with a common factor.
    let over: nat = if e >= 0 {
        d
    } else {
        (d - e) as nat
    };
    let under: nat = if e >= 0 {
        c + e as nat
    } else {
        c
    };
    assert(n == total * pow2(over)) by {
        if e < 0 {
            lemma_pow2_adds(d, (-e) as nat);
            let f = pow2((-e) as nat);
            let g = pow2(d);
            assert(total * g * f == total * (g * f)) by (nonlinear_arith);
        }
    }
    assert(den == target * pow2(under)) by {
        if e >= 0 {
            lemma_pow2_adds(c, e as nat);
            let f = pow2(e as nat);
            let g = pow2(c);
            assert(target * g * f == target * (g * f)) by (nonlinear_arith);
        }
    }
    assert(over - under == -q.exponent);
    lemma_pow2_pos(over);
    lemma_pow2_pos(under);
    if q.exponent > 0 {
        lemma_pow2_adds(over, q.exponent as nat);
        lemma_pow2_unfold(q.exponent as nat);
        lemma_pow2_pos((q.exponent - 1) as nat);
        let f = pow2(over);
        let g = pow2((q.exponent - 1) as nat);
        assert(false) by (nonlinear_arith)
            requires
                low * den <= n,
                n == total * f,
                den == target * (f * (2 * g)),
                low == 0x80_0000,
                total < 0x100_0000,
                target > 0,
                f > 0,
                g > 0,
        ;
    }
    let scale = pow2((-q.exponent) as nat);
    let factor = pow2(under);
    lemma_pow2_adds((-q.exponent) as nat, under);
    lemma_pow2_pos((-q.exponent) as nat);
    let k = n as int / den as int;
    let rest = n as int % den as int;
    lemma_fundamental_div_mod(n as int, den as int);
    lemma_mod_bound(n as int, den as int);
    let whole = total as int / target as int;
    lemma_fundamental_div_mod(total as int, target as int);
    lemma_mod_bound(total as int, target as int);
    let left = total as int % target as int;
    assert(total + 1 <= (whole + 1) * target && whole * target <= total) by (nonlinear_arith)
        requires
            total == target * whole + left,
            0 <= left < target,
    ;
    assert((whole + 1) * scale == whole * scale + scale) by (nonlinear_arith);
    assert(den > 0) by (nonlinear_arith)
        requires
            den == target * factor,
            target > 0,
            factor > 0,
    ;
    assert(m == k && 2 * rest <= den || m == k + 1 && 2 * rest >= den);
    // Not below.
    assert(whole * scale <= k) by (nonlinear_arith)
        requires
            n == total * (scale * factor),
            den == target * factor,
            n == den * k + rest,
            rest < den,
            whole * target <= total,
            scale > 0,
            factor > 0,
            target > 0,
    ;
    // Not above.
    assert(k < (whole + 1) * scale) by (nonlinear_arith)
        requires
            n == total * (scale * factor),
            den == target * factor,
            n == den * k + rest,
            rest >= 0,
            total + 1 <= (whole + 1) * target,
            scale > 0,
            factor > 0,
            target > 0,
    ;
    if m == k + 1 && 2 * rest >= den {
        assert(m < (whole + 1) * scale) by (nonlinear_arith)
            requires
                n == total * (scale * factor),
                den == target * factor,
                n == den * k + rest,
                rest < den,
                2 * rest >= den,
                m == k + 1,
                low * den <= n,
                low == 0x80_0000,
                total < 0x100_0000,
                total + 1 <= (whole + 1) * target,
                k < (whole + 1) * scale,
                scale > 0,
                factor > 0,
                target > 0,
        ;
    }
    let numerator = rounding::numerator_at(m, -q.exponent);
    let denominator = rounding::denominator_at(1, -q.exponent);
    assert(numerator == m);
    assert(denominator == scale);
    lemma_fundamental_div_mod_converse(
        m as int,
        scale as int,
        whole,
        m - whole * scale,
    );
    lemma_div_is_ordered_by_denominator(total as int, 1, target as int);
    lemma_div_basics_2(total as int);
}

/// Every target frame gets a source frame that is there.
pub proof fn lemma_index_in_range(index: nat, source: nat, target: nat)
    requires
        index < target <= 0x40_0000,
        0 < source < 0x100_0000,
    ensures
        0 <= nearest_index(index, source, target) < source,
{
    let a = rounding::nearest(index, 1, 24);
    let b = rounding::nearest(source, 1, 24);
    let c = rounding::nearest(target, 1, 24);
    lemma2_to64();
    rounding::lemma_nearest_exact(index, 24);
    rounding::lemma_nearest_exact(source, 24);
    rounding::lemma_nearest_exact(target, 24);
    let product = rounding::product(a, b, 24);
    let raw = rounding::nearest(a.mantissa * b.mantissa, 1, 24);
    let quotient = rounding::quotient(product, c, 24);
    if index == 0 {
        assert(0 * b.mantissa == 0) by (nonlinear_arith);
        rounding::lemma_floor_zero(quotient);
        return ;
    }
    lemma_small_exponent(index, a);
    lemma_small_exponent(source, b);
    lemma_small_exponent(target, c);
    let m = b.mantissa;
    let p1 = pow2((-a.exponent) as nat);
    let p3 = pow2((-c.exponent) as nat);
    lemma_pow2_pos((-a.exponent) as nat);
    lemma_pow2_pos((-c.exponent) as nat);
    let low: nat = 0x80_0000;
    // Even with the rounding of the product, the exact quotient stays below
    // the number before `source`.
    assert(index * m * (low + 1) <= low * ((m - 1) * target)) by {
        assert(index * m * (low + 1) <= (target - 1) * m * (low + 1)) by (nonlinear_arith)
            requires
                index <= target - 1,
        ;
        assert((target - 1) * m * (low + 1) + (m * (low - target + 1) - low * target) == low * ((m
            - 1) * target)) by (nonlinear_arith);
        assert(m * (low - target + 1) >= low * target) by (nonlinear_arith)
            requires
                m >= low,
                low - target + 1 >= target,
        ;
    }
    let n = a.mantissa * m;
    assert(n == index * m * p1) by (nonlinear_arith)
        requires
            n == a.mantissa * m,
            a.mantissa == index * p1,
    ;
    rounding::lemma_nearest_integer_error(n, 24);
    rounding::lemma_nearest_positive(target, 1, 24);
    assert(n > 0) by (nonlinear_arith)
        requires
            n == a.mantissa * m,
            a.mantissa >= low,
            m >= low,
            low > 0,
    ;
    let big = raw.mantissa;
    let e = raw.exponent;
    let t = c.exponent - e - a.exponent;
    let rhs = (m - 1) * c.mantissa;
    assert(rhs == (m - 1) * target * p3) by (nonlinear_arith)
        requires
            rhs == (m - 1) * c.mantissa,
            c.mantissa == target * p3,
    ;
    let limit = rounding::Scaled { mantissa: (m - 1) as nat, exponent: t };
    if e >= 0 {
        let pe = pow2(e as nat);
        lemma_pow2_pos(e as nat);
        let left = big * pe;
        assert(left * low <= n * (low + 1)) by (nonlinear_arith)
            requires
                left <= n + pe,
                low * pe <= n,
        ;
        assert(left * p3 <= rhs * p1) by (nonlinear_arith)
            requires
                left * low <= n * (low + 1),
                n == index * m * p1,
                index * m * (low + 1) <= low * ((m - 1) * target),
                rhs == (m - 1) * target * p3,
                low > 0,
                p1 > 0,
                p3 > 0,
        ;
        // Cancel the powers of two.
        if t >= 0 {
            let pt = pow2(t as nat);
            lemma_pow2_adds(t as nat, e as nat);
            lemma_pow2_adds((t + e) as nat, (-c.exponent) as nat);
            assert(pt * pe * p3 == p1);
            assert(big <= rhs * pt) by (nonlinear_arith)
                requires
                    big * pe * p3 <= rhs * p1,
                    pt * pe * p3 == p1,
                    pe > 0,
                    p3 > 0,
            ;
            assert((m - 1) * (c.mantissa * pt) == rhs * pt) by (nonlinear_arith)
                requires
                    rhs == (m - 1) * c.mantissa,
            ;
            if t == 0 {
                assert(c.mantissa * pt == c.mantissa) by (nonlinear_arith)
                    requires
                        pt == 1,
                ;
            }
        } else {
            let pt = pow2((-t) as nat);
            lemma_pow2_adds((-t) as nat, (-a.exponent) as nat);
            lemma_pow2_adds(e as nat, (-c.exponent) as nat);
            assert(pt * p1 == pe * p3);
            assert(big * pt <= rhs) by (nonlinear_arith)
                requires
                    big * pe * p3 <= rhs * p1,
                    pt * p1 == pe * p3,
                    p1 > 0,
            ;
        }
    } else {
        let q = pow2((-e) as nat);
        lemma_pow2_pos((-e) as nat);
        assert(index * m <= (m - 1) * target) by (nonlinear_arith)
            requires
                index * m * (low + 1) <= low * ((m - 1) * target),
                index * m >= 0,
                low > 0,
        ;
        assert(big * p3 <= rhs * (p1 * q)) by (nonlinear_arith)
            requires
                big == n * q,
                n == index * m * p1,
                index * m <= (m - 1) * target,
                rhs == (m - 1) * target * p3,
                p1 > 0,
                p3 > 0,
                q > 0,
        ;
        if t >= 0 {
            let pt = pow2(t as nat);
            lemma_pow2_adds(t as nat, (-c.exponent) as nat);
            lemma_pow2_adds((-a.exponent) as nat, (-e) as nat);
            assert(pt * p3 == p1 * q);
            assert(big <= rhs * pt) by (nonlinear_arith)
                requires
                    big * p3 <= rhs * (p1 * q),
                    pt * p3 == p1 * q,
                    p3 > 0,
            ;
            assert((m - 1) * (c.mantissa * pt) == rhs * pt) by (nonlinear_arith)
                requires
                    rhs == (m - 1) * c.mantissa,
            ;
            if t == 0 {
                assert(c.mantissa * pt == c.mantissa) by (nonlinear_arith)
                    requires
                        pt == 1,
                ;
            }
        } else {
            let pt = pow2((-t) as nat);
            lemma_pow2_adds((-a.exponent) as nat, (-e) as nat);
            lemma_pow2_adds((-t) as nat, (-a.exponent - e) as nat);
            assert(pt * (p1 * q) == p3);
            assert(p1 * q > 0) by (nonlinear_arith)
                requires
                    p1 > 0,
                    q > 0,
            ;
            assert(big * pt <= rhs) by (nonlinear_arith)
                requires
                    big * p3 <= rhs * (p1 * q),
                    pt * (p1 * q) == p3,
                    p1 * q > 0,
            ;
        }
    }
    assert(rounding::ratio_at_most(big, c.mantissa, limit));
    rounding::lemma_nearest_at_most(big, c.mantissa, 24, limit);
    rounding::lemma_floor_below(quotient, m, b.exponent, source);
}

/// An integer below the largest of full precision has no exponent above zero.
proof fn lemma_small_exponent(num: nat, x: rounding::Scaled)
    requires
        0 < num < 0x100_0000,
        0x80_0000 <= x.mantissa,
        if x.exponent >= 0 {
            x.mantissa * pow2(x.exponent as nat) == num
        } else {
            x.mantissa == num * pow2((-x.exponent) as nat)
        },
    ensures
        x.exponent <= 0,
        x.mantissa == num * pow2((-x.exponent) as nat),
{
    lemma2_to64();
    if x.exponent > 0 {
        lemma_pow2_unfold(x.exponent as nat);
        lemma_pow2_pos((x.exponent - 1) as nat);
        let h = pow2((x.exponent - 1) as nat);
        assert(x.mantissa * (2 * h) >= 0x100_0000) by (nonlinear_arith)
            requires
                x.mantissa >= 0x80_0000,
                h >= 1,
        ;
    }
    if x.exponent == 0 {
        assert(x.mantissa * pow2(0) == x.mantissa) by (nonlinear_arith)
            requires
                pow2(0) == 1,
        ;
        assert(num * pow2(0) == num) by (nonlinear_arith)
            requires
                pow2(0) == 1,
        ;
    }
}

/// The source frame stands where the target frame does: `index / target` of the
/// way through the source, but for the rounding on the way.
pub proof fn lemma_nearest_index_near(index: nat, source: nat, target: nat)
    requires
        0 < index < 0x100_0000,
        0 < source < 0x100_0000,
        0 < target < 0x100_0000,
        nearest_index(index, source, target) < i32::MAX,
    ensures
        ({
            let found = nearest_index(index, source, target);
            let exact = (index * source) as int;
            &&& found * target * 0x100_0000 <= exact * 0x100_0005
            &&& (found + 1) * target * 0x100_0000 > exact * 0xff_fffb
        }),
{
    lemma2_to64();
    let a = rounding::nearest(index, 1, 24);
    let b = rounding::nearest(source, 1, 24);
    let c = rounding::nearest(target, 1, 24);
    rounding::lemma_near_nearest(index, 1, 24);
    rounding::lemma_near_nearest(source, 1, 24);
    rounding::lemma_near_nearest(target, 1, 24);
    rounding::lemma_nearest_exact(source, 24);
    rounding::lemma_nearest_exact(target, 24);
    lemma_small_exponent(source, b);
    lemma_small_exponent(target, c);
    let p: nat = rounding::power(-b.exponent);
    let q: nat = rounding::power(-c.exponent);
    assert(p == pow2((-b.exponent) as nat) && q == pow2((-c.exponent) as nat));
    lemma_pow2_pos((-b.exponent) as nat);
    lemma_pow2_pos((-c.exponent) as nat);
    let product = rounding::product(a, b, 24);
    rounding::lemma_near_multiplied(a, index, 1, 1, b, 24);
    let exact = index * source;
    assert(index * b.mantissa * rounding::power(b.exponent) == exact * p && 1 * p == p)
        by (nonlinear_arith)
        requires
            b.mantissa == source * p,
            rounding::power(b.exponent) == 1,
            exact == index * source,
    ;
    assert(rounding::near(product, exact * p, 1 * p, 3, 24));
    rounding::lemma_near_reduced(product, exact, 1, 3, 24, p);
    let quotient = rounding::quotient(product, c, 24);
    rounding::lemma_near_divided(product, exact, 1, 3, c, 24);
    assert(1 * rounding::power(c.exponent) * c.mantissa == target * q) by (nonlinear_arith)
        requires
            c.mantissa == target * q,
            rounding::power(c.exponent) == 1,
    ;
    rounding::lemma_near_reduced(quotient, exact, target, 5, 24, q);
    rounding::lemma_near_floor(quotient, exact, target, 5, 24);
}

/// A negative duration is as long as the positive one, in the other direction.
pub proof fn lemma_span_negated(rate: nat, milliseconds: int, hop: int)
    requires
        milliseconds > 0,
        hop > 0,
    ensures
        span_samples(rate, milliseconds) < i32::MAX ==> span_samples(rate, -milliseconds)
            == -span_samples(rate, milliseconds),
        span_hops(rate, milliseconds, hop) < i32::MAX ==> {
            &&& span_hops(rate, -milliseconds, hop) == -span_hops(rate, milliseconds, hop)
            &&& span_hops(rate, milliseconds, -hop) == -span_hops(rate, milliseconds, hop)
            &&& span_hops(rate, -milliseconds, -hop) == span_hops(rate, milliseconds, hop)
        },
        span_hops(rate, milliseconds, 0) == i32::MAX,
        span_hops(rate, -milliseconds, 0) == i32::MIN,
{
}

} // verus!
