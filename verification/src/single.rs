//! Single-precision numbers as bit patterns.
//!
//! Options, thresholds and signal levels arrive in single precision. Here
//! they are held as their 32-bit patterns, which is enough to compare them
//! and to turn a duration into a number of samples.

use crate::rounding;
use crate::rounding::{Dyadic, Precision};
use vstd::arithmetic::div_mod::*;
use vstd::arithmetic::power2::*;
use vstd::prelude::*;

verus! {

/// The bit pattern of a single-precision number.
#[derive(Clone, Copy, Debug, PartialEq, Eq, Structural)]
pub struct Single {
    pub bits: u32,
}

/// The pattern of infinity, without its sign.
pub const INFINITY: u32 = 0x7f80_0000;

/// The pattern of one.
pub const ONE: u32 = 0x3f80_0000;

impl Single {
    /// Whether the sign bit is set.
    pub open spec fn negative(self) -> bool {
        self.bits >= 0x8000_0000
    }

    /// The pattern without its sign bit.
    pub open spec fn magnitude(self) -> int {
        if self.negative() {
            self.bits - 0x8000_0000
        } else {
            self.bits as int
        }
    }

    /// Whether the pattern stands for no number.
    pub open spec fn is_nan(self) -> bool {
        self.magnitude() > INFINITY
    }

    /// Whether the pattern stands for a number below infinity in size.
    pub open spec fn finite(self) -> bool {
        self.magnitude() < INFINITY
    }

    /// The size of a finite number, as a mantissa and an exponent.
    pub open spec fn size(self) -> rounding::Scaled {
        let field = self.magnitude() / 0x80_0000;
        let fraction = self.magnitude() % 0x80_0000;
        if field == 0 {
            rounding::Scaled { mantissa: fraction as nat, exponent: -149 }
        } else {
            rounding::Scaled { mantissa: (0x80_0000 + fraction) as nat, exponent: field - 150 }
        }
    }

    /// A finite number as a multiple of the smallest positive one.
    pub open spec fn units(self) -> int {
        let size = self.size().mantissa * pow2((self.size().exponent + 149) as nat);
        if self.negative() {
            -size
        } else {
            size as int
        }
    }

    /// The position of a number in the order of all numbers. Both zeros have
    /// the same position.
    pub open spec fn position(self) -> int {
        if self.negative() {
            -self.magnitude()
        } else {
            self.magnitude()
        }
    }

    /// Whether `self` is a number below the number `other`.
    pub open spec fn less(self, other: Single) -> bool {
        !self.is_nan() && !other.is_nan() && self.position() < other.position()
    }

    /// Whether `self` is a number that is at least the number `other`.
    pub open spec fn at_least(self, other: Single) -> bool {
        !self.is_nan() && !other.is_nan() && self.position() >= other.position()
    }

    /// Whether the two are the same number.
    pub open spec fn equals(self, other: Single) -> bool {
        !self.is_nan() && !other.is_nan() && self.position() == other.position()
    }

    /// The pattern without its sign bit.
    fn magnitude_bits(self) -> (result: u32)
        ensures
            result == self.magnitude(),
    {
        if self.bits >= 0x8000_0000 {
            self.bits - 0x8000_0000
        } else {
            self.bits
        }
    }

    /// See [`Single::position`].
    fn position_number(self) -> (result: i64)
        ensures
            result == self.position(),
            -0x8000_0000 < result < 0x8000_0000,
    {
        if self.bits >= 0x8000_0000 {
            0 - (self.bits - 0x8000_0000) as i64
        } else {
            self.bits as i64
        }
    }

    /// Whether the pattern stands for no number.
    pub fn not_a_number(self) -> (result: bool)
        ensures
            result == self.is_nan(),
    {
        self.magnitude_bits() > INFINITY
    }

    /// Whether `self` is a number below the number `other`.
    pub fn less_than(self, other: Single) -> (result: bool)
        ensures
            result == self.less(other),
    {
        !self.not_a_number() && !other.not_a_number() && self.position_number()
            < other.position_number()
    }

    /// Whether `self` is a number that is at least the number `other`.
    pub fn not_less_than(self, other: Single) -> (result: bool)
        ensures
            result == self.at_least(other),
    {
        !self.not_a_number() && !other.not_a_number() && self.position_number()
            >= other.position_number()
    }

    /// Whether the two are the same number.
    pub fn same_number(self, other: Single) -> (result: bool)
        ensures
            result == self.equals(other),
    {
        !self.not_a_number() && !other.not_a_number() && self.position_number()
            == other.position_number()
    }

    /// The size of a finite number.
    fn size_parts(self) -> (result: Dyadic)
        requires
            self.finite(),
        ensures
            result@ == self.size(),
            result.mantissa < 0x100_0000,
            -149 <= result.exponent <= 104,
    {
        let magnitude: u32 = self.magnitude_bits();
        let field: u32 = magnitude / 0x80_0000;
        let fraction: u32 = magnitude % 0x80_0000;
        if field == 0 {
            Dyadic { mantissa: fraction as u64, exponent: -149 }
        } else {
            Dyadic { mantissa: (0x80_0000 + fraction) as u64, exponent: field as i32 - 150 }
        }
    }

    /// The size of the product of `self` with `factor`, both in single
    /// precision.
    pub open spec fn scaled_size(self, factor: nat) -> rounding::Scaled {
        rounding::product(self.size(), rounding::nearest(factor, 1, 24), 24)
    }

    /// The product of `self` and `factor`, both in single precision, with the
    /// fraction dropped and limited to the range of `i32`. What is no number
    /// gives 0.
    pub open spec fn times(self, factor: nat) -> int {
        if self.is_nan() || factor == 0 {
            0
        } else if !self.finite() {
            if self.negative() {
                i32::MIN as int
            } else {
                i32::MAX as int
            }
        } else {
            let whole = rounding::floor(self.scaled_size(factor));
            if !self.negative() {
                rounding::capped(whole)
            } else if -whole < i32::MIN {
                i32::MIN as int
            } else {
                -whole
            }
        }
    }

    /// See [`Single::times`].
    pub fn times_count(self, factor: i32) -> (result: i32)
        requires
            factor >= 0,
        ensures
            result == self.times(factor as nat),
    {
        let magnitude = self.magnitude_bits();
        if magnitude > INFINITY || factor == 0 {
            return 0;
        }
        if magnitude == INFINITY {
            if self.bits >= 0x8000_0000 {
                return i32::MIN;
            }
            return i32::MAX;
        }
        let scale = rounding::round_ratio(factor as u128, 1, Precision::Single);
        let size = rounding::multiply(self.size_parts(), scale, Precision::Single);
        if self.bits >= 0x8000_0000 {
            rounding::floor_negated(size)
        } else {
            rounding::floor_capped(size)
        }
    }

    /// A number that is not negative gives a count that is not negative.
    pub proof fn lemma_times_nonnegative(self, factor: nat)
        requires
            self.at_least(Single { bits: 0 }),
        ensures
            0 <= self.times(factor) <= i32::MAX,
    {
        if self.finite() && self.negative() && factor > 0 {
            assert(self.magnitude() == 0);
            assert(0nat * rounding::nearest(factor, 1, 24).mantissa == 0) by (nonlinear_arith);
            rounding::lemma_floor_zero(self.scaled_size(factor));
        }
    }

    /// The product with a negative number is that with the positive one, in the
    /// other direction. What is beyond all numbers gives the outermost counts, and
    /// what is no number gives zero.
    pub proof fn lemma_times_negated(self, factor: nat)
        requires
            factor > 0,
            self.bits < 0x8000_0000,
        ensures
            ({
                let negated = Single { bits: (self.bits + 0x8000_0000) as u32 };
                &&& self.times(factor) < i32::MAX ==> negated.times(factor) == -self.times(factor)
                &&& self.bits == 0x7f80_0000 ==> self.times(factor) == i32::MAX
                    && negated.times(factor) == i32::MIN
                &&& self.bits > 0x7f80_0000 ==> self.times(factor) == 0
            }),
    {
    }

    /// Zero times a count is zero.
    pub proof fn lemma_times_zero(self, factor: nat)
        requires
            self.equals(Single { bits: 0 }),
        ensures
            self.times(factor) == 0,
    {
        if factor > 0 {
            assert(self.magnitude() == 0);
            assert(0nat * rounding::nearest(factor, 1, 24).mantissa == 0) by (nonlinear_arith);
            rounding::lemma_floor_zero(self.scaled_size(factor));
        }
    }

    /// A number times a count is the product with its fraction dropped, but for
    /// the rounding of the product to single precision. The number is
    /// `mantissa * 2^exponent`.
    pub proof fn lemma_times_product(self, factor: nat)
        requires
            self.finite(),
            !self.negative(),
            self.size().mantissa > 0,
            0 < factor < 0x100_0000,
            self.times(factor) < i32::MAX,
        ensures
            ({
                let size = self.size();
                let over = size.mantissa * rounding::power(size.exponent) * factor;
                let under = rounding::power(-size.exponent);
                let count = self.times(factor);
                &&& count * under * 0x100_0000 <= over * 0x100_0002
                &&& (count + 1) * under * 0x100_0000 > over * 0xff_fffe
            }),
    {
        lemma2_to64();
        let size = self.size();
        let e = size.exponent;
        let num = size.mantissa * rounding::power(e);
        let den = rounding::power(-e);
        let whole = rounding::Scaled { mantissa: factor, exponent: 0 };
        let rounded = rounding::nearest(factor, 1, 24);
        rounding::lemma_nearest_exact(factor, 24);
        if rounded.exponent > 0 {
            lemma_pow2_unfold(rounded.exponent as nat);
            lemma_pow2_pos((rounded.exponent - 1) as nat);
            let h = pow2((rounded.exponent - 1) as nat);
            assert(rounded.mantissa * (2 * h) >= 0x100_0000) by (nonlinear_arith)
                requires
                    rounded.mantissa >= 0x80_0000,
                    h >= 1,
            ;
        }
        let shift = (-rounded.exponent) as nat;
        let total = size.mantissa * factor;
        assert(total > 0) by (nonlinear_arith)
            requires
                total == size.mantissa * factor,
                size.mantissa > 0,
                factor > 0,
        ;
        assert(rounded.mantissa == factor * pow2(shift)) by {
            if rounded.exponent == 0 {
                assert(rounded.mantissa * 1 == factor * 1);
            }
        }
        assert(size.mantissa * rounded.mantissa == total * pow2(shift)) by (nonlinear_arith)
            requires
                rounded.mantissa == factor * pow2(shift),
                total == size.mantissa * factor,
        ;
        rounding::lemma_nearest_shifted(total, shift, 24);
        let x = self.scaled_size(factor);
        assert(x == rounding::product(size, whole, 24));
        assert(rounding::near(size, num, den, 0, 24)) by {
            assert(num * den == num * den);
        }
        rounding::lemma_near_product(size, num, den, 0, factor, 24);
        if e < 0 {
            lemma_pow2_pos((-e) as nat);
        }
        rounding::lemma_near_floor(x, num * factor, den, 2, 24);
    }

    /// A share of a whole number of up to 24 bits is not more than it, and all
    /// of it is that number.
    pub proof fn lemma_times_share(self, factor: nat)
        requires
            self.at_least(Single { bits: 0 }),
            (Single { bits: ONE }).at_least(self),
            factor <= 0x100_0000,
        ensures
            0 <= self.times(factor) <= factor,
            self.equals(Single { bits: ONE }) ==> self.times(factor) == factor,
    {
        self.lemma_times_nonnegative(factor);
        lemma2_to64();
        if factor > 0 && !self.negative() {
            let size = self.size();
            let scale = rounding::nearest(factor, 1, 24);
            rounding::lemma_nearest_exact(factor, 24);
            let e = size.exponent;
            let m = size.mantissa;
            let p = pow2((-e) as nat);
            lemma_pow2_pos((-e) as nat);
            assert(self.magnitude() <= 0x3f80_0000);
            // The share is at most one.
            if self.magnitude() / 0x80_0000 == 127 {
                assert(m == 0x80_0000 && e == -23);
            } else {
                assert(m < 0x100_0000 && e <= -24);
                if -e > 24 {
                    lemma_pow2_strictly_increases(24, (-e) as nat);
                }
            }
            assert(m <= p);
            let limit = rounding::Scaled { mantissa: scale.mantissa, exponent: -e };
            assert(m * scale.mantissa <= scale.mantissa * (1 * p)) by (nonlinear_arith)
                requires
                    m <= p,
            ;
            rounding::lemma_nearest_at_most(m * scale.mantissa, 1, 24, limit);
            let product = self.scaled_size(factor);
            assert(rounding::at_most(product, scale));
            rounding::lemma_at_most_integer(product, scale, factor);
            rounding::lemma_ceiling_at_most(product, factor);
            if self.equals(Single { bits: ONE }) {
                assert(self.magnitude() == 0x3f80_0000);
                let low: nat = 0x80_0000;
                let total = low * scale.mantissa;
                assert(m == low);
                assert(pow2(23) == low);
                assert(rounding::has_exponent(total, 1, 24, 23)) by {
                    assert(1 * low == low);
                    assert(low * low <= low * scale.mantissa) by (nonlinear_arith)
                        requires
                            low <= scale.mantissa,
                    ;
                    assert(low * scale.mantissa < 0x100_0000 * low) by (nonlinear_arith)
                        requires
                            scale.mantissa < 0x100_0000,
                            low > 0,
                    ;
                }
                rounding::lemma_exponent_of(total, 1, 24, 23);
                lemma_div_multiples_vanish(scale.mantissa as int, low as int);
                lemma_mod_multiples_basic(scale.mantissa as int, low as int);
                assert(scale.mantissa * low == total) by (nonlinear_arith)
                    requires
                        total == low * scale.mantissa,
                ;
                assert(1 * low == low);
                assert(product == scale);
            }
        }
    }

    /// The order of patterns is the order of the numbers they stand for.
    pub proof fn lemma_less_is_numeric(self, other: Single)
        requires
            self.finite(),
            other.finite(),
        ensures
            self.less(other) <==> self.units() < other.units(),
            self.at_least(other) <==> self.units() >= other.units(),
            self.equals(other) <==> self.units() == other.units(),
    {
        if self.magnitude() < other.magnitude() {
            lemma_units_increase(self, other);
        } else if other.magnitude() < self.magnitude() {
            lemma_units_increase(other, self);
        }
        lemma_units_zero(self);
        lemma_units_zero(other);
    }
}

/// The size of a finite number in units.
spec fn size_units(magnitude: int) -> int {
    let field = magnitude / 0x80_0000;
    let fraction = magnitude % 0x80_0000;
    if field == 0 {
        fraction
    } else {
        (0x80_0000 + fraction) * pow2((field - 1) as nat)
    }
}

proof fn lemma_size_units(x: Single)
    requires
        x.finite(),
    ensures
        x.units() == if x.negative() {
            -size_units(x.magnitude())
        } else {
            size_units(x.magnitude())
        },
        size_units(x.magnitude()) >= 0,
        size_units(x.magnitude()) == 0 <==> x.magnitude() == 0,
{
    let field = x.magnitude() / 0x80_0000;
    let fraction = x.magnitude() % 0x80_0000;
    lemma2_to64();
    if field == 0 {
        assert(fraction * pow2(0) == fraction) by (nonlinear_arith)
            requires
                pow2(0) == 1,
        ;
    } else {
        lemma_pow2_pos((field - 1) as nat);
        let p = pow2((field - 1) as nat) as int;
        assert((0x80_0000 + fraction) * p > 0) by (nonlinear_arith)
            requires
                fraction >= 0,
                p > 0,
        ;
    }
}

proof fn lemma_units_zero(x: Single)
    requires
        x.finite(),
    ensures
        x.magnitude() == 0 <==> x.units() == 0,
        x.negative() ==> x.units() <= 0,
        !x.negative() ==> x.units() >= 0,
{
    lemma_size_units(x);
}

/// Of two magnitudes, the smaller one stands for the smaller size.
proof fn lemma_units_increase(x: Single, y: Single)
    requires
        x.finite(),
        y.finite(),
        x.magnitude() < y.magnitude(),
    ensures
        vstd::math::abs(x.units()) < vstd::math::abs(y.units()),
{
    lemma_size_units(x);
    lemma_size_units(y);
    let fx = x.magnitude() / 0x80_0000;
    let fy = y.magnitude() / 0x80_0000;
    let rx = x.magnitude() % 0x80_0000;
    let ry = y.magnitude() % 0x80_0000;
    lemma2_to64();
    if fx == fy {
        if fx > 0 {
            lemma_pow2_pos((fx - 1) as nat);
            let p = pow2((fx - 1) as nat) as int;
            assert((0x80_0000 + rx) * p < (0x80_0000 + ry) * p) by (nonlinear_arith)
                requires
                    rx < ry,
                    p > 0,
            ;
        }
    } else {
        let py = pow2((fy - 1) as nat) as int;
        lemma_pow2_pos((fy - 1) as nat);
        assert((0x80_0000 + ry) * py >= 0x80_0000 * py) by (nonlinear_arith)
            requires
                ry >= 0,
                py > 0,
        ;
        if fx > 0 {
            let px = pow2((fx - 1) as nat) as int;
            lemma_pow2_pos((fx - 1) as nat);
            lemma_pow2_unfold(fx as nat);
            if fx < fy - 1 {
                lemma_pow2_strictly_increases(fx as nat, (fy - 1) as nat);
            }
            assert((0x80_0000 + rx) * px < 0x80_0000 * py) by (nonlinear_arith)
                requires
                    rx < 0x80_0000,
                    px > 0,
                    2 * px <= py,
            ;
        }
    }
}

} // verus!
