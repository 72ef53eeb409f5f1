//! Rounding of exact ratios to a fixed number of significant bits.
//!
//! Durations and rates are turned into sample counts through single or double
//! precision quotients and products. The results of those operations are
//! integers scaled by a power of two, so they are carried here as such: a
//! mantissa and an exponent, rounded to nearest with ties going to the even
//! mantissa.

use vstd::arithmetic::div_mod::*;
use vstd::arithmetic::mul::*;
use vstd::arithmetic::power2::*;
use vstd::prelude::*;

verus! {

/// A number of significant bits.
#[derive(Clone, Copy, Debug, PartialEq, Eq, Structural)]
pub enum Precision {
    /// 24 significant bits.
    Single,
    /// 53 significant bits.
    Double,
}

impl Precision {
    /// The number of significant bits.
    pub open spec fn bits(self) -> nat {
        match self {
            Precision::Single => 24,
            Precision::Double => 53,
        }
    }

    /// The smallest mantissa of full length.
    fn lowest(self) -> (limit: u128)
        ensures
            limit == pow2((self.bits() - 1) as nat),
            2 * limit == pow2(self.bits()),
            2 <= limit <= 0x10_0000_0000_0000,
    {
        proof {
            lemma2_to64();
            lemma2_to64_rest();
            lemma_pow2_unfold(24);
            lemma_pow2_unfold(53);
        }
        match self {
            Precision::Single => 0x80_0000,
            Precision::Double => 0x10_0000_0000_0000,
        }
    }
}

/// The number `mantissa * 2^exponent`.
#[derive(Clone, Copy, Debug, PartialEq, Eq, Structural)]
pub struct Dyadic {
    pub mantissa: u64,
    pub exponent: i32,
}

/// The exact counterpart of [`Dyadic`], without size limits.
pub struct Scaled {
    pub mantissa: nat,
    pub exponent: int,
}

/// The numerator of `num / 2^e` over [`denominator_at`].
pub open spec fn numerator_at(num: nat, e: int) -> nat {
    if e >= 0 {
        num
    } else {
        num * pow2((-e) as nat)
    }
}

/// The denominator that goes with [`numerator_at`].
pub open spec fn denominator_at(den: nat, e: int) -> nat {
    if e >= 0 {
        den * pow2(e as nat)
    } else {
        den
    }
}

/// Whether `num / den / 2^e` has exactly `bits` bits before the point.
pub open spec fn has_exponent(num: nat, den: nat, bits: nat, e: int) -> bool {
    &&& pow2((bits - 1) as nat) * denominator_at(den, e) <= numerator_at(num, e)
    &&& numerator_at(num, e) < pow2(bits) * denominator_at(den, e)
}

/// The integer nearest to `num / den`; of two equally near, the even one.
pub open spec fn half_even(num: nat, den: nat) -> nat {
    let quotient = num / den;
    let remainder = num % den;
    if 2 * remainder < den || (2 * remainder == den && quotient % 2 == 0) {
        quotient
    } else {
        quotient + 1
    }
}

/// No integer is nearer, and where two are equally near it is the even one.
pub proof fn lemma_half_even(num: nat, den: nat)
    requires
        den > 0,
    ensures
        ({
            let gap = 2 * (half_even(num, den) * den - num);
            &&& -den <= gap <= den
            &&& gap == den || gap == -den ==> half_even(num, den) % 2 == 0
        }),
{
    let quotient = num / den;
    let remainder = num % den;
    lemma_fundamental_div_mod(num as int, den as int);
    lemma_mod_bound(num as int, den as int);
    assert(quotient * den == den * quotient && (quotient + 1) * den == den * quotient + den)
        by (nonlinear_arith);
    assert(half_even(num, den) * den == if half_even(num, den) == quotient {
        quotient * den
    } else {
        (quotient + 1) * den
    });
}

/// The exponent at which `num / den` is rounded to `bits` bits.
pub open spec fn exponent_of(num: nat, den: nat, bits: nat) -> int {
    choose|e: int| has_exponent(num, den, bits, e)
}

/// `num / den` rounded to `bits` significant bits.
pub open spec fn nearest(num: nat, den: nat, bits: nat) -> Scaled {
    if num == 0 {
        Scaled { mantissa: 0, exponent: 0 }
    } else {
        let e = exponent_of(num, den, bits);
        Scaled {
            mantissa: half_even(numerator_at(num, e), denominator_at(den, e)),
            exponent: e,
        }
    }
}

/// The product of two numbers, rounded to `bits` significant bits.
pub open spec fn product(x: Scaled, y: Scaled, bits: nat) -> Scaled {
    let r = nearest(x.mantissa * y.mantissa, 1, bits);
    Scaled { mantissa: r.mantissa, exponent: r.exponent + x.exponent + y.exponent }
}

/// The quotient of two numbers, rounded to `bits` significant bits.
pub open spec fn quotient(x: Scaled, y: Scaled, bits: nat) -> Scaled {
    let r = nearest(x.mantissa, y.mantissa, bits);
    Scaled { mantissa: r.mantissa, exponent: r.exponent + x.exponent - y.exponent }
}

/// The largest integer that is not above `x`.
pub open spec fn floor(x: Scaled) -> nat {
    numerator_at(x.mantissa, -x.exponent) / denominator_at(1, -x.exponent)
}

/// The smallest integer that is not below `x`.
pub open spec fn ceiling(x: Scaled) -> nat {
    let num = numerator_at(x.mantissa, -x.exponent);
    let den = denominator_at(1, -x.exponent);
    if num % den == 0 {
        num / den
    } else {
        num / den + 1
    }
}

/// The integer nearest to `x`; of two equally near, the larger one.
pub open spec fn half_up(x: Scaled) -> nat {
    let num = numerator_at(x.mantissa, -x.exponent);
    let den = denominator_at(1, -x.exponent);
    if 2 * (num % den) < den {
        num / den
    } else {
        num / den + 1
    }
}

/// A number lies between the integers below and above it, which are one and the
/// same for an integer, and no integer is nearer to it than the one it is rounded
/// to. Halves are rounded up.
pub proof fn lemma_whole_parts(x: Scaled)
    ensures
        ({
            let num = numerator_at(x.mantissa, -x.exponent);
            let den = denominator_at(1, -x.exponent);
            &&& den > 0
            &&& floor(x) * den <= num < (floor(x) + 1) * den
            &&& (ceiling(x) - 1) * den < num <= ceiling(x) * den
            &&& -den < 2 * (half_up(x) * den - num) <= den
        }),
{
    let num = numerator_at(x.mantissa, -x.exponent);
    let den = denominator_at(1, -x.exponent);
    lemma_denominator_positive(1, -x.exponent);
    let whole = num as int / den as int;
    lemma_fundamental_div_mod(num as int, den as int);
    lemma_mod_bound(num as int, den as int);
    assert(whole * den == den * whole && (whole + 1) * den == den * whole + den && (whole - 1) * den
        == den * whole - den) by (nonlinear_arith);
}

impl View for Dyadic {
    type V = Scaled;

    open spec fn view(&self) -> Scaled {
        Scaled { mantissa: self.mantissa as nat, exponent: self.exponent as int }
    }
}

/// At most one exponent fits.
pub proof fn lemma_exponent_unique(num: nat, den: nat, bits: nat, e: int, f: int)
    requires
        den > 0,
        bits > 0,
        has_exponent(num, den, bits, e),
        has_exponent(num, den, bits, f),
    ensures
        e == f,
{
    lemma_exponents_apart(num, den, bits, e, f);
    lemma_exponents_apart(num, den, bits, f, e);
}

/// Multiplying both sides of the fraction at exponent `e` out to a common
/// power of two.
proof fn lemma_at_common(num: nat, den: nat, e: int, k: nat)
    requires
        k + e >= 0,
    ensures
        numerator_at(num, e) * (den * pow2((k + e) as nat)) == (num * pow2(k)) * denominator_at(den, e),
{
    if e >= 0 {
        lemma_pow2_adds(k, e as nat);
        let a = pow2(k);
        let b = pow2(e as nat);
        assert(num * (den * (a * b)) == (num * a) * (den * b)) by (nonlinear_arith);
    } else {
        lemma_pow2_adds((k + e) as nat, (-e) as nat);
        let a = pow2((k + e) as nat);
        let b = pow2((-e) as nat);
        assert((num * b) * (den * a) == (num * (a * b)) * den) by (nonlinear_arith);
    }
}

proof fn lemma_denominator_positive(den: nat, e: int)
    requires
        den > 0,
    ensures
        denominator_at(den, e) > 0,
{
    if e >= 0 {
        lemma_pow2_pos(e as nat);
        lemma_mul_strictly_positive(den as int, pow2(e as nat) as int);
    }
}

proof fn lemma_exponents_apart(num: nat, den: nat, bits: nat, e: int, f: int)
    requires
        den > 0,
        bits > 0,
        has_exponent(num, den, bits, e),
        has_exponent(num, den, bits, f),
    ensures
        f <= e,
{
    if e < f {
        // With k large enough, both conditions bound num * 2^k from the two sides.
        let k = (if e < 0 { -e } else { 0 }) as nat;
        let x = (num * pow2(k)) as int;
        let ae = (den * pow2((k + e) as nat)) as int;
        let af = (den * pow2((k + f) as nat)) as int;
        lemma_at_common(num, den, e, k);
        lemma_at_common(num, den, f, k);
        lemma_denominator_positive(den, e);
        lemma_denominator_positive(den, f);
        lemma_pow2_pos((k + e) as nat);
        lemma_pow2_pos((k + f) as nat);
        lemma_mul_strictly_positive(den as int, pow2((k + e) as nat) as int);
        lemma_mul_strictly_positive(den as int, pow2((k + f) as nat) as int);
        let de = denominator_at(den, e) as int;
        let df = denominator_at(den, f) as int;
        let ne = numerator_at(num, e) as int;
        let nf = numerator_at(num, f) as int;
        let hi = pow2(bits) as int;
        let lo = pow2((bits - 1) as nat) as int;
        // x < hi * ae
        assert(x < hi * ae) by (nonlinear_arith)
            requires
                ne * ae == x * de,
                ne < hi * de,
                de > 0,
                ae > 0,
        ;
        // lo * af <= x
        assert(lo * af <= x) by (nonlinear_arith)
            requires
                nf * af == x * df,
                lo * df <= nf,
                df > 0,
                af > 0,
        ;
        // 2 * ae <= af
        lemma_pow2_unfold((k + e + 1) as nat);
        if k + e + 1 < k + f {
            lemma_pow2_strictly_increases((k + e + 1) as nat, (k + f) as nat);
        }
        let pe = pow2((k + e) as nat) as int;
        let pf = pow2((k + f) as nat) as int;
        assert(2 * ae <= af) by (nonlinear_arith)
            requires
                ae == den * pe,
                af == den * pf,
                2 * pe <= pf,
        ;
        lemma_pow2_unfold(bits);
        assert(hi == 2 * lo);
        lemma_pow2_pos((bits - 1) as nat);
        assert(hi * ae <= lo * af) by (nonlinear_arith)
            requires
                hi == 2 * lo,
                2 * ae <= af,
                lo > 0,
        ;
    }
}

/// A fitting exponent is the one at which [`nearest`] rounds.
pub proof fn lemma_exponent_of(num: nat, den: nat, bits: nat, e: int)
    requires
        den > 0,
        bits > 0,
        has_exponent(num, den, bits, e),
    ensures
        exponent_of(num, den, bits) == e,
{
    lemma_exponent_unique(num, den, bits, e, exponent_of(num, den, bits));
}

/// 2 to the power `n`.
fn power_of_two(n: u32) -> (result: u128)
    requires
        n <= 126,
    ensures
        result == pow2(n as nat),
        0 < result,
{
    let mut result: u128 = 1;
    let mut i: u32 = 0;
    proof {
        lemma2_to64();
    }
    while i < n
        invariant
            i <= n <= 126,
            result == pow2(i as nat),
        decreases n - i,
    {
        proof {
            lemma_pow2_unfold((i + 1) as nat);
            lemma_power_bound((i + 1) as nat);
        }
        result = result * 2;
        i = i + 1;
    }
    proof {
        lemma_pow2_pos(n as nat);
    }
    result
}

proof fn lemma_power_bound(n: nat)
    requires
        n <= 127,
    ensures
        pow2(n) <= 0x8000_0000_0000_0000_0000_0000_0000_0000,
{
    lemma2_to64();
    lemma2_to64_rest();
    lemma_pow2_adds(63, 64);
    assert(pow2(127) == 0x8000_0000_0000_0000_0000_0000_0000_0000);
    if n < 127 {
        lemma_pow2_strictly_increases(n, 127);
    }
}

/// The bound that keeps every intermediate value of [`round_ratio`] in range.
pub open spec fn ratio_fits(num: nat, den: nat) -> bool {
    &&& 0 < den < 0x1_0000_0000_0000_0000
    &&& num < 0x100_0000_0000_0000_0000_0000_0000_0000
}

/// `num / den`, rounded to the given precision.
pub fn round_ratio(num: u128, den: u128, precision: Precision) -> (result: Dyadic)
    requires
        ratio_fits(num as nat, den as nat),
    ensures
        result@ == nearest(num as nat, den as nat, precision.bits()),
        result.mantissa <= pow2(precision.bits()) <= 0x20_0000_0000_0000,
        -128 <= result.exponent <= 128,
{
    let lowest = precision.lowest();
    let ghost bits = precision.bits();
    if num == 0 {
        return Dyadic { mantissa: 0, exponent: 0 };
    }
    let mut n: u128 = num;
    let mut d: u128 = den;
    let mut e: i32 = 0;
    proof {
        lemma2_to64();
        assert(den * pow2(0) == den) by (nonlinear_arith)
            requires
                pow2(0) == 1,
        ;
        assert(num * pow2(0) == num) by (nonlinear_arith)
            requires
                pow2(0) == 1,
        ;
    }
    // Too many bits before the point: move the point to the left.
    while n / d >= 2 * lowest
        invariant
            ratio_fits(num as nat, den as nat),
            n == num,
            0 <= e <= 120,
            d == den * pow2(e as nat),
            1 <= d,
            d <= 0x100_0000_0000_0000_0000_0000_0000_0000,
            2 <= lowest <= 0x10_0000_0000_0000,
            e > 0 ==> lowest * d <= n,
        decreases n - d,
    {
        proof {
            let limit = 2 * lowest as int;
            lemma_fundamental_div_mod(n as int, d as int);
            assert(limit * d <= n) by (nonlinear_arith)
                requires
                    n == d * ((n as int) / (d as int)) + (n as int) % (d as int),
                    (n as int) % (d as int) >= 0,
                    (n as int) / (d as int) >= limit,
                    d > 0,
            ;
            assert(4 * d <= n) by (nonlinear_arith)
                requires
                    limit * d <= n,
                    limit >= 4,
                    d > 0,
            ;
            lemma_pow2_unfold((e + 1) as nat);
            let p = pow2(e as nat) as int;
            assert(2 * (den * p) == den * (2 * p)) by (nonlinear_arith);
            if e >= 120 {
                lemma2_to64();
                lemma2_to64_rest();
                lemma_pow2_adds(56, 64);
                assert(pow2(120) == 0x100_0000_0000_0000_0000_0000_0000_0000);
                if e > 120 {
                    lemma_pow2_strictly_increases(120, e as nat);
                }
                assert(den * p >= p) by (nonlinear_arith)
                    requires
                        den >= 1,
                        p >= 0,
                ;
            }
            assert(lowest * (2 * d) <= n) by (nonlinear_arith)
                requires
                    limit == 2 * lowest,
                    limit * d <= n,
            ;
        }
        d = d * 2;
        e = e + 1;
    }
    proof {
        lemma_fundamental_div_mod(n as int, d as int);
        let q = (n as int) / (d as int);
        if e > 0 {
            assert(q >= lowest) by (nonlinear_arith)
                requires
                    n == d * q + (n as int) % (d as int),
                    (n as int) % (d as int) < d,
                    lowest * d <= n,
                    d > 0,
            ;
        }
    }
    // Too few: move it to the right.
    while n / d < lowest
        invariant
            ratio_fits(num as nat, den as nat),
            num > 0,
            -128 <= e <= 120,
            e >= 0 ==> n == num && d == den * pow2(e as nat),
            e <= 0 ==> d == den && n == num * pow2((-e) as nat),
            1 <= d,
            2 <= lowest <= 0x10_0000_0000_0000,
            d <= 0x100_0000_0000_0000_0000_0000_0000_0000,
            (n as int) / (d as int) < 2 * lowest,
            e > 0 ==> (n as int) / (d as int) >= lowest,
            1 <= n,
            n < 0x100_0000_0000_0000_0000_0000_0000_0000,
        decreases 2 * lowest * d - n,
    {
        proof {
            assert(e <= 0);
            lemma_fundamental_div_mod(n as int, d as int);
            let q = (n as int) / (d as int);
            assert(n < lowest * d) by (nonlinear_arith)
                requires
                    n == d * q + (n as int) % (d as int),
                    (n as int) % (d as int) < d,
                    q < lowest,
                    q >= 0,
                    d > 0,
            ;
            assert(2 * lowest * d == 2 * (lowest * d)) by (nonlinear_arith);
            assert(lowest * d <= 0x10_0000_0000_0000 * 0x1_0000_0000_0000_0000) by (nonlinear_arith)
                requires
                    0 <= lowest <= 0x10_0000_0000_0000,
                    0 <= d <= 0x1_0000_0000_0000_0000,
            ;
            lemma_pow2_unfold((-e + 1) as nat);
            let p = pow2((-e) as nat) as int;
            assert(2 * (num * p) == num * (2 * p)) by (nonlinear_arith);
            if -e >= 118 {
                lemma2_to64();
                lemma2_to64_rest();
                lemma_pow2_adds(54, 64);
                if -e > 118 {
                    lemma_pow2_strictly_increases(118, (-e) as nat);
                }
                assert(num * p >= p) by (nonlinear_arith)
                    requires
                        num >= 1,
                        p >= 0,
                ;
            }
            assert((2 * n) / (d as int) < 2 * lowest) by {
                lemma_fundamental_div_mod(2 * n, d as int);
                let r = (2 * n) / (d as int);
                assert(r < 2 * lowest) by (nonlinear_arith)
                    requires
                        2 * n == d * r + (2 * n) % (d as int),
                        (2 * n) % (d as int) >= 0,
                        n < lowest * d,
                        d > 0,
                ;
            }
        }
        n = n * 2;
        e = e - 1;
    }
    let q: u128 = n / d;
    let r: u128 = n % d;
    proof {
        lemma_fundamental_div_mod(n as int, d as int);
        let dd = d as int;
        assert(lowest * d <= n && n < 2 * lowest * d) by (nonlinear_arith)
            requires
                n == dd * q + r,
                0 <= r < d,
                dd == d,
                lowest <= q < 2 * lowest,
        ;
        assert(numerator_at(num as nat, e as int) == n);
        assert(denominator_at(den as nat, e as int) == d);
        assert(has_exponent(num as nat, den as nat, bits, e as int));
        lemma_exponent_of(num as nat, den as nat, bits, e as int);
    }
    let up: bool = r > d - r || (r == d - r && q % 2 == 1);
    let mantissa: u128 = if up {
        q + 1
    } else {
        q
    };
    Dyadic { mantissa: mantissa as u64, exponent: e }
}

/// The rounded product of two numbers.
pub fn multiply(x: Dyadic, y: Dyadic, precision: Precision) -> (result: Dyadic)
    requires
        x.mantissa <= 0x20_0000_0000_0000,
        y.mantissa <= 0x20_0000_0000_0000,
        -10000 <= x.exponent <= 10000,
        -10000 <= y.exponent <= 10000,
    ensures
        result@ == product(x@, y@, precision.bits()),
        result.mantissa <= 0x20_0000_0000_0000,
        x.exponent + y.exponent - 128 <= result.exponent <= x.exponent + y.exponent + 128,
{
    assert(x.mantissa as int * y.mantissa as int <= 0x20_0000_0000_0000 * 0x20_0000_0000_0000)
        by (nonlinear_arith)
        requires
            x.mantissa <= 0x20_0000_0000_0000,
            y.mantissa <= 0x20_0000_0000_0000,
    ;
    let r = round_ratio(x.mantissa as u128 * y.mantissa as u128, 1, precision);
    Dyadic { mantissa: r.mantissa, exponent: r.exponent + x.exponent + y.exponent }
}

/// The rounded quotient of two numbers.
pub fn divide(x: Dyadic, y: Dyadic, precision: Precision) -> (result: Dyadic)
    requires
        x.mantissa <= 0x20_0000_0000_0000,
        0 < y.mantissa <= 0x20_0000_0000_0000,
        -10000 <= x.exponent <= 10000,
        -10000 <= y.exponent <= 10000,
    ensures
        result@ == quotient(x@, y@, precision.bits()),
        result.mantissa <= 0x20_0000_0000_0000,
        x.exponent - y.exponent - 128 <= result.exponent <= x.exponent - y.exponent + 128,
{
    let r = round_ratio(x.mantissa as u128, y.mantissa as u128, precision);
    Dyadic { mantissa: r.mantissa, exponent: r.exponent + x.exponent - y.exponent }
}

/// `value`, or the largest `i32` where that is smaller.
pub open spec fn capped(value: nat) -> int {
    if value > i32::MAX {
        i32::MAX as int
    } else {
        value as int
    }
}

/// What is left of a number after its integer part.
#[derive(Clone, Copy, Debug, PartialEq, Eq, Structural)]
enum Fraction {
    Zero,
    BelowHalf,
    HalfOrMore,
}

/// The largest integer part that [`split`] tells apart from larger ones.
const LARGE: u64 = 0x100_0000_0000;

/// The integer part of a number, capped, and the class of its fraction.
fn split(x: Dyadic) -> (result: (u64, Fraction))
    requires
        x.mantissa <= 0x20_0000_0000_0000,
        -30000 <= x.exponent <= 30000,
    ensures
        result.0 <= LARGE,
        floor(x@) < LARGE ==> result.0 == floor(x@),
        floor(x@) >= LARGE ==> result.0 == LARGE,
        result.1 is Zero <==> numerator_at(x@.mantissa, -x@.exponent) % denominator_at(
            1,
            -x@.exponent,
        ) == 0,
        result.1 is BelowHalf ==> 2 * (numerator_at(x@.mantissa, -x@.exponent) % denominator_at(
            1,
            -x@.exponent,
        )) < denominator_at(1, -x@.exponent),
        result.1 is HalfOrMore ==> 2 * (numerator_at(x@.mantissa, -x@.exponent) % denominator_at(
            1,
            -x@.exponent,
        )) >= denominator_at(1, -x@.exponent),
{
    let m: u128 = x.mantissa as u128;
    if x.exponent >= 0 {
        if x.mantissa == 0 {
            proof {
                if x.exponent > 0 {
                    assert(0 * pow2(x.exponent as nat) == 0) by (nonlinear_arith);
                } else {
                    lemma2_to64();
                }
            }
            return (0, Fraction::Zero);
        }
        if x.exponent >= 40 {
            proof {
                lemma2_to64();
                lemma2_to64_rest();
                if x.exponent > 40 {
                    lemma_pow2_strictly_increases(40, x.exponent as nat);
                }
                let p = pow2(x.exponent as nat);
                assert(m * p >= p) by (nonlinear_arith)
                    requires
                        m >= 1,
                        p >= 0,
                ;
            }
            return (LARGE, Fraction::Zero);
        }
        let p: u128 = power_of_two(x.exponent as u32);
        proof {
            lemma2_to64();
            lemma2_to64_rest();
            if x.exponent < 40 {
                lemma_pow2_strictly_increases(x.exponent as nat, 40);
            }
            assert(m * p <= 0x20_0000_0000_0000 * 0x100_0000_0000) by (nonlinear_arith)
                requires
                    m <= 0x20_0000_0000_0000,
                    p <= 0x100_0000_0000,
            ;
            if x.exponent == 0 {
                assert(m * p == m) by (nonlinear_arith)
                    requires
                        p == 1,
                ;
            }
        }
        let v: u128 = m * p;
        assert(denominator_at(1, -x@.exponent) == 1);
        assert(numerator_at(x@.mantissa, -x@.exponent) == v) by {
            if x.exponent > 0 {
                assert(-(-x@.exponent) == x.exponent);
            }
        }
        assert(floor(x@) == v) by {
            lemma_div_basics(v as int);
        }
        if v >= LARGE as u128 {
            return (LARGE, Fraction::Zero);
        }
        return (v as u64, Fraction::Zero);
    }
    let s: u32 = (0 - x.exponent) as u32;
    if s > 63 {
        proof {
            lemma2_to64();
            lemma2_to64_rest();
            lemma_pow2_strictly_increases(63, s as nat);
            lemma_small_mod(x.mantissa as nat, pow2(s as nat));
            lemma_div_basics(x.mantissa as int);
            assert(x.mantissa as int / pow2(s as nat) as int == 0) by {
                lemma_basic_div(x.mantissa as int, pow2(s as nat) as int);
            }
        }
        if x.mantissa == 0 {
            return (0, Fraction::Zero);
        }
        return (0, Fraction::BelowHalf);
    }
    let d: u128 = power_of_two(s);
    let q: u128 = m / d;
    let r: u128 = m % d;
    proof {
        lemma_fundamental_div_mod(m as int, d as int);
        lemma_power_bound(s as nat);
        assert(q <= m) by (nonlinear_arith)
            requires
                m == d * q + r,
                r >= 0,
                d >= 1,
        ;
    }
    let fraction = if r == 0 {
        Fraction::Zero
    } else if r < d - r {
        Fraction::BelowHalf
    } else {
        Fraction::HalfOrMore
    };
    if q >= LARGE as u128 {
        (LARGE, fraction)
    } else {
        (q as u64, fraction)
    }
}

/// The integer part, capped at the largest `i32`.
pub fn floor_capped(x: Dyadic) -> (result: i32)
    requires
        x.mantissa <= 0x20_0000_0000_0000,
        -30000 <= x.exponent <= 30000,
    ensures
        result == capped(floor(x@)),
{
    let (whole, _) = split(x);
    if whole > i32::MAX as u64 {
        i32::MAX
    } else {
        whole as i32
    }
}

/// The integer part, negated and limited to the range of `i32`.
pub fn floor_negated(x: Dyadic) -> (result: i32)
    requires
        x.mantissa <= 0x20_0000_0000_0000,
        -30000 <= x.exponent <= 30000,
    ensures
        result == if -floor(x@) < i32::MIN {
            i32::MIN as int
        } else {
            -floor(x@)
        },
{
    let (whole, _) = split(x);
    if whole >= 0x8000_0000 {
        i32::MIN
    } else {
        0 - whole as i32
    }
}

/// The number rounded up to an integer, capped at the largest `i32`.
pub fn ceiling_capped(x: Dyadic) -> (result: i32)
    requires
        x.mantissa <= 0x20_0000_0000_0000,
        -30000 <= x.exponent <= 30000,
    ensures
        result == capped(ceiling(x@)),
{
    let (whole, fraction) = split(x);
    let value: u64 = match fraction {
        Fraction::Zero => whole,
        _ => whole + 1,
    };
    if value > i32::MAX as u64 {
        i32::MAX
    } else {
        value as i32
    }
}

/// The nearest integer, halves going up, without a cap below 2^31.
fn half_up_wide(x: Dyadic) -> (result: u64)
    requires
        x.mantissa <= 0x20_0000_0000_0000,
        -30000 <= x.exponent <= 30000,
    ensures
        half_up(x@) <= 0x8000_0000 ==> result == half_up(x@),
        half_up(x@) > 0x8000_0000 ==> result > 0x8000_0000,
{
    let (whole, fraction) = split(x);
    proof {
        lemma_denominator_positive(1, -x@.exponent);
    }
    match fraction {
        Fraction::HalfOrMore => whole + 1,
        _ => whole,
    }
}

/// The nearest integer to `x`, or to `-x` where `negative`, halves going away
/// from zero, limited to the range of `i32`.
pub open spec fn signed_half_up(x: Scaled, negative: bool) -> int {
    let magnitude = half_up(x) as int;
    if negative {
        if -magnitude < i32::MIN {
            i32::MIN as int
        } else {
            -magnitude
        }
    } else {
        if magnitude > i32::MAX {
            i32::MAX as int
        } else {
            magnitude
        }
    }
}

/// See [`signed_half_up`].
pub fn round_signed(x: Dyadic, negative: bool) -> (result: i32)
    requires
        x.mantissa <= 0x20_0000_0000_0000,
        -30000 <= x.exponent <= 30000,
    ensures
        result == signed_half_up(x@, negative),
{
    let magnitude = half_up_wide(x);
    if negative {
        if magnitude >= 0x8000_0000 {
            i32::MIN
        } else {
            0 - magnitude as i32
        }
    } else {
        if magnitude > 0x7fff_ffff {
            i32::MAX
        } else {
            magnitude as i32
        }
    }
}

/// The integer part of zero is zero.
pub proof fn lemma_floor_zero(x: Scaled)
    requires
        x.mantissa == 0,
    ensures
        floor(x) == 0,
{
    lemma_denominator_positive(1, -x.exponent);
    if x.exponent > 0 {
        assert(0 * pow2(x.exponent as nat) == 0) by (nonlinear_arith);
    }
    lemma_div_of0(denominator_at(1, -x.exponent) as int);
}

/// Whether `num / den` is at most `bound`.
pub open spec fn ratio_at_most(num: nat, den: nat, bound: Scaled) -> bool {
    numerator_at(num, bound.exponent) <= bound.mantissa * denominator_at(den, bound.exponent)
}

/// Whether `x` is at most `bound`.
pub open spec fn at_most(x: Scaled, bound: Scaled) -> bool {
    if x.exponent >= bound.exponent {
        x.mantissa * pow2((x.exponent - bound.exponent) as nat) <= bound.mantissa
    } else {
        x.mantissa <= bound.mantissa * pow2((bound.exponent - x.exponent) as nat)
    }
}

/// Some exponent fits every positive ratio.
pub proof fn lemma_exponent_exists(num: nat, den: nat, bits: nat)
    requires
        num > 0,
        den > 0,
        bits > 0,
    ensures
        has_exponent(num, den, bits, exponent_of(num, den, bits)),
{
    let k = (bits - 1) as nat + den;
    lemma_pow2_adds((bits - 1) as nat, den);
    lemma_power_exceeds(den);
    let a = pow2((bits - 1) as nat);
    let b = pow2(den);
    assert(a * den <= num * (a * b)) by (nonlinear_arith)
        requires
            num >= 1,
            b >= den,
            a >= 0,
    ;
    lemma2_to64();
    if k == 0 {
        assert(den * pow2(0) == den) by (nonlinear_arith)
            requires
                pow2(0) == 1,
        ;
    }
    let e = lemma_exponent_above(num, den, bits, -(k as int));
    lemma_exponent_of(num, den, bits, e);
}

/// 2^n is above n.
proof fn lemma_power_exceeds(n: nat)
    ensures
        pow2(n) > n,
    decreases n,
{
    lemma2_to64();
    if n > 0 {
        lemma_power_exceeds((n - 1) as nat);
        lemma_pow2_unfold(n);
    }
}

/// Searches upwards for the exponent that fits.
proof fn lemma_exponent_above(num: nat, den: nat, bits: nat, e: int) -> (result: int)
    requires
        num > 0,
        den > 0,
        bits > 0,
        pow2((bits - 1) as nat) * denominator_at(den, e) <= numerator_at(num, e),
    ensures
        has_exponent(num, den, bits, result),
    decreases num - e,
{
    lemma_pow2_unfold(bits);
    let low = pow2((bits - 1) as nat);
    let high = pow2(bits);
    lemma_pow2_pos((bits - 1) as nat);
    if numerator_at(num, e) < high * denominator_at(den, e) {
        return e;
    }
    lemma2_to64();
    if e >= 0 {
        lemma_pow2_unfold((e + 1) as nat);
        let p = pow2(e as nat);
        assert(den * (2 * p) == 2 * (den * p)) by (nonlinear_arith);
        let d = den * p;
        assert(low * (2 * d) == high * d) by (nonlinear_arith)
            requires
                high == 2 * low,
        ;
        if e >= num {
            lemma_power_exceeds(e as nat);
            assert(num < high * d) by (nonlinear_arith)
                requires
                    p > e,
                    e >= num,
                    d == den * p,
                    den >= 1,
                    high >= 2,
            ;
        }
    } else {
        lemma_pow2_unfold((-e) as nat);
        let p = pow2((-e - 1) as nat);
        assert(num * (2 * p) == 2 * (num * p)) by (nonlinear_arith);
        assert(high * den == 2 * (low * den)) by (nonlinear_arith)
            requires
                high == 2 * low,
        ;
        if e == -1 {
            assert(num * pow2(0) == num) by (nonlinear_arith)
                requires
                    pow2(0) == 1,
            ;
            assert(den * pow2(0) == den) by (nonlinear_arith)
                requires
                    pow2(0) == 1,
            ;
        }
    }
    lemma_exponent_above(num, den, bits, e + 1)
}

/// A rounded quotient of integers does not pass an integer.
proof fn lemma_half_even_at_most(num: nat, den: nat, bound: nat)
    requires
        den > 0,
        num <= bound * den,
    ensures
        half_even(num, den) <= bound,
{
    lemma_fundamental_div_mod(num as int, den as int);
    lemma_mod_bound(num as int, den as int);
    let q = num / den;
    let r = num % den;
    assert(q < bound || (q == bound && r == 0)) by (nonlinear_arith)
        requires
            num == den * q + r,
            0 <= r < den,
            num <= bound * den,
    ;
}

/// Rounding does not carry a ratio past a number of as many bits.
pub proof fn lemma_nearest_at_most(num: nat, den: nat, bits: nat, bound: Scaled)
    requires
        den > 0,
        bits > 0,
        bound.mantissa < pow2(bits),
        ratio_at_most(num, den, bound),
    ensures
        at_most(nearest(num, den, bits), bound),
{
    let t = bound.exponent;
    let j = bound.mantissa;
    if num == 0 {
        if 0 >= t {
            assert(0 * pow2((-t) as nat) == 0) by (nonlinear_arith);
        }
        return ;
    }
    lemma_exponent_exists(num, den, bits);
    let e = exponent_of(num, den, bits);
    let n = numerator_at(num, e);
    let d = denominator_at(den, e);
    lemma_denominator_positive(den, e);
    lemma_denominator_positive(den, t);
    // Both fractions over a common power of two.
    let k = (if e < 0 { -e } else { 0int } + if t < 0 { -t } else { 0int }) as nat;
    lemma_at_common(num, den, e, k);
    lemma_at_common(num, den, t, k);
    let x = num * pow2(k);
    let ae = den * pow2((k + e) as nat);
    let at = den * pow2((k + t) as nat);
    let nt = numerator_at(num, t);
    let dt = denominator_at(den, t);
    lemma_pow2_pos((k + e) as nat);
    lemma_pow2_pos((k + t) as nat);
    lemma_mul_strictly_positive(den as int, pow2((k + e) as nat) as int);
    lemma_mul_strictly_positive(den as int, pow2((k + t) as nat) as int);
    assert(x <= j * at) by (nonlinear_arith)
        requires
            nt * at == x * dt,
            nt <= j * dt,
            dt > 0,
            at > 0,
    ;
    if e <= t {
        lemma_pow2_adds((k + e) as nat, (t - e) as nat);
        let p = pow2((t - e) as nat);
        let pe = pow2((k + e) as nat);
        assert(at == ae * p) by (nonlinear_arith)
            requires
                at == den * (pe * p),
                ae == den * pe,
        ;
        assert(n <= (j * p) * d) by (nonlinear_arith)
            requires
                n * ae == x * d,
                x <= j * at,
                at == ae * p,
                ae > 0,
                d > 0,
        ;
        lemma_half_even_at_most(n, d, j * p);
        if e == t {
            lemma2_to64();
            assert(half_even(n, d) * pow2(0) == half_even(n, d)) by (nonlinear_arith)
                requires
                    pow2(0) == 1,
            ;
            assert(j * pow2(0) == j) by (nonlinear_arith)
                requires
                    pow2(0) == 1,
            ;
        }
    } else {
        lemma_pow2_adds((k + t) as nat, (e - t) as nat);
        let p = pow2((e - t) as nat);
        let pt = pow2((k + t) as nat);
        let low = pow2((bits - 1) as nat);
        assert(ae == at * p) by (nonlinear_arith)
            requires
                ae == den * (pt * p),
                at == den * pt,
        ;
        assert(low * ae <= x) by (nonlinear_arith)
            requires
                n * ae == x * d,
                low * d <= n,
                d > 0,
                ae > 0,
        ;
        lemma_pow2_unfold(bits);
        lemma2_to64();
        if e - t > 1 {
            lemma_pow2_strictly_increases(1, (e - t) as nat);
        }
        assert(j >= 2 * low) by (nonlinear_arith)
            requires
                low * ae <= x,
                x <= j * at,
                ae == at * p,
                p >= 2,
                at > 0,
                low > 0,
        ;
    }
}

/// A positive ratio is not rounded to zero.
pub proof fn lemma_nearest_positive(num: nat, den: nat, bits: nat)
    requires
        num > 0,
        den > 0,
        bits > 0,
    ensures
        nearest(num, den, bits).mantissa > 0,
{
    lemma_exponent_exists(num, den, bits);
    let e = exponent_of(num, den, bits);
    let n = numerator_at(num, e);
    let d = denominator_at(den, e);
    lemma_denominator_positive(den, e);
    lemma_pow2_pos((bits - 1) as nat);
    let low = pow2((bits - 1) as nat);
    assert(n >= d) by (nonlinear_arith)
        requires
            low * d <= n,
            low >= 1,
    ;
    lemma_div_non_zero(n as int, d as int);
}

/// An integer keeps its value where it has no more than `bits` bits, and
/// grows by at most its `2^(bits - 1)`th part otherwise.
pub proof fn lemma_nearest_integer_error(num: nat, bits: nat)
    requires
        bits > 0,
    ensures
        ({
            let x = nearest(num, 1, bits);
            if x.exponent >= 0 {
                &&& x.mantissa * pow2(x.exponent as nat) <= num + pow2(x.exponent as nat)
                &&& num > 0 ==> pow2((bits - 1) as nat) * pow2(x.exponent as nat) <= num
                &&& num == 0 ==> x.mantissa == 0
            } else {
                x.mantissa == num * pow2((-x.exponent) as nat)
            }
        }),
{
    let x = nearest(num, 1, bits);
    if num > 0 {
        lemma_exponent_exists(num, 1, bits);
        let e = x.exponent;
        let n = numerator_at(num, e);
        let d = denominator_at(1, e);
        lemma_denominator_positive(1, e);
        lemma_fundamental_div_mod(n as int, d as int);
        lemma_mod_bound(n as int, d as int);
        if e >= 0 {
            let p = pow2(e as nat);
            assert(1 * p == p) by (nonlinear_arith);
            assert(x.mantissa * p <= num + p) by (nonlinear_arith)
                requires
                    x.mantissa <= num as int / p as int + 1,
                    num == p * (num as int / p as int) + (num as int % p as int),
                    num as int % p as int >= 0,
                    p > 0,
            ;
        } else {
            lemma_div_basics_2(n as int);
            assert(n % 1 == 0);
        }
    } else {
        lemma_pow2_pos(0);
        assert(0 * pow2(0) == 0) by (nonlinear_arith);
    }
}

/// What is at most an integer is not rounded up past it.
pub proof fn lemma_ceiling_at_most(x: Scaled, bound: nat)
    requires
        at_most(x, Scaled { mantissa: bound, exponent: 0 }),
    ensures
        ceiling(x) <= bound,
        half_up(x) <= bound,
        floor(x) <= bound,
{
    let num = numerator_at(x.mantissa, -x.exponent);
    let den = denominator_at(1, -x.exponent);
    lemma_denominator_positive(1, -x.exponent);
    lemma2_to64();
    if x.exponent == 0 {
        assert(x.mantissa * pow2(0) == x.mantissa) by (nonlinear_arith)
            requires
                pow2(0) == 1,
        ;
    }
    if x.exponent <= 0 {
        assert(1 * pow2((-x.exponent) as nat) == pow2((-x.exponent) as nat)) by (nonlinear_arith);
    }
    assert(bound * 1 == bound);
    assert(num <= bound * den);
    lemma_fundamental_div_mod(num as int, den as int);
    lemma_mod_bound(num as int, den as int);
    let q = num / den;
    let r = num % den;
    assert(q < bound || (q == bound && r == 0)) by (nonlinear_arith)
        requires
            num == den * q + r,
            0 <= r < den,
            num <= bound * den,
    ;
}

/// Whether `x` is at least `bound`.
pub open spec fn at_least(x: Scaled, bound: Scaled) -> bool {
    if x.exponent >= bound.exponent {
        x.mantissa * pow2((x.exponent - bound.exponent) as nat) >= bound.mantissa
    } else {
        x.mantissa >= bound.mantissa * pow2((bound.exponent - x.exponent) as nat)
    }
}

/// Rounding lowers a ratio by at most its share of the last bit.
pub proof fn lemma_nearest_error(num: nat, den: nat, bits: nat)
    requires
        num > 0,
        den > 0,
        bits > 0,
    ensures
        ({
            let r = nearest(num, den, bits);
            let n = numerator_at(num, r.exponent);
            let d = denominator_at(den, r.exponent);
            n * pow2(bits) <= d * r.mantissa * pow2(bits) + n
        }),
{
    lemma_exponent_exists(num, den, bits);
    let e = exponent_of(num, den, bits);
    let n = numerator_at(num, e);
    let d = denominator_at(den, e);
    lemma_denominator_positive(den, e);
    let m = half_even(n, d);
    lemma_fundamental_div_mod(n as int, d as int);
    lemma_mod_bound(n as int, d as int);
    let k = n as int / d as int;
    let rest = n as int % d as int;
    assert(2 * (d * m) + d >= 2 * n) by {
        if m == k {
            assert(d * m == d * k);
        } else {
            assert(d * m == d * k + d) by (nonlinear_arith)
                requires
                    m == k + 1,
            ;
        }
        assert(n == d * k + rest);
    }
    lemma_pow2_unfold(bits);
    let low = pow2((bits - 1) as nat);
    let full = pow2(bits);
    assert(n * full <= d * m * full + n) by (nonlinear_arith)
        requires
            full == 2 * low,
            low * d <= n,
            2 * (d * m) + d >= 2 * n,
            low >= 0,
    ;
}

/// A power of two, or one where the exponent is not positive.
pub open spec fn power(exponent: int) -> nat {
    if exponent > 0 {
        pow2(exponent as nat)
    } else {
        1
    }
}

proof fn lemma_power(a: int, b: int)
    ensures
        power(a) > 0,
        power(a + b) * (power(-a) * power(-b)) == power(a) * power(b) * power(-a - b),
{
    if a > 0 {
        lemma_pow2_pos(a as nat);
    }
    if a > 0 && b > 0 {
        lemma_pow2_adds(a as nat, b as nat);
    } else if a <= 0 && b <= 0 {
        if a < 0 && b < 0 {
            lemma_pow2_adds((-a) as nat, (-b) as nat);
        }
    } else if a > 0 && a + b > 0 {
        if b < 0 {
            lemma_pow2_adds((a + b) as nat, (-b) as nat);
        }
    } else if a > 0 {
        if a + b < 0 {
            lemma_pow2_adds(a as nat, (-a - b) as nat);
        }
    } else if a + b > 0 {
        if a < 0 {
            lemma_pow2_adds((a + b) as nat, (-a) as nat);
        }
    } else {
        if a + b < 0 {
            lemma_pow2_adds(b as nat, (-a - b) as nat);
        }
    }
    let x = power(a + b);
    let y = power(-a);
    let z = power(-b);
    let u = power(a);
    let v = power(b);
    let w = power(-a - b);
    assert(x * (y * z) == u * v * w) by (nonlinear_arith)
        requires
            a > 0 && b > 0 ==> x == u * v && y == 1 && z == 1 && w == 1,
            a <= 0 && b <= 0 ==> x == 1 && w == y * z && u == 1 && v == 1,
            a > 0 && b <= 0 && a + b > 0 ==> u == x * z && y == 1 && v == 1 && w == 1,
            a > 0 && b <= 0 && a + b <= 0 ==> x == 1 && z == u * w && y == 1 && v == 1,
            a <= 0 && b > 0 && a + b > 0 ==> v == x * y && z == 1 && u == 1 && w == 1,
            a <= 0 && b > 0 && a + b <= 0 ==> x == 1 && y == v * w && z == 1 && u == 1,
    ;
}

/// Whether `x` differs from `num / den` by at most `units` of its last bit:
/// by at most `units / 2^bits` of `num / den`.
pub open spec fn near(x: Scaled, num: nat, den: nat, units: nat, bits: nat) -> bool {
    let over = x.mantissa * power(x.exponent);
    let under = power(-x.exponent);
    &&& (over * den - num * under) * pow2(bits) <= units * (num * under)
    &&& (num * under - over * den) * pow2(bits) <= units * (num * under)
}

/// Rounding changes a ratio by at most one unit.
pub proof fn lemma_near_nearest(num: nat, den: nat, bits: nat)
    requires
        num > 0,
        den > 0,
        bits > 0,
    ensures
        near(nearest(num, den, bits), num, den, 1, bits),
        nearest(num, den, bits).mantissa > 0,
{
    lemma_exponent_exists(num, den, bits);
    lemma_nearest_positive(num, den, bits);
    let e = exponent_of(num, den, bits);
    let n = numerator_at(num, e);
    let d = denominator_at(den, e);
    lemma_denominator_positive(den, e);
    let m = half_even(n, d);
    lemma_fundamental_div_mod(n as int, d as int);
    lemma_mod_bound(n as int, d as int);
    let k = n as int / d as int;
    let rest = n as int % d as int;
    assert(-d <= 2 * (d * m) - 2 * n <= d) by {
        if m == k {
            assert(d * m == d * k);
        } else {
            assert(d * m == d * k + d) by (nonlinear_arith)
                requires
                    m == k + 1,
            ;
        }
        assert(n == d * k + rest);
    }
    lemma2_to64();
    lemma_pow2_unfold(bits);
    let low = pow2((bits - 1) as nat);
    let full = pow2(bits);
    let over = m * power(e);
    let under = power(-e);
    assert(n == num * under) by {
        if e == 0 {
            assert(num * 1 == num);
        }
    }
    assert(d == den * power(e)) by {
        if e == 0 {
            assert(den * 1 == den);
        }
    }
    assert(over * den == d * m) by (nonlinear_arith)
        requires
            over == m * power(e),
            d == den * power(e),
    ;
    let gap = d * m - n;
    assert(gap * full <= n && -gap * full <= n) by (nonlinear_arith)
        requires
            full == 2 * low,
            low * d <= n,
            -d <= 2 * gap <= d,
            low >= 0,
    ;
    assert((over * den - num * under) * full <= 1 * (num * under));
    assert((num * under - over * den) * full <= 1 * (num * under));
}

/// Two steps of rounding: what a first one left near a target stays near it.
proof fn lemma_near_twice(x: int, y: int, z: int, units: int, full: int)
    requires
        z >= 0,
        0 <= units <= full,
        full > 0,
        (x - y) * full <= y,
        (y - x) * full <= y,
        (y - z) * full <= units * z,
        (z - y) * full <= units * z,
    ensures
        (x - z) * full <= (units + 2) * z,
        (z - x) * full <= (units + 2) * z,
{
    assert(y <= 2 * z) by (nonlinear_arith)
        requires
            (y - z) * full <= units * z,
            units <= full,
            full > 0,
            z >= 0,
    ;
    assert((x - z) * full == (x - y) * full + (y - z) * full) by (nonlinear_arith);
    assert((z - x) * full == (y - x) * full + (z - y) * full) by (nonlinear_arith);
    assert((units + 2) * z == units * z + 2 * z) by (nonlinear_arith);
}

/// A division by an integer adds two units.
pub proof fn lemma_near_quotient(
    x: Scaled,
    num: nat,
    den: nat,
    units: nat,
    divisor: nat,
    bits: nat,
)
    requires
        near(x, num, den, units, bits),
        x.mantissa > 0,
        divisor > 0,
        bits > 0,
        units <= pow2(bits),
    ensures
        near(
            quotient(x, Scaled { mantissa: divisor, exponent: 0 }, bits),
            num,
            den * divisor,
            units + 2,
            bits,
        ),
        quotient(x, Scaled { mantissa: divisor, exponent: 0 }, bits).mantissa > 0,
{
    let r = nearest(x.mantissa, divisor, bits);
    lemma_near_nearest(x.mantissa, divisor, bits);
    lemma_pow2_pos(bits);
    let full = pow2(bits) as int;
    let e = x.exponent;
    let f = r.exponent;
    lemma_power(f, e);
    lemma_power(-f, 0);
    lemma_power(-e, 0);
    lemma_power(-f - e, 0);
    let or = (r.mantissa * power(f)) as int;
    let ur = power(-f) as int;
    let ox = (x.mantissa * power(e)) as int;
    let ux = power(-e) as int;
    let oq = (r.mantissa * power(f + e)) as int;
    let uq = power(-f - e) as int;
    let pe = power(e) as int;
    let m = x.mantissa as int;
    let a = or * divisor * (pe * den);
    let y = ox * den * ur;
    let z = num * ux * ur;
    assert((a - y) * full <= y && (y - a) * full <= y) by {
        let c = pe * den;
        assert(m * ur * c == y) by (nonlinear_arith)
            requires
                c == pe * den,
                y == ox * den * ur,
                ox == m * pe,
        ;
        lemma_scaled_gap(or * divisor, m * ur, 1, c, full);
        assert(or * divisor * c == a);
    }
    assert((y - z) * full <= units * z && (z - y) * full <= units * z) by {
        lemma_scaled_gap(ox * den, num * ux, units as int, ur, full);
    }
    assert(z >= 0) by (nonlinear_arith)
        requires
            z == num * ux * ur,
            num >= 0,
            ux >= 0,
            ur >= 0,
    ;
    lemma_near_twice(a, y, z, units as int, full);
    let b = ur * ux;
    let mr = r.mantissa as int;
    let pf = power(f) as int;
    let pq = power(f + e) as int;
    assert(oq * (den * divisor) * b == mr * (den * divisor) * (pq * b)) by (nonlinear_arith)
        requires
            oq == mr * pq,
    ;
    let dd = den * divisor;
    assert(a == mr * dd * (pf * pe)) by {
        assert(or * divisor * (pe * den) == or * pe * (den * divisor)) by (nonlinear_arith);
        assert(or * pe * dd == mr * dd * (pf * pe)) by (nonlinear_arith)
            requires
                or == mr * pf,
        ;
    }
    assert(mr * dd * (pf * pe * uq) == a * uq) by (nonlinear_arith)
        requires
            a == mr * dd * (pf * pe),
    ;
    assert(num * uq * b == z * uq) by (nonlinear_arith)
        requires
            z == num * ux * ur,
            b == ur * ux,
    ;
    assert(b > 0) by (nonlinear_arith)
        requires
            b == ur * ux,
            ur > 0,
            ux > 0,
    ;
    lemma_cancel(oq * (den * divisor), num * uq, a, z, b, uq, (units + 2) as int, full);
}

/// A product with an integer adds two units.
pub proof fn lemma_near_product(
    x: Scaled,
    num: nat,
    den: nat,
    units: nat,
    factor: nat,
    bits: nat,
)
    requires
        near(x, num, den, units, bits),
        x.mantissa > 0,
        factor > 0,
        bits > 0,
        units <= pow2(bits),
    ensures
        near(
            product(x, Scaled { mantissa: factor, exponent: 0 }, bits),
            num * factor,
            den,
            units + 2,
            bits,
        ),
        product(x, Scaled { mantissa: factor, exponent: 0 }, bits).mantissa > 0,
{
    let total = x.mantissa * factor;
    assert(total > 0) by (nonlinear_arith)
        requires
            total == x.mantissa * factor,
            x.mantissa > 0,
            factor > 0,
    ;
    let r = nearest(total, 1, bits);
    lemma_near_nearest(total, 1, bits);
    lemma_pow2_pos(bits);
    let full = pow2(bits) as int;
    let e = x.exponent;
    let f = r.exponent;
    lemma_power(f, e);
    lemma_power(-f, 0);
    lemma_power(-e, 0);
    lemma_power(-f - e, 0);
    let or = (r.mantissa * power(f)) as int;
    let ur = power(-f) as int;
    let ox = (x.mantissa * power(e)) as int;
    let ux = power(-e) as int;
    let oq = (r.mantissa * power(f + e)) as int;
    let uq = power(-f - e) as int;
    let pe = power(e) as int;
    let m = x.mantissa as int;
    let a = or * (pe * den);
    let y = ox * den * (factor * ur);
    let z = num * ux * (factor * ur);
    assert((a - y) * full <= y && (y - a) * full <= y) by {
        let c = pe * den;
        assert(total * ur * c == y) by (nonlinear_arith)
            requires
                c == pe * den,
                y == ox * den * (factor * ur),
                ox == m * pe,
                total == m * factor,
        ;
        assert(or * 1 == or);
        lemma_scaled_gap(or, total * ur, 1, c, full);
        assert(or * c == a);
    }
    assert((y - z) * full <= units * z && (z - y) * full <= units * z) by {
        let c = factor * ur;
        assert(c >= 0) by (nonlinear_arith)
            requires
                c == factor * ur,
                factor >= 0,
                ur >= 0,
        ;
        lemma_scaled_gap(ox * den, num * ux, units as int, c, full);
    }
    assert(z >= 0) by (nonlinear_arith)
        requires
            z == num * ux * (factor * ur),
            num >= 0,
            ux >= 0,
            ur >= 0,
            factor >= 0,
    ;
    lemma_near_twice(a, y, z, units as int, full);
    let b = ur * ux;
    let mr = r.mantissa as int;
    let pf = power(f) as int;
    let pq = power(f + e) as int;
    assert(oq * den * b == mr * den * (pq * b)) by (nonlinear_arith)
        requires
            oq == mr * pq,
    ;
    assert(mr * den * (pf * pe * uq) == a * uq) by (nonlinear_arith)
        requires
            a == or * (pe * den),
            or == mr * pf,
    ;
    assert(num * factor * uq * b == z * uq) by (nonlinear_arith)
        requires
            z == num * ux * (factor * ur),
            b == ur * ux,
    ;
    assert(b > 0) by (nonlinear_arith)
        requires
            b == ur * ux,
            ur > 0,
            ux > 0,
    ;
    lemma_cancel(oq * den, num * factor * uq, a, z, b, uq, (units + 2) as int, full);
}

/// A gap grows with what it is multiplied by.
proof fn lemma_scaled_gap(x: int, y: int, units: int, c: int, full: int)
    requires
        (x - y) * full <= units * y,
        (y - x) * full <= units * y,
        c >= 0,
    ensures
        (x * c - y * c) * full <= units * (y * c),
        (y * c - x * c) * full <= units * (y * c),
{
    assert((x * c - y * c) * full == (x - y) * full * c && (y * c - x * c) * full == (y - x) * full
        * c && units * (y * c) == units * y * c) by (nonlinear_arith);
    assert((x - y) * full * c <= units * y * c && (y - x) * full * c <= units * y * c)
        by (nonlinear_arith)
        requires
            (x - y) * full <= units * y,
            (y - x) * full <= units * y,
            c >= 0,
    ;
}

/// Common factors of a gap and its bound cancel.
proof fn lemma_cancel(
    left: int,
    right: int,
    a: int,
    z: int,
    b: int,
    c: int,
    units: int,
    full: int,
)
    requires
        b > 0,
        c > 0,
        left * b == a * c,
        right * b == z * c,
        (a - z) * full <= units * z,
        (z - a) * full <= units * z,
    ensures
        (left - right) * full <= units * right,
        (right - left) * full <= units * right,
{
    let g = (left - right) * full - units * right;
    let h = (right - left) * full - units * right;
    let lb = left * b;
    let rb = right * b;
    assert(g * b == (lb - rb) * full - units * rb && h * b == (rb - lb) * full - units * rb)
        by (nonlinear_arith)
        requires
            g == (left - right) * full - units * right,
            h == (right - left) * full - units * right,
            lb == left * b,
            rb == right * b,
    ;
    assert((a * c - z * c) * full - units * (z * c) == ((a - z) * full - units * z) * c && (z * c - a
        * c) * full - units * (z * c) == ((z - a) * full - units * z) * c) by (nonlinear_arith);
    assert(g <= 0 && h <= 0) by (nonlinear_arith)
        requires
            g * b == ((a - z) * full - units * z) * c,
            h * b == ((z - a) * full - units * z) * c,
            (a - z) * full - units * z <= 0,
            (z - a) * full - units * z <= 0,
            b > 0,
            c > 0,
    ;
}

/// A number that is near enough to a ratio is rounded as the ratio is, up to
/// what one part of the denominator can change.
pub proof fn lemma_near_rounded(x: Scaled, num: nat, den: nat, units: nat, bits: nat, up: nat)
    requires
        near(x, num, den, units, bits),
        den > 0,
        units * num < pow2(bits),
        up > 0 ==> (up - 1) * den < num,
        num <= up * den,
    ensures
        up <= ceiling(x) <= up + 1,
        num < up * den ==> ceiling(x) == up,
        -den - 2 < 2 * (half_up(x) * den - num) < den + 2,
{
    let over = numerator_at(x.mantissa, -x.exponent);
    let under = denominator_at(1, -x.exponent);
    lemma_denominator_positive(1, -x.exponent);
    lemma2_to64();
    lemma_pow2_pos(bits);
    assert(over == x.mantissa * power(x.exponent)) by {
        if x.exponent <= 0 {
            assert(x.mantissa * 1 == x.mantissa);
        }
    }
    assert(under == power(-x.exponent)) by {
        if x.exponent < 0 {
            assert(1 * pow2((-x.exponent) as nat) == pow2((-x.exponent) as nat));
        } else if x.exponent == 0 {
            assert(1 * pow2(0) == 1);
        }
    }
    let full = pow2(bits) as int;
    let gap = over * den - num * under;
    assert(-under < gap < under) by {
        let limit = units * (num * under);
        assert(limit < full * under) by (nonlinear_arith)
            requires
                limit == units * (num * under),
                units * num < full,
                under > 0,
        ;
        assert(gap < under) by (nonlinear_arith)
            requires
                gap * full <= limit,
                limit < full * under,
                full > 0,
        ;
        assert(-gap < under) by (nonlinear_arith)
            requires
                -gap * full <= limit,
                limit < full * under,
                full > 0,
        ;
        assert((num * under - over * den) * full == -gap * full);
    }
    lemma_fundamental_div_mod(over as int, under as int);
    lemma_mod_bound(over as int, under as int);
    let k = over as int / under as int;
    let rest = over as int % under as int;
    if up > 0 {
        assert(over > (up - 1) * under) by (nonlinear_arith)
            requires
                over * den - num * under > -under,
                (up - 1) * den + 1 <= num,
                den > 0,
                under > 0,
        ;
    }
    assert(over < (up + 1) * under) by (nonlinear_arith)
        requires
            over * den - num * under < under,
            num <= up * den,
            den > 0,
            under > 0,
    ;
    if num < up * den {
        assert(over < up * under) by (nonlinear_arith)
            requires
                over * den - num * under < under,
                num + 1 <= up * den,
                den > 0,
                under > 0,
        ;
    }
    assert(up <= ceiling(x)) by (nonlinear_arith)
        requires
            over == under * k + rest,
            up > 0 ==> over > (up - 1) * under,
            rest == 0 ==> ceiling(x) == k,
            rest != 0 ==> ceiling(x) == k + 1,
            0 <= rest < under,
            k >= 0,
    ;
    assert(ceiling(x) <= up + 1) by (nonlinear_arith)
        requires
            over == under * k + rest,
            over < (up + 1) * under,
            rest == 0 ==> ceiling(x) == k,
            rest != 0 ==> ceiling(x) == k + 1,
            0 <= rest < under,
    ;
    if num < up * den {
        assert(ceiling(x) <= up) by (nonlinear_arith)
            requires
                over == under * k + rest,
                over < up * under,
                rest == 0 ==> ceiling(x) == k,
                rest != 0 ==> ceiling(x) == k + 1,
                0 <= rest < under,
        ;
    }
    let h = half_up(x) as int;
    assert(-under <= 2 * (h * under - over) <= under) by {
        if 2 * rest < under {
            assert(h * under == k * under);
        } else {
            assert(h * under == k * under + under) by (nonlinear_arith)
                requires
                    h == k + 1,
            ;
        }
        assert(k * under == under * k) by (nonlinear_arith);
    }
    let t = h * den - num;
    assert(2 * t * under == 2 * (h * under - over) * den + 2 * gap) by (nonlinear_arith)
        requires
            t == h * den - num,
            gap == over * den - num * under,
    ;
    assert(-den - 2 < 2 * t < den + 2) by (nonlinear_arith)
        requires
            2 * t * under == 2 * (h * under - over) * den + 2 * gap,
            -under <= 2 * (h * under - over) <= under,
            -under < gap < under,
            under > 0,
            den > 0,
    ;
}

/// The whole part of a number that is near to a ratio is near to it too.
pub proof fn lemma_near_floor(x: Scaled, num: nat, den: nat, units: nat, bits: nat)
    requires
        near(x, num, den, units, bits),
        den > 0,
    ensures
        floor(x) * den * pow2(bits) <= num * (pow2(bits) + units),
        (floor(x) + 1) * den * pow2(bits) > num * (pow2(bits) - units),
{
    let over = numerator_at(x.mantissa, -x.exponent);
    let under = denominator_at(1, -x.exponent);
    lemma_denominator_positive(1, -x.exponent);
    lemma2_to64();
    lemma_pow2_pos(bits);
    assert(over == x.mantissa * power(x.exponent)) by {
        if x.exponent <= 0 {
            assert(x.mantissa * 1 == x.mantissa);
        }
    }
    assert(under == power(-x.exponent)) by {
        if x.exponent < 0 {
            assert(1 * pow2((-x.exponent) as nat) == pow2((-x.exponent) as nat));
        } else if x.exponent == 0 {
            assert(1 * pow2(0) == 1);
        }
    }
    let full = pow2(bits) as int;
    lemma_fundamental_div_mod(over as int, under as int);
    lemma_mod_bound(over as int, under as int);
    let k = over as int / under as int;
    assert(k * under <= over && over < (k + 1) * under) by (nonlinear_arith)
        requires
            over == under * k + over as int % under as int,
            0 <= over as int % (under as int) < under,
    ;
    let a = over * den * full;
    assert(a <= num * (full + units) * under && a >= num * (full - units) * under)
        by (nonlinear_arith)
        requires
            a == over * den * full,
            (over * den - num * under) * full <= units * (num * under),
            (num * under - over * den) * full <= units * (num * under),
    ;
    assert(k * den * full * under <= a && a < (k + 1) * den * full * under) by {
        let c = den * full;
        assert(c > 0) by (nonlinear_arith)
            requires
                c == den * full,
                den > 0,
                full > 0,
        ;
        assert(k * under * c <= over * c && over * c < (k + 1) * under * c) by (nonlinear_arith)
            requires
                k * under <= over,
                over < (k + 1) * under,
                c > 0,
        ;
        assert(k * den * full * under == k * under * c && (k + 1) * den * full * under == (k + 1)
            * under * c && a == over * c) by (nonlinear_arith)
            requires
                c == den * full,
                a == over * den * full,
        ;
    }
    assert(k * den * full <= num * (full + units)) by (nonlinear_arith)
        requires
            k * den * full * under <= num * (full + units) * under,
            under > 0,
    ;
    assert((k + 1) * den * full > num * (full - units)) by (nonlinear_arith)
        requires
            (k + 1) * den * full * under > num * (full - units) * under,
            under > 0,
    ;
}

/// A number and the ratio that it is near to stay near when both are multiplied
/// by a power of two.
pub proof fn lemma_near_shifted(x: Scaled, num: nat, den: nat, units: nat, bits: nat, k: int)
    requires
        near(x, num, den, units, bits),
    ensures
        near(
            Scaled { mantissa: x.mantissa, exponent: x.exponent + k },
            num * power(k),
            den * power(-k),
            units,
            bits,
        ),
{
    let e = x.exponent;
    let m = x.mantissa as int;
    lemma_power(e, k);
    lemma_power(-e, 0);
    lemma_power(k, 0);
    lemma_power(-e - k, 0);
    let over = (x.mantissa * power(e)) as int;
    let under = power(-e) as int;
    let pe = power(e) as int;
    let pk = power(k) as int;
    let nk = power(-k) as int;
    let shifted = power(e + k) as int;
    let below = power(-e - k) as int;
    let c = pk * below;
    assert(c > 0) by (nonlinear_arith)
        requires
            c == pk * below,
            pk > 0,
            below > 0,
    ;
    let left = m * shifted * (den * nk);
    let right = num * pk * below;
    assert(left * under == m * den * (shifted * (under * nk))) by (nonlinear_arith)
        requires
            left == m * shifted * (den * nk),
    ;
    assert(m * den * (pe * pk * below) == over * den * c) by (nonlinear_arith)
        requires
            over == m * pe,
            c == pk * below,
    ;
    assert(right * under == num * under * c) by (nonlinear_arith)
        requires
            right == num * pk * below,
            c == pk * below,
    ;
    lemma_cancel(
        left,
        right,
        over * den,
        num * under,
        under,
        c,
        units as int,
        pow2(bits) as int,
    );
    assert(-(e + k) == -e - k);
}

/// A common factor of a ratio makes no difference to what is near to it.
pub proof fn lemma_near_reduced(x: Scaled, num: nat, den: nat, units: nat, bits: nat, c: nat)
    requires
        near(x, num * c, den * c, units, bits),
        c > 0,
    ensures
        near(x, num, den, units, bits),
{
    let over = (x.mantissa * power(x.exponent)) as int;
    let under = power(-x.exponent) as int;
    let full = pow2(bits) as int;
    let a = over * (den * c);
    let z = num * c * under;
    assert(over * den * c == a * 1 && num * under * c == z * 1) by (nonlinear_arith)
        requires
            a == over * (den * c),
            z == num * c * under,
    ;
    lemma_cancel(over * den, num * under, a, z, c as int, 1, units as int, full);
}

/// A product with a number adds two units.
pub proof fn lemma_near_multiplied(x: Scaled, num: nat, den: nat, units: nat, y: Scaled, bits: nat)
    requires
        near(x, num, den, units, bits),
        x.mantissa > 0,
        y.mantissa > 0,
        bits > 0,
        units <= pow2(bits),
    ensures
        near(
            product(x, y, bits),
            num * y.mantissa * power(y.exponent),
            den * power(-y.exponent),
            units + 2,
            bits,
        ),
        product(x, y, bits).mantissa > 0,
{
    let flat = Scaled { mantissa: y.mantissa, exponent: 0 };
    lemma_near_product(x, num, den, units, y.mantissa, bits);
    lemma_near_shifted(
        product(x, flat, bits),
        num * y.mantissa,
        den,
        units + 2,
        bits,
        y.exponent,
    );
    assert(product(x, y, bits) == Scaled {
        mantissa: product(x, flat, bits).mantissa,
        exponent: product(x, flat, bits).exponent + y.exponent,
    });
}

/// A division by a number adds two units.
pub proof fn lemma_near_divided(x: Scaled, num: nat, den: nat, units: nat, y: Scaled, bits: nat)
    requires
        near(x, num, den, units, bits),
        x.mantissa > 0,
        y.mantissa > 0,
        bits > 0,
        units <= pow2(bits),
    ensures
        near(
            quotient(x, y, bits),
            num * power(-y.exponent),
            den * power(y.exponent) * y.mantissa,
            units + 2,
            bits,
        ),
{
    lemma_near_shifted(x, num, den, units, bits, -y.exponent);
    let shifted = Scaled { mantissa: x.mantissa, exponent: x.exponent - y.exponent };
    lemma_near_quotient(
        shifted,
        num * power(-y.exponent),
        den * power(y.exponent),
        units,
        y.mantissa,
        bits,
    );
    assert(quotient(x, y, bits) == quotient(
        shifted,
        Scaled { mantissa: y.mantissa, exponent: 0 },
        bits,
    ));
}

/// A number that is near to a ratio is rounded up to an integer near to it.
pub proof fn lemma_near_ceiling(x: Scaled, num: nat, den: nat, units: nat, bits: nat)
    requires
        near(x, num, den, units, bits),
        den > 0,
    ensures
        ceiling(x) * den * pow2(bits) >= num * (pow2(bits) - units),
        (ceiling(x) - 1) * den * pow2(bits) < num * (pow2(bits) + units),
{
    let over = numerator_at(x.mantissa, -x.exponent);
    let under = denominator_at(1, -x.exponent);
    lemma_whole_parts(x);
    lemma2_to64();
    lemma_pow2_pos(bits);
    assert(over == x.mantissa * power(x.exponent)) by {
        if x.exponent <= 0 {
            assert(x.mantissa * 1 == x.mantissa);
        }
    }
    assert(under == power(-x.exponent)) by {
        if x.exponent < 0 {
            assert(1 * pow2((-x.exponent) as nat) == pow2((-x.exponent) as nat));
        } else if x.exponent == 0 {
            assert(1 * pow2(0) == 1);
        }
    }
    let full = pow2(bits) as int;
    let k = ceiling(x) as int;
    let a = over * den * full;
    assert(a <= num * (full + units) * under && a >= num * (full - units) * under)
        by (nonlinear_arith)
        requires
            a == over * den * full,
            (over * den - num * under) * full <= units * (num * under),
            (num * under - over * den) * full <= units * (num * under),
    ;
    let c = den * full;
    assert(c > 0) by (nonlinear_arith)
        requires
            c == den * full,
            den > 0,
            full > 0,
    ;
    assert(k * under * c >= over * c && over * c > (k - 1) * under * c) by (nonlinear_arith)
        requires
            k * under >= over,
            over > (k - 1) * under,
            c > 0,
    ;
    assert(k * den * full * under == k * under * c && (k - 1) * den * full * under == (k - 1)
        * under * c && a == over * c) by (nonlinear_arith)
        requires
            c == den * full,
            a == over * den * full,
    ;
    assert(k * den * full >= num * (full - units)) by (nonlinear_arith)
        requires
            k * den * full * under >= num * (full - units) * under,
            under > 0,
    ;
    assert((k - 1) * den * full < num * (full + units)) by (nonlinear_arith)
        requires
            (k - 1) * den * full * under < num * (full + units) * under,
            under > 0,
    ;
}

/// A number keeps its digits when it is multiplied by a power of two.
pub proof fn lemma_nearest_shifted(num: nat, k: nat, bits: nat)
    requires
        num > 0,
        bits > 0,
    ensures
        nearest(num * pow2(k), 1, bits) == (Scaled {
            mantissa: nearest(num, 1, bits).mantissa,
            exponent: nearest(num, 1, bits).exponent + k,
        }),
{
    lemma_exponent_exists(num, 1, bits);
    let e = exponent_of(num, 1, bits);
    let f = e + k;
    let p = pow2(k);
    lemma_pow2_pos(k);
    let shifted = num * p;
    assert(shifted > 0) by (nonlinear_arith)
        requires
            shifted == num * p,
            num > 0,
            p > 0,
    ;
    let n = numerator_at(num, e);
    let d = denominator_at(1, e);
    let scale: nat = if e >= 0 {
        p
    } else if f >= 0 {
        pow2(f as nat)
    } else {
        1
    };
    lemma_denominator_positive(1, e);
    assert(scale > 0) by {
        if f >= 0 {
            lemma_pow2_pos(f as nat);
        }
    }
    assert(numerator_at(shifted, f) == n * scale && denominator_at(1, f) == d * scale) by {
        if e >= 0 {
            lemma_pow2_adds(e as nat, k);
            assert(1 * (pow2(e as nat) * p) == 1 * pow2(e as nat) * p) by (nonlinear_arith);
        } else if f >= 0 {
            lemma_pow2_adds(f as nat, (-e) as nat);
            let q = pow2((-e) as nat);
            assert(num * (scale * q) == num * q * scale) by (nonlinear_arith);
        } else {
            lemma_pow2_adds(k, (-f) as nat);
            let q = pow2((-f) as nat);
            assert(num * p * q == num * (p * q)) by (nonlinear_arith);
        }
    }
    let low = pow2((bits - 1) as nat);
    let full = pow2(bits);
    assert(low * (d * scale) <= n * scale && n * scale < full * (d * scale)) by (nonlinear_arith)
        requires
            low * d <= n,
            n < full * d,
            scale > 0,
    ;
    lemma_exponent_of(shifted, 1, bits, f);
    lemma_half_even_scaled(n, d, scale);
}

/// A ratio is rounded alike in all its forms.
proof fn lemma_half_even_scaled(num: nat, den: nat, scale: nat)
    requires
        den > 0,
        scale > 0,
    ensures
        half_even(num * scale, den * scale) == half_even(num, den),
{
    let k = num as int / den as int;
    let rest = num as int % den as int;
    lemma_fundamental_div_mod(num as int, den as int);
    lemma_mod_bound(num as int, den as int);
    assert(num * scale == k * (den * scale) + rest * scale && 0 <= rest * scale && rest * scale
        < den * scale) by (nonlinear_arith)
        requires
            num == den * k + rest,
            0 <= rest < den,
            scale > 0,
    ;
    lemma_fundamental_div_mod_converse(
        (num * scale) as int,
        (den * scale) as int,
        k,
        rest * scale,
    );
    assert(2 * (rest * scale) < den * scale <==> 2 * rest < den) by (nonlinear_arith)
        requires
            scale > 0,
    ;
    assert(2 * (rest * scale) == den * scale <==> 2 * rest == den) by (nonlinear_arith)
        requires
            scale > 0,
    ;
}

/// Rounding does not carry a ratio below a power of two.
pub proof fn lemma_nearest_at_least(num: nat, den: nat, bits: nat, t: int)
    requires
        num > 0,
        den > 0,
        bits > 0,
        numerator_at(num, t) >= denominator_at(den, t),
    ensures
        at_least(nearest(num, den, bits), Scaled { mantissa: 1, exponent: t }),
{
    lemma_exponent_exists(num, den, bits);
    lemma_nearest_positive(num, den, bits);
    let e = exponent_of(num, den, bits);
    let n = numerator_at(num, e);
    let d = denominator_at(den, e);
    lemma_denominator_positive(den, e);
    lemma_denominator_positive(den, t);
    if e < t {
        let k = (if e < 0 { -e } else { 0int } + if t < 0 { -t } else { 0int }) as nat;
        lemma_at_common(num, den, e, k);
        lemma_at_common(num, den, t, k);
        let x = num * pow2(k);
        let pe = pow2((k + e) as nat);
        let p = pow2((t - e) as nat);
        let ae = den * pe;
        let at = den * pow2((k + t) as nat);
        let nt = numerator_at(num, t);
        let dt = denominator_at(den, t);
        lemma_pow2_pos((k + e) as nat);
        lemma_pow2_pos((k + t) as nat);
        lemma_mul_strictly_positive(den as int, pe as int);
        lemma_mul_strictly_positive(den as int, pow2((k + t) as nat) as int);
        assert(x >= at) by (nonlinear_arith)
            requires
                nt * at == x * dt,
                nt >= dt,
                dt > 0,
                at > 0,
        ;
        lemma_pow2_adds((k + e) as nat, (t - e) as nat);
        assert(at == ae * p) by (nonlinear_arith)
            requires
                at == den * (pe * p),
                ae == den * pe,
        ;
        assert(n >= p * d) by (nonlinear_arith)
            requires
                n * ae == x * d,
                x >= at,
                at == ae * p,
                ae > 0,
                d > 0,
        ;
        lemma_fundamental_div_mod(n as int, d as int);
        lemma_mod_bound(n as int, d as int);
        assert(n as int / d as int >= p) by (nonlinear_arith)
            requires
                n == d * (n as int / d as int) + (n as int % d as int),
                0 <= n as int % d as int,
                (n as int % d as int) < d,
                n >= p * d,
                d > 0,
        ;
        assert(1 * p == p) by (nonlinear_arith);
    } else {
        let m = nearest(num, den, bits).mantissa;
        lemma_pow2_pos((e - t) as nat);
        assert(m * pow2((e - t) as nat) >= 1) by (nonlinear_arith)
            requires
                m >= 1,
                pow2((e - t) as nat) >= 1,
        ;
    }
}

/// What is at least one half is rounded to at least one.
pub proof fn lemma_half_up_positive(x: Scaled)
    requires
        at_least(x, Scaled { mantissa: 1, exponent: -1 }),
    ensures
        half_up(x) >= 1,
{
    let num = numerator_at(x.mantissa, -x.exponent);
    let den = denominator_at(1, -x.exponent);
    lemma_denominator_positive(1, -x.exponent);
    lemma2_to64();
    lemma_fundamental_div_mod(num as int, den as int);
    lemma_mod_bound(num as int, den as int);
    if x.exponent < 0 {
        let p = pow2((-x.exponent - 1) as nat);
        lemma_pow2_unfold((-x.exponent) as nat);
        assert(1 * pow2((-x.exponent) as nat) == 2 * p) by (nonlinear_arith)
            requires
                pow2((-x.exponent) as nat) == 2 * p,
        ;
        assert(1 * p == p) by (nonlinear_arith);
        if x.exponent == -1 {
            assert(x.mantissa * pow2(0) == x.mantissa) by (nonlinear_arith)
                requires
                    pow2(0) == 1,
            ;
        }
        assert(2 * num >= den);
        if num < den {
            lemma_small_mod(num, den);
        } else {
            lemma_div_non_zero(num as int, den as int);
        }
    } else {
        let p = pow2((x.exponent + 1) as nat);
        lemma_pow2_unfold((x.exponent + 1) as nat);
        assert(x.mantissa > 0) by (nonlinear_arith)
            requires
                x.mantissa * p >= 1,
        ;
        lemma_pow2_pos(x.exponent as nat);
        assert(x.mantissa * pow2(x.exponent as nat) >= 1) by (nonlinear_arith)
            requires
                x.mantissa >= 1,
                pow2(x.exponent as nat) >= 1,
        ;
        if x.exponent == 0 {
            assert(1 * pow2(0) == 1) by (nonlinear_arith)
                requires
                    pow2(0) == 1,
            ;
        }
        lemma_div_basics_2(num as int);
    }
}

/// What is at most a quarter is rounded to zero.
pub proof fn lemma_half_up_zero(x: Scaled)
    requires
        at_most(x, Scaled { mantissa: 1, exponent: -2 }),
    ensures
        half_up(x) == 0,
{
    let num = numerator_at(x.mantissa, -x.exponent);
    let den = denominator_at(1, -x.exponent);
    lemma_denominator_positive(1, -x.exponent);
    lemma2_to64();
    if x.exponent < -2 {
        let p = pow2((-x.exponent - 2) as nat);
        lemma_pow2_adds(2, (-x.exponent - 2) as nat);
        assert(den == 4 * p && 1 * p == p) by (nonlinear_arith)
            requires
                den == 1 * (4 * p),
        ;
    } else {
        let k = (x.exponent + 2) as nat;
        lemma_pow2_pos(k);
        assert(k > 0 ==> pow2(k) >= 2) by {
            if k > 0 {
                lemma_pow2_unfold(k);
                lemma_pow2_pos((k - 1) as nat);
            }
        }
        assert(x.mantissa == 0 || (x.mantissa == 1 && k == 0)) by (nonlinear_arith)
            requires
                x.mantissa * pow2(k) <= 1,
                k == 0 ==> pow2(k) == 1,
                k > 0 ==> pow2(k) >= 2,
        ;
        if x.mantissa == 0 {
            assert(0 * pow2(x.exponent as nat) == 0) by (nonlinear_arith);
        } else {
            assert(1 * pow2(2) == 4) by (nonlinear_arith)
                requires
                    pow2(2) == 4,
            ;
        }
    }
    lemma_small_mod(num, den);
    lemma_basic_div(num as int, den as int);
}

/// An integer of no more than `bits` bits keeps its value.
pub proof fn lemma_nearest_exact(num: nat, bits: nat)
    requires
        bits > 0,
        num <= pow2(bits),
    ensures
        ({
            let x = nearest(num, 1, bits);
            &&& x.mantissa < pow2(bits)
            &&& num > 0 ==> pow2((bits - 1) as nat) <= x.mantissa
            &&& if x.exponent >= 0 {
                x.mantissa * pow2(x.exponent as nat) == num
            } else {
                x.mantissa == num * pow2((-x.exponent) as nat)
            }
            &&& floor(x) == num
        }),
{
    let x = nearest(num, 1, bits);
    lemma2_to64();
    lemma_pow2_pos(bits);
    if num == 0 {
        assert(0 * pow2(0) == 0) by (nonlinear_arith);
        lemma_floor_zero(x);
        return ;
    }
    lemma_exponent_exists(num, 1, bits);
    let e = x.exponent;
    let n = numerator_at(num, e);
    let d = denominator_at(1, e);
    lemma_denominator_positive(1, e);
    lemma_pow2_unfold(bits);
    let low = pow2((bits - 1) as nat);
    lemma_pow2_pos((bits - 1) as nat);
    if e <= 0 {
        if e == 0 {
            assert(1 * pow2(0) == 1) by (nonlinear_arith)
                requires
                    pow2(0) == 1,
            ;
        }
        assert(d == 1);
        lemma_div_basics_2(n as int);
        assert(n % 1 == 0);
        assert(half_even(n, d) == n);
        assert(pow2(bits) * 1 == pow2(bits) && low * 1 == low);
        let p = pow2((-e) as nat);
        lemma_pow2_pos((-e) as nat);
        assert(1 * p == p) by (nonlinear_arith);
        if e == 0 {
            assert(num * p == num) by (nonlinear_arith)
                requires
                    p == 1,
            ;
        }
        lemma_div_by_multiple(num as int, p as int);
        lemma_mul_is_commutative(num as int, p as int);
    } else {
        let p = pow2(e as nat);
        assert(1 * p == p) by (nonlinear_arith);
        lemma_pow2_unfold(e as nat);
        lemma_pow2_pos((e - 1) as nat);
        let h = pow2((e - 1) as nat);
        // Only the next power of two needs an exponent above zero.
        assert(h == 1 && num == 2 * low) by (nonlinear_arith)
            requires
                low * p <= num,
                num <= 2 * low,
                p == 2 * h,
                h >= 1,
                low >= 1,
        ;
        assert(num == low * p) by (nonlinear_arith)
            requires
                num == 2 * low,
                p == 2 * h,
                h == 1,
        ;
        lemma_div_multiples_vanish(low as int, p as int);
        lemma_mod_multiples_basic(low as int, p as int);
        assert(p as int * low as int == num) by (nonlinear_arith)
            requires
                num == low * p,
        ;
        assert(half_even(n, d) == low);
        lemma_div_basics_2(num as int);
    }
}

/// What is at most a number that is an integer is at most that integer.
pub proof fn lemma_at_most_integer(x: Scaled, y: Scaled, value: nat)
    requires
        at_most(x, y),
        if y.exponent >= 0 {
            y.mantissa * pow2(y.exponent as nat) == value
        } else {
            y.mantissa == value * pow2((-y.exponent) as nat)
        },
    ensures
        at_most(x, Scaled { mantissa: value, exponent: 0 }),
{
    lemma2_to64();
    let a = x.mantissa;
    let b = y.mantissa;
    let d = x.exponent;
    let e = y.exponent;
    if d >= e {
        let k = pow2((d - e) as nat);
        if e >= 0 {
            lemma_pow2_adds((d - e) as nat, e as nat);
            let p = pow2(e as nat);
            assert(a * (k * p) <= value) by (nonlinear_arith)
                requires
                    a * k <= b,
                    b * p == value,
                    p >= 0,
            ;
        } else {
            let p = pow2((-e) as nat);
            lemma_pow2_pos((-e) as nat);
            if d >= 0 {
                lemma_pow2_adds(d as nat, (-e) as nat);
                let q = pow2(d as nat);
                assert(a * q <= value) by (nonlinear_arith)
                    requires
                        a * k <= b,
                        k == q * p,
                        b == value * p,
                        p > 0,
                ;
            } else {
                let q = pow2((-d) as nat);
                lemma_pow2_adds((d - e) as nat, (-d) as nat);
                lemma_pow2_pos((d - e) as nat);
                assert(a <= value * q) by (nonlinear_arith)
                    requires
                        a * k <= b,
                        k * q == p,
                        b == value * p,
                        k > 0,
                ;
            }
        }
    } else {
        let k = pow2((e - d) as nat);
        if d >= 0 {
            let p = pow2(e as nat);
            let q = pow2(d as nat);
            lemma_pow2_adds((e - d) as nat, d as nat);
            assert(a * q <= value) by (nonlinear_arith)
                requires
                    a <= b * k,
                    k * q == p,
                    b * p == value,
                    q >= 0,
            ;
        } else if e >= 0 {
            let p = pow2(e as nat);
            let q = pow2((-d) as nat);
            lemma_pow2_adds(e as nat, (-d) as nat);
            assert(a <= value * q) by (nonlinear_arith)
                requires
                    a <= b * k,
                    k == p * q,
                    b * p == value,
            ;
        } else {
            let p = pow2((-e) as nat);
            let q = pow2((-d) as nat);
            lemma_pow2_adds((e - d) as nat, (-e) as nat);
            assert(a <= value * q) by (nonlinear_arith)
                requires
                    a <= b * k,
                    k * p == q,
                    b == value * p,
            ;
        }
    }
}

/// What is at most the number before an integer of full precision has an
/// integer part below it.
pub proof fn lemma_floor_below(x: Scaled, mantissa: nat, e: int, value: nat)
    requires
        mantissa > 0,
        e <= 0,
        mantissa == value * pow2((-e) as nat),
        at_most(x, Scaled { mantissa: (mantissa - 1) as nat, exponent: e }),
    ensures
        floor(x) < value,
{
    let p = pow2((-e) as nat);
    lemma_pow2_pos((-e) as nat);
    lemma2_to64();
    let a = x.mantissa;
    let d = x.exponent;
    if d >= 0 {
        let q = pow2(d as nat);
        lemma_pow2_adds(d as nat, (-e) as nat);
        assert(a * q < value) by (nonlinear_arith)
            requires
                a * (q * p) <= mantissa - 1,
                mantissa == value * p,
                p > 0,
        ;
        if d == 0 {
            assert(a * q == a) by (nonlinear_arith)
                requires
                    q == 1,
            ;
            assert(1 * q == 1);
        }
        lemma_div_basics_2((a * q) as int);
    } else {
        let q = pow2((-d) as nat);
        lemma_pow2_pos((-d) as nat);
        assert(1 * q == q) by (nonlinear_arith);
        if d >= e {
            let k = pow2((d - e) as nat);
            lemma_pow2_pos((d - e) as nat);
            lemma_pow2_adds((d - e) as nat, (-d) as nat);
            assert(a < value * q) by (nonlinear_arith)
                requires
                    a * k <= mantissa - 1,
                    mantissa == value * p,
                    k * q == p,
                    k > 0,
                    q > 0,
            ;
        } else {
            let k = pow2((e - d) as nat);
            lemma_pow2_pos((e - d) as nat);
            lemma_pow2_adds((e - d) as nat, (-e) as nat);
            assert(a < value * q) by (nonlinear_arith)
                requires
                    a <= (mantissa - 1) * k,
                    mantissa == value * p,
                    k * p == q,
                    k > 0,
            ;
        }
        lemma_fundamental_div_mod(a as int, q as int);
        lemma_mod_bound(a as int, q as int);
        assert((a as int) / (q as int) < value) by (nonlinear_arith)
            requires
                a == q * (a as int / q as int) + a as int % q as int,
                a as int % q as int >= 0,
                a < value * q,
                q > 0,
        ;
    }
}

} // verus!
