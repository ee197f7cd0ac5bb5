//! How far the results of the arithmetic on [`Double`] are from the exact ones.
//!
//! A result is off by one part in `2^53` of the exact one, or by half a unit where
//! that is more. The laws are stated in units of `2^-1074`, across denominators.
use vstd::arithmetic::div_mod::{lemma_fundamental_div_mod, lemma_mod_pos_bound};
use vstd::arithmetic::power2::{
    lemma2_to64, lemma2_to64_rest, lemma_pow2_pos, lemma_pow2_unfold, pow2,
};
use vstd::math::abs;
use vstd::prelude::*;

use crate::double::{
    law_counts_are_exact, law_midpoint_lies_between, lemma_half, lemma_significand, lemma_two_units,
    lemma_zero_units, Double, Single, HALF_OF_LARGEST, INFINITY, TWO,
};
use crate::rounding::{
    distance, law_rounding_error, law_rounding_is_nearest, law_rounding_keeps_order,
    law_short_numbers_are_exact, lemma_round_scales, round_magnitude, units_of,
};

verus! {

pub(crate) proof fn lemma_abs_product(a: int, b: int)
    ensures
        abs(a * b) == abs(a) * abs(b),
{
    assert(a >= 0 && b >= 0 ==> a * b >= 0) by (nonlinear_arith);
    assert(a >= 0 && b < 0 ==> a * b <= 0 && -(a * b) == a * (-b)) by (nonlinear_arith);
    assert(a < 0 && b >= 0 ==> a * b <= 0 && -(a * b) == (-a) * b) by (nonlinear_arith);
    assert(a < 0 && b < 0 ==> a * b >= 0 && a * b == (-a) * (-b)) by (nonlinear_arith);
}

/// A small number of units stands for itself.
proof fn lemma_small_units(m: nat)
    requires
        m <= pow2(52),
    ensures
        units_of(53, m) == m,
{
    lemma2_to64();
    lemma2_to64_rest();
    if m == pow2(52) {
        assert(pow2(52) % pow2(52) == 0 && pow2(52) / pow2(52) == 1);
        assert((pow2(52) + 0) * pow2(0) == pow2(52)) by (nonlinear_arith)
            requires
                pow2(0) == 1,
        ;
    }
}

/// Rounding is off by one part in `2^53`, or by half a unit where that is more.
pub(crate) proof fn lemma_rounding_is_close(n: nat, d: nat)
    requires
        d > 0,
    ensures
        ({
            let u = units_of(53, round_magnitude(53, n, d));
            &&& abs(u * d - n) * 0x20_0000_0000_0000 <= n + d * 0x10_0000_0000_0000
            &&& d == 1 ==> abs(u - n) * 0x20_0000_0000_0000 <= n
        }),
{
    lemma2_to64();
    lemma2_to64_rest();
    let u = units_of(53, round_magnitude(53, n, d));
    assert(u * 1 == u);
    if n >= pow2(52) * d {
        law_rounding_error(53, n, d);
    } else {
        let (f, r) = (n / d, n % d);
        lemma_fundamental_div_mod(n as int, d as int);
        lemma_mod_pos_bound(n as int, d as int);
        assert(f < pow2(52)) by (nonlinear_arith)
            requires
                n == d * f + r,
                r >= 0,
                d > 0,
                n < pow2(52) * d,
        ;
        lemma_small_units(f);
        lemma_small_units(f + 1);
        law_rounding_is_nearest(53, n, d, f);
        law_rounding_is_nearest(53, n, d, f + 1);
        assert(f * d == d * f && (f + 1) * d == d * f + d) by (nonlinear_arith);
        assert(2 * distance(n, d, u) <= d);
    }
}

/// What is not too large stays finite.
pub(crate) proof fn lemma_rounding_is_finite(n: nat, d: nat)
    requires
        d > 0,
        n <= pow2(2000) * d,
    ensures
        round_magnitude(53, n, d) < INFINITY,
{
    lemma2_to64();
    lemma2_to64_rest();
    let big = pow2(2000);
    law_rounding_keeps_order(53, n, big * d, d);
    assert(big * d == d * big && d * 1 == d) by (nonlinear_arith);
    lemma_round_scales(53, big, 1, d);
    law_short_numbers_are_exact(53, 1, 2000);
    assert(1 * big == big);
    assert((2000 + 2) * pow2(52) < INFINITY);
}

/// A sum is off by one part in `2^53` at most.
pub proof fn law_sum_is_close(a: Double, b: Double)
    requires
        a.finite(),
        b.finite(),
    ensures
        ({
            let r = a.spec_add(b);
            let exact = a.signed_units() + b.signed_units();
            &&& r.finite() ==> abs(r.signed_units() - exact) * 0x20_0000_0000_0000 <= abs(exact)
            &&& abs(exact) <= pow2(2000) ==> r.finite()
        }),
{
    let r = a.spec_add(b);
    let exact = a.signed_units() + b.signed_units();
    let n = abs(exact);
    lemma_rounding_is_close(n, 1);
    assert(pow2(2000) * 1 == pow2(2000));
    if n <= pow2(2000) {
        lemma_rounding_is_finite(n, 1);
    }
    lemma_zero_units(0);
}

/// A difference is off by one part in `2^53` at most.
pub proof fn law_difference_is_close(a: Double, b: Double)
    requires
        a.finite(),
        b.finite(),
    ensures
        ({
            let r = a.spec_sub(b);
            let exact = a.signed_units() - b.signed_units();
            &&& r.finite() ==> abs(r.signed_units() - exact) * 0x20_0000_0000_0000 <= abs(exact)
            &&& abs(exact) <= pow2(2000) ==> r.finite()
        }),
{
    law_sum_is_close(a, b.spec_neg());
}

/// A product is off by one part in `2^53`, or by half a unit where that is more.
pub proof fn law_product_is_close(a: Double, b: Double)
    requires
        a.finite(),
        b.finite(),
    ensures
        ({
            let r = a.spec_mul(b);
            let exact = a.signed_units() * b.signed_units();
            &&& r.finite() ==> abs(r.signed_units() * pow2(1074) - exact) * 0x20_0000_0000_0000
                <= abs(exact) + pow2(1074) * 0x10_0000_0000_0000
            &&& abs(exact) <= pow2(2000) * pow2(1074) ==> r.finite()
        }),
{
    let r = a.spec_mul(b);
    let exact = a.signed_units() * b.signed_units();
    let (u, v) = (a.units() as int, b.units() as int);
    let one = pow2(1074);
    lemma_pow2_pos(1074);
    assert(u * v >= 0 && (-u) * v == -(u * v) && u * (-v) == -(u * v) && (-u) * (-v) == u * v)
        by (nonlinear_arith)
        requires
            u >= 0,
            v >= 0,
    ;
    let n = (u * v) as nat;
    assert(abs(exact) == n);
    lemma_rounding_is_close(n, one);
    if n <= pow2(2000) * one {
        lemma_rounding_is_finite(n, one);
    }
    let w = r.units() as int;
    assert((-w) * one == -(w * one)) by (nonlinear_arith);
    if r.finite() {
        assert(r.negative() == (a.negative() != b.negative()));
    }
}

/// A quotient is off by one part in `2^53`, or by half a unit where that is more.
pub proof fn law_quotient_is_close(a: Double, b: Double)
    requires
        a.finite(),
        b.finite(),
        !b.zero(),
    ensures
        ({
            let r = a.spec_div(b);
            let exact = a.signed_units() * pow2(1074);
            &&& b.units() > 0
            &&& r.finite() ==> abs(r.signed_units() * b.signed_units() - exact)
                * 0x20_0000_0000_0000 <= abs(exact) + b.units() * 0x10_0000_0000_0000
            &&& abs(exact) <= pow2(2000) * b.units() ==> r.finite()
        }),
{
    let r = a.spec_div(b);
    let one = pow2(1074);
    lemma_pow2_pos(1074);
    lemma_zero_units(b.magnitude());
    let (u, d) = (a.units() as int, b.units() as int);
    assert(u * one >= 0 && (-u) * one == -(u * one)) by (nonlinear_arith)
        requires
            u >= 0,
            one >= 0,
    ;
    let n = (u * one) as nat;
    lemma_rounding_is_close(n, d as nat);
    if n <= pow2(2000) * d {
        lemma_rounding_is_finite(n, d as nat);
    }
    let w = r.units() as int;
    assert((-w) * d == -(w * d) && w * (-d) == -(w * d) && (-w) * (-d) == w * d)
        by (nonlinear_arith);
    if r.finite() {
        assert(r.negative() == (a.negative() != b.negative()));
    }
}

/// No number in single precision is nearer to a number than the one that it is narrowed
/// to.
pub proof fn law_narrowed_is_nearest(x: Double, other: Single)
    requires
        x.finite(),
        Single::spec_narrow(x).finite(),
        other.finite(),
    ensures
        ({
            let r = Single::spec_narrow(x);
            let unit = pow2(925);
            &&& r.negative() == x.negative()
            &&& abs(r.units() * unit - x.units()) <= abs(other.units() * unit - x.units())
        }),
{
    let unit = pow2(925);
    lemma_pow2_pos(925);
    law_rounding_is_nearest(24, x.units(), unit, other.magnitude());
    assert(Single::spec_narrow(x).magnitude() == round_magnitude(24, x.units(), unit));
}

/// Twice a number is exact.
pub proof fn law_doubling_is_exact(x: Double)
    requires
        x.finite(),
        (Double { bits: TWO }).spec_mul(x).finite(),
    ensures
        (Double { bits: TWO }).spec_mul(x).signed_units() == 2 * x.signed_units(),
{
    lemma2_to64();
    lemma2_to64_rest();
    lemma_two_units();
    let one = pow2(1074);
    lemma_pow2_pos(1074);
    let u = x.units();
    let (f, e) = lemma_significand(x.magnitude());
    lemma_pow2_unfold(e + 1);
    assert(2 * u == f * pow2(e + 1)) by (nonlinear_arith)
        requires
            u == f * pow2(e),
            pow2(e + 1) == 2 * pow2(e),
    ;
    law_short_numbers_are_exact(53, f, e + 1);
    assert((2 * one) * u == one * (2 * u) && one * 1 == one) by (nonlinear_arith);
    lemma_round_scales(53, 2 * u, 1, one);
}

/// Half of a count is exact.
pub proof fn law_half_of_count_is_exact(x: u32)
    ensures
        ({
            let half = Double::spec_from_count(x as nat).spec_div(Double { bits: TWO });
            half.finite() && 2 * half.signed_units() == x * pow2(1074)
        }),
{
    lemma2_to64();
    lemma2_to64_rest();
    lemma_two_units();
    law_counts_are_exact(x as nat);
    let one = pow2(1074);
    lemma_pow2_unfold(1074);
    lemma_pow2_pos(1074);
    let h = x * pow2(1073);
    let c = 2 * one;
    assert((x * one) * one == c * h && c * 1 == c && 2 * h == x * one) by (nonlinear_arith)
        requires
            one == 2 * pow2(1073),
            h == x * pow2(1073),
            c == 2 * one,
    ;
    lemma_round_scales(53, h as nat, 1, c);
    law_short_numbers_are_exact(53, x as nat, 1073);
    assert((1073 + 2) * pow2(52) < INFINITY);
}

/// A small number of units of single precision stands for itself.
proof fn lemma_small_single_units(m: nat)
    requires
        m <= pow2(23),
    ensures
        units_of(24, m) == m,
{
    lemma2_to64();
    if m == pow2(23) {
        assert(pow2(23) % pow2(23) == 0 && pow2(23) / pow2(23) == 1);
        assert((pow2(23) + 0) * pow2(0) == pow2(23)) by (nonlinear_arith)
            requires
                pow2(0) == 1,
        ;
    }
}

/// Narrowing is off by one part in `2^24`, or by half a unit of single precision where
/// that is more.
pub proof fn law_narrowing_is_close(x: Double)
    requires
        x.finite(),
        Single::spec_narrow(x).finite(),
    ensures
        ({
            let r = Single::spec_narrow(x);
            let unit = pow2(925);
            &&& r.negative() == x.negative()
            &&& abs(r.units() * unit - x.units()) * 0x100_0000 <= x.units() + unit * 0x80_0000
        }),
{
    lemma2_to64();
    let d = pow2(925);
    lemma_pow2_pos(925);
    let n = x.units();
    let u = units_of(24, round_magnitude(24, n, d));
    assert(Single::spec_narrow(x).magnitude() == round_magnitude(24, n, d));
    if n >= pow2(23) * d {
        law_rounding_error(24, n, d);
    } else {
        let (f, r) = (n / d, n % d);
        lemma_fundamental_div_mod(n as int, d as int);
        lemma_mod_pos_bound(n as int, d as int);
        assert(f < pow2(23)) by (nonlinear_arith)
            requires
                n == d * f + r,
                r >= 0,
                d > 0,
                n < pow2(23) * d,
        ;
        lemma_small_single_units(f);
        lemma_small_single_units(f + 1);
        law_rounding_is_nearest(24, n, d, f);
        law_rounding_is_nearest(24, n, d, f + 1);
        assert(f * d == d * f && (f + 1) * d == d * f + d) by (nonlinear_arith);
        assert(2 * distance(n, d, u) <= d);
    }
}

/// Whether `m` is half way between `a` and `b`, up to rounding.
pub open spec fn is_half_way(m: Double, a: Double, b: Double) -> bool {
    let sum = a.signed_units() + b.signed_units();
    m.finite() && abs(2 * m.signed_units() - sum) * 0x20_0000_0000_0000 <= 4 * (a.units()
        + b.units()) + 4 * 0x20_0000_0000_0000
}

/// Half of a number is off by half a unit more than a part in `2^53`.
proof fn lemma_halved(x: Double)
    requires
        x.finite(),
    ensures
        ({
            let h = x.spec_div(Double { bits: TWO });
            &&& h.finite()
            &&& abs(2 * h.signed_units() - x.signed_units()) * 0x20_0000_0000_0000 <= x.units()
                + 0x20_0000_0000_0000
        }),
{
    let two = Double { bits: TWO };
    lemma_two_units();
    lemma_half(x);
    law_quotient_is_close(x, two);
    let one = pow2(1074) as int;
    lemma_pow2_pos(1074);
    let (h, u) = (x.spec_div(two).signed_units(), x.signed_units());
    let b = 0x20_0000_0000_0000int;
    assert(h * (2 * one) - u * one == (2 * h - u) * one) by (nonlinear_arith);
    lemma_abs_product(2 * h - u, one);
    lemma_abs_product(u, one);
    assert((abs(2 * h - u) * one) * b == (abs(2 * h - u) * b) * one && abs(u) * one + (2 * one)
        * 0x10_0000_0000_0000 == (abs(u) + 0x20_0000_0000_0000) * one) by (nonlinear_arith);
    assert(abs(2 * h - u) * b <= abs(u) + b) by (nonlinear_arith)
        requires
            (abs(2 * h - u) * b) * one <= (abs(u) + b) * one,
            one > 0,
    ;
}

/// The midpoint of two numbers is half way between them.
pub proof fn law_midpoint_is_half_way(a: Double, b: Double)
    requires
        a.finite(),
        b.finite(),
        !b.spec_less(a),
    ensures
        is_half_way(a.spec_midpoint(b), a, b),
{
    let two = Double { bits: TWO };
    law_midpoint_lies_between(a, b);
    lemma_two_units();
    if a.magnitude() <= HALF_OF_LARGEST && b.magnitude() <= HALF_OF_LARGEST {
        let s = a.spec_add(b);
        assert(s.finite());
        law_sum_is_close(a, b);
        lemma_halved(s);
    } else {
        lemma_halved(a);
        lemma_halved(b);
        law_sum_is_close(a.spec_div(two), b.spec_div(two));
    }
}

} // verus!
