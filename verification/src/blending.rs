//! What a blend of depths keeps of them: it lies between the least and the
//! greatest, in spite of all rounding.
//!
//! A blend takes some hundred operations, each of which is off by one part in
//! `2^53` at most. The mean that comes out is off by a few hundred such parts, and
//! that is much less than the step from one single-precision number to the next.
use vstd::arithmetic::div_mod::{
    lemma_fundamental_div_mod, lemma_fundamental_div_mod_converse, lemma_mod_pos_bound,
};
use vstd::arithmetic::power2::{
    lemma2_to64, lemma2_to64_rest, lemma_pow2_adds, lemma_pow2_pos, lemma_pow2_strictly_increases,
    lemma_pow2_unfold, pow2,
};
use vstd::prelude::*;

use crate::double::{
    law_counts_are_exact, law_less_compares_values, law_widening_loses_nothing, lemma_cancel,
    lemma_narrow_in_order, lemma_narrow_turned, lemma_rank_of_product, lemma_rank_of_quotient,
    lemma_rank_of_sum, lemma_rounded_error, lemma_rounded_rank_in_order,
    lemma_rounded_rank_turned, lemma_squares_in_order, lemma_sums_in_order, lemma_times,
    lemma_units_follow, lemma_values_in_order, lemma_values_turned, rounded_double,
    Double, Single, ONE,
};
use crate::rounding::{
    law_rounding_is_nearest, law_rounding_keeps_order, law_rounding_keeps_values,
    lemma_round_scales, lemma_spacing, lemma_units_in_order, round_finite, round_magnitude,
    units_of,
};
use crate::upsample::{
    blended, blends_to, colors_apart, gap, in_window, law_window_is_centred, lemma_colors_apart,
    lemma_low_position, low_position, pixel_taps, row_taps, squared_offset, tap_at, taps_above,
    weighs, weighted_sums, window_end, window_start, Tap, UpsampleParams, Weight, COLOR_SPREAD,
    SPATIAL_SPREAD,
};

verus! {

/// One more tap raises the bound on the error of the sums by three parts: the
/// bound from above.
proof fn lemma_step_above(a: int, b: int, g: int, p: int, q: int, k: int)
    requires
        0 <= k,
        2 * k + 3 <= b,
        0 <= g,
        0 <= q,
        a * b <= g * (b + k),
        p * b <= a * (b + 1),
        g * (b - 1) <= q * b,
    ensures
        p * b <= q * (b + (k + 3)),
{
    let up = b + 1;
    let down = b - 1;
    let bk = b + k;
    lemma_times(p * b, a * up, b);
    lemma_times(a * b, g * bk, up);
    assert((a * up) * b == (a * b) * up) by (nonlinear_arith);
    assert((p * b) * b <= (g * bk) * up);
    lemma_times((p * b) * b, (g * bk) * up, down);
    assert(bk * up >= 0) by (nonlinear_arith)
        requires
            bk >= 0,
            up >= 0,
    ;
    lemma_times(g * down, q * b, bk * up);
    assert(((g * bk) * up) * down == (g * down) * (bk * up)) by (nonlinear_arith);
    assert((q * b) * (bk * up) == ((q * bk) * up) * b) by (nonlinear_arith);
    assert(((p * b) * b) * down == ((p * b) * down) * b) by (nonlinear_arith);
    lemma_cancel((p * b) * down, (q * bk) * up, b);
    let more = b + (k + 3);
    assert(bk * up <= more * down) by (nonlinear_arith)
        requires
            bk == b + k,
            up == b + 1,
            down == b - 1,
            more == b + (k + 3),
            2 * k + 3 <= b,
    ;
    lemma_times(bk * up, more * down, q);
    assert((bk * up) * q == (q * bk) * up) by (nonlinear_arith);
    assert((more * down) * q == (q * more) * down) by (nonlinear_arith);
    lemma_cancel(p * b, q * more, down);
}

/// The bound from below.
proof fn lemma_step_below(a: int, b: int, g: int, p: int, q: int, k: int)
    requires
        0 <= k,
        2 * k + 3 <= b,
        0 <= g,
        0 <= q,
        a * b >= g * (b - k),
        p * b >= a * (b - 1),
        g * (b + 1) >= q * b,
    ensures
        p * b >= q * (b - (k + 3)),
{
    let up = b + 1;
    let down = b - 1;
    let bk = b - k;
    lemma_times(a * down, p * b, b);
    lemma_times(g * bk, a * b, down);
    assert((a * down) * b == (a * b) * down) by (nonlinear_arith);
    assert((p * b) * b >= (g * bk) * down);
    lemma_times((g * bk) * down, (p * b) * b, up);
    assert(bk * down >= 0) by (nonlinear_arith)
        requires
            bk >= 0,
            down >= 0,
    ;
    lemma_times(q * b, g * up, bk * down);
    assert(((g * bk) * down) * up == (g * up) * (bk * down)) by (nonlinear_arith);
    assert((q * b) * (bk * down) == ((q * bk) * down) * b) by (nonlinear_arith);
    assert(((p * b) * b) * up == ((p * b) * up) * b) by (nonlinear_arith);
    lemma_cancel((q * bk) * down, (p * b) * up, b);
    let less = b - (k + 3);
    assert(less * up <= bk * down) by (nonlinear_arith)
        requires
            bk == b - k,
            up == b + 1,
            down == b - 1,
            less == b - (k + 3),
            k >= 0,
            b >= 0,
    ;
    lemma_times(less * up, bk * down, q);
    assert((bk * down) * q == (q * bk) * down) by (nonlinear_arith);
    assert((less * up) * q == (q * less) * up) by (nonlinear_arith);
    lemma_cancel(q * less, p * b, up);
}

/// The bits of `2^-400`.
pub const LEAST_WEIGHT: u64 = 0x26f0_0000_0000_0000;

/// Whether a number can be a weight: it is no more than one, and not so small that
/// its product with another one, and with a depth, would lose precision.
pub open spec fn is_weight(x: Double) -> bool {
    LEAST_WEIGHT <= x.bits <= ONE
}

/// Whether both weights of a sample are in range.
pub open spec fn is_fair(w: Weight) -> bool {
    is_weight(w.spatial) && is_weight(w.color)
}

pub(crate) proof fn lemma_weight(x: Double)
    requires
        is_weight(x),
    ensures
        x.finite() && !x.negative(),
        pow2(674) <= x.units() <= pow2(1074),
{
    lemma2_to64();
    lemma2_to64_rest();
    let least = Double { bits: LEAST_WEIGHT };
    let one = Double { bits: ONE };
    assert(least.magnitude() % pow2(52) == 0 && least.magnitude() / pow2(52) == 623);
    assert(one.magnitude() % pow2(52) == 0 && one.magnitude() / pow2(52) == 1023);
    lemma_pow2_adds(52, 622);
    lemma_pow2_adds(52, 1022);
    lemma_units_follow(least, x);
    lemma_units_follow(x, one);
}

proof fn lemma_products(a: nat, b: nat, la: nat, lb: nat, ha: nat, hb: nat)
    by (nonlinear_arith)
    requires
        la <= a <= ha,
        lb <= b <= hb,
    ensures
        la * lb <= a * b <= ha * hb,
{
}

/// The weight of a sample.
pub(crate) proof fn lemma_weight_product(w: Weight)
    requires
        is_fair(w),
    ensures
        ({
            let r = w.spatial.spec_mul(w.color);
            &&& r.finite()
            &&& !r.negative()
            &&& pow2(273) <= r.units() <= pow2(1075)
        }),
{
    lemma2_to64();
    lemma2_to64_rest();
    lemma_weight(w.spatial);
    lemma_weight(w.color);
    let one = pow2(1074);
    let (u, v) = (w.spatial.units(), w.color.units());
    lemma_products(u, v, pow2(674), pow2(674), one, one);
    lemma_pow2_adds(674, 674);
    lemma_pow2_adds(52, 1074);
    lemma_pow2_adds(1074, 1074);
    lemma_pow2_adds(2000, 1074);
    lemma_pow2_strictly_increases(1126, 1348);
    lemma_pow2_strictly_increases(2148, 3074);
    lemma_pow2_pos(1074);
    lemma_rounded_error(u * v, one);
    let r = w.spatial.spec_mul(w.color);
    let x = r.units();
    let b = pow2(53);
    lemma_pow2_adds(274, 1074);
    lemma_pow2_unfold(274);
    lemma_pow2_unfold(1075);
    assert(x >= pow2(273)) by {
        let n = (u * v) as int;
        let half = pow2(273) as int;
        if x < half {
            assert((x * one) * b < n * (b - 1)) by (nonlinear_arith)
                requires
                    x + 1 <= half,
                    x >= 0,
                    one >= 1,
                    b >= 2,
                    n >= (2 * half) * one,
            ;
        }
    }
    assert(x <= pow2(1075)) by {
        let n = (u * v) as int;
        if x > pow2(1075) {
            assert((x * one) * b > n * (b + 1)) by (nonlinear_arith)
                requires
                    x > 2 * one,
                    n <= one * one,
                    one >= 1,
                    b >= 2,
            ;
        }
    }
}

/// The depth of a sample in double precision.
pub(crate) proof fn lemma_depth(s: Single)
    requires
        s.spec_is_positive(),
    ensures
        s.spec_widen().finite() && !s.spec_widen().negative(),
        s.spec_widen().units() == s.units() * pow2(925),
        1 <= s.units() <= pow2(277),
{
    law_widening_loses_nothing(s);
    lemma2_to64();
    let m = s.magnitude();
    let base = pow2(23);
    lemma_units_in_order(24, 0, m);
    if m >= base {
        let e = (m / base - 1) as nat;
        assert(e <= 253);
        lemma_pow2_adds(24, 253);
        lemma_pow2_pos(e);
        if e < 253 {
            lemma_pow2_strictly_increases(e, 253);
        }
        let f = base + m % base;
        assert(f * pow2(e) <= pow2(24) * pow2(253)) by (nonlinear_arith)
            requires
                f <= pow2(24),
                pow2(e) <= pow2(253),
                f >= 0,
                pow2(e) >= 0,
        ;
    } else {
        lemma_pow2_strictly_increases(23, 277);
    }
}

/// The depth of a sample times its weight.
pub(crate) proof fn lemma_term(w: Double, s: Single)
    requires
        w.finite() && !w.negative(),
        pow2(273) <= w.units() <= pow2(1075),
        s.spec_is_positive(),
    ensures
        ({
            let r = w.spec_mul(s.spec_widen());
            let n = w.units() * (s.units() * pow2(925));
            let b = pow2(53);
            &&& r.finite()
            &&& !r.negative()
            &&& pow2(52) <= r.units() <= pow2(1300)
            &&& n * (b - 1) <= (r.units() * pow2(1074)) * b <= n * (b + 1)
        }),
{
    lemma_depth(s);
    lemma2_to64();
    lemma2_to64_rest();
    let c = pow2(925);
    let one = pow2(1074);
    let d = s.units() * c;
    lemma_pow2_adds(277, 925);
    lemma_products(s.units(), c, 1, c, pow2(277), c);
    assert(1 * c == c);
    lemma_products(w.units(), d, pow2(273), c, pow2(1075), pow2(1202));
    lemma_pow2_adds(273, 925);
    lemma_pow2_adds(1075, 1202);
    lemma_pow2_adds(52, 1074);
    lemma_pow2_adds(2000, 1074);
    lemma_pow2_strictly_increases(1126, 1198);
    lemma_pow2_strictly_increases(2277, 3074);
    lemma_pow2_pos(1074);
    let n = w.units() * d;
    lemma_rounded_error(n, one);
    let r = w.spec_mul(s.spec_widen());
    let x = r.units();
    let b = pow2(53);
    lemma_pow2_adds(124, 1074);
    lemma_pow2_adds(1203, 1074);
    lemma_pow2_strictly_increases(53, 124);
    lemma_pow2_unfold(1204);
    lemma_pow2_strictly_increases(1204, 1300);
    lemma_pow2_pos(1203);
    assert(x >= pow2(52)) by {
        let low = pow2(124) as int;
        if x < pow2(52) {
            assert((x * one) * b < n * (b - 1)) by (nonlinear_arith)
                requires
                    2 * x <= low,
                    x >= 0,
                    one >= 1,
                    b >= 3,
                    low >= 1,
                    n >= low * one,
            ;
        }
    }
    assert(x <= pow2(1204)) by {
        let high = pow2(1203) as int;
        if x > pow2(1204) {
            assert((x * one) * b > n * (b + 1)) by (nonlinear_arith)
                requires
                    x > 2 * high,
                    n <= high * one,
                    one >= 1,
                    high >= 1,
                    b >= 2,
            ;
        }
    }
}

/// The sum of two numbers that are neither too small nor too large.
proof fn lemma_sum(x: Double, y: Double, limit: nat)
    requires
        x.finite() && !x.negative(),
        y.finite() && !y.negative(),
        pow2(52) <= y.units(),
        x.units() + y.units() <= pow2(limit),
        1 <= limit < 2000,
    ensures
        ({
            let r = x.spec_add(y);
            let sum = x.units() + y.units();
            let b = pow2(53);
            &&& r.finite()
            &&& !r.negative()
            &&& y.units() <= 2 * r.units()
            &&& r.units() <= pow2(limit + 1)
            &&& sum * (b - 1) <= r.units() * b <= sum * (b + 1)
        }),
{
    lemma2_to64();
    lemma2_to64_rest();
    let sum = x.units() + y.units();
    let b = pow2(53);
    lemma_pow2_strictly_increases(limit, 2000);
    lemma_pow2_unfold(limit + 1);
    lemma_pow2_pos(limit);
    assert(pow2(52) * 1 == pow2(52) && pow2(2000) * 1 == pow2(2000)) by (nonlinear_arith);
    lemma_rounded_error(sum, 1);
    let r = x.spec_add(y);
    assert(r == rounded_double(false, sum, 1));
    let u = r.units();
    assert(u * 1 == u) by (nonlinear_arith);
    assert(sum <= 2 * u) by (nonlinear_arith)
        requires
            sum * (b - 1) <= u * b,
            b >= 2,
            sum >= 0,
            u >= 0,
    ;
    assert(u <= 2 * sum) by (nonlinear_arith)
        requires
            u * b <= sum * (b + 1),
            b >= 2,
            sum >= 0,
    ;
}

/// How far the sums over the first `n` taps stray: the sum of the depths times
/// their weights lies, but for some parts in `2^53`, between the sum of the
/// weights times the least depth and times the greatest.
pub(crate) open spec fn sums_hold(t: Double, d: Double, n: nat, lo: nat, hi: nat) -> bool {
    let b = pow2(53);
    let one = pow2(1074);
    let c = pow2(925);
    let k = 3 * n + 1;
    &&& t.finite() && !t.negative()
    &&& d.finite() && !d.negative()
    &&& n > 0 ==> t.units() >= pow2(272)
    &&& t.units() <= pow2(1076 + 2 * n)
    &&& d.units() <= pow2(1301 + 2 * n)
    &&& (one * d.units()) * b <= ((hi * c) * t.units()) * (b + k)
    &&& (one * d.units()) * b >= ((lo * c) * t.units()) * (b - k)
}

proof fn lemma_sums_step_above(
    d0: int,
    x: int,
    d1: int,
    t0: int,
    w: int,
    t1: int,
    s: int,
    hc: int,
    one: int,
    b: int,
    k: int,
)
    requires
        0 <= d0 && 0 <= x && 0 <= d1 && 0 <= t0 && 0 <= w && 0 <= t1 && 0 <= s && 0 <= one,
        s <= hc,
        1 <= k,
        2 * k + 3 <= b,
        (one * d0) * b <= (hc * t0) * (b + k),
        (x * one) * b <= (w * s) * (b + 1),
        d1 * b <= (d0 + x) * (b + 1),
        (t0 + w) * (b - 1) <= t1 * b,
    ensures
        (one * d1) * b <= (hc * t1) * (b + (k + 3)),
{
    let a = one * (d0 + x);
    let g = hc * (t0 + w);
    assert((w * s) * (b + 1) <= (hc * w) * (b + k)) by {
        assert(w * s <= hc * w) by (nonlinear_arith)
            requires
                s <= hc,
                w >= 0,
        ;
        lemma_times(w * s, hc * w, b + 1);
        assert((hc * w) * (b + 1) <= (hc * w) * (b + k)) by (nonlinear_arith)
            requires
                hc * w >= 0,
                k >= 1,
        ;
    }
    assert(a * b == (one * d0) * b + (x * one) * b) by (nonlinear_arith)
        requires
            a == one * (d0 + x),
    ;
    assert(g * (b + k) == (hc * t0) * (b + k) + (hc * w) * (b + k)) by (nonlinear_arith)
        requires
            g == hc * (t0 + w),
    ;
    lemma_times(d1 * b, (d0 + x) * (b + 1), one);
    assert((d1 * b) * one == (one * d1) * b) by (nonlinear_arith);
    assert(((d0 + x) * (b + 1)) * one == a * (b + 1)) by (nonlinear_arith)
        requires
            a == one * (d0 + x),
    ;
    lemma_times((t0 + w) * (b - 1), t1 * b, hc);
    assert(((t0 + w) * (b - 1)) * hc == g * (b - 1)) by (nonlinear_arith)
        requires
            g == hc * (t0 + w),
    ;
    assert((t1 * b) * hc == (hc * t1) * b) by (nonlinear_arith);
    assert(g >= 0 && hc * t1 >= 0) by (nonlinear_arith)
        requires
            g == hc * (t0 + w),
            hc >= 0,
            t0 + w >= 0,
            t1 >= 0,
    ;
    lemma_step_above(a, b, g, one * d1, hc * t1, k);
}

proof fn lemma_sums_step_below(
    d0: int,
    x: int,
    d1: int,
    t0: int,
    w: int,
    t1: int,
    s: int,
    lc: int,
    one: int,
    b: int,
    k: int,
)
    requires
        0 <= d0 && 0 <= x && 0 <= d1 && 0 <= t0 && 0 <= w && 0 <= t1 && 0 <= lc && 0 <= one,
        lc <= s,
        1 <= k,
        2 * k + 3 <= b,
        (one * d0) * b >= (lc * t0) * (b - k),
        (x * one) * b >= (w * s) * (b - 1),
        d1 * b >= (d0 + x) * (b - 1),
        (t0 + w) * (b + 1) >= t1 * b,
    ensures
        (one * d1) * b >= (lc * t1) * (b - (k + 3)),
{
    let a = one * (d0 + x);
    let g = lc * (t0 + w);
    assert((w * s) * (b - 1) >= (lc * w) * (b - k)) by {
        assert(w * s >= lc * w && lc * w >= 0) by (nonlinear_arith)
            requires
                lc <= s,
                w >= 0,
                lc >= 0,
        ;
        lemma_times(lc * w, w * s, b - 1);
        assert((lc * w) * (b - 1) >= (lc * w) * (b - k)) by (nonlinear_arith)
            requires
                lc * w >= 0,
                k >= 1,
        ;
    }
    assert(a * b == (one * d0) * b + (x * one) * b) by (nonlinear_arith)
        requires
            a == one * (d0 + x),
    ;
    assert(g * (b - k) == (lc * t0) * (b - k) + (lc * w) * (b - k)) by (nonlinear_arith)
        requires
            g == lc * (t0 + w),
    ;
    lemma_times((d0 + x) * (b - 1), d1 * b, one);
    assert((d1 * b) * one == (one * d1) * b) by (nonlinear_arith);
    assert(((d0 + x) * (b - 1)) * one == a * (b - 1)) by (nonlinear_arith)
        requires
            a == one * (d0 + x),
    ;
    lemma_times(t1 * b, (t0 + w) * (b + 1), lc);
    assert(((t0 + w) * (b + 1)) * lc == g * (b + 1)) by (nonlinear_arith)
        requires
            g == lc * (t0 + w),
    ;
    assert((t1 * b) * lc == (lc * t1) * b) by (nonlinear_arith);
    assert(g >= 0 && lc * t1 >= 0) by (nonlinear_arith)
        requires
            g == lc * (t0 + w),
            lc >= 0,
            t0 + w >= 0,
            t1 >= 0,
    ;
    lemma_step_below(a, b, g, one * d1, lc * t1, k);
}

/// Whether the depth of a tap is a number above zero from `lo` to `hi`, in units of
/// `2^-149`.
pub(crate) open spec fn in_range(tap: Tap, lo: nat, hi: nat) -> bool {
    tap.depth.spec_is_positive() && lo <= tap.depth.units() <= hi
}

pub(crate) proof fn lemma_sums(taps: Seq<Tap>, weights: Seq<Weight>, n: nat, lo: nat, hi: nat)
    requires
        n <= 49,
        n <= taps.len(),
        n <= weights.len(),
        forall|i: int| 0 <= i < n ==> is_fair(#[trigger] weights[i]),
        forall|i: int| 0 <= i < n ==> in_range(#[trigger] taps[i], lo, hi),
    ensures
        ({
            let (t, d) = weighted_sums(taps, weights, n);
            sums_hold(t, d, n, lo, hi)
        }),
    decreases n,
{
    lemma2_to64();
    lemma2_to64_rest();
    let b = pow2(53) as int;
    let one = pow2(1074) as int;
    let c = pow2(925) as int;
    lemma_pow2_pos(1074);
    lemma_pow2_pos(925);
    if n == 0 {
        lemma_pow2_pos(1076);
        lemma_pow2_pos(1301);
        let zero = Double { bits: 0 };
        assert(zero.units() == 0);
        assert((one * 0) * b == 0 && ((hi * c) * 0) * (b + 1) == 0 && ((lo * c) * 0) * (b - 1)
            == 0) by (nonlinear_arith);
    } else {
        let j = (n - 1) as nat;
        lemma_sums(taps, weights, j, lo, hi);
        let (t0, d0) = weighted_sums(taps, weights, j);
        let (t1, d1) = weighted_sums(taps, weights, n);
        assert(is_fair(weights[n - 1]) && in_range(taps[n - 1], lo, hi));
        let w = weights[n - 1].spatial.spec_mul(weights[n - 1].color);
        let s = taps[n - 1].depth;
        let x = w.spec_mul(s.spec_widen());
        lemma_weight_product(weights[n - 1]);
        lemma_term(w, s);
        lemma_pow2_strictly_increases(52, 273);
        // The sum of the weights.
        let lt = (1076 + 2 * j) as nat;
        lemma_pow2_unfold(lt + 1);
        if j > 0 {
            lemma_pow2_strictly_increases(1075, lt);
        } else {
            lemma_pow2_unfold(1076);
        }
        lemma_sum(t0, w, lt + 1);
        lemma_pow2_unfold(273);
        assert(t1 == t0.spec_add(w));
        // The sum of the depths times their weights.
        let ld = (1301 + 2 * j) as nat;
        lemma_pow2_unfold(ld + 1);
        if j > 0 {
            lemma_pow2_strictly_increases(1300, ld);
        } else {
            lemma_pow2_unfold(1301);
        }
        lemma_sum(d0, x, ld + 1);
        assert(d1 == d0.spec_add(x));
        let su = (s.units() * c) as int;
        let k = (3 * j + 1) as int;
        assert(lo * c <= su <= hi * c && 0 <= lo * c) by (nonlinear_arith)
            requires
                su == s.units() * c,
                0 <= lo <= s.units() <= hi,
                c >= 0,
        ;
        lemma_sums_step_above(
            d0.units() as int,
            x.units() as int,
            d1.units() as int,
            t0.units() as int,
            w.units() as int,
            t1.units() as int,
            su,
            hi * c,
            one,
            b,
            k,
        );
        lemma_sums_step_below(
            d0.units() as int,
            x.units() as int,
            d1.units() as int,
            t0.units() as int,
            w.units() as int,
            t1.units() as int,
            su,
            lo * c,
            one,
            b,
            k,
        );
    }
}

proof fn lemma_mean_above(q: int, t: int, n: int, hc: int, b: int, k: int)
    requires
        0 < t && 0 <= hc && 0 <= k <= b && 0 < b,
        (q * t) * b <= n * (b + 1),
        n * b <= (hc * t) * (b + k),
    ensures
        q * b <= hc * (b + (k + 2)),
{
    let up = b + 1;
    let bk = b + k;
    let more = b + (k + 2);
    lemma_times((q * t) * b, n * up, b);
    lemma_times(n * b, (hc * t) * bk, up);
    assert((n * up) * b == (n * b) * up) by (nonlinear_arith);
    assert(((q * t) * b) * b == ((q * b) * b) * t) by (nonlinear_arith);
    assert(((hc * t) * bk) * up == (hc * (bk * up)) * t) by (nonlinear_arith);
    lemma_cancel((q * b) * b, hc * (bk * up), t);
    assert(bk * up <= more * b) by (nonlinear_arith)
        requires
            bk == b + k,
            up == b + 1,
            more == b + (k + 2),
            0 <= k <= b,
    ;
    lemma_times(bk * up, more * b, hc);
    assert(hc * (bk * up) == (bk * up) * hc && (more * b) * hc == (hc * more) * b)
        by (nonlinear_arith);
    lemma_cancel(q * b, hc * more, b);
}

proof fn lemma_mean_below(q: int, t: int, n: int, lc: int, b: int, k: int)
    requires
        0 < t && 0 <= lc && 0 <= k && 0 < b,
        (q * t) * b >= n * (b - 1),
        n * b >= (lc * t) * (b - k),
    ensures
        q * b >= lc * (b - (k + 2)),
{
    let down = b - 1;
    let bk = b - k;
    let less = b - (k + 2);
    lemma_times(n * down, (q * t) * b, b);
    lemma_times((lc * t) * bk, n * b, down);
    assert((n * down) * b == (n * b) * down) by (nonlinear_arith);
    assert(((q * t) * b) * b == ((q * b) * b) * t) by (nonlinear_arith);
    assert(((lc * t) * bk) * down == (lc * (bk * down)) * t) by (nonlinear_arith);
    lemma_cancel(lc * (bk * down), (q * b) * b, t);
    assert(less * b <= bk * down) by (nonlinear_arith)
        requires
            bk == b - k,
            down == b - 1,
            less == b - (k + 2),
            k >= 0,
            b >= 0,
    ;
    lemma_times(less * b, bk * down, lc);
    assert(lc * (bk * down) == (bk * down) * lc && (less * b) * lc == (lc * less) * b)
        by (nonlinear_arith);
    lemma_cancel(lc * less, q * b, b);
}

/// The quotient of the sums is the mean, but for some parts in `2^53`.
proof fn lemma_mean(t: Double, d: Double, n: nat, lo: nat, hi: nat)
    requires
        1 <= n <= 49,
        1 <= lo <= hi <= pow2(277),
        sums_hold(t, d, n, lo, hi),
    ensures
        ({
            let q = d.spec_div(t);
            let b = pow2(53);
            let c = pow2(925);
            let k = 3 * n + 3;
            &&& (Double { bits: 0 }).spec_less(t)
            &&& q.finite()
            &&& !q.negative()
            &&& q.units() * b <= (hi * c) * (b + k)
            &&& q.units() * b >= (lo * c) * (b - k)
        }),
{
    lemma2_to64();
    lemma2_to64_rest();
    lemma_pow2_pos(272);
    let b = pow2(53) as int;
    let one = pow2(1074) as int;
    let c = pow2(925) as int;
    let k = (3 * n + 1) as int;
    lemma_pow2_pos(1074);
    lemma_pow2_pos(925);
    let (tu, du) = (t.units() as int, d.units() as int);
    assert(t.magnitude() > 0) by {
        assert(units_of(53, 0) == 0);
    }
    let (hc, lc) = (hi * c, lo * c);
    let top = du * one;
    assert(top == one * du) by (nonlinear_arith)
        requires
            top == du * one,
    ;
    assert(c <= lc && 0 <= hc) by (nonlinear_arith)
        requires
            lc == lo * c,
            hc == hi * c,
            lo >= 1,
            hi >= 0,
            c >= 0,
    ;
    lemma_products(hi, c as nat, 1, c as nat, pow2(277), c as nat);
    lemma_pow2_adds(277, 925);
    lemma_pow2_strictly_increases(53, 925);
    lemma_pow2_strictly_increases(1203, 2000);
    lemma_pow2_unfold(1203);
    assert(pow2(52) * tu <= top) by {
        assert(2 * top >= lc * tu) by (nonlinear_arith)
            requires
                top * b >= (lc * tu) * (b - k),
                lc * tu >= 0,
                2 * k <= b,
                b > 0,
        ;
        assert(lc * tu >= 2 * (pow2(52) * tu)) by (nonlinear_arith)
            requires
                lc >= 2 * pow2(52),
                tu >= 0,
        ;
    }
    assert(top <= pow2(2000) * tu) by {
        assert(top <= (2 * hc) * tu) by (nonlinear_arith)
            requires
                top * b <= (hc * tu) * (b + k),
                hc * tu >= 0,
                k <= b,
                b > 0,
        ;
        assert((2 * hc) * tu <= pow2(2000) * tu) by (nonlinear_arith)
            requires
                2 * hc <= pow2(2000),
                tu >= 0,
        ;
    }
    lemma_rounded_error(top as nat, tu as nat);
    let q = d.spec_div(t);
    assert(q == rounded_double(false, top as nat, tu as nat));
    lemma_mean_above(q.units() as int, tu, top, hc, b, k);
    lemma_mean_below(q.units() as int, tu, top, lc, b, k);
}

/// What differs by some hundred parts in `2^53` does not differ by a step of single
/// precision.
proof fn lemma_no_step(step: int, near: int, gap: int, b: int)
    requires
        near > 0,
        step <= 2 * gap,
        gap * b <= near * 150,
        b == 0x20_0000_0000_0000,
    ensures
        step * 0x100_0000 < near,
{
    assert(step * 0x100_0000 < near) by (nonlinear_arith)
        requires
            near > 0,
            step <= 2 * gap,
            gap * 0x20_0000_0000_0000 <= near * 150,
    ;
}

proof fn lemma_narrow_above(q: nat, m: nat)
    requires
        q * pow2(53) <= (units_of(24, m) * pow2(925)) * (pow2(53) + 150),
        units_of(24, m) >= 1,
    ensures
        round_magnitude(24, q, pow2(925)) <= m,
{
    lemma2_to64();
    lemma2_to64_rest();
    let c = pow2(925);
    lemma_pow2_pos(925);
    let h = units_of(24, m);
    let near = h * c;
    let r = round_magnitude(24, q, c);
    law_rounding_keeps_values(24, m);
    lemma_round_scales(24, h, 1, c);
    assert(c * h == near && c * 1 == c) by (nonlinear_arith)
        requires
            near == h * c,
    ;
    if q <= near {
        law_rounding_keeps_order(24, q, near, c);
    } else if r > m {
        let u = units_of(24, r);
        lemma_units_in_order(24, m, r);
        law_rounding_is_nearest(24, q, c, m);
        lemma_spacing(24, m, r);
        let gap = q - near;
        let step = (u - h) * c;
        assert(step == u * c - near) by (nonlinear_arith)
            requires
                step == (u - h) * c,
                near == h * c,
        ;
        assert(step <= 2 * gap);
        assert(step * pow2(24) >= near) by (nonlinear_arith)
            requires
                step == (u - h) * c,
                (u - h) * pow2(24) >= u,
                u >= h,
                near == h * c,
                c >= 0,
        ;
        assert(gap * pow2(53) <= near * 150) by (nonlinear_arith)
            requires
                gap == q - near,
                q * pow2(53) <= near * (pow2(53) + 150),
        ;
        assert(near > 0) by (nonlinear_arith)
            requires
                near == h * c,
                h >= 1,
                c > 0,
        ;
        lemma_no_step(step, near as int, gap, pow2(53) as int);
    }
}

proof fn lemma_narrow_below(q: nat, m: nat)
    requires
        q * pow2(53) >= (units_of(24, m) * pow2(925)) * (pow2(53) - 150),
        units_of(24, m) >= 1,
    ensures
        round_magnitude(24, q, pow2(925)) >= m,
{
    lemma2_to64();
    lemma2_to64_rest();
    let c = pow2(925);
    lemma_pow2_pos(925);
    let l = units_of(24, m);
    let near = l * c;
    let r = round_magnitude(24, q, c);
    law_rounding_keeps_values(24, m);
    lemma_round_scales(24, l, 1, c);
    assert(c * l == near && c * 1 == c) by (nonlinear_arith)
        requires
            near == l * c,
    ;
    if q >= near {
        law_rounding_keeps_order(24, near, q, c);
    } else if r < m {
        let u = units_of(24, r);
        lemma_units_in_order(24, r, m);
        law_rounding_is_nearest(24, q, c, m);
        lemma_spacing(24, r, m);
        let gap = near - q;
        let step = (l - u) * c;
        assert(step == near - u * c) by (nonlinear_arith)
            requires
                step == (l - u) * c,
                near == l * c,
        ;
        assert(step <= 2 * gap);
        assert(step * pow2(24) >= near) by (nonlinear_arith)
            requires
                step == (l - u) * c,
                (l - u) * pow2(24) >= l,
                near == l * c,
                c >= 0,
        ;
        assert(gap * pow2(53) <= near * 150) by (nonlinear_arith)
            requires
                gap == near - q,
                q * pow2(53) >= near * (pow2(53) - 150),
        ;
        assert(near > 0) by (nonlinear_arith)
            requires
                near == l * c,
                l >= 1,
                c > 0,
        ;
        lemma_no_step(step, near as int, gap, pow2(53) as int);
    }
}

/// Whether a depth is a number from `lo` to `hi`.
pub open spec fn between(depth: Single, lo: Single, hi: Single) -> bool {
    depth.finite() && lo.rank() <= depth.rank() <= hi.rank()
}

proof fn lemma_between(depth: Single, lo: Single, hi: Single)
    requires
        between(depth, lo, hi),
        lo.spec_is_positive(),
        hi.spec_is_positive(),
    ensures
        depth.spec_is_positive(),
        1 <= lo.units() <= depth.units() <= hi.units() <= pow2(277),
{
    lemma_depth(lo);
    lemma_depth(hi);
    if lo.bits < depth.bits {
        lemma_units_in_order(24, lo.magnitude(), depth.magnitude());
    }
    if depth.bits < hi.bits {
        lemma_units_in_order(24, depth.magnitude(), hi.magnitude());
    }
}

/// Depths are in order in double precision as well.
pub(crate) proof fn lemma_between_widened(depth: Single, lo: Single, hi: Single)
    requires
        between(depth, lo, hi),
        lo.spec_is_positive(),
        hi.spec_is_positive(),
    ensures
        depth.spec_widen().finite(),
        !depth.spec_widen().spec_less(lo.spec_widen()),
        !hi.spec_widen().spec_less(depth.spec_widen()),
{
    lemma_between(depth, lo, hi);
    law_widening_loses_nothing(depth);
    law_widening_loses_nothing(lo);
    law_widening_loses_nothing(hi);
    law_less_compares_values(depth.spec_widen(), lo.spec_widen());
    law_less_compares_values(hi.spec_widen(), depth.spec_widen());
    let c = pow2(925);
    lemma_products(lo.units(), c, 0, c, depth.units(), c);
    lemma_products(depth.units(), c, 0, c, hi.units(), c);
}

/// A blend of depths above zero lies between the least and the greatest of them.
proof fn lemma_blend_of_positives(
    taps: Seq<Tap>,
    weights: Seq<Weight>,
    lo: Single,
    hi: Single,
)
    requires
        1 <= taps.len() <= 49,
        weights.len() == taps.len(),
        forall|i: int| 0 <= i < weights.len() ==> is_fair(#[trigger] weights[i]),
        forall|i: int| 0 <= i < taps.len() ==> between((#[trigger] taps[i]).depth, lo, hi),
        lo.spec_is_positive(),
        hi.spec_is_positive(),
    ensures
        between(blended(taps, weights), lo, hi),
{
    let n = taps.len();
    let (l, h) = (lo.units(), hi.units());
    assert forall|i: int| 0 <= i < n implies in_range(#[trigger] taps[i], l, h) by {
        lemma_between(taps[i].depth, lo, hi);
    }
    assert(between(taps[0].depth, lo, hi));
    lemma_between(taps[0].depth, lo, hi);
    lemma_sums(taps, weights, n, l, h);
    let (t, d) = weighted_sums(taps, weights, n);
    lemma_mean(t, d, n, l, h);
    let q = d.spec_div(t).units();
    let k = (3 * n + 3) as int;
    let b = pow2(53) as int;
    let c = pow2(925) as int;
    assert((h * c) * (b + k) <= (h * c) * (b + 150)) by (nonlinear_arith)
        requires
            k <= 150,
            h * c >= 0,
    ;
    assert((l * c) * (b - k) >= (l * c) * (b - 150)) by (nonlinear_arith)
        requires
            k <= 150,
            l * c >= 0,
    ;
    lemma_narrow_above(q, hi.magnitude());
    lemma_narrow_below(q, lo.magnitude());
}

/// The taps, all with the same depth.
pub(crate) open spec fn leveled(taps: Seq<Tap>, depth: Single) -> Seq<Tap> {
    Seq::new(taps.len(), |i: int| Tap { depth, ..taps[i] })
}

/// The number with the other sign.
spec fn turned(s: Single) -> Single {
    Single::spec_signed(!s.negative(), s.magnitude())
}

/// The largest finite number.
pub(crate) open spec fn largest() -> Single {
    Single { bits: 0x7f7f_ffff }
}

proof fn lemma_widen_in_order(a: Single, b: Single)
    requires
        a.finite(),
        b.finite(),
        a.rank() <= b.rank(),
    ensures
        a.spec_widen().finite(),
        b.spec_widen().finite(),
        a.spec_widen().signed_units() <= b.spec_widen().signed_units(),
{
    law_widening_loses_nothing(a);
    law_widening_loses_nothing(b);
    let c = pow2(925) as int;
    let (u, v) = (a.units() as int, b.units() as int);
    if a.magnitude() < b.magnitude() {
        lemma_units_in_order(24, a.magnitude(), b.magnitude());
    }
    if b.magnitude() < a.magnitude() {
        lemma_units_in_order(24, b.magnitude(), a.magnitude());
    }
    assert(u <= v ==> u * c <= v * c) by (nonlinear_arith)
        requires
            c >= 0,
    ;
    assert(v <= u ==> v * c <= u * c) by (nonlinear_arith)
        requires
            c >= 0,
    ;
    lemma2_to64();
    assert(units_of(24, 0) == 0 && 0 * c == 0);
    assert(u * c >= 0 && v * c >= 0) by (nonlinear_arith)
        requires
            u >= 0,
            v >= 0,
            c >= 0,
    ;
}

/// The sum of the weights does not depend on the depths.
pub(crate) proof fn lemma_same_total(a: Seq<Tap>, b: Seq<Tap>, weights: Seq<Weight>, n: nat)
    ensures
        weighted_sums(a, weights, n).0 == weighted_sums(b, weights, n).0,
    decreases n,
{
    if n > 0 {
        lemma_same_total(a, b, weights, (n - 1) as nat);
    }
}

/// The sums of finite depths times their weights are finite: they do not exceed
/// that of the largest depth.
pub(crate) proof fn lemma_sums_are_finite(taps: Seq<Tap>, weights: Seq<Weight>, n: nat)
    requires
        n <= 49,
        n <= taps.len(),
        n <= weights.len(),
        forall|i: int| 0 <= i < n ==> is_fair(#[trigger] weights[i]),
        forall|i: int| 0 <= i < n ==> (#[trigger] taps[i]).depth.finite(),
    ensures
        ({
            let d = weighted_sums(taps, weights, n).1;
            let most = weighted_sums(leveled(taps, largest()), weights, n).1;
            &&& d.finite()
            &&& most.finite() && !most.negative()
            &&& -most.rank() <= d.rank() <= most.rank()
        }),
    decreases n,
{
    let top = leveled(taps, largest());
    let u = largest().units();
    assert forall|i: int| 0 <= i < n implies in_range(#[trigger] top[i], u, u) by {}
    lemma_sums(top, weights, n, u, u);
    if n > 0 {
        let j = (n - 1) as nat;
        lemma_sums_are_finite(taps, weights, j);
        let (d0, m0) = (weighted_sums(taps, weights, j).1, weighted_sums(top, weights, j).1);
        assert(is_fair(weights[n - 1]));
        lemma_weight_product(weights[n - 1]);
        let w = weights[n - 1].spatial.spec_mul(weights[n - 1].color);
        let s = taps[n - 1].depth;
        lemma_widen_in_order(s, largest());
        lemma_widen_in_order(turned(largest()), s);
        law_widening_loses_nothing(largest());
        law_widening_loses_nothing(turned(largest()));
        let (x, y) = (s.spec_widen(), largest().spec_widen());
        lemma_rank_of_product(w, x);
        lemma_rank_of_product(w, y);
        let (wu, xu, yu) = (w.units() as int, x.signed_units(), y.signed_units());
        assert(-(wu * yu) <= wu * xu <= wu * yu) by (nonlinear_arith)
            requires
                wu >= 0,
                -yu <= xu <= yu,
        ;
        let one = pow2(1074);
        lemma_pow2_pos(1074);
        lemma_rounded_rank_in_order(-(wu * yu), wu * xu, one);
        lemma_rounded_rank_in_order(wu * xu, wu * yu, one);
        lemma_rounded_rank_turned(wu * yu, one);
        let (a, b) = (w.spec_mul(x), w.spec_mul(y));
        lemma_term(w, largest());
        lemma_bounded_value(a, b);
        lemma_bounded_value(d0, m0);
        lemma_rank_of_sum(d0, a);
        lemma_rank_of_sum(m0, b);
        let (su, tu) = (
            d0.signed_units() + a.signed_units(),
            m0.signed_units() + b.signed_units(),
        );
        lemma_rounded_rank_in_order(-tu, su, 1);
        lemma_rounded_rank_in_order(su, tu, 1);
        lemma_rounded_rank_turned(tu, 1);
    }
}

/// A number whose rank is bounded has a bounded value.
pub(crate) proof fn lemma_bounded_value(a: Double, b: Double)
    requires
        b.finite() && !b.negative(),
        !a.nan(),
        -b.rank() <= a.rank() <= b.rank(),
    ensures
        a.finite(),
        -b.signed_units() <= a.signed_units() <= b.signed_units(),
{
    lemma_units_follow(a, b);
}

/// The sums of the depths times their weights are in order as the depths are.
proof fn lemma_depth_sums_in_order(a: Seq<Tap>, b: Seq<Tap>, weights: Seq<Weight>, n: nat)
    requires
        n <= 49,
        n <= a.len(),
        n <= b.len(),
        n <= weights.len(),
        forall|i: int| 0 <= i < n ==> is_fair(#[trigger] weights[i]),
        forall|i: int| 0 <= i < n ==> (#[trigger] a[i]).depth.finite(),
        forall|i: int| 0 <= i < n ==> (#[trigger] b[i]).depth.finite(),
        forall|i: int| 0 <= i < n ==> (#[trigger] a[i]).depth.rank() <= b[i].depth.rank(),
    ensures
        weighted_sums(a, weights, n).1.rank() <= weighted_sums(b, weights, n).1.rank(),
    decreases n,
{
    if n > 0 {
        let j = (n - 1) as nat;
        lemma_depth_sums_in_order(a, b, weights, j);
        lemma_sums_are_finite(a, weights, j);
        lemma_sums_are_finite(b, weights, j);
        lemma_sums_are_finite(a, weights, n);
        lemma_sums_are_finite(b, weights, n);
        let (d0, e0) = (weighted_sums(a, weights, j).1, weighted_sums(b, weights, j).1);
        assert(is_fair(weights[n - 1]));
        lemma_weight_product(weights[n - 1]);
        let w = weights[n - 1].spatial.spec_mul(weights[n - 1].color);
        let (r, s) = (a[n - 1].depth, b[n - 1].depth);
        lemma_widen_in_order(r, s);
        let (x, y) = (r.spec_widen(), s.spec_widen());
        lemma_rank_of_product(w, x);
        lemma_rank_of_product(w, y);
        let (wu, xu, yu) = (w.units() as int, x.signed_units(), y.signed_units());
        assert(wu * xu <= wu * yu) by (nonlinear_arith)
            requires
                wu >= 0,
                xu <= yu,
        ;
        lemma_pow2_pos(1074);
        lemma_rounded_rank_in_order(wu * xu, wu * yu, pow2(1074));
        let (p, q) = (w.spec_mul(x), w.spec_mul(y));
        lemma_term_is_finite(w, r);
        lemma_term_is_finite(w, s);
        lemma_values_in_order(p, q);
        lemma_values_in_order(d0, e0);
        lemma_rank_of_sum(d0, p);
        lemma_rank_of_sum(e0, q);
        lemma_rounded_rank_in_order(
            d0.signed_units() + p.signed_units(),
            e0.signed_units() + q.signed_units(),
            1,
        );
    }
}

pub(crate) proof fn lemma_term_is_finite(w: Double, s: Single)
    requires
        w.finite() && !w.negative(),
        pow2(273) <= w.units() <= pow2(1075),
        s.finite(),
    ensures
        w.spec_mul(s.spec_widen()).finite(),
{
    law_widening_loses_nothing(s);
    lemma_rank_of_product(w, s.spec_widen());
    let positive = Single::spec_signed(false, s.magnitude());
    law_widening_loses_nothing(positive);
    lemma2_to64();
    lemma_pow2_pos(1074);
    assert(units_of(24, 0) == 0 && 0 * pow2(925) == 0);
    let (u, v) = (w.units() as int, positive.spec_widen().signed_units());
    assert(u * (-v) == -(u * v) && u * 0 == 0) by (nonlinear_arith);
    lemma_rank_of_product(w, positive.spec_widen());
    lemma_rounded_rank_turned(u * v, pow2(1074));
    if s.magnitude() > 0 {
        lemma_term(w, positive);
    }
}

/// The sums of the depths times their weights turn round with the depths.
proof fn lemma_depth_sums_turned(a: Seq<Tap>, b: Seq<Tap>, weights: Seq<Weight>, n: nat)
    requires
        n <= 49,
        n <= a.len(),
        n <= b.len(),
        n <= weights.len(),
        forall|i: int| 0 <= i < n ==> is_fair(#[trigger] weights[i]),
        forall|i: int| 0 <= i < n ==> (#[trigger] a[i]).depth.finite(),
        forall|i: int| 0 <= i < n ==> (#[trigger] b[i]).depth.finite(),
        forall|i: int| 0 <= i < n ==> (#[trigger] a[i]).depth.rank() == -b[i].depth.rank(),
    ensures
        weighted_sums(a, weights, n).1.rank() == -weighted_sums(b, weights, n).1.rank(),
    decreases n,
{
    if n > 0 {
        let j = (n - 1) as nat;
        lemma_depth_sums_turned(a, b, weights, j);
        lemma_sums_are_finite(a, weights, j);
        lemma_sums_are_finite(b, weights, j);
        let (d0, e0) = (weighted_sums(a, weights, j).1, weighted_sums(b, weights, j).1);
        assert(is_fair(weights[n - 1]));
        lemma_weight_product(weights[n - 1]);
        let w = weights[n - 1].spatial.spec_mul(weights[n - 1].color);
        let (r, s) = (a[n - 1].depth, b[n - 1].depth);
        law_widening_loses_nothing(r);
        law_widening_loses_nothing(s);
        lemma2_to64();
        assert(units_of(24, 0) == 0 && 0 * pow2(925) == 0);
        let (x, y) = (r.spec_widen(), s.spec_widen());
        assert(x.signed_units() == -y.signed_units());
        lemma_rank_of_product(w, x);
        lemma_rank_of_product(w, y);
        let (wu, yu) = (w.units() as int, y.signed_units());
        assert(wu * (-yu) == -(wu * yu)) by (nonlinear_arith);
        lemma_pow2_pos(1074);
        lemma_rounded_rank_turned(wu * yu, pow2(1074));
        let (p, q) = (w.spec_mul(x), w.spec_mul(y));
        lemma_term_is_finite(w, r);
        lemma_term_is_finite(w, s);
        lemma_values_turned(p, q);
        lemma_values_turned(d0, e0);
        lemma_rank_of_sum(d0, p);
        lemma_rank_of_sum(e0, q);
        lemma_rounded_rank_turned(e0.signed_units() + q.signed_units(), 1);
    }
}

/// What comes of a blend of taps that all have the same depth.
spec fn blends_level(taps: Seq<Tap>, weights: Seq<Weight>, s: Single) -> bool {
    let (t, d) = weighted_sums(leveled(taps, s), weights, taps.len());
    &&& (Double { bits: 0 }).spec_less(t)
    &&& t.finite() && !t.negative() && !t.zero()
    &&& d.finite()
    &&& d.spec_div(t).finite()
    &&& Single::spec_narrow(d.spec_div(t)).rank() == s.rank()
}

proof fn lemma_level_positive(taps: Seq<Tap>, weights: Seq<Weight>, s: Single)
    requires
        1 <= taps.len() <= 49,
        weights.len() == taps.len(),
        forall|i: int| 0 <= i < weights.len() ==> is_fair(#[trigger] weights[i]),
        s.spec_is_positive(),
    ensures
        blends_level(taps, weights, s),
{
    let n = taps.len();
    let level = leveled(taps, s);
    assert forall|i: int| 0 <= i < n implies between((#[trigger] level[i]).depth, s, s) by {}
    lemma_blend_of_positives(level, weights, s, s);
    let u = s.units();
    assert forall|i: int| 0 <= i < n implies in_range(#[trigger] level[i], u, u) by {}
    lemma_between(s, s, s);
    lemma_sums(level, weights, n, u, u);
    let (t, d) = weighted_sums(level, weights, n);
    lemma_mean(t, d, n, u, u);
}

/// A blend of taps that all have the same depth has that depth.
proof fn lemma_level(taps: Seq<Tap>, weights: Seq<Weight>, s: Single)
    requires
        1 <= taps.len() <= 49,
        weights.len() == taps.len(),
        forall|i: int| 0 <= i < weights.len() ==> is_fair(#[trigger] weights[i]),
        s.finite(),
    ensures
        blends_level(taps, weights, s),
{
    let n = taps.len();
    let (here, there) = (leveled(taps, s), leveled(taps, turned(s)));
    if s.spec_is_positive() {
        lemma_level_positive(taps, weights, s);
    } else {
        // Some depth above zero, for the sum of the weights.
        let p = if s.magnitude() > 0 {
            turned(s)
        } else {
            largest()
        };
        lemma_level_positive(taps, weights, p);
        lemma_same_total(here, leveled(taps, p), weights, n);
        let (t, d) = weighted_sums(here, weights, n);
        let e = weighted_sums(there, weights, n).1;
        lemma_sums_are_finite(here, weights, n);
        lemma_sums_are_finite(there, weights, n);
        lemma_depth_sums_turned(here, there, weights, n);
        lemma_values_turned(d, e);
        lemma_rank_of_quotient(d, t);
        lemma_rank_of_quotient(e, t);
        let one = pow2(1074) as int;
        let eu = e.signed_units();
        assert((-eu) * one == -(eu * one)) by (nonlinear_arith);
        lemma_rounded_rank_turned(eu * one, t.units());
        if s.magnitude() == 0 {
            lemma_depth_sums_in_order(here, there, weights, n);
            lemma_depth_sums_in_order(there, here, weights, n);
            lemma_values_in_order(d, e);
            lemma_values_in_order(e, d);
            assert(eu == 0 && 0 * one == 0);
            lemma_rounded_rank_turned(0, t.units());
            lemma_narrow_turned(d.spec_div(t), d.spec_div(t));
        }
        lemma_narrow_turned(d.spec_div(t), e.spec_div(t));
    }
}

/// A blend lies between the least and the greatest of the depths that it is made
/// of.
pub proof fn law_blend_stays_in_range(
    taps: Seq<Tap>,
    weights: Seq<Weight>,
    lo: Single,
    hi: Single,
)
    requires
        1 <= taps.len() <= 49,
        weights.len() == taps.len(),
        forall|i: int| 0 <= i < weights.len() ==> is_fair(#[trigger] weights[i]),
        forall|i: int| 0 <= i < taps.len() ==> between((#[trigger] taps[i]).depth, lo, hi),
        lo.finite(),
        hi.finite(),
    ensures
        between(blended(taps, weights), lo, hi),
{
    let n = taps.len();
    let (below, above) = (leveled(taps, lo), leveled(taps, hi));
    lemma_level(taps, weights, lo);
    lemma_level(taps, weights, hi);
    lemma_same_total(taps, below, weights, n);
    lemma_same_total(taps, above, weights, n);
    assert forall|i: int| 0 <= i < n implies (#[trigger] taps[i]).depth.finite()
        && taps[i].depth.rank() <= above[i].depth.rank() by {
        assert(between(taps[i].depth, lo, hi));
    }
    assert forall|i: int| 0 <= i < n implies (#[trigger] below[i]).depth.rank()
        <= taps[i].depth.rank() by {
        assert(between(taps[i].depth, lo, hi));
    }
    lemma_sums_are_finite(taps, weights, n);
    lemma_depth_sums_in_order(below, taps, weights, n);
    lemma_depth_sums_in_order(taps, above, weights, n);
    let (t, d) = weighted_sums(taps, weights, n);
    let (least, greatest) = (
        weighted_sums(below, weights, n).1,
        weighted_sums(above, weights, n).1,
    );
    lemma_quotients_in_order(least, d, t);
    lemma_quotients_in_order(d, greatest, t);
    let (p, q, r) = (least.spec_div(t), d.spec_div(t), greatest.spec_div(t));
    assert(q.finite());
    lemma_narrow_in_order(p, q);
    lemma_narrow_in_order(q, r);
}

/// Quotients are in order as the dividends are.
proof fn lemma_quotients_in_order(a: Double, b: Double, t: Double)
    requires
        a.finite(),
        b.finite(),
        a.rank() <= b.rank(),
        t.finite() && !t.negative() && !t.zero(),
    ensures
        !a.spec_div(t).nan(),
        !b.spec_div(t).nan(),
        a.spec_div(t).rank() <= b.spec_div(t).rank(),
{
    lemma_rank_of_quotient(a, t);
    lemma_rank_of_quotient(b, t);
    lemma_values_in_order(a, b);
    let one = pow2(1074) as int;
    let (u, v) = (a.signed_units(), b.signed_units());
    assert(u * one <= v * one) by (nonlinear_arith)
        requires
            u <= v,
            one >= 0,
    ;
    lemma_rounded_rank_in_order(u * one, v * one, t.units());
}

/// Whether every finite sample in the window of an output pixel lies between `lo`
/// and `hi`.
pub open spec fn window_between(
    low: Seq<Single>,
    p: UpsampleParams,
    ox: nat,
    oy: nat,
    lo: Single,
    hi: Single,
) -> bool {
    forall|qx: nat, qy: nat|
        in_window(p, ox, oy, qx, qy) ==> {
            let sample = low[#[trigger] (qy * p.low_width + qx) as int];
            sample.finite() ==> between(sample, lo, hi)
        }
}

proof fn lemma_row_taps(
    low: Seq<Single>,
    rgb: Seq<u8>,
    p: UpsampleParams,
    ox: nat,
    oy: nat,
    qy: nat,
    to: nat,
    lo: Single,
    hi: Single,
)
    requires
        p.factor >= 1,
        window_between(low, p, ox, oy, lo, hi),
        window_start(oy, p.factor) <= qy < window_end(oy, p.factor, p.low_height),
        to <= window_end(ox, p.factor, p.low_width),
    ensures
        ({
            let from = window_start(ox, p.factor);
            let row = row_taps(low, rgb, p, ox, oy, qy, from, to);
            &&& row.len() <= 7
            &&& to >= from ==> row.len() <= to - from
            &&& forall|i: int| 0 <= i < row.len() ==> between((#[trigger] row[i]).depth, lo, hi)
        }),
    decreases to,
{
    let from = window_start(ox, p.factor);
    if to > from {
        let qx = (to - 1) as nat;
        lemma_row_taps(low, rgb, p, ox, oy, qy, qx, lo, hi);
        assert(in_window(p, ox, oy, qx, qy));
        let sample = low[(qy * p.low_width + qx) as int];
        assert(sample.finite() ==> between(sample, lo, hi));
        let before = row_taps(low, rgb, p, ox, oy, qy, from, qx);
        let row = row_taps(low, rgb, p, ox, oy, qy, from, to);
        assert forall|i: int| 0 <= i < row.len() implies between(
            (#[trigger] row[i]).depth,
            lo,
            hi,
        ) by {
            if i < before.len() {
                assert(row[i] == before[i]);
            }
        }
        assert(to - from <= 7);
    }
}

pub(crate) proof fn lemma_taps(
    low: Seq<Single>,
    rgb: Seq<u8>,
    p: UpsampleParams,
    ox: nat,
    oy: nat,
    to: nat,
    lo: Single,
    hi: Single,
)
    requires
        p.factor >= 1,
        window_between(low, p, ox, oy, lo, hi),
        to <= window_end(oy, p.factor, p.low_height),
    ensures
        ({
            let start = window_start(oy, p.factor);
            let taps = taps_above(low, rgb, p, ox, oy, to);
            &&& to <= start ==> taps.len() == 0
            &&& to >= start ==> taps.len() <= 7 * (to - start)
            &&& forall|i: int| 0 <= i < taps.len() ==> between((#[trigger] taps[i]).depth, lo, hi)
        }),
    decreases to,
{
    if to > window_start(oy, p.factor) {
        let qy = (to - 1) as nat;
        lemma_taps(low, rgb, p, ox, oy, qy, lo, hi);
        let end = window_end(ox, p.factor, p.low_width);
        lemma_row_taps(low, rgb, p, ox, oy, qy, end, lo, hi);
        let before = taps_above(low, rgb, p, ox, oy, qy);
        let row = row_taps(low, rgb, p, ox, oy, qy, window_start(ox, p.factor), end);
        let all = taps_above(low, rgb, p, ox, oy, to);
        assert forall|i: int| 0 <= i < all.len() implies between(
            (#[trigger] all[i]).depth,
            lo,
            hi,
        ) by {
            if i < before.len() {
                assert(all[i] == before[i]);
            } else {
                assert(all[i] == row[i - before.len()]);
            }
        }
    }
}

proof fn lemma_row_has_tap(
    low: Seq<Single>,
    rgb: Seq<u8>,
    p: UpsampleParams,
    ox: nat,
    oy: nat,
    qx: nat,
    qy: nat,
    from: nat,
    to: nat,
)
    requires
        from <= qx < to,
        low[(qy * p.low_width + qx) as int].finite(),
    ensures
        row_taps(low, rgb, p, ox, oy, qy, from, to).len() > 0,
    decreases to,
{
    if qx < to - 1 {
        lemma_row_has_tap(low, rgb, p, ox, oy, qx, qy, from, (to - 1) as nat);
    }
}

/// A finite sample in the window is among the taps.
proof fn lemma_sample_is_tapped(
    low: Seq<Single>,
    rgb: Seq<u8>,
    p: UpsampleParams,
    ox: nat,
    oy: nat,
    qx: nat,
    qy: nat,
    to: nat,
)
    requires
        in_window(p, ox, oy, qx, qy),
        qy < to,
        low[(qy * p.low_width + qx) as int].finite(),
    ensures
        taps_above(low, rgb, p, ox, oy, to).len() > 0,
    decreases to,
{
    if qy < to - 1 {
        lemma_sample_is_tapped(low, rgb, p, ox, oy, qx, qy, (to - 1) as nat);
    } else {
        lemma_row_has_tap(
            low,
            rgb,
            p,
            ox,
            oy,
            qx,
            qy,
            window_start(ox, p.factor),
            window_end(ox, p.factor, p.low_width),
        );
    }
}

/// Whether `exp` gives numbers that can be weights for the exponents of the taps,
/// as the exponential function does.
pub open spec fn gives_weights<F: Fn(Double) -> Double>(exp: F, taps: Seq<Tap>) -> bool {
    forall|i: int, w: Weight|
        0 <= i < taps.len() && #[trigger] weighs(exp, taps[i], w) ==> is_fair(w)
}

/// Upsampled depth lies between the least and the greatest of the samples in the
/// window, of which there is one, at column `qx` and row `qy`.
pub proof fn law_upsampled_depth_stays_in_range<F: Fn(Double) -> Double>(
    exp: F,
    low: Seq<Single>,
    rgb: Seq<u8>,
    p: UpsampleParams,
    ox: nat,
    oy: nat,
    qx: nat,
    qy: nat,
    lo: Single,
    hi: Single,
    r: Single,
)
    requires
        p.factor >= 1,
        window_between(low, p, ox, oy, lo, hi),
        lo.finite(),
        hi.finite(),
        gives_weights(exp, pixel_taps(low, rgb, p, ox, oy)),
        in_window(p, ox, oy, qx, qy),
        low[(qy * p.low_width + qx) as int].finite(),
        blends_to(exp, pixel_taps(low, rgb, p, ox, oy), r),
    ensures
        between(r, lo, hi),
{
    let taps = pixel_taps(low, rgb, p, ox, oy);
    let end = window_end(oy, p.factor, p.low_height);
    lemma_taps(low, rgb, p, ox, oy, end, lo, hi);
    lemma_sample_is_tapped(low, rgb, p, ox, oy, qx, qy, end);
    let weights = choose|weights: Seq<Weight>|
        #![trigger blended(taps, weights)]
        {
            &&& weights.len() == taps.len()
            &&& forall|i: int| 0 <= i < taps.len() ==> weighs(exp, #[trigger] taps[i], weights[i])
            &&& r == blended(taps, weights)
        };
    assert forall|i: int| 0 <= i < weights.len() implies is_fair(#[trigger] weights[i]) by {
        assert(weighs(exp, taps[i], weights[i]));
    }
    assert(taps.len() <= 49);
    law_blend_stays_in_range(taps, weights, lo, hi);
}

/// A flat region upsamples to itself: where all samples in the window, of which
/// there is one at column `qx` and row `qy`, are the same depth, the output pixel
/// has that depth exactly, but for the sign of zero.
pub proof fn law_flat_depth_stays_flat<F: Fn(Double) -> Double>(
    exp: F,
    low: Seq<Single>,
    rgb: Seq<u8>,
    p: UpsampleParams,
    ox: nat,
    oy: nat,
    qx: nat,
    qy: nat,
    depth: Single,
    r: Single,
)
    requires
        p.factor >= 1,
        depth.finite(),
        forall|qx: nat, qy: nat|
            in_window(p, ox, oy, qx, qy) ==> {
                let sample = low[#[trigger] (qy * p.low_width + qx) as int];
                sample.finite() ==> sample == depth
            },
        gives_weights(exp, pixel_taps(low, rgb, p, ox, oy)),
        in_window(p, ox, oy, qx, qy),
        low[(qy * p.low_width + qx) as int].finite(),
        blends_to(exp, pixel_taps(low, rgb, p, ox, oy), r),
    ensures
        r.rank() == depth.rank(),
        depth.rank() != 0 ==> r == depth,
{
    law_upsampled_depth_stays_in_range(exp, low, rgb, p, ox, oy, qx, qy, depth, depth, r);
}

/// The bits of 200.
pub const TWO_HUNDRED: u64 = 0x4069_0000_0000_0000;

/// Whether a number can be the exponent of a weight: it is no more than zero, and
/// no less than minus 200.
pub open spec fn is_exponent(x: Double) -> bool {
    x.negative() && x.magnitude() <= TWO_HUNDRED
}

/// Whether `exp` gives a weight for every exponent, as the exponential function
/// does: from minus 200 to zero it goes from `2^-289` to one.
pub open spec fn like_exponential<F: Fn(Double) -> Double>(exp: F) -> bool {
    forall|x: Double, y: Double|
        is_exponent(x) && #[trigger] call_ensures(exp, (x,), y) ==> is_weight(y)
}

/// The units of a power of two from one on.
proof fn lemma_power_units(x: Double, j: nat)
    requires
        j <= 20,
        x.bits == (1023 + j) * 0x10_0000_0000_0000,
    ensures
        x.finite() && !x.negative() && !x.zero(),
        x.units() == pow2(1074 + j),
{
    lemma2_to64();
    lemma2_to64_rest();
    let m = x.magnitude();
    assert(pow2(52) == 0x10_0000_0000_0000);
    lemma_fundamental_div_mod_converse(m as int, pow2(52) as int, 1023 + j as int, 0);
    lemma_pow2_adds(52, (1022 + j) as nat);
    assert((pow2(52) + 0) * pow2((1022 + j) as nat) == pow2(1074 + j));
}

proof fn lemma_two_hundred()
    ensures
        round_finite(53, 200 * pow2(1074), 1) == TWO_HUNDRED,
{
    lemma2_to64();
    lemma2_to64_rest();
    let m = TWO_HUNDRED as nat;
    assert(pow2(52) == 0x10_0000_0000_0000);
    assert(m / pow2(52) == 1030 && m % pow2(52) == 0x9_0000_0000_0000);
    let c = pow2(1029);
    lemma_pow2_adds(1029, 45);
    assert(units_of(53, m) == (0x10_0000_0000_0000 + 0x9_0000_0000_0000) * c);
    assert(pow2(45) == 0x2000_0000_0000);
    assert((0x10_0000_0000_0000 + 0x9_0000_0000_0000) * c == 200 * (c * 0x2000_0000_0000))
        by (nonlinear_arith);
    law_rounding_keeps_values(53, m);
}

/// A number that is no more than 200 times the divisor makes an exponent.
proof fn lemma_exponent(v: Double, divisor: Double)
    requires
        v.finite() && !v.negative(),
        divisor.finite() && !divisor.negative() && !divisor.zero(),
        divisor.units() > 0,
        v.units() <= 200 * divisor.units(),
    ensures
        is_exponent(v.spec_neg().spec_div(divisor)),
{
    let (u, d, one) = (v.units(), divisor.units(), pow2(1074));
    lemma_two_hundred();
    assert(u * one <= d * (200 * one)) by (nonlinear_arith)
        requires
            u <= 200 * d,
            one >= 0,
    ;
    law_rounding_keeps_order(53, u * one, d * (200 * one), d);
    lemma_round_scales(53, 200 * one, 1, d);
    assert(d * 1 == d);
}

/// The colours of two pixels make an exponent.
proof fn lemma_color_exponent(
    low: Seq<Single>,
    rgb: Seq<u8>,
    p: UpsampleParams,
    ox: nat,
    oy: nat,
    qx: nat,
    qy: nat,
)
    ensures
        is_exponent(tap_at(low, rgb, p, ox, oy, qx, qy).color),
{
    let unlike = colors_apart(rgb, p, ox, oy, qx, qy);
    lemma_colors_apart(rgb, p, ox, oy, qx, qy);
    law_counts_are_exact(unlike as nat);
    let spread = Double { bits: COLOR_SPREAD };
    let less = Double { bits: 0x4090_0000_0000_0000 };
    lemma_power_units(less, 10);
    lemma_units_follow(less, spread);
    lemma2_to64();
    lemma_pow2_adds(1074, 10);
    let one = pow2(1074);
    lemma_pow2_pos(1074);
    assert(unlike * one <= 200 * (one * 1024)) by (nonlinear_arith)
        requires
            unlike <= 3 * 65025,
            one >= 0,
    ;
    lemma_exponent(Double::spec_from_count(unlike as nat), spread);
}

proof fn lemma_gap(q: nat, o: nat, factor: u32, n: u32)
    requires
        factor >= 1,
        o <= u32::MAX,
        window_start(o, factor) <= q < window_end(o, factor, n),
    ensures
        low_position(o, factor).finite(),
        gap(q, o, factor) <= 4 * pow2(1074),
{
    let at = low_position(o, factor);
    let k = o / factor as nat;
    let one = pow2(1074);
    lemma_pow2_pos(1074);
    law_window_is_centred(o, factor);
    lemma_low_position(o, factor);
    let u = at.units();
    let whole = (2 * u + one) / (2 * one);
    lemma_fundamental_div_mod((2 * u + one) as int, (2 * one) as int);
    lemma_mod_pos_bound((2 * u + one) as int, (2 * one) as int);
    assert((2 * one) * whole == 2 * (whole * one)) by (nonlinear_arith);
    assert(2 * u + one - 2 * one < 2 * (whole * one) <= 2 * u + one);
    assert(at.negative() ==> whole == 0 && k == 0);
    assert(0 * one == 0);
    assert(!at.negative() ==> whole == k);
    let d = q - k;
    assert(-3 <= d <= 3);
    assert(q * one == k * one + d * one) by (nonlinear_arith)
        requires
            d == q - k,
    ;
    assert(-3 * one <= d * one <= 3 * one) by (nonlinear_arith)
        requires
            -3 <= d <= 3,
            one >= 0,
    ;
}

/// The square of a distance in the window is no more than 16.
proof fn lemma_offset_in_window(q: nat, o: nat, factor: u32, n: u32)
    requires
        factor >= 1,
        o <= u32::MAX,
        window_start(o, factor) <= q < window_end(o, factor, n),
    ensures
        !squared_offset(q, o, factor).nan(),
        !squared_offset(q, o, factor).negative(),
        squared_offset(q, o, factor).magnitude() <= 0x4030_0000_0000_0000,
{
    lemma_gap(q, o, factor, n);
    lemma2_to64();
    let one = pow2(1074);
    let at = low_position(o, factor);
    let other = at.spec_neg();
    assert(other.finite() && other.signed_units() == -at.signed_units());
    law_counts_are_exact(q);
    let d = Double::spec_from_count(q).spec_sub(at);
    lemma_rank_of_sum(Double::spec_from_count(q), other);
    let four = Double { bits: 0x4010_0000_0000_0000 };
    let sixteen = Double { bits: 0x4030_0000_0000_0000 };
    lemma_power_units(four, 2);
    lemma_power_units(sixteen, 4);
    lemma_pow2_adds(1074, 2);
    lemma_pow2_adds(1074, 4);
    law_rounding_keeps_order(53, gap(q, o, factor), 4 * one, 1);
    law_rounding_keeps_values(53, four.magnitude());
    assert(d.magnitude() <= four.magnitude());
    lemma_squares_in_order(d, four);
    assert(four.units() * four.units() == one * (16 * one)) by (nonlinear_arith)
        requires
            four.units() == one * 4,
    ;
    lemma_pow2_pos(1074);
    lemma_round_scales(53, 16 * one, 1, one);
    assert(one * 1 == one);
    law_rounding_keeps_values(53, sixteen.magnitude());
}

/// The distance of two pixels in a window makes an exponent.
proof fn lemma_spatial_exponent(
    low: Seq<Single>,
    rgb: Seq<u8>,
    p: UpsampleParams,
    ox: nat,
    oy: nat,
    qx: nat,
    qy: nat,
)
    requires
        p.factor >= 1,
        ox <= u32::MAX,
        oy <= u32::MAX,
        in_window(p, ox, oy, qx, qy),
    ensures
        is_exponent(tap_at(low, rgb, p, ox, oy, qx, qy).spatial),
{
    lemma_offset_in_window(qx, ox, p.factor, p.low_width);
    lemma_offset_in_window(qy, oy, p.factor, p.low_height);
    let x = squared_offset(qx, ox, p.factor);
    let y = squared_offset(qy, oy, p.factor);
    let sixteen = Double { bits: 0x4030_0000_0000_0000 };
    let far = Double { bits: 0x4040_0000_0000_0000 };
    lemma2_to64();
    lemma_power_units(sixteen, 4);
    lemma_power_units(far, 5);
    lemma_pow2_adds(1074, 4);
    lemma_pow2_adds(1074, 5);
    lemma_sums_in_order(x, sixteen, y, sixteen);
    law_rounding_keeps_values(53, far.magnitude());
    let one = pow2(1074);
    lemma_pow2_pos(1074);
    assert(sixteen.spec_add(sixteen) == far);
    lemma_units_follow(x.spec_add(y), far);
    let spread = Double { bits: SPATIAL_SPREAD };
    let less = Double { bits: 0x4010_0000_0000_0000 };
    lemma_power_units(less, 2);
    lemma_pow2_adds(1074, 2);
    lemma_units_follow(less, spread);
    lemma_exponent(x.spec_add(y), spread);
}

proof fn lemma_row_exponents(
    low: Seq<Single>,
    rgb: Seq<u8>,
    p: UpsampleParams,
    ox: nat,
    oy: nat,
    qy: nat,
    to: nat,
)
    requires
        p.factor >= 1,
        ox <= u32::MAX,
        oy <= u32::MAX,
        window_start(oy, p.factor) <= qy < window_end(oy, p.factor, p.low_height),
        to <= window_end(ox, p.factor, p.low_width),
    ensures
        ({
            let row = row_taps(low, rgb, p, ox, oy, qy, window_start(ox, p.factor), to);
            forall|i: int|
                0 <= i < row.len() ==> is_exponent((#[trigger] row[i]).spatial) && is_exponent(
                    row[i].color,
                )
        }),
    decreases to,
{
    let from = window_start(ox, p.factor);
    if to > from {
        let qx = (to - 1) as nat;
        lemma_row_exponents(low, rgb, p, ox, oy, qy, qx);
        lemma_spatial_exponent(low, rgb, p, ox, oy, qx, qy);
        lemma_color_exponent(low, rgb, p, ox, oy, qx, qy);
        let before = row_taps(low, rgb, p, ox, oy, qy, from, qx);
        let row = row_taps(low, rgb, p, ox, oy, qy, from, to);
        assert forall|i: int| 0 <= i < row.len() implies is_exponent((#[trigger] row[i]).spatial)
            && is_exponent(row[i].color) by {
            if i < before.len() {
                assert(row[i] == before[i]);
            }
        }
    }
}

proof fn lemma_exponents(
    low: Seq<Single>,
    rgb: Seq<u8>,
    p: UpsampleParams,
    ox: nat,
    oy: nat,
    to: nat,
)
    requires
        p.factor >= 1,
        ox <= u32::MAX,
        oy <= u32::MAX,
        to <= window_end(oy, p.factor, p.low_height),
    ensures
        ({
            let taps = taps_above(low, rgb, p, ox, oy, to);
            forall|i: int|
                0 <= i < taps.len() ==> is_exponent((#[trigger] taps[i]).spatial) && is_exponent(
                    taps[i].color,
                )
        }),
    decreases to,
{
    if to > window_start(oy, p.factor) {
        let qy = (to - 1) as nat;
        lemma_exponents(low, rgb, p, ox, oy, qy);
        let end = window_end(ox, p.factor, p.low_width);
        lemma_row_exponents(low, rgb, p, ox, oy, qy, end);
        let before = taps_above(low, rgb, p, ox, oy, qy);
        let row = row_taps(low, rgb, p, ox, oy, qy, window_start(ox, p.factor), end);
        let all = taps_above(low, rgb, p, ox, oy, to);
        assert forall|i: int| 0 <= i < all.len() implies is_exponent((#[trigger] all[i]).spatial)
            && is_exponent(all[i].color) by {
            if i < before.len() {
                assert(all[i] == before[i]);
            } else {
                assert(all[i] == row[i - before.len()]);
            }
        }
    }
}

/// What is like the exponential function gives weights for every pixel.
pub proof fn law_exponents_are_in_range<F: Fn(Double) -> Double>(
    exp: F,
    low: Seq<Single>,
    rgb: Seq<u8>,
    p: UpsampleParams,
    ox: nat,
    oy: nat,
)
    requires
        like_exponential(exp),
        p.factor >= 1,
        ox <= u32::MAX,
        oy <= u32::MAX,
    ensures
        gives_weights(exp, pixel_taps(low, rgb, p, ox, oy)),
{
    lemma_exponents(low, rgb, p, ox, oy, window_end(oy, p.factor, p.low_height));
}

} // verus!
