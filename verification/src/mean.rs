//! What a blend is: the mean of the depths, weighted with the products of their weights,
//! up to rounding. So depth does not bleed across an edge in colour.
use vstd::arithmetic::power2::{
    lemma2_to64, lemma2_to64_rest, lemma_pow2_adds, lemma_pow2_pos, lemma_pow2_strictly_increases,
    lemma_pow2_unfold, pow2,
};
use vstd::math::abs;
use vstd::prelude::*;

use crate::accuracy::{
    law_narrowing_is_close, law_product_is_close, law_quotient_is_close, law_sum_is_close,
    lemma_abs_product,
};
use crate::blending::{
    in_range, is_fair, largest, law_blend_stays_in_range, law_exponents_are_in_range,
    lemma_bounded_value, lemma_depth, lemma_same_total, lemma_sums, lemma_sums_are_finite,
    lemma_taps, lemma_term, lemma_term_is_finite, lemma_weight, lemma_weight_product, leveled,
    like_exponential, sums_hold,
};
use crate::double::{
    law_less_compares_values, law_widening_loses_nothing, lemma_cancel, lemma_one_units,
    lemma_rank_of_product, lemma_round_zero, lemma_rounded_rank_turned, lemma_times,
    lemma_values_turned, lemma_zero_units, Double, Single, ONE,
};
use crate::rounding::units_of;
use crate::taps::{
    centre_falls_in, colors_differ_by, is_color_exponent, is_sample_for, is_spatial_exponent,
    law_colour_exponent, law_guide_pixel_holds_the_centre, law_one_tap_per_sample,
    law_spatial_exponent, taps_of,
};
use crate::upsample::{
    blended, blends_to, guide_index, pixel_taps, weighs, weighted_sums, window_end, Tap,
    UpsampleParams, Weight,
};

verus! {

/// The weight of a sample, the product of its two weights, in units of `2^-2148`.
pub open spec fn weight_of(w: Weight) -> nat {
    w.spatial.units() * w.color.units()
}

/// The sum of the weights of the first `n` samples.
pub open spec fn weight_sum(weights: Seq<Weight>, n: nat) -> nat
    decreases n,
{
    if n == 0 {
        0
    } else {
        weight_sum(weights, (n - 1) as nat) + weight_of(weights[n - 1])
    }
}

/// The sum of the depths of the first `n` samples, each times its weight. Depths are in
/// units of `2^-149`.
pub open spec fn depth_sum(taps: Seq<Tap>, weights: Seq<Weight>, n: nat) -> nat
    decreases n,
{
    if n == 0 {
        0
    } else {
        depth_sum(taps, weights, (n - 1) as nat) + weight_of(weights[n - 1]) * taps[n
            - 1].depth.units()
    }
}

/// The weight of a sample, rounded.
proof fn lemma_rounded_weight(w: Weight)
    requires
        is_fair(w),
    ensures
        ({
            let r = w.spatial.spec_mul(w.color);
            &&& r.finite() && !r.negative()
            &&& weight_of(w) > 0
            &&& abs(r.units() * pow2(1074) - weight_of(w)) * 0x20_0000_0000_0000 <= 2 * weight_of(w)
        }),
{
    lemma2_to64();
    lemma2_to64_rest();
    lemma_weight(w.spatial);
    lemma_weight(w.color);
    lemma_weight_product(w);
    law_product_is_close(w.spatial, w.color);
    let (u, v) = (w.spatial.units() as int, w.color.units() as int);
    lemma_pow2_adds(674, 674);
    lemma_pow2_adds(52, 1074);
    lemma_pow2_strictly_increases(1126, 1348);
    lemma_pow2_pos(1126);
    let least = pow2(674) as int;
    assert(least * least <= u * v) by (nonlinear_arith)
        requires
            0 <= least <= u,
            least <= v,
    ;
}

proof fn lemma_weight_step(n: int, w0: int, nw: int, t0: int, w: int, t1: int)
    requires
        1 <= n <= 49,
        w0 >= 0,
        nw >= 0,
        t0 >= 0,
        w >= 0,
        abs(t0 - w0) * 0x20_0000_0000_0000 <= 4 * ((n - 1) * w0),
        abs(w - nw) * 0x20_0000_0000_0000 <= 2 * nw,
        abs(t1 - (t0 + w)) * 0x20_0000_0000_0000 <= t0 + w,
    ensures
        abs(t1 - (w0 + nw)) * 0x20_0000_0000_0000 <= 4 * (n * (w0 + nw)),
{
    let kw = (n - 1) * w0;
    assert(n * (w0 + nw) == kw + w0 + n * nw) by (nonlinear_arith)
        requires
            kw == (n - 1) * w0,
    ;
    assert(0 <= kw <= 48 * w0 && n * nw >= nw) by (nonlinear_arith)
        requires
            kw == (n - 1) * w0,
            1 <= n <= 49,
            w0 >= 0,
            nw >= 0,
    ;
}

proof fn lemma_depth_step(n: int, d0: int, m: int, s0: int, x: int, s1: int)
    requires
        1 <= n <= 49,
        d0 >= 0,
        m >= 0,
        s0 >= 0,
        x >= 0,
        abs(s0 - d0) * 0x20_0000_0000_0000 <= 6 * ((n - 1) * d0),
        abs(x - m) * 0x20_0000_0000_0000 <= 4 * m,
        abs(s1 - (s0 + x)) * 0x20_0000_0000_0000 <= s0 + x,
    ensures
        abs(s1 - (d0 + m)) * 0x20_0000_0000_0000 <= 6 * (n * (d0 + m)),
{
    let kd = (n - 1) * d0;
    assert(n * (d0 + m) == kd + d0 + n * m) by (nonlinear_arith)
        requires
            kd == (n - 1) * d0,
    ;
    assert(0 <= kd <= 48 * d0 && n * m >= m) by (nonlinear_arith)
        requires
            kd == (n - 1) * d0,
            1 <= n <= 49,
            d0 >= 0,
            m >= 0,
    ;
}

/// A depth times its weight, twice rounded.
proof fn lemma_rounded_term(w: Weight, s: Single)
    requires
        is_fair(w),
        s.spec_is_positive(),
    ensures
        ({
            let x = w.spatial.spec_mul(w.color).spec_mul(s.spec_widen());
            let m = (weight_of(w) * s.units()) * pow2(925);
            &&& x.finite() && !x.negative()
            &&& abs(x.units() * (pow2(1074) * pow2(1074)) - m) * 0x20_0000_0000_0000 <= 4 * m
        }),
{
    lemma2_to64();
    lemma2_to64_rest();
    lemma_rounded_weight(w);
    lemma_weight_product(w);
    let r = w.spatial.spec_mul(w.color);
    lemma_term(r, s);
    let x = r.spec_mul(s.spec_widen());
    let one = pow2(1074) as int;
    lemma_pow2_pos(1074);
    let b = 0x20_0000_0000_0000int;
    let (ru, nw) = (r.units() as int, weight_of(w) as int);
    let sc = (s.units() * pow2(925)) as int;
    assert(sc >= 0) by (nonlinear_arith)
        requires
            sc == s.units() * pow2(925),
            s.units() >= 0,
            pow2(925) >= 0,
    ;
    let xu = x.units() as int;
    let n = ru * sc;
    assert(abs(xu * one - n) * b <= n) by (nonlinear_arith)
        requires
            n * (b - 1) <= (xu * one) * b <= n * (b + 1),
            b > 0,
    ;
    let rs = (ru * one) * sc;
    assert(n * one == rs && (xu * one - n) * one == xu * (one * one) - rs) by (nonlinear_arith)
        requires
            n == ru * sc,
            rs == (ru * one) * sc,
    ;
    lemma_abs_product(xu * one - n, one);
    lemma_times(abs(xu * one - n) * b, n, one);
    assert((abs(xu * one - n) * b) * one == (abs(xu * one - n) * one) * b) by (nonlinear_arith);
    let m = nw * sc;
    assert((ru * one - nw) * sc == rs - m) by (nonlinear_arith)
        requires
            rs == (ru * one) * sc,
            m == nw * sc,
    ;
    lemma_abs_product(ru * one - nw, sc);
    lemma_times(abs(ru * one - nw) * b, 2 * nw, sc);
    assert((abs(ru * one - nw) * b) * sc == (abs(ru * one - nw) * sc) * b && (2 * nw) * sc == 2 * m)
        by (nonlinear_arith)
        requires
            m == nw * sc,
    ;
    assert(m == (nw * s.units()) * pow2(925)) by (nonlinear_arith)
        requires
            m == nw * sc,
            sc == s.units() * pow2(925),
    ;
    assert(m >= 0 && rs >= 0) by (nonlinear_arith)
        requires
            m == nw * sc,
            rs == (ru * one) * sc,
            nw >= 0,
            sc >= 0,
            ru >= 0,
            one >= 0,
    ;
}

/// The two sums of a blend are off by a few hundred parts in `2^53`.
proof fn lemma_rounded_sums(taps: Seq<Tap>, weights: Seq<Weight>, n: nat)
    requires
        n <= 49,
        n <= taps.len(),
        n <= weights.len(),
        forall|i: int| 0 <= i < n ==> is_fair(#[trigger] weights[i]),
        forall|i: int| 0 <= i < n ==> in_range(#[trigger] taps[i], 1, pow2(277)),
    ensures
        ({
            let (t, d) = weighted_sums(taps, weights, n);
            let one = pow2(1074);
            let (w, m) = (weight_sum(weights, n), depth_sum(taps, weights, n) * pow2(925));
            &&& sums_hold(t, d, n, 1, pow2(277))
            &&& abs(t.units() * one - w) * 0x20_0000_0000_0000 <= 4 * (n * w)
            &&& abs(d.units() * (one * one) - m) * 0x20_0000_0000_0000 <= 6 * (n * m)
            &&& n > 0 ==> w > 0
        }),
    decreases n,
{
    lemma2_to64();
    lemma2_to64_rest();
    lemma_sums(taps, weights, n, 1, pow2(277));
    let (t1, d1) = weighted_sums(taps, weights, n);
    let one = pow2(1074) as int;
    lemma_pow2_pos(1074);
    if n == 0 {
        assert(0 * one == 0 && 0 * (one * one) == 0 && 0 * pow2(925) == 0) by (nonlinear_arith);
    } else {
        let before = (n - 1) as nat;
        lemma_rounded_sums(taps, weights, before);
        let (t0, d0) = weighted_sums(taps, weights, before);
        let w = weights[n - 1];
        assert(is_fair(w));
        assert(in_range(taps[n - 1], 1, pow2(277)));
        let s = taps[n - 1].depth;
        lemma_rounded_weight(w);
        lemma_rounded_term(w, s);
        let r = w.spatial.spec_mul(w.color);
        let x = r.spec_mul(s.spec_widen());
        let b = 0x20_0000_0000_0000int;
        // The weights.
        law_sum_is_close(t0, r);
        let (tu, ru, t1u) = (t0.units() as int, r.units() as int, t1.units() as int);
        let off = t1u - (tu + ru);
        lemma_abs_product(off, one);
        lemma_times(abs(off) * b, tu + ru, one);
        assert((abs(off) * b) * one == (abs(off) * one) * b && (tu + ru) * one == tu * one + ru
            * one && off * one == t1u * one - (tu * one + ru * one)) by (nonlinear_arith)
            requires
                off == t1u - (tu + ru),
        ;
        assert(tu * one >= 0 && ru * one >= 0) by (nonlinear_arith)
            requires
                tu >= 0,
                ru >= 0,
                one >= 0,
        ;
        lemma_weight_step(
            n as int,
            weight_sum(weights, before) as int,
            weight_of(w) as int,
            tu * one,
            ru * one,
            t1u * one,
        );
        // The depths.
        law_sum_is_close(d0, x);
        let (du, xu, d1u) = (d0.units() as int, x.units() as int, d1.units() as int);
        let two = one * one;
        let off = d1u - (du + xu);
        assert(two >= 0) by (nonlinear_arith)
            requires
                two == one * one,
                one >= 0,
        ;
        lemma_abs_product(off, two);
        lemma_times(abs(off) * b, du + xu, two);
        assert((abs(off) * b) * two == (abs(off) * two) * b && (du + xu) * two == du * two + xu
            * two && off * two == d1u * two - (du * two + xu * two)) by (nonlinear_arith)
            requires
                off == d1u - (du + xu),
        ;
        assert(du * two >= 0 && xu * two >= 0) by (nonlinear_arith)
            requires
                du >= 0,
                xu >= 0,
                two >= 0,
        ;
        let c = pow2(925) as int;
        let (e0, m) = (depth_sum(taps, weights, before) as int, (weight_of(w) * s.units()) as int);
        assert((e0 + m) * c == e0 * c + m * c && e0 * c >= 0 && m * c >= 0) by (nonlinear_arith)
            requires
                e0 >= 0,
                m >= 0,
                c >= 0,
        ;
        lemma_depth_step(n as int, e0 * c, m * c, du * two, xu * two, d1u * two);
    }
}

proof fn lemma_mean_sums(n: int, w: int, tu: int, dc: int, dd: int, qw: int, qt: int, rc: int, cw: int)
    requires
        1 <= n <= 49,
        w >= 0,
        dc >= 0,
        qw >= 0,
        tu >= 0,
        dd >= 0,
        cw >= 0x4000_0000 * w,
        abs(tu - w) * 0x20_0000_0000_0000 <= 4 * (n * w),
        abs(dd - dc) * 0x20_0000_0000_0000 <= 6 * (n * dc),
        abs(qt - qw) * 0x20_0000_0000_0000 <= 4 * (n * qw),
        abs(qt - dd) * 0x20_0000_0000_0000 <= dd + tu * 0x10_0000_0000_0000,
        abs(rc - qw) * 0x100_0000 <= qw + cw * 0x80_0000,
    ensures
        abs(rc - dc) * 0x100_0000 <= 2 * dc + cw * 0x100_0000,
{
    assert(n * w <= 49 * w && n * dc <= 49 * dc && n * qw <= 49 * qw) by (nonlinear_arith)
        requires
            1 <= n <= 49,
            w >= 0,
            dc >= 0,
            qw >= 0,
    ;
}

/// A blend of depths above zero is their weighted mean, up to one part in `2^23` and one
/// unit of single precision: the blend times the sum of the weights is the sum of the
/// depths, each times its weight.
pub proof fn law_blend_is_the_weighted_mean(taps: Seq<Tap>, weights: Seq<Weight>)
    requires
        1 <= taps.len() <= 49,
        weights.len() == taps.len(),
        forall|i: int| 0 <= i < weights.len() ==> is_fair(#[trigger] weights[i]),
        forall|i: int| 0 <= i < taps.len() ==> (#[trigger] taps[i]).depth.spec_is_positive(),
    ensures
        ({
            let r = blended(taps, weights);
            let w = weight_sum(weights, taps.len());
            let d = depth_sum(taps, weights, taps.len());
            &&& r.spec_is_positive()
            &&& w > 0
            &&& abs(r.units() * w - d) * 0x80_0000 <= d + w * 0x80_0000
        }),
{
    lemma2_to64();
    lemma2_to64_rest();
    let n = taps.len();
    let (lo, hi) = (Single { bits: 1 }, Single { bits: 0x7f7f_ffff });
    law_blend_stays_in_range(taps, weights, lo, hi);
    let r = blended(taps, weights);
    assert(r.spec_is_positive());
    assert forall|i: int| 0 <= i < n implies in_range(#[trigger] taps[i], 1, pow2(277)) by {
        lemma_depth(taps[i].depth);
    }
    lemma_rounded_sums(taps, weights, n);
    let (t, d) = weighted_sums(taps, weights, n);
    let q = d.spec_div(t);
    let one = pow2(1074) as int;
    let c = pow2(925) as int;
    lemma_pow2_pos(1074);
    lemma_pow2_pos(272);
    lemma_zero_units(t.magnitude());
    law_quotient_is_close(d, t);
    let (tu, du) = (t.units() as int, d.units() as int);
    let b = 0x20_0000_0000_0000int;
    // The quotient is finite.
    assert(q.finite()) by {
        let k = (3 * n + 1) as int;
        let hc = pow2(277) * pow2(925);
        lemma_pow2_adds(277, 925);
        lemma_pow2_unfold(1203);
        lemma_pow2_strictly_increases(1203, 2000);
        assert(du * one <= (2 * hc) * tu) by (nonlinear_arith)
            requires
                (one * du) * b <= (hc * tu) * (b + k),
                0 <= k <= b,
                b > 0,
                hc >= 0,
                tu >= 0,
        ;
        lemma_times((2 * hc) as int, pow2(2000) as int, tu);
        assert(du * one >= 0) by (nonlinear_arith)
            requires
                du >= 0,
                one >= 0,
        ;
    }
    assert((Double { bits: 0 }).spec_less(t)) by {
        law_less_compares_values(Double { bits: 0 }, t);
        lemma_zero_units(0);
    }
    assert(r == Single::spec_narrow(q));
    assert(!q.negative());
    law_narrowing_is_close(q);
    let (qu, ru) = (q.units() as int, r.units() as int);
    let w = weight_sum(weights, n) as int;
    let ds = depth_sum(taps, weights, n) as int;
    let (tw, qw, qt, dd) = (tu * one, qu * w, qu * (tu * one), du * (one * one));
    // The quotient, times one.
    let off = qu * tu - du * one;
    lemma_abs_product(off, one);
    assert(off * one == qt - dd && (du * one) * one == dd) by (nonlinear_arith)
        requires
            off == qu * tu - du * one,
            qt == qu * (tu * one),
            dd == du * (one * one),
    ;
    assert(du * one >= 0 && dd >= 0 && tw >= 0 && qw >= 0) by (nonlinear_arith)
        requires
            du >= 0,
            one >= 0,
            dd == du * (one * one),
            tw == tu * one,
            tu >= 0,
            qw == qu * w,
            qu >= 0,
            w >= 0,
    ;
    lemma_times(abs(off) * b, du * one + tu * 0x10_0000_0000_0000, one);
    assert((abs(off) * b) * one == (abs(off) * one) * b && (du * one + tu * 0x10_0000_0000_0000)
        * one == dd + tw * 0x10_0000_0000_0000) by (nonlinear_arith)
        requires
            (du * one) * one == dd,
            tw == tu * one,
    ;
    // The error of the weights, times the quotient.
    let ow = tw - w;
    lemma_abs_product(qu, ow);
    assert(qu * ow == qt - qw) by (nonlinear_arith)
        requires
            ow == tw - w,
            qt == qu * tw,
            qw == qu * w,
    ;
    lemma_times(abs(ow) * b, 4 * (n * w), qu);
    assert((abs(ow) * b) * qu == (qu * abs(ow)) * b && (4 * (n * w)) * qu == 4 * (n * qw))
        by (nonlinear_arith)
        requires
            qw == qu * w,
    ;
    // The narrowed quotient, times the weights.
    let on = ru * c - qu;
    let rc = (ru * c) * w;
    lemma_abs_product(on, w);
    assert(on * w == rc - qw) by (nonlinear_arith)
        requires
            on == ru * c - qu,
            rc == (ru * c) * w,
            qw == qu * w,
    ;
    lemma_times((abs(on) * 0x100_0000) as int, qu + c * 0x80_0000, w);
    let cw = c * w;
    assert((abs(on) * 0x100_0000) * w == (abs(on) * w) * 0x100_0000 && (qu + c * 0x80_0000) * w
        == qw + cw * 0x80_0000) by (nonlinear_arith)
        requires
            qw == qu * w,
            cw == c * w,
    ;
    let dc = ds * c;
    lemma_pow2_strictly_increases(30, 925);
    assert(dc >= 0 && cw >= 0x4000_0000 * w) by (nonlinear_arith)
        requires
            dc == ds * c,
            cw == c * w,
            ds >= 0,
            c >= 0x4000_0000,
            w >= 0,
    ;
    lemma_mean_sums(n as int, w, tw, dc, dd, qw, qt, rc, cw);
    // The common factor goes.
    let z = ru * w - ds;
    assert(z * c == rc - dc) by (nonlinear_arith)
        requires
            z == ru * w - ds,
            rc == (ru * c) * w,
            dc == ds * c,
    ;
    lemma_abs_product(z, c);
    assert((abs(z) * c) * 0x100_0000 == (abs(z) * 0x100_0000) * c && 2 * dc + cw * 0x100_0000 == (2
        * ds + w * 0x100_0000) * c) by (nonlinear_arith)
        requires
            dc == ds * c,
            cw == c * w,
    ;
    lemma_pow2_pos(925);
    lemma_cancel((abs(z) * 0x100_0000) as int, 2 * ds + w * 0x100_0000, c);
}

/// A depth with its sign, in units of `2^-149`.
pub open spec fn signed_depth(s: Single) -> int {
    if s.negative() {
        -(s.units() as int)
    } else {
        s.units() as int
    }
}

/// The sum of the depths of the first `n` samples with their signs, each times its weight.
pub open spec fn signed_sum(taps: Seq<Tap>, weights: Seq<Weight>, n: nat) -> int
    decreases n,
{
    if n == 0 {
        0
    } else {
        signed_sum(taps, weights, (n - 1) as nat) + weight_of(weights[n - 1]) * signed_depth(
            taps[n - 1].depth,
        )
    }
}

proof fn lemma_signed_step(n: int, a0: int, ma: int, d0: int, m: int, s0: int, x: int, s1: int)
    requires
        1 <= n <= 49,
        abs(d0) <= a0,
        abs(m) <= ma,
        abs(s0 - d0) * 0x20_0000_0000_0000 <= 6 * ((n - 1) * a0),
        abs(x - m) * 0x20_0000_0000_0000 <= 4 * ma,
        abs(s1 - (s0 + x)) * 0x20_0000_0000_0000 <= abs(s0 + x),
    ensures
        abs(s1 - (d0 + m)) * 0x20_0000_0000_0000 <= 6 * (n * (a0 + ma)),
{
    let kd = (n - 1) * a0;
    assert(n * (a0 + ma) == kd + a0 + n * ma) by (nonlinear_arith)
        requires
            kd == (n - 1) * a0,
    ;
    assert(0 <= kd <= 48 * a0 && n * ma >= ma) by (nonlinear_arith)
        requires
            kd == (n - 1) * a0,
            1 <= n <= 49,
            a0 >= 0,
            ma >= 0,
    ;
}

/// A depth of either sign times its weight, twice rounded.
proof fn lemma_signed_term(w: Weight, s: Single)
    requires
        is_fair(w),
        s.finite(),
    ensures
        ({
            let x = w.spatial.spec_mul(w.color).spec_mul(s.spec_widen());
            let m = (weight_of(w) * signed_depth(s)) * pow2(925);
            let ma = (weight_of(w) * s.units()) * pow2(925);
            &&& x.finite()
            &&& abs(m) == ma
            &&& abs(x.signed_units() * (pow2(1074) * pow2(1074)) - m) * 0x20_0000_0000_0000 <= 4 * ma
        }),
{
    lemma2_to64();
    lemma_rounded_weight(w);
    lemma_weight_product(w);
    let r = w.spatial.spec_mul(w.color);
    let x = r.spec_mul(s.spec_widen());
    lemma_term_is_finite(r, s);
    law_widening_loses_nothing(s);
    let (nw, su, c, two) = (
        weight_of(w) as int,
        s.units() as int,
        pow2(925) as int,
        (pow2(1074) * pow2(1074)) as int,
    );
    assert((nw * (-su)) * c == -((nw * su) * c) && (nw * su) * c >= 0) by (nonlinear_arith)
        requires
            nw >= 0,
            su >= 0,
            c >= 0,
    ;
    lemma_pow2_pos(1074);
    if s.magnitude() == 0 {
        assert(units_of(24, 0) == 0);
        assert(s.spec_widen().units() == 0) by (nonlinear_arith)
            requires
                s.spec_widen().units() == su * c,
                su == 0,
        ;
        lemma_rank_of_product(r, s.spec_widen());
        assert(r.units() * 0 == 0);
        lemma_round_zero(pow2(1074));
        assert(x.magnitude() == 0);
        lemma_zero_units(0);
        assert(x.signed_units() == 0);
        assert(0 * two == 0 && nw * 0 == 0 && 0 * c == 0) by (nonlinear_arith);
    } else {
        let positive = Single::spec_signed(false, s.magnitude());
        assert(positive.spec_is_positive() && positive.units() == s.units());
        law_widening_loses_nothing(positive);
        lemma_rounded_term(w, positive);
        let y = r.spec_mul(positive.spec_widen());
        lemma_rank_of_product(r, s.spec_widen());
        lemma_rank_of_product(r, positive.spec_widen());
        let (u, v) = (r.units() as int, positive.spec_widen().signed_units());
        assert(u * (-v) == -(u * v)) by (nonlinear_arith);
        if s.negative() {
            lemma_rounded_rank_turned(u * v, pow2(1074));
            lemma_values_turned(x, y);
            let yu = y.signed_units();
            assert((-yu) * two == -(yu * two)) by (nonlinear_arith);
        } else {
            assert(s == positive);
        }
    }
}

/// The sum of depths of either sign is off by a few hundred parts in `2^53` of their sizes.
proof fn lemma_signed_sums(taps: Seq<Tap>, weights: Seq<Weight>, n: nat)
    requires
        n <= 49,
        n <= taps.len(),
        n <= weights.len(),
        forall|i: int| 0 <= i < n ==> is_fair(#[trigger] weights[i]),
        forall|i: int| 0 <= i < n ==> (#[trigger] taps[i]).depth.finite(),
    ensures
        ({
            let d = weighted_sums(taps, weights, n).1;
            let two = pow2(1074) * pow2(1074);
            let (m, a) = (
                signed_sum(taps, weights, n) * pow2(925),
                depth_sum(taps, weights, n) * pow2(925),
            );
            &&& d.finite()
            &&& abs(m) <= a
            &&& abs(d.signed_units() * two - m) * 0x20_0000_0000_0000 <= 6 * (n * a)
        }),
    decreases n,
{
    lemma_sums_are_finite(taps, weights, n);
    let d1 = weighted_sums(taps, weights, n).1;
    let two = (pow2(1074) * pow2(1074)) as int;
    let c = pow2(925) as int;
    if n == 0 {
        lemma_zero_units(0);
        assert(0 * two == 0 && 0 * c == 0) by (nonlinear_arith);
    } else {
        let before = (n - 1) as nat;
        lemma_signed_sums(taps, weights, before);
        let d0 = weighted_sums(taps, weights, before).1;
        let w = weights[n - 1];
        assert(is_fair(w));
        assert(taps[n - 1].depth.finite());
        let s = taps[n - 1].depth;
        lemma_signed_term(w, s);
        let x = w.spatial.spec_mul(w.color).spec_mul(s.spec_widen());
        law_sum_is_close(d0, x);
        let b = 0x20_0000_0000_0000int;
        let (du, xu, d1u) = (d0.signed_units(), x.signed_units(), d1.signed_units());
        let off = d1u - (du + xu);
        lemma_pow2_pos(1074);
        assert(two >= 0) by (nonlinear_arith)
            requires
                two == pow2(1074) * pow2(1074),
                pow2(1074) >= 0,
        ;
        lemma_abs_product(off, two);
        lemma_abs_product(du + xu, two);
        lemma_times(abs(off) * b, abs(du + xu) as int, two);
        assert((abs(off) * b) * two == (abs(off) * two) * b && (du + xu) * two == du * two + xu
            * two && off * two == d1u * two - (du * two + xu * two)) by (nonlinear_arith)
            requires
                off == d1u - (du + xu),
        ;
        let (e0, m) = (signed_sum(taps, weights, before), weight_of(w) * signed_depth(s));
        let (a0, ma) = (depth_sum(taps, weights, before) as int, (weight_of(w) * s.units()) as int);
        assert((e0 + m) * c == e0 * c + m * c && (a0 + ma) * c == a0 * c + ma * c)
            by (nonlinear_arith);
        lemma_signed_step(
            n as int,
            a0 * c,
            ma * c,
            e0 * c,
            m * c,
            du * two,
            xu * two,
            d1u * two,
        );
    }
}

proof fn lemma_signed_mean_sums(
    n: int,
    w: int,
    tu: int,
    ac: int,
    dc: int,
    dd: int,
    qw: int,
    qt: int,
    rc: int,
    cw: int,
)
    requires
        1 <= n <= 49,
        w >= 0,
        tu >= 0,
        abs(dc) <= ac,
        cw >= 0x4000_0000 * w,
        abs(tu - w) * 0x20_0000_0000_0000 <= 4 * (n * w),
        abs(dd - dc) * 0x20_0000_0000_0000 <= 6 * (n * ac),
        abs(qt - qw) * 0x20_0000_0000_0000 <= 4 * (n * abs(qw)),
        abs(qt - dd) * 0x20_0000_0000_0000 <= abs(dd) + tu * 0x10_0000_0000_0000,
        abs(rc - qw) * 0x100_0000 <= abs(qw) + cw * 0x80_0000,
    ensures
        abs(rc - dc) * 0x100_0000 <= 2 * ac + cw * 0x100_0000,
{
    let q = abs(qw) as int;
    assert(n * w <= 49 * w && n * ac <= 49 * ac && n * q <= 49 * q) by (nonlinear_arith)
        requires
            1 <= n <= 49,
            w >= 0,
            ac >= 0,
            q >= 0,
    ;
}

/// A blend of any depths is their weighted mean, up to one part in `2^23` of their sizes and one
/// unit of single precision.
pub proof fn law_blend_of_any_depths_is_the_weighted_mean(taps: Seq<Tap>, weights: Seq<Weight>)
    requires
        1 <= taps.len() <= 49,
        weights.len() == taps.len(),
        forall|i: int| 0 <= i < weights.len() ==> is_fair(#[trigger] weights[i]),
        forall|i: int| 0 <= i < taps.len() ==> (#[trigger] taps[i]).depth.finite(),
    ensures
        ({
            let r = blended(taps, weights);
            let w = weight_sum(weights, taps.len());
            let d = signed_sum(taps, weights, taps.len());
            let size = depth_sum(taps, weights, taps.len());
            &&& r.finite()
            &&& w > 0
            &&& abs(signed_depth(r) * w - d) * 0x80_0000 <= size + w * 0x80_0000
        }),
{
    lemma2_to64();
    lemma2_to64_rest();
    let n = taps.len();
    let (lo, hi) = (Single { bits: 0xff7f_ffff }, Single { bits: 0x7f7f_ffff });
    law_blend_stays_in_range(taps, weights, lo, hi);
    let r = blended(taps, weights);
    assert(r.finite());
    // The weights do not depend on the depths.
    let top = leveled(taps, hi);
    lemma_depth(hi);
    assert forall|i: int| 0 <= i < n implies in_range(#[trigger] top[i], 1, pow2(277)) by {}
    lemma_rounded_sums(top, weights, n);
    lemma_same_total(taps, top, weights, n);
    lemma_signed_sums(taps, weights, n);
    lemma_sums_are_finite(taps, weights, n);
    let (t, d) = weighted_sums(taps, weights, n);
    let most = weighted_sums(top, weights, n).1;
    assert(hi == largest());
    lemma_bounded_value(d, most);
    let q = d.spec_div(t);
    let one = pow2(1074) as int;
    let c = pow2(925) as int;
    lemma_pow2_pos(1074);
    lemma_pow2_pos(272);
    lemma_zero_units(t.magnitude());
    law_quotient_is_close(d, t);
    let (tu, du) = (t.units() as int, d.signed_units());
    let b = 0x20_0000_0000_0000int;
    lemma_abs_product(du, one);
    // The quotient is finite.
    assert(q.finite()) by {
        let k = (3 * n + 1) as int;
        let hc = pow2(277) * pow2(925);
        let mu = most.units() as int;
        lemma_pow2_adds(277, 925);
        lemma_pow2_unfold(1203);
        lemma_pow2_strictly_increases(1203, 2000);
        assert(mu * one <= (2 * hc) * tu) by (nonlinear_arith)
            requires
                (one * mu) * b <= (hc * tu) * (b + k),
                0 <= k <= b,
                b > 0,
                hc >= 0,
                tu >= 0,
        ;
        lemma_times((2 * hc) as int, pow2(2000) as int, tu);
        lemma_times(abs(du) as int, mu, one);
    }
    assert((Double { bits: 0 }).spec_less(t)) by {
        law_less_compares_values(Double { bits: 0 }, t);
        lemma_zero_units(0);
    }
    assert(r == Single::spec_narrow(q));
    law_narrowing_is_close(q);
    let (qu, ru) = (q.signed_units(), signed_depth(r));
    let w = weight_sum(weights, n) as int;
    let ds = signed_sum(taps, weights, n);
    let size = depth_sum(taps, weights, n) as int;
    let (tw, qw, qt, dd) = (tu * one, qu * w, qu * (tu * one), du * (one * one));
    // The quotient, times one.
    let off = qu * tu - du * one;
    lemma_abs_product(off, one);
    assert(off * one == qt - dd && (du * one) * one == dd && tw >= 0) by (nonlinear_arith)
        requires
            off == qu * tu - du * one,
            qt == qu * (tu * one),
            dd == du * (one * one),
            tw == tu * one,
            tu >= 0,
            one >= 0,
    ;
    lemma_abs_product(du * one, one);
    lemma_times(abs(off) * b, abs(du * one) + tu * 0x10_0000_0000_0000, one);
    assert((abs(off) * b) * one == (abs(off) * one) * b && (abs(du * one) + tu
        * 0x10_0000_0000_0000) * one == abs(du * one) * one + tw * 0x10_0000_0000_0000)
        by (nonlinear_arith)
        requires
            tw == tu * one,
    ;
    // The error of the weights, times the quotient.
    let ow = tw - w;
    lemma_abs_product(qu, ow);
    lemma_abs_product(qu, w);
    assert(qu * ow == qt - qw) by (nonlinear_arith)
        requires
            ow == tw - w,
            qt == qu * tw,
            qw == qu * w,
    ;
    let aq = abs(qu) as int;
    lemma_times(abs(ow) * b, 4 * (n * w), aq);
    assert((abs(ow) * b) * aq == (aq * abs(ow)) * b && (4 * (n * w)) * aq == 4 * (n * (aq * w)))
        by (nonlinear_arith);
    // The narrowed quotient, times the weights.
    let on = ru * c - qu;
    let rc = (ru * c) * w;
    assert(abs(on) == abs(r.units() * pow2(925) - q.units())) by {
        let (x, y) = (r.units() as int, q.units() as int);
        assert((-x) * c == -(x * c)) by (nonlinear_arith);
    }
    lemma_abs_product(on, w);
    assert(on * w == rc - qw) by (nonlinear_arith)
        requires
            on == ru * c - qu,
            rc == (ru * c) * w,
            qw == qu * w,
    ;
    lemma_times((abs(on) * 0x100_0000) as int, aq + c * 0x80_0000, w);
    let cw = c * w;
    assert((abs(on) * 0x100_0000) * w == (abs(on) * w) * 0x100_0000 && (aq + c * 0x80_0000) * w
        == aq * w + cw * 0x80_0000) by (nonlinear_arith)
        requires
            cw == c * w,
    ;
    let (dc, ac) = (ds * c, size * c);
    lemma_pow2_strictly_increases(30, 925);
    assert(cw >= 0x4000_0000 * w) by (nonlinear_arith)
        requires
            cw == c * w,
            c >= 0x4000_0000,
            w >= 0,
    ;
    lemma_signed_mean_sums(n as int, w, tw, ac, dc, dd, qw, qt, rc, cw);
    // The common factor goes.
    let z = ru * w - ds;
    assert(z * c == rc - dc) by (nonlinear_arith)
        requires
            z == ru * w - ds,
            rc == (ru * c) * w,
            dc == ds * c,
    ;
    lemma_abs_product(z, c);
    assert((abs(z) * c) * 0x100_0000 == (abs(z) * 0x100_0000) * c && 2 * ac + cw * 0x100_0000 == (2
        * size + w * 0x100_0000) * c) by (nonlinear_arith)
        requires
            ac == size * c,
            cw == c * w,
    ;
    lemma_pow2_pos(925);
    lemma_cancel((abs(z) * 0x100_0000) as int, 2 * size + w * 0x100_0000, c);
}

/// Whether `exp` fades out as the exponential function does: it is one at zero, no less
/// than `2^-20` down to minus 6, and no more than `2^-150` from minus 108 on.
pub open spec fn fades<F: Fn(Double) -> Double>(exp: F) -> bool {
    &&& like_exponential(exp)
    &&& forall|x: Double, y: Double| #[trigger]
        call_ensures(exp, (x,), y) && x.finite() ==> {
            &&& x.signed_units() == 0 ==> y.bits == ONE
            &&& -6 * pow2(1074) <= x.signed_units() <= 0 ==> y.units() * pow2(20) >= pow2(1074)
            &&& x.signed_units() <= -108 * pow2(1074) ==> y.units() * pow2(150) <= pow2(1074)
        }
}

/// Whether a tap is on this side of an edge, at depth `a`, where the colour is the same.
spec fn on_this_side(tap: Tap, w: Weight, a: Single) -> bool {
    tap.depth == a && w.color.bits == ONE
}

/// Whether a tap is on the other side of an edge, at depth `b`, where the colour is
/// another.
spec fn on_that_side(tap: Tap, w: Weight, b: Single) -> bool {
    tap.depth == b && w.color.units() * pow2(150) <= pow2(1074)
}

/// What the other side of an edge adds to the sums.
proof fn lemma_sides(
    taps: Seq<Tap>,
    weights: Seq<Weight>,
    n: nat,
    a: Single,
    b: Single,
    own: int,
) -> (wu: nat)
    requires
        n <= taps.len(),
        n <= weights.len(),
        forall|i: int| 0 <= i < n ==> is_fair(#[trigger] weights[i]),
        forall|i: int|
            0 <= i < n ==> on_this_side(#[trigger] taps[i], weights[i], a) || on_that_side(
                taps[i],
                weights[i],
                b,
            ),
        0 <= own < taps.len(),
        own < n ==> on_this_side(taps[own], weights[own], a),
        own < n ==> weights[own].spatial.units() * pow2(20) >= pow2(1074),
    ensures
        ({
            let w = weight_sum(weights, n);
            let two = pow2(1074) * pow2(1074);
            &&& depth_sum(taps, weights, n) == a.units() * w + (b.units() - a.units()) * wu
            &&& wu <= w
            &&& wu * pow2(150) <= n * two
            &&& own < n ==> w * pow2(20) >= two
        }),
    decreases n,
{
    let one = pow2(1074);
    let two = one * one;
    if n == 0 {
        assert(0 * pow2(150) == 0 && a.units() * 0 == 0 && (b.units() - a.units()) * 0 == 0 && 0
            * two == 0) by (nonlinear_arith);
        0
    } else {
        let before = (n - 1) as nat;
        let wu0 = lemma_sides(taps, weights, before, a, b, own);
        let (tap, w) = (taps[n - 1], weights[n - 1]);
        assert(is_fair(w));
        lemma_weight(w.spatial);
        lemma_weight(w.color);
        let (au, bu) = (a.units() as int, b.units() as int);
        let (w0, nw) = (weight_sum(weights, before) as int, weight_of(w) as int);
        let (su, cu) = (w.spatial.units() as int, w.color.units() as int);
        lemma_pow2_pos(20);
        lemma_pow2_pos(1074);
        assert(nw >= 0) by (nonlinear_arith)
            requires
                nw == su * cu,
                su >= 0,
                cu >= 0,
        ;
        assert((w0 + nw) * pow2(20) >= w0 * pow2(20)) by (nonlinear_arith)
            requires
                nw >= 0,
                pow2(20) >= 0,
        ;
        assert((before + 1) * two == before * two + two) by (nonlinear_arith);
        assert(two >= 0) by (nonlinear_arith)
            requires
                two == one * one,
                one >= 0,
        ;
        if on_this_side(tap, w, a) {
            assert(au * (w0 + nw) + (bu - au) * wu0 == (au * w0 + (bu - au) * wu0) + nw * au)
                by (nonlinear_arith);
            if own == n - 1 {
                assert(cu == one) by {
                    lemma_one_units();
                }
                assert(nw * pow2(20) >= two) by (nonlinear_arith)
                    requires
                        nw == su * cu,
                        cu == one,
                        su * pow2(20) >= one,
                        two == one * one,
                        one >= 0,
                ;
                assert((w0 + nw) * pow2(20) >= nw * pow2(20)) by (nonlinear_arith)
                    requires
                        w0 >= 0,
                        pow2(20) >= 0,
                ;
            }
            wu0
        } else {
            let wu = (wu0 + nw) as nat;
            assert(au * (w0 + nw) + (bu - au) * wu == (au * w0 + (bu - au) * wu0) + nw * bu)
                by (nonlinear_arith)
                requires
                    wu == wu0 + nw,
            ;
            assert(nw * pow2(150) <= two) by (nonlinear_arith)
                requires
                    nw == su * cu,
                    cu * pow2(150) <= one,
                    0 <= su <= one,
                    two == one * one,
                    one >= 0,
            ;
            assert(wu * pow2(150) == wu0 * pow2(150) + nw * pow2(150)) by (nonlinear_arith)
                requires
                    wu == wu0 + nw,
            ;
            wu
        }
    }
}

/// Whether the guide pixel of a sample is the one at column `there.0` and row `there.1`.
pub open spec fn is_guided_by(p: UpsampleParams, q: (nat, nat), there: (nat, nat)) -> bool {
    &&& centre_falls_in(q.0, p.low_width as nat, there.0, p.guide_width as nat)
    &&& centre_falls_in(q.1, p.low_height as nat, there.1, p.guide_height as nat)
}

/// Whether the image shows two opposite colours around an output pixel, whose guide pixel
/// is `at`: a sample of the same colour as the pixel is at depth `a`, and every other
/// sample has the opposite colour and is at depth `b`.
pub open spec fn is_edge(
    low: Seq<Single>,
    rgb: Seq<u8>,
    p: UpsampleParams,
    o: (nat, nat),
    at: (nat, nat),
    a: Single,
    b: Single,
) -> bool {
    forall|q: (nat, nat), there: (nat, nat)|
        is_sample_for(low, p, o, q) && #[trigger] is_guided_by(p, q, there) ==> {
            let apart = colors_differ_by(rgb, p.guide_width, at, there);
            let depth = low[(q.1 * p.low_width + q.0) as int];
            (apart == 0 && depth == a) || (apart == 195075 && depth == b)
        }
}

/// Where the image shows two opposite colours, and the samples of one colour are at depth
/// `a` and those of the other at depth `b`, the depth of a pixel of the first colour is
/// `a`: it is off by `2^-123` of the difference of the depths, which is what the weight
/// of the other colour lets through, and by the last place of single precision. One
/// sample of the first colour, `own`, is near the pixel.
pub proof fn law_depth_does_not_bleed_across_edges<F: Fn(Double) -> Double>(
    exp: F,
    low: Seq<Single>,
    rgb: Seq<u8>,
    p: UpsampleParams,
    o: (nat, nat),
    at: (nat, nat),
    own: (nat, nat),
    there: (nat, nat),
    a: Single,
    b: Single,
    r: Single,
)
    requires
        fades(exp),
        p.valid(),
        p.guide_width > 0 && p.guide_height > 0,
        o.0 < p.low_width * p.factor && o.1 < p.low_height * p.factor,
        centre_falls_in(o.0, (p.low_width * p.factor) as nat, at.0, p.guide_width as nat),
        centre_falls_in(o.1, (p.low_height * p.factor) as nat, at.1, p.guide_height as nat),
        a.spec_is_positive(),
        b.spec_is_positive(),
        is_edge(low, rgb, p, o, at, a, b),
        is_sample_for(low, p, o, own),
        is_guided_by(p, own, there),
        colors_differ_by(rgb, p.guide_width, at, there) == 0,
        blends_to(exp, pixel_taps(low, rgb, p, o.0, o.1), r),
    ensures
        r.spec_is_positive(),
        abs(r.units() - a.units()) * pow2(123) <= abs(b.units() - a.units()) + (a.units()
            + 0x80_0000) * pow2(100),
{
    let taps = pixel_taps(low, rgb, p, o.0, o.1);
    let n = taps.len();
    let samples = law_one_tap_per_sample(low, rgb, p, o);
    assert(samples.contains(own));
    let mine = choose|k: int| 0 <= k < samples.len() && samples[k] == own;
    lemma_tap_count(low, rgb, p, o);
    law_exponents_are_in_range(exp, low, rgb, p, o.0, o.1);
    let weights = choose|weights: Seq<Weight>|
        #![trigger blended(taps, weights)]
        {
            &&& weights.len() == taps.len()
            &&& forall|i: int| 0 <= i < taps.len() ==> weighs(exp, #[trigger] taps[i], weights[i])
            &&& r == blended(taps, weights)
        };
    assert forall|i: int| 0 <= i < weights.len() implies is_fair(#[trigger] weights[i]) by {
        assert(weighs(exp, taps[i], weights[i]));
    }
    assert forall|i: int| 0 <= i < n implies (on_this_side(#[trigger] taps[i], weights[i], a)
        || on_that_side(taps[i], weights[i], b)) && taps[i].depth.spec_is_positive() && (i == mine
        ==> on_this_side(taps[i], weights[i], a) && weights[i].spatial.units() * pow2(20) >= pow2(
        1074,
    )) by {
        let q = samples[i];
        let g = (
            guide_index(q.0, p.low_width as nat, p.guide_width as nat),
            guide_index(q.1, p.low_height as nat, p.guide_height as nat),
        );
        law_guide_pixel_holds_the_centre(q.0, p.low_width as nat, p.guide_width as nat, g.0);
        law_guide_pixel_holds_the_centre(q.1, p.low_height as nat, p.guide_height as nat, g.1);
        assert(is_guided_by(p, q, g));
        law_colour_exponent(low, rgb, p, o, q, at, g);
        assert(weighs(exp, taps[i], weights[i]));
        let e = taps[i].color;
        let apart = colors_differ_by(rgb, p.guide_width, at, g);
        lemma_edge_exponent(e, apart);
        if i == mine {
            law_guide_pixel_holds_the_centre(
                own.0,
                p.low_width as nat,
                p.guide_width as nat,
                there.0,
            );
            law_guide_pixel_holds_the_centre(
                own.1,
                p.low_height as nat,
                p.guide_height as nat,
                there.1,
            );
            assert(there == g);
            law_spatial_exponent(low, rgb, p, o, own);
        }
    }
    assert forall|i: int| 0 <= i < n implies (#[trigger] taps[i]).depth.spec_is_positive() by {}
    assert(on_this_side(taps[mine], weights[mine], a));
    law_blend_is_the_weighted_mean(taps, weights);
    let wu = lemma_sides(taps, weights, n, a, b, mine) as int;
    let w = weight_sum(weights, n) as int;
    let d = depth_sum(taps, weights, n) as int;
    let (ru, au, bu) = (r.units() as int, a.units() as int, b.units() as int);
    lemma2_to64();
    let two = (pow2(1074) * pow2(1074)) as int;
    // The other side weighs next to nothing.
    assert(wu * pow2(124) <= w) by {
        lemma_pow2_adds(26, 124);
        lemma_pow2_adds(6, 20);
        let (x, y) = (pow2(124) as int, pow2(20) as int);
        assert(n * two <= 64 * two) by (nonlinear_arith)
            requires
                n <= 64,
                two >= 0,
        ;
        assert((wu * x) * (64 * y) <= w * (64 * y)) by (nonlinear_arith)
            requires
                wu * ((64 * y) * x) <= 64 * two,
                w * y >= two,
        ;
        lemma_cancel(wu * x, w, 64 * y);
    }
    // What is left of the difference.
    let diff = abs(bu - au) as int;
    let off = abs(ru - au) as int;
    let m = diff * wu;
    lemma_abs_product(bu - au, wu);
    lemma_abs_product(ru - au, w);
    assert((ru - au) * w == ru * w - au * w) by (nonlinear_arith);
    assert(m >= 0 && au * w >= 0) by (nonlinear_arith)
        requires
            m == diff * wu,
            diff >= 0,
            wu >= 0,
            au >= 0,
            w >= 0,
    ;
    let (ow, aw) = (off * w, au * w);
    assert(ow * 0x80_0000 <= aw + w * 0x80_0000 + m * 0x100_0000);
    let (h, t) = (pow2(100) as int, pow2(124) as int);
    lemma_pow2_adds(23, 100);
    lemma_pow2_adds(24, 100);
    lemma_pow2_pos(100);
    let k = (au + 0x80_0000) * h;
    assert(m * t <= diff * w) by (nonlinear_arith)
        requires
            m == diff * wu,
            wu * t <= w,
            diff >= 0,
    ;
    assert((off * pow2(123)) * w <= (diff + k) * w) by {
        lemma_times(ow * 0x80_0000, aw + w * 0x80_0000 + m * 0x100_0000, h);
        assert((ow * 0x80_0000) * h == (off * (0x80_0000 * h)) * w) by (nonlinear_arith)
            requires
                ow == off * w,
        ;
        assert((aw + w * 0x80_0000 + m * 0x100_0000) * h == k * w + m * (0x100_0000 * h))
            by (nonlinear_arith)
            requires
                aw == au * w,
                k == (au + 0x80_0000) * h,
        ;
        assert((diff + k) * w == diff * w + k * w) by (nonlinear_arith);
    }
    lemma_cancel(off * pow2(123), diff + k, w);
}

/// The exponent of a colour that is the same, or the opposite.
proof fn lemma_edge_exponent(e: Double, apart: int)
    requires
        is_color_exponent(e, apart),
        apart == 0 || apart == 195075,
    ensures
        apart == 0 ==> e.signed_units() == 0,
        apart == 195075 ==> e.signed_units() <= -108 * pow2(1074),
{
    lemma_pow2_pos(1074);
    assert(0 * pow2(1074) == 0);
}

/// There are no more than 49 taps.
proof fn lemma_tap_count(low: Seq<Single>, rgb: Seq<u8>, p: UpsampleParams, o: (nat, nat))
    requires
        p.factor >= 1,
    ensures
        pixel_taps(low, rgb, p, o.0, o.1).len() <= 49,
{
    let (lo, hi) = (Single { bits: 0xff7f_ffff }, Single { bits: 0x7f7f_ffff });
    lemma_taps(low, rgb, p, o.0, o.1, window_end(o.1, p.factor, p.low_height), lo, hi);
}

/// What upsampling does: the depth of an output pixel is the mean of the samples near it,
/// each weighted with two values of the exponential function, of the exponent that its
/// distance gives and of the one that its colour gives. `samples` names the samples, and
/// `weights` has their weights.
pub proof fn law_upsampled_depth_is_the_weighted_mean<F: Fn(Double) -> Double>(
    exp: F,
    low: Seq<Single>,
    rgb: Seq<u8>,
    p: UpsampleParams,
    o: (nat, nat),
    own: (nat, nat),
    r: Single,
) -> (made_of: (Seq<(nat, nat)>, Seq<Weight>))
    requires
        like_exponential(exp),
        p.factor >= 1,
        o.0 <= u32::MAX && o.1 <= u32::MAX,
        is_sample_for(low, p, o, own),
        blends_to(exp, pixel_taps(low, rgb, p, o.0, o.1), r),
    ensures
        ({
            let (samples, weights) = made_of;
            let taps = pixel_taps(low, rgb, p, o.0, o.1);
            let n = taps.len();
            let (w, d) = (weight_sum(weights, n), signed_sum(taps, weights, n));
            &&& taps_of(low, rgb, p, o, taps, samples)
            &&& weights.len() == n
            &&& forall|q: (nat, nat)| is_sample_for(low, p, o, q) ==> #[trigger] samples.contains(q)
            &&& forall|j: int|
                #![trigger taps[j]]
                0 <= j < n ==> {
                    &&& call_ensures(exp, (taps[j].spatial,), weights[j].spatial)
                    &&& call_ensures(exp, (taps[j].color,), weights[j].color)
                    &&& is_spatial_exponent(taps[j].spatial, o, samples[j], p.factor)
                }
            &&& r.finite()
            &&& w > 0
            &&& abs(signed_depth(r) * w - d) * 0x80_0000 <= depth_sum(taps, weights, n) + w
                * 0x80_0000
        }),
{
    let taps = pixel_taps(low, rgb, p, o.0, o.1);
    let n = taps.len();
    let samples = law_one_tap_per_sample(low, rgb, p, o);
    assert(samples.contains(own));
    lemma_tap_count(low, rgb, p, o);
    law_exponents_are_in_range(exp, low, rgb, p, o.0, o.1);
    let weights = choose|weights: Seq<Weight>|
        #![trigger blended(taps, weights)]
        {
            &&& weights.len() == taps.len()
            &&& forall|i: int| 0 <= i < taps.len() ==> weighs(exp, #[trigger] taps[i], weights[i])
            &&& r == blended(taps, weights)
        };
    assert forall|i: int| 0 <= i < weights.len() implies is_fair(#[trigger] weights[i]) by {
        assert(weighs(exp, taps[i], weights[i]));
    }
    assert forall|j: int| 0 <= j < n implies (#[trigger] taps[j]).depth.finite()
        && is_spatial_exponent(taps[j].spatial, o, samples[j], p.factor) by {
        law_spatial_exponent(low, rgb, p, o, samples[j]);
    }
    law_blend_of_any_depths_is_the_weighted_mean(taps, weights);
    (samples, weights)
}

} // verus!
