//! What the taps of an output pixel are: the samples in its window, one tap for each,
//! with exponents that are the squares of the distance in the depth map and of the
//! distance in colour.
use vstd::arithmetic::div_mod::{
    lemma_fundamental_div_mod, lemma_fundamental_div_mod_converse, lemma_mod_pos_bound,
};
use vstd::arithmetic::power2::{
    lemma2_to64, lemma2_to64_rest, lemma_pow2_adds, lemma_pow2_pos, lemma_pow2_strictly_increases,
    pow2,
};
use vstd::math::abs;
use vstd::prelude::*;

use crate::accuracy::{
    law_difference_is_close, law_product_is_close, law_quotient_is_close, law_sum_is_close,
    lemma_abs_product,
};
use crate::double::{
    law_counts_are_exact, lemma_cancel, lemma_divided_by_count, lemma_halfway_is_exact,
    lemma_one_units, lemma_round_zero, lemma_times, Double, Single, HALF,
};
use crate::unproject::pixel_centre;
use crate::upsample::{
    guide_index, lemma_guide_index, lemma_low_position, low_position, pixel_taps, row_taps,
    squared_offset, tap_at, taps_above, window_end, window_start, Tap, UpsampleParams, COLOR_SPREAD,
    SPATIAL_SPREAD,
};

verus! {

/// Whether the centre of pixel `x` of `n` falls in pixel `g` of `guide` over the same
/// length. A centre on the edge between two pixels falls in the second.
pub open spec fn centre_falls_in(x: nat, n: nat, g: nat, guide: nat) -> bool {
    (2 * n) * g <= (2 * x + 1) * guide < (2 * n) * (g + 1)
}

/// The guide pixel of a pixel is the one, and the only one, that its centre falls in.
pub proof fn law_guide_pixel_holds_the_centre(x: nat, n: nat, guide: nat, g: nat)
    requires
        x < n,
        guide > 0,
    ensures
        guide_index(x, n, guide) < guide,
        centre_falls_in(x, n, g, guide) <==> g == guide_index(x, n, guide),
{
    lemma_guide_index(x, n, guide);
    let (top, d) = (((2 * x + 1) * guide) as int, 2 * n as int);
    lemma_fundamental_div_mod(top, d);
    lemma_mod_pos_bound(top, d);
    let q = guide_index(x, n, guide) as int;
    assert(d * (q + 1) == d * q + d) by (nonlinear_arith);
    if centre_falls_in(x, n, g, guide) {
        assert(d * (g + 1) == d * g + d && g * d == d * g) by (nonlinear_arith);
        lemma_fundamental_div_mod_converse(top, d, g as int, top - d * g);
    }
}

/// The square of the distance between the colours at two pixels of the guide.
pub open spec fn colors_differ_by(
    rgb: Seq<u8>,
    width: u32,
    a: (nat, nat),
    b: (nat, nat),
) -> int {
    let i = 3 * (a.1 * width + a.0);
    let j = 3 * (b.1 * width + b.0);
    let (dr, dg, db) = (rgb[i] - rgb[j], rgb[i + 1] - rgb[j + 1], rgb[i + 2] - rgb[j + 2]);
    dr * dr + dg * dg + db * db
}

/// Whether `e` is `-d / 1800`, up to rounding.
pub open spec fn is_color_exponent(e: Double, d: int) -> bool {
    &&& e.finite()
    &&& e.signed_units() <= 0
    &&& abs(e.signed_units() * 1800 + d * pow2(1074)) * 0x20_0000_0000_0000 <= 2 * (d * pow2(1074))
}

proof fn lemma_square_bounds(x: int)
    requires
        -255 <= x <= 255,
    ensures
        0 <= x * x <= 65025,
{
    assert(0 <= x * x <= 65025) by (nonlinear_arith)
        requires
            -255 <= x <= 255,
    ;
}

proof fn lemma_color_spread()
    ensures
        (Double { bits: COLOR_SPREAD }).finite(),
        !(Double { bits: COLOR_SPREAD }).zero(),
        !(Double { bits: COLOR_SPREAD }).negative(),
        (Double { bits: COLOR_SPREAD }).units() == 1800 * pow2(1074),
        (Double { bits: SPATIAL_SPREAD }).finite(),
        !(Double { bits: SPATIAL_SPREAD }).zero(),
        !(Double { bits: SPATIAL_SPREAD }).negative(),
        2 * (Double { bits: SPATIAL_SPREAD }).units() == 9 * pow2(1074),
{
    lemma2_to64();
    lemma2_to64_rest();
    let m = COLOR_SPREAD as nat;
    assert(m % pow2(52) == 0xc_2000_0000_0000 && m / pow2(52) == 0x409);
    lemma_pow2_adds(42, 1032);
    assert(0x1c_2000_0000_0000nat * pow2(1032) == 1800 * pow2(1074)) by (nonlinear_arith)
        requires
            pow2(1074) == 0x400_0000_0000 * pow2(1032),
    ;
    let n = SPATIAL_SPREAD as nat;
    assert(n % pow2(52) == 0x2_0000_0000_0000 && n / pow2(52) == 0x401);
    lemma_pow2_adds(50, 1024);
    assert(2 * (0x12_0000_0000_0000nat * pow2(1024)) == 9 * pow2(1074)) by (nonlinear_arith)
        requires
            pow2(1074) == 0x4_0000_0000_0000 * pow2(1024),
    ;
}

/// A count, turned round and divided by 1800.
proof fn lemma_color_exponent_of(d: nat)
    requires
        d <= 195075,
    ensures
        is_color_exponent(
            Double::spec_from_count(d).spec_neg().spec_div(Double { bits: COLOR_SPREAD }),
            d as int,
        ),
{
    lemma2_to64();
    lemma2_to64_rest();
    lemma_color_spread();
    law_counts_are_exact(d);
    let count = Double::spec_from_count(d).spec_neg();
    let spread = Double { bits: COLOR_SPREAD };
    let e = count.spec_div(spread);
    let one = pow2(1074) as int;
    lemma_pow2_pos(1074);
    lemma_pow2_strictly_increases(64, 1074);
    assert(count.finite() && count.signed_units() == -(d * one));
    law_quotient_is_close(count, spread);
    let s = e.signed_units();
    lemma_pow2_adds(18, 1074);
    lemma_pow2_strictly_increases(1092, 2000);
    assert(195075 * one <= 0x4_0000 * one);
    assert((-(d * one)) * one == -((d * one) * one)) by (nonlinear_arith);
    assert(0 <= (d * one) * one <= pow2(2000) * (1800 * one)) by (nonlinear_arith)
        requires
            0 <= d <= 195075,
            one >= 1,
            195075 * one <= pow2(2000) * 1800,
    ;
    assert(e.finite());
    assert(s * (1800 * one) + (d * one) * one == (s * 1800 + d * one) * one) by (nonlinear_arith);
    lemma_abs_product(s * 1800 + d * one, one);
    let b = 0x20_0000_0000_0000int;
    let off = abs(s * 1800 + d * one) as int;
    assert((off * one) * b == (off * b) * one) by (nonlinear_arith);
    assert((d * one) * one + (1800 * one) * 0x10_0000_0000_0000 == (d * one + 1800
        * 0x10_0000_0000_0000) * one) by (nonlinear_arith);
    lemma_cancel(off * b, d * one + 1800 * 0x10_0000_0000_0000, one);
    if d == 0 {
        assert((0 * one) * one == 0) by (nonlinear_arith);
        assert(count.units() * one == 0) by (nonlinear_arith)
            requires
                count.units() == 0,
        ;
        lemma_round_zero(spread.units());
        assert(e.units() == 0);
        assert(0 * one == 0);
    } else {
        assert(d * one >= one) by (nonlinear_arith)
            requires
                d >= 1,
                one >= 0,
        ;
        assert(1800 * 0x10_0000_0000_0000 <= one);
    }
    assert(e.negative());
}

/// For every size of the depth map and of the image, the exponent that the colours give
/// to the sample at column `qx` and row `qy`, for the output pixel at column `ox` and
/// row `oy`, is `-(dr^2 + dg^2 + db^2) / 1800` up to rounding, where `dr`, `dg` and `db`
/// are the differences of the channels at the guide pixels that the two centres fall in.
pub proof fn law_colour_exponent(
    low: Seq<Single>,
    rgb: Seq<u8>,
    p: UpsampleParams,
    o: (nat, nat),
    q: (nat, nat),
    at: (nat, nat),
    there: (nat, nat),
)
    requires
        p.factor >= 1,
        p.guide_width > 0 && p.guide_height > 0,
        o.0 < p.low_width * p.factor && o.1 < p.low_height * p.factor,
        q.0 < p.low_width && q.1 < p.low_height,
        centre_falls_in(o.0, (p.low_width * p.factor) as nat, at.0, p.guide_width as nat),
        centre_falls_in(o.1, (p.low_height * p.factor) as nat, at.1, p.guide_height as nat),
        centre_falls_in(q.0, p.low_width as nat, there.0, p.guide_width as nat),
        centre_falls_in(q.1, p.low_height as nat, there.1, p.guide_height as nat),
    ensures
        0 <= colors_differ_by(rgb, p.guide_width, at, there) <= 195075,
        is_color_exponent(
            tap_at(low, rgb, p, o.0, o.1, q.0, q.1).color,
            colors_differ_by(rgb, p.guide_width, at, there),
        ),
{
    law_guide_pixel_holds_the_centre(o.0, p.out_width(), p.guide_width as nat, at.0);
    law_guide_pixel_holds_the_centre(o.1, p.out_height(), p.guide_height as nat, at.1);
    law_guide_pixel_holds_the_centre(q.0, p.low_width as nat, p.guide_width as nat, there.0);
    law_guide_pixel_holds_the_centre(q.1, p.low_height as nat, p.guide_height as nat, there.1);
    let i = 3 * (at.1 * p.guide_width + at.0);
    let j = 3 * (there.1 * p.guide_width + there.0);
    lemma_square_bounds(rgb[i] - rgb[j]);
    lemma_square_bounds(rgb[i + 1] - rgb[j + 1]);
    lemma_square_bounds(rgb[i + 2] - rgb[j + 2]);
    lemma_color_exponent_of(colors_differ_by(rgb, p.guide_width, at, there) as nat);
}

/// A greater difference in colour gives a smaller exponent, strictly.
pub proof fn law_other_colours_weigh_strictly_less(e1: Double, d1: int, e2: Double, d2: int)
    requires
        is_color_exponent(e1, d1),
        is_color_exponent(e2, d2),
        0 <= d1 < d2 <= 195075,
    ensures
        e2.signed_units() < e1.signed_units(),
        d1 == 0 ==> e1.signed_units() == 0,
        d2 == 195075 ==> e2.signed_units() <= -108 * pow2(1074),
{
    let one = pow2(1074) as int;
    lemma_pow2_pos(1074);
    assert(d2 * one >= d1 * one + one) by (nonlinear_arith)
        requires
            d2 >= d1 + 1,
            one >= 0,
    ;
    assert(0 * one == 0);
    assert(d2 * one <= 195075 * one && d1 * one >= 0) by (nonlinear_arith)
        requires
            0 <= d1,
            d2 <= 195075,
            one >= 0,
    ;
}

/// Whether the sample at column `q.0` and row `q.1` is one for the output pixel at column
/// `o.0` and row `o.1`: it is a finite number, and no more than three columns and three
/// rows away from the sample that the output pixel belongs to.
pub open spec fn is_sample_for(
    low: Seq<Single>,
    p: UpsampleParams,
    o: (nat, nat),
    q: (nat, nat),
) -> bool {
    let (x, y) = ((o.0 / p.factor as nat) as int, (o.1 / p.factor as nat) as int);
    &&& q.0 < p.low_width && x - 3 <= q.0 <= x + 3
    &&& q.1 < p.low_height && y - 3 <= q.1 <= y + 3
    &&& low[(q.1 * p.low_width + q.0) as int].finite()
}

/// Whether sample `a` comes before sample `b`, row by row.
pub open spec fn comes_before(a: (nat, nat), b: (nat, nat)) -> bool {
    a.1 < b.1 || (a.1 == b.1 && a.0 < b.0)
}

/// Whether the taps are those of the samples named, in the order of the rows.
pub open spec fn taps_of(
    low: Seq<Single>,
    rgb: Seq<u8>,
    p: UpsampleParams,
    o: (nat, nat),
    taps: Seq<Tap>,
    samples: Seq<(nat, nat)>,
) -> bool {
    &&& taps.len() == samples.len()
    &&& forall|j: int|
        #![trigger samples[j]]
        0 <= j < samples.len() ==> {
            let q = samples[j];
            &&& is_sample_for(low, p, o, q)
            &&& taps[j] == tap_at(low, rgb, p, o.0, o.1, q.0, q.1)
            &&& taps[j].depth == low[(q.1 * p.low_width + q.0) as int]
        }
    &&& forall|j: int, k: int|
        #![trigger samples[j], samples[k]]
        0 <= j < k < samples.len() ==> comes_before(samples[j], samples[k])
}

proof fn lemma_row_samples(
    low: Seq<Single>,
    rgb: Seq<u8>,
    p: UpsampleParams,
    o: (nat, nat),
    qy: nat,
    to: nat,
) -> (samples: Seq<(nat, nat)>)
    requires
        p.factor >= 1,
        window_start(o.1, p.factor) <= qy < window_end(o.1, p.factor, p.low_height),
        to <= window_end(o.0, p.factor, p.low_width),
    ensures
        taps_of(
            low,
            rgb,
            p,
            o,
            row_taps(low, rgb, p, o.0, o.1, qy, window_start(o.0, p.factor), to),
            samples,
        ),
        forall|j: int|
            #![trigger samples[j]]
            0 <= j < samples.len() ==> samples[j].1 == qy && samples[j].0 < to,
        forall|q: (nat, nat)|
            #![trigger samples.contains(q)]
            is_sample_for(low, p, o, q) && q.1 == qy && q.0 < to ==> samples.contains(q),
    decreases to,
{
    let from = window_start(o.0, p.factor);
    if to <= from {
        Seq::empty()
    } else {
        let qx = (to - 1) as nat;
        let before = lemma_row_samples(low, rgb, p, o, qy, qx);
        let here = (qx, qy);
        let samples = if low[(qy * p.low_width + qx) as int].finite() {
            before.push(here)
        } else {
            before
        };
        assert forall|q: (nat, nat)|
            #![trigger samples.contains(q)]
            is_sample_for(low, p, o, q) && q.1 == qy && q.0 < to implies samples.contains(q) by {
            if q.0 < qx {
                assert(before.contains(q));
                let k = choose|k: int| 0 <= k < before.len() && before[k] == q;
                assert(samples[k] == q);
            } else {
                assert(q == here);
                assert(samples[before.len() as int] == here);
            }
        }
        samples
    }
}

proof fn lemma_window_samples(
    low: Seq<Single>,
    rgb: Seq<u8>,
    p: UpsampleParams,
    o: (nat, nat),
    to: nat,
) -> (samples: Seq<(nat, nat)>)
    requires
        p.factor >= 1,
        to <= window_end(o.1, p.factor, p.low_height),
    ensures
        taps_of(low, rgb, p, o, taps_above(low, rgb, p, o.0, o.1, to), samples),
        forall|j: int|
            #![trigger samples[j]]
            0 <= j < samples.len() ==> samples[j].1 < to,
        forall|q: (nat, nat)|
            #![trigger samples.contains(q)]
            is_sample_for(low, p, o, q) && q.1 < to ==> samples.contains(q),
    decreases to,
{
    if to <= window_start(o.1, p.factor) {
        Seq::empty()
    } else {
        let qy = (to - 1) as nat;
        let before = lemma_window_samples(low, rgb, p, o, qy);
        let row = lemma_row_samples(
            low,
            rgb,
            p,
            o,
            qy,
            window_end(o.0, p.factor, p.low_width),
        );
        let samples = before + row;
        assert forall|q: (nat, nat)|
            #![trigger samples.contains(q)]
            is_sample_for(low, p, o, q) && q.1 < to implies samples.contains(q) by {
            if q.1 < qy {
                assert(before.contains(q));
                let k = choose|k: int| 0 <= k < before.len() && before[k] == q;
                assert(samples[k] == q);
            } else {
                assert(row.contains(q));
                let k = choose|k: int| 0 <= k < row.len() && row[k] == q;
                assert(samples[before.len() + k] == q);
            }
        }
        samples
    }
}

/// The taps of an output pixel are those of the finite samples no more than three columns
/// and three rows away, row by row: one for each, and no other.
pub proof fn law_one_tap_per_sample(
    low: Seq<Single>,
    rgb: Seq<u8>,
    p: UpsampleParams,
    o: (nat, nat),
) -> (samples: Seq<(nat, nat)>)
    requires
        p.factor >= 1,
    ensures
        taps_of(low, rgb, p, o, pixel_taps(low, rgb, p, o.0, o.1), samples),
        forall|q: (nat, nat)| is_sample_for(low, p, o, q) ==> #[trigger] samples.contains(q),
{
    lemma_window_samples(low, rgb, p, o, window_end(o.1, p.factor, p.low_height))
}

/// How far output pixel `o` is from sample `q` along an axis, in halves of an output
/// pixel.
pub open spec fn halves_apart(q: nat, o: nat, factor: u32) -> int {
    (2 * q + 1) * factor - (2 * o + 1)
}

/// The bound on the error of an offset, in parts of `2^53`.
spec fn offset_error(o: nat, factor: u32) -> int {
    8 * (o + 1) + 12 * factor
}

proof fn lemma_offset_sums(
    pc: int,
    fa: int,
    fl: int,
    fd: int,
    fq: int,
    fh: int,
    fe: int,
)
    requires
        pc >= 0,
        fh >= 0,
        0 <= fe <= fh,
        fa >= 0,
        abs(fa - pc) * 0x20_0000_0000_0000 <= pc + fe,
        abs(fl - (fa - fh)) * 0x20_0000_0000_0000 <= abs(fa - fh),
        abs(fd - (fq - fl)) * 0x20_0000_0000_0000 <= abs(fq - fl),
        abs(2 * fq + 2 * fh - 2 * pc) <= 16 * fh,
    ensures
        abs(2 * fd - (2 * fq + 2 * fh - 2 * pc)) * 0x20_0000_0000_0000 <= 8 * pc + 24 * fh,
{
}

/// The offset of a sample from an output pixel, along an axis.
proof fn lemma_offset(q: nat, o: nat, factor: u32)
    requires
        factor >= 1,
        o <= u32::MAX,
        q <= u32::MAX,
        abs(halves_apart(q, o, factor)) <= 8 * factor,
    ensures
        ({
            let d = Double::spec_from_count(q).spec_sub(low_position(o, factor));
            &&& d.finite()
            &&& abs((2 * factor) * d.signed_units() - halves_apart(q, o, factor) * pow2(1074))
                * 0x20_0000_0000_0000 <= offset_error(o, factor) * pow2(1074)
        }),
{
    lemma2_to64();
    lemma2_to64_rest();
    lemma_one_units();
    let one = pow2(1074) as int;
    let half = pow2(1073) as int;
    lemma_pow2_pos(1073);
    lemma_pow2_strictly_increases(52, 1073);
    lemma_halfway_is_exact(o);
    law_counts_are_exact(factor as nat);
    law_counts_are_exact(q);
    let h = Double { bits: HALF };
    let centre = pixel_centre(o);
    let count = Double::spec_from_count(factor as nat);
    let a = centre.spec_div(count);
    let l = low_position(o, factor);
    let at = Double::spec_from_count(q);
    let d = at.spec_sub(l);
    lemma_divided_by_count(centre, factor as nat);
    lemma_low_position(o, factor);
    law_quotient_is_close(centre, count);
    law_difference_is_close(a, h);
    law_difference_is_close(at, l);
    assert(h.finite() && h.signed_units() == half);
    let (f, au, lu) = (factor as int, a.signed_units(), l.signed_units());
    let b = 0x20_0000_0000_0000int;
    let hb = 0x10_0000_0000_0000int;
    // The quotient, without the common factor.
    let pc = (2 * o + 1) * half;
    assert(au * (f * one) - pc * one == (f * au - pc) * one) by (nonlinear_arith);
    lemma_abs_product(f * au - pc, one);
    let off = abs(f * au - pc) as int;
    assert((off * one) * b == (off * b) * one) by (nonlinear_arith);
    assert(pc >= 0 && pc * one >= 0) by (nonlinear_arith)
        requires
            pc == (2 * o + 1) * half,
            o >= 0,
            half >= 0,
            one >= 0,
    ;
    assert(pc * one + (f * one) * hb == (pc + f * hb) * one) by (nonlinear_arith);
    lemma_cancel(off * b, pc + f * hb, one);
    // The two differences, times the factor.
    let (fa, fl, fq, fh) = (f * au, f * lu, f * (q * one), f * half);
    let x = halves_apart(q, o, factor);
    assert(fa >= 0 && fh >= 0 && f * hb <= fh) by (nonlinear_arith)
        requires
            fa == f * au,
            fh == f * half,
            f >= 1,
            au >= 0,
            half >= hb,
            hb >= 0,
    ;
    assert(x * one == 2 * fq + 2 * fh - 2 * pc) by (nonlinear_arith)
        requires
            x == (2 * q + 1) * f - (2 * o + 1),
            fq == f * (q * one),
            fh == f * half,
            one == 2 * half,
            pc == (2 * o + 1) * half,
    ;
    assert(abs(x * one) <= 16 * fh) by {
        lemma_abs_product(x, one);
        lemma_times(abs(x) as int, 8 * f, one);
        assert((8 * f) * one == 16 * (f * half)) by (nonlinear_arith)
            requires
                one == 2 * half,
        ;
    }
    let e2 = lu - (au - half);
    lemma_abs_product(f, e2);
    lemma_abs_product(f, au - half);
    lemma_times(abs(e2) * b, abs(au - half) as int, f);
    assert(f * e2 == fl - (fa - fh) && f * (au - half) == fa - fh) by (nonlinear_arith)
        requires
            e2 == lu - (au - half),
            fl == f * lu,
            fa == f * au,
            fh == f * half,
    ;
    assert((abs(e2) * b) * f == (f * abs(e2)) * b && abs(au - half) * f == f * abs(au - half))
        by (nonlinear_arith);
    // The last one is finite.
    let gap = q * one - lu;
    lemma_abs_product(f, gap);
    assert(f * gap == fq - fl) by (nonlinear_arith)
        requires
            gap == q * one - lu,
            fq == f * (q * one),
            fl == f * lu,
    ;
    assert(abs(fq - fl) <= 8 * pc + 24 * fh);
    assert(d.finite()) by {
        lemma_pow2_adds(38, 1074);
        lemma_pow2_adds(34, 1073);
        lemma_pow2_strictly_increases(1112, 2000);
        assert(pc <= pow2(34) * half) by (nonlinear_arith)
            requires
                pc == (2 * o + 1) * half,
                2 * o + 1 <= pow2(34),
                half >= 0,
        ;
        assert(fh <= pow2(34) * half) by (nonlinear_arith)
            requires
                fh == f * half,
                f <= pow2(34),
                half >= 0,
        ;
        assert(abs(gap) <= f * abs(gap)) by (nonlinear_arith)
            requires
                f >= 1,
                abs(gap) >= 0,
        ;
        assert(pow2(34) * half + pow2(34) * half == pow2(34) * one) by (nonlinear_arith)
            requires
                one == 2 * half,
        ;
        assert(32 * (pow2(34) * half) <= pow2(38) * one) by (nonlinear_arith)
            requires
                one == 2 * half,
                half >= 0,
                pow2(34) == 0x4_0000_0000,
                pow2(38) == 0x40_0000_0000,
        ;
    }
    let du = d.signed_units();
    let e3 = du - gap;
    lemma_abs_product(f, e3);
    lemma_times(abs(e3) * b, abs(gap) as int, f);
    let fd = f * du;
    assert(f * e3 == fd - (fq - fl)) by (nonlinear_arith)
        requires
            e3 == du - gap,
            fd == f * du,
            f * gap == fq - fl,
    ;
    assert((abs(e3) * b) * f == (f * abs(e3)) * b && abs(gap) * f == f * abs(gap))
        by (nonlinear_arith);
    lemma_offset_sums(pc, fa, fl, fd, fq, fh, f * hb);
    assert((2 * f) * du == 2 * fd) by (nonlinear_arith)
        requires
            fd == f * du,
    ;
    assert(8 * pc + 24 * fh <= offset_error(o, factor) * one) by (nonlinear_arith)
        requires
            pc == (2 * o + 1) * half,
            fh == f * half,
            one == 2 * half,
            half >= 0,
            offset_error(o, factor) == 8 * (o + 1) + 12 * f,
    ;
}

/// The square of an offset.
proof fn lemma_square(d: Double, x: int, f: int, e: int)
    requires
        d.finite(),
        1 <= f <= u32::MAX,
        abs(x) <= 8 * f,
        0 <= e <= f * 0x20_0000_0000_0000,
        abs((2 * f) * d.signed_units() - x * pow2(1074)) * 0x20_0000_0000_0000 <= e * pow2(1074),
    ensures
        ({
            let s = d.spec_mul(d);
            &&& s.finite() && !s.negative()
            &&& abs((4 * (f * f)) * s.signed_units() - (x * x) * pow2(1074)) * 0x20_0000_0000_0000
                <= (82 * (f * f) + 17 * (f * e)) * pow2(1074)
        }),
{
    lemma2_to64();
    lemma2_to64_rest();
    let one = pow2(1074) as int;
    lemma_pow2_pos(1074);
    lemma_pow2_strictly_increases(63, 1074);
    let b = 0x20_0000_0000_0000int;
    let hb = 0x10_0000_0000_0000int;
    let du = d.signed_units();
    let (a, z) = ((2 * f) * du, x * one);
    let fo = f * one;
    lemma_abs_product(x, one);
    lemma_times(abs(x) as int, 8 * f, one);
    assert((8 * f) * one == 8 * fo) by (nonlinear_arith)
        requires
            fo == f * one,
    ;
    assert(e * one <= fo * b) by (nonlinear_arith)
        requires
            e <= f * b,
            fo == f * one,
            one >= 0,
    ;
    let diff = abs(a - z) as int;
    assert(diff <= fo);
    let sum = abs(a + z) as int;
    assert(sum <= 17 * fo);
    // The difference of the squares.
    lemma_abs_product(a - z, a + z);
    assert((a - z) * (a + z) == a * a - z * z) by (nonlinear_arith);
    let ee = e * one;
    assert((diff * sum) * b <= ee * (17 * fo)) by (nonlinear_arith)
        requires
            diff * b <= ee,
            0 <= sum <= 17 * fo,
            diff >= 0,
            b >= 0,
    ;
    let fe = 17 * (f * e);
    assert(ee * (17 * fo) == fe * (one * one)) by (nonlinear_arith)
        requires
            ee == e * one,
            fo == f * one,
            fe == 17 * (f * e),
    ;
    // The rounded square.
    let s = d.spec_mul(d);
    law_product_is_close(d, d);
    lemma_abs_product(a, a);
    let ff = f * f;
    assert(abs(a) * abs(a) <= 81 * (ff * (one * one))) by (nonlinear_arith)
        requires
            0 <= abs(a) <= 9 * fo,
            fo == f * one,
            ff == f * f,
    ;
    let dd = du * du;
    assert(a * a == 4 * (ff * dd)) by (nonlinear_arith)
        requires
            a == (2 * f) * du,
            ff == f * f,
            dd == du * du,
    ;
    assert(ff >= 1 && dd >= 0 && dd <= ff * dd) by (nonlinear_arith)
        requires
            ff == f * f,
            f >= 1,
            dd == du * du,
    ;
    lemma_abs_product(du, du);
    assert(s.finite()) by {
        lemma_pow2_adds(72, 1074);
        lemma_pow2_adds(1146, 1074);
        lemma_pow2_adds(2000, 1074);
        lemma_pow2_adds(8, 64);
        lemma_pow2_strictly_increases(2220, 3074);
        assert(ff <= pow2(64)) by (nonlinear_arith)
            requires
                ff == f * f,
                0 <= f <= 0xffff_ffff,
                pow2(64) == 0x1_0000_0000_0000_0000,
        ;
        assert(81 * (ff * (one * one)) <= (pow2(72) * one) * one) by (nonlinear_arith)
            requires
                ff <= pow2(64),
                pow2(72) == 256 * pow2(64),
                one >= 0,
        ;
    }
    let su = s.signed_units();
    let off = abs(su * one - dd) as int;
    let ffs = 4 * ff;
    lemma_abs_product(ffs, su * one - dd);
    assert(ffs * (su * one - dd) == ((ffs * su) * one) - a * a) by (nonlinear_arith)
        requires
            a * a == 4 * (ff * dd),
            ffs == 4 * ff,
    ;
    lemma_times(off * b, dd + one * hb, ffs);
    assert((off * b) * ffs == (ffs * off) * b) by (nonlinear_arith);
    assert((dd + one * hb) * ffs == a * a + (ff * one) * (4 * hb)) by (nonlinear_arith)
        requires
            a * a == 4 * (ff * dd),
            ffs == 4 * ff,
    ;
    assert((ff * one) * (4 * hb) <= ff * (one * one)) by (nonlinear_arith)
        requires
            4 * hb <= one,
            ff >= 0,
            one >= 0,
    ;
    // Both together, without the common factor.
    let x2 = x * x;
    assert(z * z == (x2 * one) * one) by (nonlinear_arith)
        requires
            z == x * one,
            x2 == x * x,
    ;
    let w = ffs * su - x2 * one;
    assert(w * one == (ffs * su) * one - z * z) by (nonlinear_arith)
        requires
            z * z == (x2 * one) * one,
            w == ffs * su - x2 * one,
    ;
    lemma_abs_product(w, one);
    assert((abs(w) * one) * b == (abs(w) * b) * one) by (nonlinear_arith);
    assert(82 * (ff * (one * one)) + fe * (one * one) == ((82 * ff + fe) * one) * one)
        by (nonlinear_arith);
    lemma_cancel(abs(w) * b, (82 * ff + fe) * one, one);
}

/// The sum of two squares, turned round and divided by 4.5.
proof fn lemma_sum_of_squares(sx: Double, sy: Double, x2: int, y2: int, ff: int, ex: int, ey: int)
    requires
        sx.finite() && !sx.negative(),
        sy.finite() && !sy.negative(),
        1 <= ff,
        0 <= x2 <= 64 * ff,
        0 <= y2 <= 64 * ff,
        0 <= ex <= 17 * (ff * 0x20_0000_0000_0000),
        0 <= ey <= 17 * (ff * 0x20_0000_0000_0000),
        abs((4 * ff) * sx.signed_units() - x2 * pow2(1074)) * 0x20_0000_0000_0000 <= (82 * ff + ex)
            * pow2(1074),
        abs((4 * ff) * sy.signed_units() - y2 * pow2(1074)) * 0x20_0000_0000_0000 <= (82 * ff + ey)
            * pow2(1074),
    ensures
        ({
            let e = sx.spec_add(sy).spec_neg().spec_div(Double { bits: SPATIAL_SPREAD });
            &&& e.finite()
            &&& e.signed_units() <= 0
            &&& abs((18 * ff) * e.signed_units() + (x2 + y2) * pow2(1074)) * 0x20_0000_0000_0000
                <= (660 * ff + ex + ey) * pow2(1074)
        }),
{
    lemma2_to64();
    lemma2_to64_rest();
    lemma_color_spread();
    let one = pow2(1074) as int;
    lemma_pow2_pos(1074);
    lemma_pow2_strictly_increases(63, 1074);
    let b = 0x20_0000_0000_0000int;
    let hb = 0x10_0000_0000_0000int;
    let (xu, yu) = (sx.signed_units(), sy.signed_units());
    let fo = ff * one;
    let (gx, gy) = ((4 * ff) * xu, (4 * ff) * yu);
    let (ax, ay) = (x2 * one, y2 * one);
    let (vx, vy) = (ex * one, ey * one);
    assert((82 * ff + ex) * one == 82 * fo + vx && (82 * ff + ey) * one == 82 * fo + vy)
        by (nonlinear_arith)
        requires
            fo == ff * one,
            vx == ex * one,
            vy == ey * one,
    ;
    assert(0 <= ax <= 64 * fo && 0 <= ay <= 64 * fo && fo >= 1) by (nonlinear_arith)
        requires
            ax == x2 * one,
            ay == y2 * one,
            fo == ff * one,
            0 <= x2 <= 64 * ff,
            0 <= y2 <= 64 * ff,
            one >= 1,
            ff >= 1,
    ;
    assert(0 <= vx <= 17 * (fo * b) && 0 <= vy <= 17 * (fo * b)) by (nonlinear_arith)
        requires
            vx == ex * one,
            vy == ey * one,
            fo == ff * one,
            0 <= ex <= 17 * (ff * b),
            0 <= ey <= 17 * (ff * b),
            one >= 0,
    ;
    assert(gx <= 82 * fo && gy <= 82 * fo);
    assert(gx >= 0 && gy >= 0 && 4 * xu <= gx && 4 * yu <= gy) by (nonlinear_arith)
        requires
            gx == (4 * ff) * xu,
            gy == (4 * ff) * yu,
            ff >= 1,
            xu >= 0,
            yu >= 0,
    ;
    assert(xu <= 21 * one && yu <= 21 * one) by (nonlinear_arith)
        requires
            (4 * ff) * xu <= 82 * (ff * one),
            (4 * ff) * yu <= 82 * (ff * one),
            ff >= 1,
            one >= 1,
    ;
    // The sum.
    law_sum_is_close(sx, sy);
    let t = sx.spec_add(sy);
    lemma_pow2_adds(7, 1074);
    lemma_pow2_strictly_increases(1081, 2000);
    assert(xu + yu <= pow2(2000));
    assert(t.finite());
    let tu = t.signed_units();
    let gt = (4 * ff) * tu;
    let off = tu - (xu + yu);
    lemma_abs_product(4 * ff, off);
    assert((4 * ff) * off == gt - (gx + gy)) by (nonlinear_arith)
        requires
            off == tu - (xu + yu),
            gt == (4 * ff) * tu,
            gx == (4 * ff) * xu,
            gy == (4 * ff) * yu,
    ;
    lemma_times(abs(off) * b, xu + yu, 4 * ff);
    assert((abs(off) * b) * (4 * ff) == ((4 * ff) * abs(off)) * b && (xu + yu) * (4 * ff) == gx + gy)
        by (nonlinear_arith)
        requires
            gx == (4 * ff) * xu,
            gy == (4 * ff) * yu,
    ;
    assert(abs(gt - (gx + gy)) * b <= gx + gy);
    // The exponent.
    let spread = Double { bits: SPATIAL_SPREAD };
    let n = t.spec_neg();
    assert(n.finite() && n.signed_units() == -tu);
    let e = n.spec_div(spread);
    law_quotient_is_close(n, spread);
    assert(0 <= tu <= 84 * one);
    assert((-tu) * one == -(tu * one)) by (nonlinear_arith);
    let sp = spread.units() as int;
    assert(0 <= tu * one <= pow2(2000) * sp) by (nonlinear_arith)
        requires
            0 <= tu <= 84 * one,
            2 * sp == 9 * one,
            84 * one <= pow2(2000),
            one >= 1,
    ;
    assert(e.finite());
    let eu = e.signed_units();
    assert(2 * (eu * sp + tu * one) == (9 * eu + 2 * tu) * one) by (nonlinear_arith)
        requires
            2 * sp == 9 * one,
    ;
    lemma_abs_product(9 * eu + 2 * tu, one);
    let oe = abs(9 * eu + 2 * tu) as int;
    assert((oe * one) * b == (oe * b) * one) by (nonlinear_arith);
    assert(2 * (tu * one) + 2 * (sp * hb) == (2 * tu + 9 * hb) * one) by (nonlinear_arith)
        requires
            2 * sp == 9 * one,
    ;
    lemma_cancel(oe * b, 2 * tu + 9 * hb, one);
    let ge = (18 * ff) * eu;
    lemma_abs_product(2 * ff, 9 * eu + 2 * tu);
    assert((2 * ff) * (9 * eu + 2 * tu) == ge + gt) by (nonlinear_arith)
        requires
            ge == (18 * ff) * eu,
            gt == (4 * ff) * tu,
    ;
    lemma_times(oe * b, 2 * tu + 9 * hb, 2 * ff);
    assert((oe * b) * (2 * ff) == ((2 * ff) * oe) * b && (2 * tu + 9 * hb) * (2 * ff) == gt + (18
        * hb) * ff) by (nonlinear_arith)
        requires
            gt == (4 * ff) * tu,
    ;
    assert((18 * hb) * ff <= fo) by (nonlinear_arith)
        requires
            fo == ff * one,
            18 * hb <= one,
            ff >= 0,
    ;
    assert(abs(ge + gt) * b <= gt + fo);
    assert((x2 + y2) * one == ax + ay) by (nonlinear_arith)
        requires
            ax == x2 * one,
            ay == y2 * one,
    ;
    assert((660 * ff + ex + ey) * one == 660 * fo + vx + vy) by (nonlinear_arith)
        requires
            fo == ff * one,
            vx == ex * one,
            vy == ey * one,
    ;
    assert(e.negative());
}

/// Whether `e` is `-(x^2 + y^2) / 4.5` up to rounding, for a sample that is `x` and `y`
/// pixels of the depth map away from the output pixel `o`.
pub open spec fn is_spatial_exponent(
    e: Double,
    o: (nat, nat),
    q: (nat, nat),
    factor: u32,
) -> bool {
    let (x, y) = (halves_apart(q.0, o.0, factor), halves_apart(q.1, o.1, factor));
    let ff = factor * factor;
    &&& e.finite()
    &&& e.signed_units() <= 0
    &&& abs((18 * ff) * e.signed_units() + (x * x + y * y) * pow2(1074)) * 0x20_0000_0000_0000 <= (
    1100 * ff + 136 * (factor * (o.0 + o.1 + 2))) * pow2(1074)
}

proof fn lemma_halves_apart(q: nat, o: nat, factor: u32)
    requires
        factor >= 1,
        (o / factor as nat) - 3 <= q <= (o / factor as nat) + 3,
    ensures
        abs(halves_apart(q, o, factor)) <= 7 * factor,
{
    let f = factor as int;
    let (k, m) = (o as int / f, o as int % f);
    lemma_fundamental_div_mod(o as int, f);
    lemma_mod_pos_bound(o as int, f);
    let x = halves_apart(q, o, factor);
    assert(x == (2 * (q - k)) * f + (f - 2 * m - 1)) by (nonlinear_arith)
        requires
            x == (2 * q + 1) * f - (2 * o + 1),
            o == f * k + m,
    ;
    assert(-6 * f <= (2 * (q - k)) * f <= 6 * f) by (nonlinear_arith)
        requires
            -3 <= q - k <= 3,
            f >= 0,
    ;
}

/// The exponent that the distance gives to a sample is the square of the distance over
/// twice the square of 1.5, turned round: `-(x^2 + y^2) / 4.5`, up to rounding.
pub proof fn law_spatial_exponent(
    low: Seq<Single>,
    rgb: Seq<u8>,
    p: UpsampleParams,
    o: (nat, nat),
    q: (nat, nat),
)
    requires
        p.factor >= 1,
        o.0 <= u32::MAX && o.1 <= u32::MAX,
        is_sample_for(low, p, o, q),
    ensures
        is_spatial_exponent(tap_at(low, rgb, p, o.0, o.1, q.0, q.1).spatial, o, q, p.factor),
        ({
            let e = tap_at(low, rgb, p, o.0, o.1, q.0, q.1).spatial;
            -6 * pow2(1074) <= e.signed_units() <= 0
        }),
{
    lemma_halves_apart(q.0, o.0, p.factor);
    lemma_halves_apart(q.1, o.1, p.factor);
    lemma_offset(q.0, o.0, p.factor);
    lemma_offset(q.1, o.1, p.factor);
    let dx = Double::spec_from_count(q.0).spec_sub(low_position(o.0, p.factor));
    let dy = Double::spec_from_count(q.1).spec_sub(low_position(o.1, p.factor));
    let f = p.factor as int;
    let ff = f * f;
    let (x, y) = (halves_apart(q.0, o.0, p.factor), halves_apart(q.1, o.1, p.factor));
    let (ex, ey) = (offset_error(o.0, p.factor), offset_error(o.1, p.factor));
    lemma_square(dx, x, f, ex);
    lemma_square(dy, y, f, ey);
    assert(squared_offset(q.0, o.0, p.factor) == dx.spec_mul(dx));
    assert(squared_offset(q.1, o.1, p.factor) == dy.spec_mul(dy));
    let b = 0x20_0000_0000_0000int;
    assert(ff >= 1 && 0 <= x * x <= 49 * ff && 0 <= y * y <= 49 * ff) by (nonlinear_arith)
        requires
            ff == f * f,
            f >= 1,
            -7 * f <= x <= 7 * f,
            -7 * f <= y <= 7 * f,
    ;
    let (vx, vy) = (17 * (f * ex), 17 * (f * ey));
    assert(0 <= vx <= 17 * (ff * b) && 0 <= vy <= 17 * (ff * b)) by (nonlinear_arith)
        requires
            vx == 17 * (f * ex),
            vy == 17 * (f * ey),
            ff == f * f,
            f >= 1,
            0 <= ex <= f * b,
            0 <= ey <= f * b,
    ;
    lemma_sum_of_squares(dx.spec_mul(dx), dy.spec_mul(dy), x * x, y * y, ff, vx, vy);
    let e = tap_at(low, rgb, p, o.0, o.1, q.0, q.1).spatial;
    let one = pow2(1074) as int;
    lemma_pow2_pos(1074);
    let s = (o.0 + o.1 + 2) as int;
    let most = 1100 * ff + 136 * (f * s);
    assert(660 * ff + vx + vy <= most) by (nonlinear_arith)
        requires
            vx == 17 * (f * ex),
            vy == 17 * (f * ey),
            ex + ey == 8 * s + 24 * f,
            ff == f * f,
            most == 1100 * ff + 136 * (f * s),
            f >= 0,
    ;
    lemma_times(660 * ff + vx + vy, most, one);
    // The bound.
    let eu = e.signed_units();
    assert(most <= ff * b) by (nonlinear_arith)
        requires
            most == 1100 * ff + 136 * (f * s),
            ff == f * f,
            f >= 1,
            0 <= s <= 0x3_0000_0000,
            b == 0x20_0000_0000_0000,
    ;
    let fo = ff * one;
    assert(most * one <= fo * b && (x * x + y * y) * one <= 98 * fo && fo >= 0) by (nonlinear_arith)
        requires
            most <= ff * b,
            fo == ff * one,
            x * x + y * y <= 98 * ff,
            one >= 0,
            ff >= 0,
    ;
    assert((18 * ff) * eu >= -99 * fo);
    assert(eu >= -6 * one) by (nonlinear_arith)
        requires
            (18 * ff) * eu >= -99 * (ff * one),
            ff >= 1,
            one >= 1,
    ;
}

} // verus!
