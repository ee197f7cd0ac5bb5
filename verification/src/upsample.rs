//! Joint bilateral upsampling of a depth map, guided by the RGB image (Kopf et
//! al., "Joint Bilateral Upsampling", SIGGRAPH 2007).
//!
//! The depth of an output pixel is a blend of the measured samples near it. The
//! weight of a sample falls off with its distance and with the difference in
//! colour, so that depth edges follow colour edges. What comes out is
//! interpolated, not measured, and an output pixel without a measured sample in
//! its window has no depth at all.
//!
//! The two weights of a sample are values of the exponential function, which the
//! caller supplies: its last digits differ from one platform to the next.
use vstd::arithmetic::div_mod::{
    lemma_fundamental_div_mod, lemma_fundamental_div_mod_converse, lemma_mod_pos_bound,
};
use vstd::arithmetic::power2::{lemma_pow2_pos, pow2};
use vstd::prelude::*;

use crate::double::{
    law_counts_are_exact, lemma_centre_rounds_to_whole_part, lemma_divided_by_count,
    lemma_halfway_is_exact, lemma_minus_half, lemma_negated_quotients_in_order, lemma_rank_of_sum,
    lemma_round_zero, lemma_squares_in_order, lemma_sums_in_order, lemma_times_count,
    lemma_zero_units, Double, Single, HALF, SINGLE_NOT_A_NUMBER,
};
use crate::rounding::law_rounding_keeps_order;
use crate::unproject::pixel_centre;

verus! {

/// How far the window reaches around an output pixel, in low-resolution pixels.
pub const WINDOW_RADIUS: u32 = 3;

/// Twice the square of the spatial standard deviation, which is 1.5
/// low-resolution pixels: the bits of 4.5.
pub const SPATIAL_SPREAD: u64 = 0x4012_0000_0000_0000;

/// Twice the square of the standard deviation in colour, which is 30 on the
/// Euclidean distance of two RGB triples: the bits of 1800.
pub const COLOR_SPREAD: u64 = 0x409c_2000_0000_0000;

/// A depth map after upsampling.
pub struct UpsampledDepth {
    /// Row-major depth in metres; not a number where no sample was near.
    pub depth: Vec<Single>,
    pub width: u32,
    pub height: u32,
}

/// The sizes of the depth map and of the guide image, and how many output pixels
/// there are to a depth pixel.
#[derive(Debug, Clone, Copy, PartialEq, Eq, Structural)]
pub struct UpsampleParams {
    pub low_width: u32,
    pub low_height: u32,
    pub guide_width: u32,
    pub guide_height: u32,
    pub factor: u32,
}

impl UpsampleParams {
    pub open spec fn out_width(self) -> nat {
        (self.low_width * self.factor) as nat
    }

    pub open spec fn out_height(self) -> nat {
        (self.low_height * self.factor) as nat
    }

    /// There is a depth map with a column, an image to guide it, and an output
    /// grid that can be counted.
    pub open spec fn valid(self) -> bool {
        &&& self.factor >= 1
        &&& self.low_width >= 1
        &&& self.low_height >= 1 ==> self.guide_width >= 1 && self.guide_height >= 1
        &&& self.out_width() <= u32::MAX
        &&& self.out_height() <= u32::MAX
    }
}

/// A measured sample in the window of an output pixel.
#[derive(Debug, Clone, Copy, PartialEq, Eq, Structural)]
pub struct Tap {
    pub depth: Single,
    /// The exponent of the weight that falls off with distance.
    pub spatial: Double,
    /// The exponent of the weight that falls off with the difference in colour.
    pub color: Double,
}

/// The two weights of a sample.
#[derive(Debug, Clone, Copy, PartialEq, Eq, Structural)]
pub struct Weight {
    pub spatial: Double,
    pub color: Double,
}

/// The guide pixel that the centre of pixel `x` falls in, along an axis of `n`
/// pixels over which the guide has `guide`.
pub open spec fn guide_index(x: nat, n: nat, guide: nat) -> nat {
    ((2 * x + 1) * guide) / (2 * n)
}

/// Channel `c` of the guide at a column and a row.
pub open spec fn channel(rgb: Seq<u8>, width: u32, column: nat, row: nat, c: int) -> int {
    rgb[3 * (row * width + column) + c] as int
}

/// The square of the distance between the colours of two guide pixels.
pub open spec fn color_distance(
    rgb: Seq<u8>,
    width: u32,
    column1: nat,
    row1: nat,
    column2: nat,
    row2: nat,
) -> int {
    let dr = channel(rgb, width, column1, row1, 0) - channel(rgb, width, column2, row2, 0);
    let dg = channel(rgb, width, column1, row1, 1) - channel(rgb, width, column2, row2, 1);
    let db = channel(rgb, width, column1, row1, 2) - channel(rgb, width, column2, row2, 2);
    dr * dr + dg * dg + db * db
}

/// The square of the distance between the guide colours of an output pixel and of
/// a sample.
pub open spec fn colors_apart(
    rgb: Seq<u8>,
    p: UpsampleParams,
    ox: nat,
    oy: nat,
    qx: nat,
    qy: nat,
) -> int {
    color_distance(
        rgb,
        p.guide_width,
        guide_index(ox, p.out_width(), p.guide_width as nat),
        guide_index(oy, p.out_height(), p.guide_height as nat),
        guide_index(qx, p.low_width as nat, p.guide_width as nat),
        guide_index(qy, p.low_height as nat, p.guide_height as nat),
    )
}

/// Where the centre of output pixel `o` lies, in low-resolution pixels.
pub open spec fn low_position(o: nat, factor: u32) -> Double {
    pixel_centre(o).spec_div(Double::spec_from_count(factor as nat)).spec_sub(
        Double { bits: HALF },
    )
}

/// The square of the distance from output pixel `o` to low-resolution pixel `q`,
/// along an axis.
pub open spec fn squared_offset(q: nat, o: nat, factor: u32) -> Double {
    let d = Double::spec_from_count(q).spec_sub(low_position(o, factor));
    d.spec_mul(d)
}

/// The tap of the sample at column `qx` and row `qy`, for the output pixel at
/// column `ox` and row `oy`.
pub open spec fn tap_at(
    low: Seq<Single>,
    rgb: Seq<u8>,
    p: UpsampleParams,
    ox: nat,
    oy: nat,
    qx: nat,
    qy: nat,
) -> Tap {
    let far = squared_offset(qx, ox, p.factor).spec_add(squared_offset(qy, oy, p.factor));
    let unlike = colors_apart(rgb, p, ox, oy, qx, qy);
    Tap {
        depth: low[(qy * p.low_width + qx) as int],
        spatial: far.spec_neg().spec_div(Double { bits: SPATIAL_SPREAD }),
        color: Double::spec_from_count(unlike as nat).spec_neg().spec_div(
            Double { bits: COLOR_SPREAD },
        ),
    }
}

/// The first index of the window around output pixel `o`.
pub open spec fn window_start(o: nat, factor: u32) -> nat {
    let centre = o / factor as nat;
    if centre < WINDOW_RADIUS {
        0
    } else {
        (centre - WINDOW_RADIUS) as nat
    }
}

/// The index behind the window around output pixel `o`, along an axis of `n`
/// low-resolution pixels.
pub open spec fn window_end(o: nat, factor: u32, n: u32) -> nat {
    let end = o / factor as nat + WINDOW_RADIUS + 1;
    if end < n {
        end as nat
    } else {
        n as nat
    }
}

/// The taps of the finite samples of row `qy` in the columns from `from` on and
/// before `to`.
pub open spec fn row_taps(
    low: Seq<Single>,
    rgb: Seq<u8>,
    p: UpsampleParams,
    ox: nat,
    oy: nat,
    qy: nat,
    from: nat,
    to: nat,
) -> Seq<Tap>
    decreases to,
{
    if to <= from {
        seq![]
    } else {
        let qx = (to - 1) as nat;
        let before = row_taps(low, rgb, p, ox, oy, qy, from, qx);
        if low[(qy * p.low_width + qx) as int].finite() {
            before.push(tap_at(low, rgb, p, ox, oy, qx, qy))
        } else {
            before
        }
    }
}

/// The taps of the rows from the top of the window and before `to`.
pub open spec fn taps_above(
    low: Seq<Single>,
    rgb: Seq<u8>,
    p: UpsampleParams,
    ox: nat,
    oy: nat,
    to: nat,
) -> Seq<Tap>
    decreases to,
{
    if to <= window_start(oy, p.factor) {
        seq![]
    } else {
        let qy = (to - 1) as nat;
        taps_above(low, rgb, p, ox, oy, qy) + row_taps(
            low,
            rgb,
            p,
            ox,
            oy,
            qy,
            window_start(ox, p.factor),
            window_end(ox, p.factor, p.low_width),
        )
    }
}

/// The taps of an output pixel: its window, row by row.
pub open spec fn pixel_taps(
    low: Seq<Single>,
    rgb: Seq<u8>,
    p: UpsampleParams,
    ox: nat,
    oy: nat,
) -> Seq<Tap> {
    taps_above(low, rgb, p, ox, oy, window_end(oy, p.factor, p.low_height))
}

/// The sum of the weights of the first `n` taps, and that of their depths times
/// their weights.
pub open spec fn weighted_sums(taps: Seq<Tap>, weights: Seq<Weight>, n: nat) -> (Double, Double)
    decreases n,
{
    if n == 0 {
        (Double { bits: 0 }, Double { bits: 0 })
    } else {
        let (total, depth) = weighted_sums(taps, weights, (n - 1) as nat);
        let w = weights[n - 1].spatial.spec_mul(weights[n - 1].color);
        (total.spec_add(w), depth.spec_add(w.spec_mul(taps[n - 1].depth.spec_widen())))
    }
}

/// The weighted mean of the depths; not a number where there is no weight.
pub open spec fn blended(taps: Seq<Tap>, weights: Seq<Weight>) -> Single {
    let (total, depth) = weighted_sums(taps, weights, taps.len());
    if (Double { bits: 0 }).spec_less(total) {
        Single::spec_narrow(depth.spec_div(total))
    } else {
        Single { bits: SINGLE_NOT_A_NUMBER }
    }
}

/// `w` holds what `exp` gave for the exponents of the tap.
pub open spec fn weighs<F: Fn(Double) -> Double>(exp: F, tap: Tap, w: Weight) -> bool {
    &&& call_ensures(exp, (tap.spatial,), w.spatial)
    &&& call_ensures(exp, (tap.color,), w.color)
}

/// `r` is the blend of the taps under weights that `exp` gave.
pub open spec fn blends_to<F: Fn(Double) -> Double>(exp: F, taps: Seq<Tap>, r: Single) -> bool {
    exists|weights: Seq<Weight>|
        #![trigger blended(taps, weights)]
        {
            &&& weights.len() == taps.len()
            &&& forall|i: int| 0 <= i < taps.len() ==> weighs(exp, #[trigger] taps[i], weights[i])
            &&& r == blended(taps, weights)
        }
}

/// `depth` holds, row by row, a blend for each output pixel.
pub open spec fn upsampled_from<F: Fn(Double) -> Double>(
    exp: F,
    low: Seq<Single>,
    rgb: Seq<u8>,
    p: UpsampleParams,
    depth: Seq<Single>,
) -> bool {
    &&& depth.len() == p.out_width() * p.out_height()
    &&& forall|ox: nat, oy: nat|
        ox < p.out_width() && oy < p.out_height() ==> blends_to(
            exp,
            #[trigger] pixel_taps(low, rgb, p, ox, oy),
            depth[(oy * p.out_width() + ox) as int],
        )
}

/// Blends the depths of the taps.
pub fn blend(taps: &Vec<Tap>, weights: &Vec<Weight>) -> (r: Single)
    requires
        taps@.len() == weights@.len(),
    ensures
        r == blended(taps@, weights@),
{
    let mut total = Double { bits: 0 };
    let mut depth = Double { bits: 0 };
    let mut i: usize = 0;
    while i < taps.len()
        invariant
            i <= taps@.len(),
            taps@.len() == weights@.len(),
            (total, depth) == weighted_sums(taps@, weights@, i as nat),
        decreases taps@.len() - i,
    {
        let w = weights[i].spatial.mul(weights[i].color);
        total = total.add(w);
        depth = depth.add(w.mul(taps[i].depth.widen()));
        i = i + 1;
    }
    if (Double { bits: 0 }).less(total) {
        Single::narrow(depth.div(total))
    } else {
        Single { bits: SINGLE_NOT_A_NUMBER }
    }
}

pub(crate) proof fn lemma_guide_index(x: nat, n: nat, guide: nat)
    requires
        x < n,
        guide > 0,
    ensures
        guide_index(x, n, guide) < guide,
{
    let top = (2 * x + 1) * guide;
    let d = 2 * n;
    lemma_fundamental_div_mod(top as int, d as int);
    lemma_mod_pos_bound(top as int, d as int);
    let q = top / d;
    assert(q < guide) by (nonlinear_arith)
        requires
            top == (2 * x + 1) * guide,
            2 * x + 1 < d,
            top == d * q + top % d,
            top % d >= 0,
            guide > 0,
    ;
}

/// The guide pixel that the centre of a pixel falls in.
fn guide_pixel(x: u32, n: u32, guide: u32) -> (r: u32)
    requires
        x < n,
        guide > 0,
    ensures
        r == guide_index(x as nat, n as nat, guide as nat),
        r < guide,
{
    proof {
        lemma_guide_index(x as nat, n as nat, guide as nat);
        assert(0 <= (2 * x + 1) * guide <= 0x1_ffff_ffff * 0xffff_ffff) by (nonlinear_arith)
            requires
                0 <= x <= 0xffff_ffff,
                0 <= guide <= 0xffff_ffff,
        ;
    }
    (((2 * x as u128 + 1) * guide as u128) / (2 * n as u128)) as u32
}

/// The colour of a guide pixel.
fn guide_color(rgb: &[u8], width: u32, height: u32, column: u32, row: u32) -> (r: (u8, u8, u8))
    requires
        rgb@.len() == width * height * 3,
        column < width,
        row < height,
    ensures
        r.0 == channel(rgb@, width, column as nat, row as nat, 0),
        r.1 == channel(rgb@, width, column as nat, row as nat, 1),
        r.2 == channel(rgb@, width, column as nat, row as nat, 2),
{
    assert(rgb.len() <= usize::MAX);
    assert(0 <= row * width && row * width + column + 1 <= width * height) by (nonlinear_arith)
        requires
            0 <= column < width,
            0 <= row,
            row + 1 <= height,
    ;
    let p: usize = 3 * (row as usize * width as usize + column as usize);
    (rgb[p], rgb[p + 1], rgb[p + 2])
}

fn square_of_difference(a: u8, b: u8) -> (r: u32)
    ensures
        r == (a - b) * (a - b),
        r <= 65025,
{
    let d: u32 = if a >= b {
        (a - b) as u32
    } else {
        (b - a) as u32
    };
    assert(d * d == (a - b) * (a - b) && d * d <= 65025) by (nonlinear_arith)
        requires
            d == a - b || d == b - a,
            0 <= d <= 255,
    ;
    d * d
}

fn low_position_of(o: u32, factor: u32) -> (r: Double)
    ensures
        r == low_position(o as nat, factor),
{
    let half = Double { bits: HALF };
    Double::from_count(o).add(half).div(Double::from_count(factor)).sub(half)
}

fn squared_offset_of(q: u32, position: Double) -> (r: Double)
    ensures
        r == ({
            let d = Double::spec_from_count(q as nat).spec_sub(position);
            d.spec_mul(d)
        }),
{
    let d = Double::from_count(q).sub(position);
    d.mul(d)
}

/// The window around output pixel `o`, along an axis of `n` low-resolution
/// pixels.
fn window(o: u32, factor: u32, n: u32) -> (r: (u32, u32))
    requires
        factor >= 1,
        o < n * factor,
    ensures
        r.0 == window_start(o as nat, factor),
        r.1 == window_end(o as nat, factor, n),
        r.0 < r.1 <= n,
{
    let centre: u32 = o / factor;
    proof {
        lemma_fundamental_div_mod(o as int, factor as int);
        lemma_mod_pos_bound(o as int, factor as int);
        assert(centre < n) by (nonlinear_arith)
            requires
                o == factor * centre + o % factor,
                o % factor >= 0,
                o < n * factor,
                factor >= 1,
        ;
    }
    let start: u32 = if centre < WINDOW_RADIUS {
        0
    } else {
        centre - WINDOW_RADIUS
    };
    let end: u32 = if n - centre > WINDOW_RADIUS + 1 {
        centre + WINDOW_RADIUS + 1
    } else {
        n
    };
    (start, end)
}

/// The taps of an output pixel.
#[verifier::loop_isolation(false)]
pub fn taps(
    low_depth: &[Single],
    guide_rgb: &[u8],
    params: &UpsampleParams,
    ox: u32,
    oy: u32,
) -> (r: Vec<Tap>)
    requires
        params.valid(),
        low_depth@.len() == params.low_width * params.low_height,
        guide_rgb@.len() == params.guide_width * params.guide_height * 3,
        ox < params.out_width(),
        oy < params.out_height(),
    ensures
        r@ == pixel_taps(low_depth@, guide_rgb@, *params, ox as nat, oy as nat),
{
    let lw = params.low_width;
    let lh = params.low_height;
    let gw = params.guide_width;
    let gh = params.guide_height;
    let factor = params.factor;
    assert(low_depth.len() <= usize::MAX);
    proof {
        assert(lh >= 1) by (nonlinear_arith)
            requires
                oy < lh * factor,
                oy >= 0,
                lh >= 0,
        ;
    }
    let out_width: u32 = lw * factor;
    let out_height: u32 = lh * factor;
    let (x0, x1) = window(ox, factor, lw);
    let (y0, y1) = window(oy, factor, lh);
    let lx = low_position_of(ox, factor);
    let ly = low_position_of(oy, factor);
    let tx = guide_pixel(ox, out_width, gw);
    let ty = guide_pixel(oy, out_height, gh);
    let target = guide_color(guide_rgb, gw, gh, tx, ty);
    let mut out: Vec<Tap> = Vec::new();
    let mut qy: u32 = y0;
    while qy < y1
        invariant
            y0 <= qy <= y1,
            out@ == taps_above(
                low_depth@,
                guide_rgb@,
                *params,
                ox as nat,
                oy as nat,
                qy as nat,
            ),
        decreases y1 - qy,
    {
        let dy2 = squared_offset_of(qy, ly);
        let gy = guide_pixel(qy, lh, gh);
        let ghost above = out@;
        let mut qx: u32 = x0;
        while qx < x1
            invariant
                x0 <= qx <= x1,
                out@ == above + row_taps(
                    low_depth@,
                    guide_rgb@,
                    *params,
                    ox as nat,
                    oy as nat,
                    qy as nat,
                    x0 as nat,
                    qx as nat,
                ),
            decreases x1 - qx,
        {
            assert(0 <= qy * lw && qy * lw + qx + 1 <= lw * lh) by (nonlinear_arith)
                requires
                    0 <= qx < lw,
                    0 <= qy,
                    qy + 1 <= lh,
            ;
            let sample = low_depth[qy as usize * lw as usize + qx as usize];
            if sample.is_finite() {
                let gx = guide_pixel(qx, lw, gw);
                let color = guide_color(guide_rgb, gw, gh, gx, gy);
                let unlike: u32 = square_of_difference(target.0, color.0) + square_of_difference(
                    target.1,
                    color.1,
                ) + square_of_difference(target.2, color.2);
                let far = squared_offset_of(qx, lx).add(dy2);
                out.push(
                    Tap {
                        depth: sample,
                        spatial: far.neg().div(Double { bits: SPATIAL_SPREAD }),
                        color: Double::from_count(unlike).neg().div(Double { bits: COLOR_SPREAD }),
                    },
                );
            }
            assert(out@ =~= above + row_taps(
                low_depth@,
                guide_rgb@,
                *params,
                ox as nat,
                oy as nat,
                qy as nat,
                x0 as nat,
                qx as nat + 1,
            ));
            qx = qx + 1;
        }
        qy = qy + 1;
    }
    out
}

/// The weights that `exp` gives for the exponents of the taps.
fn weigh<F: Fn(Double) -> Double>(exp: &F, taps: &Vec<Tap>) -> (r: Vec<Weight>)
    requires
        forall|x: Double| call_requires(*exp, (x,)),
    ensures
        r@.len() == taps@.len(),
        forall|i: int| 0 <= i < taps@.len() ==> weighs(*exp, #[trigger] taps@[i], r@[i]),
{
    let mut out: Vec<Weight> = Vec::new();
    let mut i: usize = 0;
    while i < taps.len()
        invariant
            i <= taps@.len(),
            forall|x: Double| call_requires(*exp, (x,)),
            out@.len() == i,
            forall|j: int| 0 <= j < i ==> weighs(*exp, #[trigger] taps@[j], out@[j]),
        decreases taps@.len() - i,
    {
        let spatial = exp(taps[i].spatial);
        let color = exp(taps[i].color);
        out.push(Weight { spatial, color });
        i = i + 1;
    }
    out
}

/// One row of the upsampled depth map.
pub fn upsample_row<F: Fn(Double) -> Double>(
    low_depth: &[Single],
    guide_rgb: &[u8],
    params: &UpsampleParams,
    oy: u32,
    exp: &F,
) -> (r: Vec<Single>)
    requires
        params.valid(),
        low_depth@.len() == params.low_width * params.low_height,
        guide_rgb@.len() == params.guide_width * params.guide_height * 3,
        oy < params.out_height(),
        forall|x: Double| call_requires(*exp, (x,)),
    ensures
        r@.len() == params.out_width(),
        forall|ox: int|
            0 <= ox < params.out_width() ==> blends_to(
                *exp,
                pixel_taps(low_depth@, guide_rgb@, *params, ox as nat, oy as nat),
                #[trigger] r@[ox],
            ),
{
    let width: u32 = params.low_width * params.factor;
    let mut out: Vec<Single> = Vec::new();
    let mut ox: u32 = 0;
    while ox < width
        invariant
            ox <= width,
            width == params.out_width(),
            params.valid(),
            low_depth@.len() == params.low_width * params.low_height,
            guide_rgb@.len() == params.guide_width * params.guide_height * 3,
            oy < params.out_height(),
            forall|x: Double| call_requires(*exp, (x,)),
            out@.len() == ox,
            forall|j: int|
                0 <= j < ox ==> blends_to(
                    *exp,
                    pixel_taps(low_depth@, guide_rgb@, *params, j as nat, oy as nat),
                    #[trigger] out@[j],
                ),
        decreases width - ox,
    {
        let near = taps(low_depth, guide_rgb, params, ox, oy);
        let weights = weigh(exp, &near);
        let depth = blend(&near, &weights);
        assert(blends_to(*exp, near@, depth)) by {
            assert(depth == blended(near@, weights@));
        }
        out.push(depth);
        ox = ox + 1;
    }
    out
}

/// Upsamples `low_depth` to a grid of `low_w * factor` by `low_h * factor`, with
/// `guide_rgb` (row-major RGB8) as an edge guide and `exp` as the exponential
/// function.
///
/// `low_depth` is row-major and in metres; what is not finite in it is no sample.
#[must_use]
pub fn joint_bilateral_upsample<F: Fn(Double) -> Double>(
    low_depth: &[Single],
    low_w: u32,
    low_h: u32,
    guide_rgb: &[u8],
    guide_w: u32,
    guide_h: u32,
    factor: u32,
    exp: &F,
) -> (r: UpsampledDepth)
    requires
        (UpsampleParams {
            low_width: low_w,
            low_height: low_h,
            guide_width: guide_w,
            guide_height: guide_h,
            factor,
        }).valid(),
        low_depth@.len() == low_w * low_h,
        guide_rgb@.len() == guide_w * guide_h * 3,
        forall|x: Double| call_requires(*exp, (x,)),
    ensures
        r.width == low_w * factor,
        r.height == low_h * factor,
        upsampled_from(
            *exp,
            low_depth@,
            guide_rgb@,
            UpsampleParams {
                low_width: low_w,
                low_height: low_h,
                guide_width: guide_w,
                guide_height: guide_h,
                factor,
            },
            r.depth@,
        ),
{
    let params = UpsampleParams {
        low_width: low_w,
        low_height: low_h,
        guide_width: guide_w,
        guide_height: guide_h,
        factor,
    };
    let width: u32 = low_w * factor;
    let height: u32 = low_h * factor;
    let mut depth: Vec<Single> = Vec::new();
    let mut oy: u32 = 0;
    assert(0 * width == 0);
    while oy < height
        invariant
            oy <= height,
            width == params.out_width(),
            height == params.out_height(),
            params.valid(),
            low_depth@.len() == params.low_width * params.low_height,
            guide_rgb@.len() == params.guide_width * params.guide_height * 3,
            forall|x: Double| call_requires(*exp, (x,)),
            depth@.len() == oy * width,
            forall|i: nat, j: nat|
                i < width && j < oy ==> blends_to(
                    *exp,
                    #[trigger] pixel_taps(low_depth@, guide_rgb@, params, i, j),
                    depth@[(j * width + i) as int],
                ),
        decreases height - oy,
    {
        let mut row = upsample_row(low_depth, guide_rgb, &params, oy, exp);
        let ghost before = depth@;
        let ghost fresh = row@;
        depth.append(&mut row);
        proof {
            assert((oy + 1) * width == oy * width + width) by (nonlinear_arith);
            assert forall|i: nat, j: nat| i < width && j < oy + 1 implies blends_to(
                *exp,
                #[trigger] pixel_taps(low_depth@, guide_rgb@, params, i, j),
                depth@[(j * width + i) as int],
            ) by {
                if j < oy {
                    assert(j * width + i < oy * width) by (nonlinear_arith)
                        requires
                            i < width,
                            j + 1 <= oy,
                    ;
                    assert(j * width + i >= 0) by (nonlinear_arith)
                        requires
                            i >= 0,
                            j >= 0,
                            width >= 0,
                    ;
                    assert(depth@[(j * width + i) as int] == before[(j * width + i) as int]);
                } else {
                    assert(depth@[(j * width + i) as int] == fresh[i as int]);
                }
            }
        }
        oy = oy + 1;
    }
    assert(height * width == width * height) by (nonlinear_arith);
    UpsampledDepth { depth, width, height }
}

/// Whether the sample at column `qx` and row `qy` is in the window of the output
/// pixel at column `ox` and row `oy`.
pub open spec fn in_window(p: UpsampleParams, ox: nat, oy: nat, qx: nat, qy: nat) -> bool {
    &&& window_start(ox, p.factor) <= qx < window_end(ox, p.factor, p.low_width)
    &&& window_start(oy, p.factor) <= qy < window_end(oy, p.factor, p.low_height)
}

/// The window is the low-resolution pixel that the output pixel lies in, with
/// those up to three columns and three rows away.
pub proof fn law_window_is_seven_by_seven(p: UpsampleParams, ox: nat, oy: nat, qx: nat, qy: nat)
    requires
        p.factor >= 1,
    ensures
        in_window(p, ox, oy, qx, qy) == ({
            &&& qx < p.low_width
            &&& qy < p.low_height
            &&& ox / p.factor as nat - 3 <= qx <= ox / p.factor as nat + 3
            &&& oy / p.factor as nat - 3 <= qy <= oy / p.factor as nat + 3
        }),
{
}

proof fn lemma_row_without_samples(
    low: Seq<Single>,
    rgb: Seq<u8>,
    p: UpsampleParams,
    ox: nat,
    oy: nat,
    qy: nat,
    from: nat,
    to: nat,
)
    requires
        forall|qx: nat|
            from <= qx < to ==> !low[#[trigger] (qy * p.low_width + qx) as int].finite(),
    ensures
        row_taps(low, rgb, p, ox, oy, qy, from, to) == Seq::<Tap>::empty(),
    decreases to,
{
    if to > from {
        let qx = (to - 1) as nat;
        assert(!low[(qy * p.low_width + qx) as int].finite());
        lemma_row_without_samples(low, rgb, p, ox, oy, qy, from, qx);
    }
}

proof fn lemma_rows_without_samples(
    low: Seq<Single>,
    rgb: Seq<u8>,
    p: UpsampleParams,
    ox: nat,
    oy: nat,
    to: nat,
)
    requires
        to <= window_end(oy, p.factor, p.low_height),
        forall|qx: nat, qy: nat|
            in_window(p, ox, oy, qx, qy) ==> !low[#[trigger] (qy * p.low_width
                + qx) as int].finite(),
    ensures
        taps_above(low, rgb, p, ox, oy, to) == Seq::<Tap>::empty(),
    decreases to,
{
    if to > window_start(oy, p.factor) {
        let qy = (to - 1) as nat;
        lemma_rows_without_samples(low, rgb, p, ox, oy, qy);
        let from = window_start(ox, p.factor);
        let end = window_end(ox, p.factor, p.low_width);
        assert forall|qx: nat| from <= qx < end implies !low[#[trigger] (qy * p.low_width
            + qx) as int].finite() by {
            assert(in_window(p, ox, oy, qx, qy));
        }
        lemma_row_without_samples(low, rgb, p, ox, oy, qy, from, end);
        assert(taps_above(low, rgb, p, ox, oy, to) =~= Seq::<Tap>::empty());
    }
}

/// An output pixel without a finite sample in its window gets no depth, whatever
/// the exponential function: depth is not invented.
pub proof fn law_no_sample_no_depth<F: Fn(Double) -> Double>(
    exp: F,
    low: Seq<Single>,
    rgb: Seq<u8>,
    p: UpsampleParams,
    ox: nat,
    oy: nat,
    r: Single,
)
    requires
        forall|qx: nat, qy: nat|
            in_window(p, ox, oy, qx, qy) ==> !low[#[trigger] (qy * p.low_width
                + qx) as int].finite(),
        blends_to(exp, pixel_taps(low, rgb, p, ox, oy), r),
    ensures
        r.nan(),
{
    lemma_rows_without_samples(low, rgb, p, ox, oy, window_end(oy, p.factor, p.low_height));
    let taps = pixel_taps(low, rgb, p, ox, oy);
    let weights = choose|weights: Seq<Weight>|
        #![trigger blended(taps, weights)]
        {
            &&& weights.len() == taps.len()
            &&& forall|i: int| 0 <= i < taps.len() ==> weighs(exp, #[trigger] taps[i], weights[i])
            &&& r == blended(taps, weights)
        };
    assert(r == blended(taps, weights));
    assert(weighted_sums(taps, weights, 0) == (Double { bits: 0 }, Double { bits: 0 }));
}

/// No guide pixel has its centre nearer to the centre of a pixel than the one
/// that it is matched with.
pub proof fn law_guide_pixel_is_nearest(x: nat, n: nat, guide: nat, other: nat)
    requires
        x < n,
        guide > 0,
        other < guide,
    ensures
        guide_index(x, n, guide) < guide,
        ({
            let centre = (2 * x + 1) * guide;
            let here = (2 * guide_index(x, n, guide) + 1) * n - centre;
            let there = (2 * other + 1) * n - centre;
            -there <= here <= there || there <= here <= -there
        }),
{
    lemma_guide_index(x, n, guide);
    let centre = (2 * x + 1) * guide;
    let d = 2 * n;
    lemma_fundamental_div_mod(centre as int, d as int);
    lemma_mod_pos_bound(centre as int, d as int);
    let q = guide_index(x, n, guide);
    let r = centre % d;
    let here = (2 * q + 1) * n - centre;
    let there = (2 * other + 1) * n - centre;
    assert(here == n - r) by (nonlinear_arith)
        requires
            here == (2 * q + 1) * n - centre,
            centre == d * q + r,
            d == 2 * n,
    ;
    assert(there == here + d * (other - q)) by (nonlinear_arith)
        requires
            here == (2 * q + 1) * n - centre,
            there == (2 * other + 1) * n - centre,
            d == 2 * n,
    ;
    if other > q {
        assert(d * (other - q) >= d) by (nonlinear_arith)
            requires
                other - q >= 1,
                d >= 0,
        ;
    } else if other < q {
        assert(d * (other - q) <= -d) by (nonlinear_arith)
            requires
                other - q <= -1,
                d >= 0,
        ;
    }
}

/// A guide of the same size is matched pixel by pixel.
pub proof fn law_guide_of_same_size(x: nat, n: nat)
    requires
        x < n,
    ensures
        guide_index(x, n, n) == x,
{
    let top = (2 * x + 1) * n;
    assert(top == x * (2 * n) + n) by (nonlinear_arith)
        requires
            top == (2 * x + 1) * n,
    ;
    lemma_fundamental_div_mod_converse(top as int, 2 * n as int, x as int, n as int);
}

/// The more the colours differ, the less a sample weighs: the exponent of its
/// weight does not rise.
pub proof fn law_unlike_colours_weigh_less(
    low: Seq<Single>,
    rgb: Seq<u8>,
    p: UpsampleParams,
    ox: nat,
    oy: nat,
    qx1: nat,
    qy1: nat,
    qx2: nat,
    qy2: nat,
)
    requires
        colors_apart(rgb, p, ox, oy, qx1, qy1) <= colors_apart(rgb, p, ox, oy, qx2, qy2),
    ensures
        ({
            let like = tap_at(low, rgb, p, ox, oy, qx1, qy1).color;
            let unlike = tap_at(low, rgb, p, ox, oy, qx2, qy2).color;
            !like.nan() && !unlike.nan() && !like.spec_less(unlike)
        }),
{
    let u1 = colors_apart(rgb, p, ox, oy, qx1, qy1);
    let u2 = colors_apart(rgb, p, ox, oy, qx2, qy2);
    lemma_colors_apart(rgb, p, ox, oy, qx1, qy1);
    lemma_colors_apart(rgb, p, ox, oy, qx2, qy2);
    law_counts_are_exact(u1 as nat);
    law_counts_are_exact(u2 as nat);
    let one = pow2(1074);
    assert(u1 * one <= u2 * one) by (nonlinear_arith)
        requires
            u1 <= u2,
            one >= 0,
    ;
    law_rounding_keeps_order(53, (u1 as nat) * one, (u2 as nat) * one, 1);
    lemma_negated_quotients_in_order(
        Double::spec_from_count(u1 as nat),
        Double::spec_from_count(u2 as nat),
        Double { bits: COLOR_SPREAD },
    );
}

proof fn lemma_square_bound(a: u8, b: u8)
    ensures
        0 <= (a - b) * (a - b) <= 65025,
{
    let d = a - b;
    assert(0 <= d * d <= 65025) by (nonlinear_arith)
        requires
            -255 <= d <= 255,
    ;
}

pub(crate) proof fn lemma_colors_apart(
    rgb: Seq<u8>,
    p: UpsampleParams,
    ox: nat,
    oy: nat,
    qx: nat,
    qy: nat,
)
    ensures
        0 <= colors_apart(rgb, p, ox, oy, qx, qy) <= 3 * 65025,
{
    let w = p.guide_width;
    let t = 3 * (guide_index(oy, p.out_height(), p.guide_height as nat) * w + guide_index(
        ox,
        p.out_width(),
        w as nat,
    ));
    let s = 3 * (guide_index(qy, p.low_height as nat, p.guide_height as nat) * w + guide_index(
        qx,
        p.low_width as nat,
        w as nat,
    ));
    lemma_square_bound(rgb[t + 0], rgb[s + 0]);
    lemma_square_bound(rgb[t + 1], rgb[s + 1]);
    lemma_square_bound(rgb[t + 2], rgb[s + 2]);
}

/// How far output pixel `o` lies from low-resolution pixel `q` along an axis, in
/// units of `2^-1074`.
pub open spec fn gap(q: nat, o: nat, factor: u32) -> nat {
    let d = q * pow2(1074) - low_position(o, factor).signed_units();
    if d < 0 {
        (-d) as nat
    } else {
        d as nat
    }
}

pub(crate) proof fn lemma_low_position(o: nat, factor: u32)
    requires
        o <= u32::MAX,
        factor >= 1,
    ensures
        low_position(o, factor).finite(),
{
    lemma_halfway_is_exact(o);
    lemma_divided_by_count(pixel_centre(o), factor as nat);
    lemma_minus_half(pixel_centre(o).spec_div(Double::spec_from_count(factor as nat)));
}

proof fn lemma_squared_offset(q1: nat, q2: nat, o: nat, factor: u32)
    requires
        o <= u32::MAX,
        q1 <= u32::MAX,
        q2 <= u32::MAX,
        factor >= 1,
        gap(q1, o, factor) <= gap(q2, o, factor),
    ensures
        !squared_offset(q2, o, factor).nan(),
        !squared_offset(q1, o, factor).negative(),
        !squared_offset(q2, o, factor).negative(),
        squared_offset(q1, o, factor).magnitude() <= squared_offset(q2, o, factor).magnitude(),
{
    let at = low_position(o, factor);
    lemma_low_position(o, factor);
    let other = at.spec_neg();
    assert(other.finite() && other.signed_units() == -at.signed_units());
    law_counts_are_exact(q1);
    law_counts_are_exact(q2);
    let d1 = Double::spec_from_count(q1).spec_sub(at);
    let d2 = Double::spec_from_count(q2).spec_sub(at);
    lemma_rank_of_sum(Double::spec_from_count(q1), other);
    lemma_rank_of_sum(Double::spec_from_count(q2), other);
    law_rounding_keeps_order(53, gap(q1, o, factor), gap(q2, o, factor), 1);
    lemma_squares_in_order(d1, d2);
}

/// The farther a sample is from an output pixel, the less it weighs: the exponent
/// of its weight does not rise.
pub proof fn law_far_samples_weigh_less(
    low: Seq<Single>,
    rgb: Seq<u8>,
    p: UpsampleParams,
    ox: nat,
    oy: nat,
    qx1: nat,
    qy1: nat,
    qx2: nat,
    qy2: nat,
)
    requires
        p.valid(),
        ox < p.out_width() && oy < p.out_height(),
        qx1 < p.low_width && qy1 < p.low_height,
        qx2 < p.low_width && qy2 < p.low_height,
        gap(qx1, ox, p.factor) <= gap(qx2, ox, p.factor),
        gap(qy1, oy, p.factor) <= gap(qy2, oy, p.factor),
    ensures
        ({
            let near = tap_at(low, rgb, p, ox, oy, qx1, qy1).spatial;
            let far = tap_at(low, rgb, p, ox, oy, qx2, qy2).spatial;
            !near.nan() && !far.nan() && !near.spec_less(far)
        }),
{
    lemma_squared_offset(qx1, qx2, ox, p.factor);
    lemma_squared_offset(qy1, qy2, oy, p.factor);
    let x1 = squared_offset(qx1, ox, p.factor);
    let x2 = squared_offset(qx2, ox, p.factor);
    let y1 = squared_offset(qy1, oy, p.factor);
    let y2 = squared_offset(qy2, oy, p.factor);
    lemma_sums_in_order(x1, x2, y1, y2);
    lemma_negated_quotients_in_order(
        x1.spec_add(y1),
        x2.spec_add(y2),
        Double { bits: SPATIAL_SPREAD },
    );
}

/// The window is centred on the low-resolution pixel nearest to where the output
/// pixel lies.
pub proof fn law_window_is_centred(o: nat, factor: u32)
    requires
        o <= u32::MAX,
        factor >= 1,
    ensures
        low_position(o, factor).spec_round() == o / factor as nat,
{
    let f = factor as nat;
    let k = o / f;
    lemma_fundamental_div_mod(o as int, f as int);
    lemma_mod_pos_bound(o as int, f as int);
    let a = 2 * o + 1;
    let m = o % f;
    let rest = (2 * m + 1) as int;
    assert(a == k * (2 * f) + rest) by (nonlinear_arith)
        requires
            a == 2 * o + 1,
            o == f * k + m,
            rest == 2 * m + 1,
    ;
    lemma_fundamental_div_mod_converse(a as int, 2 * f as int, k as int, rest);
    assert((k + 1) * (4 * f) <= 4 * o + 4 * f) by (nonlinear_arith)
        requires
            o == f * k + m,
            m >= 0,
    ;
    lemma_halfway_is_exact(o);
    lemma_centre_rounds_to_whole_part(pixel_centre(o), a, f);
}

/// The guide pixel of a pixel comes out of double precision as well: it is the
/// integer nearest to where the centre falls, less a half.
pub proof fn law_guide_pixel_in_doubles(x: nat, n: nat, guide: nat)
    requires
        x < n,
        guide >= 1,
        (4 * n) * guide < 0x20_0000_0000_0000,
    ensures
        ({
            let across = pixel_centre(x).spec_mul(Double::spec_from_count(guide));
            let at = across.spec_div(Double::spec_from_count(n)).spec_sub(Double { bits: HALF });
            at.finite() && at.spec_round() == guide_index(x, n, guide)
        }),
{
    lemma_guide_index(x, n, guide);
    let k = guide_index(x, n, guide);
    let a = (2 * x + 1) * guide;
    assert(n < 0x20_0000_0000_0000 && guide < 0x20_0000_0000_0000 && a < 0x20_0000_0000_0000
        && a >= 1) by (nonlinear_arith)
        requires
            (4 * n) * guide < 0x20_0000_0000_0000,
            a == (2 * x + 1) * guide,
            x < n,
            x >= 0,
            guide >= 1,
    ;
    assert((k + 1) * (4 * n) <= (4 * n) * guide) by (nonlinear_arith)
        requires
            k + 1 <= guide,
            n >= 0,
    ;
    assert(2 * x + 1 < 0x20_0000_0000_0000) by (nonlinear_arith)
        requires
            a == (2 * x + 1) * guide,
            a < 0x20_0000_0000_0000,
            guide >= 1,
            x >= 0,
    ;
    lemma_halfway_is_exact(x);
    lemma_times_count(pixel_centre(x), 2 * x + 1, guide);
    lemma_centre_rounds_to_whole_part(
        pixel_centre(x).spec_mul(Double::spec_from_count(guide)),
        a,
        n,
    );
}

/// An upsampled depth map has so many times the columns and the rows, and each of its pixels,
/// in its place row by row, is a blend of the taps of that pixel.
pub proof fn law_pixels_are_in_their_places<F: Fn(Double) -> Double>(
    exp: F,
    low: Seq<Single>,
    rgb: Seq<u8>,
    p: UpsampleParams,
    depth: Seq<Single>,
    ox: nat,
    oy: nat,
)
    requires
        upsampled_from(exp, low, rgb, p, depth),
        ox < p.low_width * p.factor,
        oy < p.low_height * p.factor,
    ensures
        depth.len() == (p.low_width * p.factor) * (p.low_height * p.factor),
        blends_to(
            exp,
            pixel_taps(low, rgb, p, ox, oy),
            depth[(oy * (p.low_width * p.factor) + ox) as int],
        ),
{
    let _ = pixel_taps(low, rgb, p, ox, oy);
}

/// Without any weight there is no depth: where the sum of the weights is not above zero, the
/// blend is not a number.
pub proof fn law_no_weight_no_depth(taps: Seq<Tap>, weights: Seq<Weight>)
    requires
        weights.len() == taps.len(),
        forall|i: int|
            0 <= i < weights.len() ==> (#[trigger] weights[i]).spatial.bits == 0
                && weights[i].color.bits == 0,
    ensures
        blended(taps, weights).nan(),
{
    lemma_no_weight(taps, weights, taps.len());
}

proof fn lemma_no_weight(taps: Seq<Tap>, weights: Seq<Weight>, n: nat)
    requires
        n <= weights.len(),
        forall|i: int|
            0 <= i < weights.len() ==> (#[trigger] weights[i]).spatial.bits == 0
                && weights[i].color.bits == 0,
    ensures
        weighted_sums(taps, weights, n).0 == (Double { bits: 0 }),
    decreases n,
{
    if n > 0 {
        lemma_no_weight(taps, weights, (n - 1) as nat);
        assert(weights[n - 1].spatial.bits == 0);
        lemma_zero_units(0);
        lemma_pow2_pos(1074);
        assert((0nat * 0nat) == 0);
        lemma_round_zero(pow2(1074));
    }
}

} // verus!
