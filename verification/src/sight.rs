//! What a point of a cloud has to do with the pixel that it was seen at: it lies on
//! the line of sight of the pixel, at the depth that was measured there, and has the
//! colour of the image at the centre of the pixel.
use vstd::arithmetic::div_mod::{
    lemma_fundamental_div_mod, lemma_fundamental_div_mod_converse, lemma_mod_pos_bound,
};
use vstd::arithmetic::power2::{
    lemma2_to64, lemma2_to64_rest, lemma_pow2_adds, lemma_pow2_pos, lemma_pow2_strictly_increases,
    lemma_pow2_unfold, pow2,
};
use vstd::math::abs;
use vstd::prelude::*;

use crate::accuracy::{
    law_difference_is_close, law_doubling_is_exact, law_half_of_count_is_exact,
    law_product_is_close, law_quotient_is_close, lemma_abs_product,
};
use crate::blending::lemma_depth;
use crate::convert::{centred, half_angle, RADIANS_PER_DEGREE};
use crate::decode::{Confidence, Intrinsics};
use crate::double::{
    law_counts_are_exact, law_widening_loses_nothing, lemma_cancel, lemma_half,
    lemma_halfway_is_exact, lemma_round_zero, lemma_times, lemma_twice, lemma_two_units,
    lemma_zero_units, Double, Single, HALF_OF_LARGEST, TWO,
};
use crate::rounding::{law_rounding_keeps_order, law_rounding_keeps_values, lemma_round_scales};
use crate::unproject::{
    coordinate, kept, kept_count, law_points_in_scan_order, pixel_centre, points, rgb_index,
    ColoredPoint, UnprojectParams,
};

verus! {

/// Whether the coordinate `x` at depth `z` is seen at the position `at` of the image,
/// in units, along an axis with focal length `f` and principal point `c`: `x * f` is
/// `(at - c) * z`, up to the rounding of three operations.
pub open spec fn is_seen_at(x: Double, at: nat, c: Double, f: Double, z: Double) -> bool {
    let sight = (at - c.signed_units()) * z.signed_units();
    let seen = x.signed_units() * f.signed_units();
    abs(seen - sight) * 0x20_0000_0000_0000 <= 4 * abs(sight) + (f.units() + pow2(1074))
        * 0x20_0000_0000_0000
}

proof fn lemma_three_roundings(
    p: int,
    q: int,
    r: int,
    x: int,
    f: int,
    one: int,
)
    requires
        f >= 0,
        one >= 0,
        abs(q - p) * 0x20_0000_0000_0000 <= abs(p),
        abs(r - q) * 0x20_0000_0000_0000 <= abs(q) + one * 0x10_0000_0000_0000,
        abs(x - r) * 0x20_0000_0000_0000 <= abs(r) + f * 0x10_0000_0000_0000,
    ensures
        abs(x - p) * 0x20_0000_0000_0000 <= 4 * abs(p) + (f + one) * 0x20_0000_0000_0000,
{
}

proof fn lemma_line_of_sight(i: nat, c: Double, f: Double, z: Double)
    requires
        2 * i + 1 < 0x20_0000_0000_0000,
        c.finite(),
        f.finite() && !f.zero(),
        z.finite(),
        coordinate(i, c, f, z).finite(),
    ensures
        is_seen_at(coordinate(i, c, f, z), (2 * i + 1) * pow2(1073), c, f, z),
{
    lemma_halfway_is_exact(i);
    let centre = pixel_centre(i);
    let offset = centre.spec_sub(c);
    let product = offset.spec_mul(z);
    let x = product.spec_div(f);
    assert(product.finite());
    assert(offset.finite());
    law_difference_is_close(centre, c);
    law_product_is_close(offset, z);
    law_quotient_is_close(product, f);
    let exact = (2 * i + 1) * pow2(1073) - c.signed_units();
    let (a, zu) = (offset.signed_units(), z.signed_units());
    let b = 0x20_0000_0000_0000int;
    lemma_abs_product(exact, zu);
    lemma_abs_product(a - exact, zu);
    assert((a - exact) * zu == a * zu - exact * zu) by (nonlinear_arith);
    lemma_times(abs(a - exact) * b, abs(exact) as int, abs(zu) as int);
    assert((abs(a - exact) * b) * abs(zu) == (abs(a - exact) * abs(zu)) * b) by (nonlinear_arith);
    lemma_three_roundings(
        exact * zu,
        a * zu,
        product.signed_units() * pow2(1074),
        x.signed_units() * f.signed_units(),
        f.units() as int,
        pow2(1074) as int,
    );
}

/// Whether a scaled entry `e` of a camera matrix is to `k` as the size `to` is to the
/// size `from`, up to the rounding of two operations.
pub open spec fn in_proportion(k: Double, e: Double, from: u32, to: u32) -> bool {
    let (x, y) = (to * k.signed_units(), from * e.signed_units());
    abs(y - x) * 0x20_0000_0000_0000 <= 4 * abs(x) + from * 0x20_0000_0000_0000
}

/// The ratio of two counts.
proof fn lemma_ratio(from: u32, to: u32)
    requires
        from > 0,
    ensures
        ({
            let s = Double::spec_from_count(to as nat).spec_div(
                Double::spec_from_count(from as nat),
            );
            let (x, y) = (to * pow2(1074), from * s.units());
            &&& s.finite() && !s.negative()
            &&& abs(y - x) * 0x20_0000_0000_0000 <= 2 * x
            &&& s.units() <= pow2(1108)
        }),
{
    lemma2_to64();
    lemma2_to64_rest();
    let (a, c) = (Double::spec_from_count(from as nat), Double::spec_from_count(to as nat));
    law_counts_are_exact(from as nat);
    law_counts_are_exact(to as nat);
    let one = pow2(1074) as int;
    lemma_pow2_pos(1074);
    law_quotient_is_close(c, a);
    let s = c.spec_div(a);
    lemma_pow2_adds(32, 1074);
    lemma_pow2_strictly_increases(1106, 2000);
    let (t, f) = (to as int, from as int);
    assert(0 <= (t * one) * one <= pow2(2000) * (f * one)) by (nonlinear_arith)
        requires
            0 <= t <= pow2(32),
            pow2(32) * one == pow2(1106),
            pow2(1106) <= pow2(2000),
            f >= 1,
            one >= 1,
    ;
    let su = s.units() as int;
    let b = 0x20_0000_0000_0000int;
    let (x, y) = (t * one, f * su);
    assert(su * (f * one) - (t * one) * one == (y - x) * one) by (nonlinear_arith)
        requires
            x == t * one,
            y == f * su,
    ;
    lemma_abs_product(y - x, one);
    assert((abs(y - x) * one) * b == (abs(y - x) * b) * one) by (nonlinear_arith);
    assert((t * one) * one + (f * one) * 0x10_0000_0000_0000 == (x + f * 0x10_0000_0000_0000) * one)
        by (nonlinear_arith)
        requires
            x == t * one,
    ;
    assert(x >= 0) by (nonlinear_arith)
        requires
            x == t * one,
            t >= 0,
            one >= 0,
    ;
    lemma_cancel(abs(y - x) * b, x + f * 0x10_0000_0000_0000, one);
    lemma_pow2_adds(52, 32);
    lemma_pow2_strictly_increases(84, 1074);
    if t == 0 {
        assert(s.units() == 0) by {
            assert((0 * one) * one == 0) by (nonlinear_arith);
            lemma_round_zero(a.units());
        }
        assert(f * 0 == 0);
    } else {
        assert(x >= one) by (nonlinear_arith)
            requires
                x == t * one,
                t >= 1,
                one >= 0,
        ;
        assert(f * 0x10_0000_0000_0000 <= pow2(84));
    }
    lemma_pow2_unfold(1107);
    lemma_pow2_unfold(1108);
    assert(x <= pow2(1106)) by (nonlinear_arith)
        requires
            x == t * one,
            0 <= t <= pow2(32),
            pow2(32) * one == pow2(1106),
            one >= 0,
    ;
    lemma_pow2_strictly_increases(32, 1106);
    assert(y <= 2 * x + f);
    assert(su <= y) by (nonlinear_arith)
        requires
            y == f * su,
            f >= 1,
            su >= 0,
    ;
}

proof fn lemma_scaled_entry(k: Double, from: u32, to: u32)
    requires
        from > 0,
        k.finite(),
    ensures
        ({
            let s = Double::spec_from_count(to as nat).spec_div(
                Double::spec_from_count(from as nat),
            );
            let e = k.spec_mul(s);
            &&& e.finite() ==> in_proportion(k, e, from, to)
            &&& k.units() <= pow2(1900) ==> e.finite()
        }),
{
    lemma2_to64();
    lemma2_to64_rest();
    let s = Double::spec_from_count(to as nat).spec_div(Double::spec_from_count(from as nat));
    let e = k.spec_mul(s);
    lemma_ratio(from, to);
    law_product_is_close(k, s);
    let one = pow2(1074) as int;
    lemma_pow2_pos(1074);
    let (ku, su, eu) = (k.signed_units(), s.signed_units(), e.signed_units());
    let (a, c) = (from as int, to as int);
    let b = 0x20_0000_0000_0000int;
    let h = 0x10_0000_0000_0000int;
    lemma_abs_product(ku, su);
    if k.units() <= pow2(1900) {
        lemma_pow2_adds(1900, 1108);
        lemma_pow2_adds(2000, 1074);
        lemma_pow2_strictly_increases(3008, 3074);
        assert(abs(ku) * abs(su) <= pow2(1900) * pow2(1108)) by (nonlinear_arith)
            requires
                0 <= abs(ku) <= pow2(1900),
                0 <= abs(su) <= pow2(1108),
        ;
    }
    if e.finite() {
        let k1 = abs(ku) as int;
        let off = abs(a * su - c * one) as int;
        let whole = ku * su;
        let (x, y) = (c * ku, a * eu);
        let first = abs(eu * one - whole) as int;
        // The error of the product and that of the ratio make up the whole error.
        assert(a * (eu * one - whole) + ku * (a * su - c * one) == (y - x) * one)
            by (nonlinear_arith)
            requires
                whole == ku * su,
                x == c * ku,
                y == a * eu,
        ;
        lemma_abs_product(a, eu * one - whole);
        lemma_abs_product(ku, a * su - c * one);
        lemma_abs_product(y - x, one);
        lemma_abs_product(c, ku);
        let total = abs(y - x) * one;
        assert(total <= a * first + k1 * off);
        let ks = k1 * su;
        let kc = k1 * (c * one);
        lemma_times(first * b, ks + one * h, a);
        assert((first * b) * a == (a * first) * b) by (nonlinear_arith);
        assert((ks + one * h) * a == a * ks + (a * one) * h) by (nonlinear_arith);
        lemma_times(off * b, 2 * (c * one), k1);
        assert((off * b) * k1 == (k1 * off) * b) by (nonlinear_arith);
        assert((2 * (c * one)) * k1 == 2 * kc) by (nonlinear_arith)
            requires
                kc == k1 * (c * one),
        ;
        assert(k1 * off >= 0) by (nonlinear_arith)
            requires
                k1 >= 0,
                off >= 0,
        ;
        assert(a * ks <= kc + k1 * off) by (nonlinear_arith)
            requires
                ks == k1 * su,
                a * su <= c * one + off,
                k1 >= 0,
                kc == k1 * (c * one),
        ;
        assert(total * b <= 4 * kc + (a * one) * h);
        assert(total * b == (abs(y - x) * b) * one) by (nonlinear_arith)
            requires
                total == abs(y - x) * one,
        ;
        assert(4 * kc + (a * one) * h == (4 * (c * k1) + a * h) * one) by (nonlinear_arith)
            requires
                kc == k1 * (c * one),
        ;
        lemma_cancel(abs(y - x) * b, 4 * (c * k1) + a * h, one);
    }
}

/// A camera matrix as cameras have them: the focal lengths are between `2^-74` and
/// `2^126` pixels, and the principal point is no more than `2^126` pixels away.
pub open spec fn is_ordinary(k: Intrinsics) -> bool {
    &&& k.fx.finite() && pow2(1000) <= k.fx.units() <= pow2(1200)
    &&& k.fy.finite() && pow2(1000) <= k.fy.units() <= pow2(1200)
    &&& k.cx.finite() && k.cx.units() <= pow2(1200)
    &&& k.cy.finite() && k.cy.units() <= pow2(1200)
}

/// The four entries of a matrix change in proportion to the size of the image, the
/// horizontal ones to its width and the vertical ones to its height.
pub proof fn law_scaling_is_proportional(
    k: Intrinsics,
    from_w: u32,
    from_h: u32,
    to_w: u32,
    to_h: u32,
)
    requires
        from_w > 0 && from_h > 0,
        k.fx.finite() && k.fx.units() <= pow2(1900),
        k.fy.finite() && k.fy.units() <= pow2(1900),
        k.cx.finite() && k.cx.units() <= pow2(1900),
        k.cy.finite() && k.cy.units() <= pow2(1900),
    ensures
        ({
            let s = k.spec_scaled(from_w, from_h, to_w, to_h);
            &&& s.fx.finite() && s.fy.finite() && s.cx.finite() && s.cy.finite()
            &&& in_proportion(k.fx, s.fx, from_w, to_w)
            &&& in_proportion(k.fy, s.fy, from_h, to_h)
            &&& in_proportion(k.cx, s.cx, from_w, to_w)
            &&& in_proportion(k.cy, s.cy, from_h, to_h)
        }),
{
    lemma_scaled_entry(k.fx, from_w, to_w);
    lemma_scaled_entry(k.cx, from_w, to_w);
    lemma_scaled_entry(k.fy, from_h, to_h);
    lemma_scaled_entry(k.cy, from_h, to_h);
}

/// The scaled entries of an ordinary matrix along one axis.
proof fn lemma_ordinary_axis(f: Double, c: Double, sf: Double, sc: Double, from: u32, to: u32)
    requires
        from > 0,
        to > 0,
        f.finite() && pow2(1000) <= f.units() <= pow2(1200),
        c.finite() && c.units() <= pow2(1200),
        sf.finite(),
        sc.finite(),
        in_proportion(f, sf, from, to),
        in_proportion(c, sc, from, to),
    ensures
        sf.units() >= pow2(966),
        sc.units() <= pow2(1234),
{
    lemma2_to64();
    lemma2_to64_rest();
    let (a, t) = (from as int, to as int);
    lemma_abs_product(t, f.signed_units());
    lemma_abs_product(t, c.signed_units());
    lemma_abs_product(a, sf.signed_units());
    lemma_abs_product(a, sc.signed_units());
    let (fu, cu) = (f.units() as int, c.units() as int);
    let (gu, du) = (sf.units() as int, sc.units() as int);
    lemma_pow2_adds(34, 966);
    lemma_pow2_adds(34, 1200);
    lemma_pow2_strictly_increases(34, 966);
    lemma_pow2_strictly_increases(34, 1200);
    assert(t * fu <= 2 * (a * gu) + 2 * a);
    assert(a * du <= 2 * (t * cu) + a);
    let w = pow2(32) as int;
    assert(gu >= pow2(966)) by (nonlinear_arith)
        requires
            t * fu <= 2 * (a * gu) + 2 * a,
            t >= 1,
            fu >= (4 * w) * pow2(966),
            1 <= a <= w,
            gu >= 0,
            pow2(966) > w,
    ;
    assert(t * cu <= w * pow2(1200)) by (nonlinear_arith)
        requires
            0 <= t <= w,
            0 <= cu <= pow2(1200),
    ;
    assert(du <= (4 * w) * pow2(1200)) by (nonlinear_arith)
        requires
            a * du <= 2 * (w * pow2(1200)) + a,
            1 <= a <= w,
            du >= 0,
            pow2(1200) > 4 * w,
    ;
}

/// A coordinate is finite where the depth is a number in single precision and the
/// matrix is ordinary.
proof fn lemma_coordinate_is_finite(i: nat, c: Double, f: Double, z: Double)
    requires
        i <= u32::MAX,
        c.finite() && c.units() <= pow2(1234),
        f.finite() && f.units() >= pow2(966),
        z.finite() && z.units() <= pow2(1202),
    ensures
        coordinate(i, c, f, z).finite(),
        !f.zero(),
{
    lemma2_to64();
    lemma2_to64_rest();
    lemma_halfway_is_exact(i);
    lemma_zero_units(f.magnitude());
    lemma_pow2_pos(966);
    let centre = pixel_centre(i);
    let offset = centre.spec_sub(c);
    let product = offset.spec_mul(z);
    let one = pow2(1074);
    lemma_pow2_adds(34, 1073);
    lemma_pow2_strictly_increases(1107, 1234);
    assert((2 * i + 1) * pow2(1073) <= pow2(34) * pow2(1073)) by (nonlinear_arith)
        requires
            2 * i + 1 <= pow2(34),
            pow2(1073) >= 0,
    ;
    lemma_pow2_unfold(1235);
    lemma_pow2_unfold(1236);
    lemma_pow2_strictly_increases(1236, 2000);
    law_difference_is_close(centre, c);
    assert(offset.finite());
    assert(offset.units() <= pow2(1236));
    let n = offset.signed_units() * z.signed_units();
    lemma_abs_product(offset.signed_units(), z.signed_units());
    lemma_pow2_adds(1236, 1202);
    lemma_pow2_adds(2000, 1074);
    lemma_pow2_strictly_increases(2438, 3074);
    assert(abs(n) <= pow2(1236) * pow2(1202)) by (nonlinear_arith)
        requires
            abs(n) == abs(offset.signed_units()) * abs(z.signed_units()),
            0 <= abs(offset.signed_units()) <= pow2(1236),
            0 <= abs(z.signed_units()) <= pow2(1202),
    ;
    law_product_is_close(offset, z);
    assert(product.finite());
    lemma_abs_product(product.signed_units(), one as int);
    let pu = product.units() as int;
    lemma_pow2_adds(1366, 1074);
    lemma_pow2_unfold(2439);
    lemma_pow2_unfold(2440);
    lemma_pow2_strictly_increases(1074, 2438);
    lemma_pow2_pos(1074);
    assert(pu * one <= pow2(2440));
    law_quotient_is_close(product, f);
    lemma_pow2_adds(2000, 966);
    lemma_pow2_strictly_increases(2440, 2966);
    let fu = f.units() as int;
    assert(pow2(2000) * pow2(966) <= pow2(2000) * fu) by (nonlinear_arith)
        requires
            pow2(966) <= fu,
            pow2(2000) >= 0,
    ;
}

/// The place of a pixel in the depth map.
proof fn lemma_pixel_place(u: nat, v: nat, width: nat, height: nat)
    requires
        u < width,
        v < height,
    ensures
        v * width + u < width * height,
        (v * width + u) % width == u,
        (v * width + u) / width == v,
{
    assert(v * width + u < width * height) by (nonlinear_arith)
        requires
            u < width,
            v + 1 <= height,
    ;
    lemma_fundamental_div_mod_converse((v * width + u) as int, width as int, v as int, u as int);
}

/// The point that was seen at column `u` and row `v` of the depth map.
pub open spec fn point_of_pixel(
    rgb: Seq<u8>,
    depth: Seq<Single>,
    confidence: Option<Seq<Confidence>>,
    k: Intrinsics,
    params: UnprojectParams,
    u: nat,
    v: nat,
) -> ColoredPoint {
    let place = kept_count(
        depth,
        confidence,
        params.min_confidence,
        (v * params.depth_width + u) as nat,
    );
    points(rgb, depth, confidence, k, params, depth.len())[place as int]
}

/// A point lies on the line of sight of its pixel, at the depth that was measured
/// there: at column `u` and row `v` of the depth map, `x * fx` is `(u + 1/2 - cx) * z`
/// and `y * fy` is `(v + 1/2 - cy) * z`, up to rounding, with the matrix at the size of
/// the depth map. So a point that is projected back through the matrix falls on the
/// centre of its pixel.
pub proof fn law_points_lie_on_lines_of_sight(
    rgb: Seq<u8>,
    depth: Seq<Single>,
    confidence: Option<Seq<Confidence>>,
    k: Intrinsics,
    params: UnprojectParams,
    u: nat,
    v: nat,
)
    requires
        u < params.depth_width && v < params.depth_height,
        params.rgb_width > 0 && params.rgb_height > 0,
        depth.len() == params.depth_width * params.depth_height,
        kept(depth, confidence, params.min_confidence, (v * params.depth_width + u) as int),
    ensures
        ({
            let i = (v * params.depth_width + u) as nat;
            let all = points(rgb, depth, confidence, k, params, depth.len());
            let p = point_of_pixel(rgb, depth, confidence, k, params, u, v);
            let s = k.spec_scaled(
                params.rgb_width,
                params.rgb_height,
                params.depth_width,
                params.depth_height,
            );
            &&& kept_count(depth, confidence, params.min_confidence, i) < all.len()
            &&& p.z.finite() && p.z.signed_units() == depth[i as int].units() * pow2(925)
            &&& p.x.finite() && s.cx.finite() && s.fx.finite() && !s.fx.zero() ==> is_seen_at(
                p.x,
                (2 * u + 1) * pow2(1073),
                s.cx,
                s.fx,
                p.z,
            )
            &&& p.y.finite() && s.cy.finite() && s.fy.finite() && !s.fy.zero() ==> is_seen_at(
                p.y,
                (2 * v + 1) * pow2(1073),
                s.cy,
                s.fy,
                p.z,
            )
            &&& is_ordinary(k) ==> {
                &&& p.x.finite() && s.cx.finite() && s.fx.finite() && !s.fx.zero()
                &&& p.y.finite() && s.cy.finite() && s.fy.finite() && !s.fy.zero()
            }
        }),
{
    let (dw, dh) = (params.depth_width, params.depth_height);
    let i = (v * dw + u) as nat;
    lemma_pixel_place(u, v, dw as nat, dh as nat);
    law_points_in_scan_order(rgb, depth, confidence, k, params, depth.len(), i);
    let p = point_of_pixel(rgb, depth, confidence, k, params, u, v);
    let s = k.spec_scaled(params.rgb_width, params.rgb_height, dw, dh);
    law_widening_loses_nothing(depth[i as int]);
    lemma_depth(depth[i as int]);
    let z = depth[i as int].spec_widen();
    assert(p.z == z);
    assert(p.x == coordinate(u, s.cx, s.fx, z) && p.y == coordinate(v, s.cy, s.fy, z));
    if is_ordinary(k) {
        lemma_pow2_strictly_increases(1200, 1900);
        law_scaling_is_proportional(k, params.rgb_width, params.rgb_height, dw, dh);
        lemma_ordinary_axis(k.fx, k.cx, s.fx, s.cx, params.rgb_width, dw);
        lemma_ordinary_axis(k.fy, k.cy, s.fy, s.cy, params.rgb_height, dh);
        lemma_pow2_adds(277, 925);
        lemma_times(depth[i as int].units() as int, pow2(277) as int, pow2(925) as int);
        lemma_coordinate_is_finite(u, s.cx, s.fx, z);
        lemma_coordinate_is_finite(v, s.cy, s.fy, z);
    }
    if p.x.finite() && s.cx.finite() && s.fx.finite() && !s.fx.zero() {
        lemma_line_of_sight(u, s.cx, s.fx, z);
    }
    if p.y.finite() && s.cy.finite() && s.fy.finite() && !s.fy.zero() {
        lemma_line_of_sight(v, s.cy, s.fy, z);
    }
}

/// Whether `far` is twice as far along an axis as `near`, up to the rounding of both:
/// the two are held against each other after the focal length `f`, in parts of what is
/// seen at `at` at the depth `z` of the nearer one.
pub open spec fn is_twice(
    near: Double,
    far: Double,
    at: nat,
    c: Double,
    f: Double,
    z: Double,
) -> bool {
    let sight = (at - c.signed_units()) * z.signed_units();
    let off = far.signed_units() * f.signed_units() - 2 * (near.signed_units()
        * f.signed_units());
    abs(off) * 0x20_0000_0000_0000 <= 16 * abs(sight) + 3 * ((f.units() + pow2(1074))
        * 0x20_0000_0000_0000)
}

proof fn lemma_twice_as_far(
    near: Double,
    far: Double,
    at: nat,
    c: Double,
    f: Double,
    z: Double,
    z2: Double,
)
    requires
        z2.signed_units() == 2 * z.signed_units(),
        is_seen_at(near, at, c, f, z),
        is_seen_at(far, at, c, f, z2),
    ensures
        is_twice(near, far, at, c, f, z),
{
    let (a, b) = (at - c.signed_units(), z.signed_units());
    assert(a * (2 * b) == 2 * (a * b)) by (nonlinear_arith);
}

/// Twice the depth makes a point twice as far away in every direction, up to rounding.
pub proof fn law_twice_the_depth_is_twice_as_far(
    rgb: Seq<u8>,
    depth: Seq<Single>,
    depth2: Seq<Single>,
    confidence: Option<Seq<Confidence>>,
    k: Intrinsics,
    params: UnprojectParams,
    u: nat,
    v: nat,
)
    requires
        u < params.depth_width && v < params.depth_height,
        params.rgb_width > 0 && params.rgb_height > 0,
        depth.len() == params.depth_width * params.depth_height,
        depth2.len() == depth.len(),
        kept(depth, confidence, params.min_confidence, (v * params.depth_width + u) as int),
        kept(depth2, confidence, params.min_confidence, (v * params.depth_width + u) as int),
        depth2[(v * params.depth_width + u) as int].units() == 2 * depth[(v * params.depth_width
            + u) as int].units(),
        is_ordinary(k),
    ensures
        ({
            let p = point_of_pixel(rgb, depth, confidence, k, params, u, v);
            let q = point_of_pixel(rgb, depth2, confidence, k, params, u, v);
            let s = k.spec_scaled(
                params.rgb_width,
                params.rgb_height,
                params.depth_width,
                params.depth_height,
            );
            &&& q.z.signed_units() == 2 * p.z.signed_units()
            &&& p.x.finite() && q.x.finite() && p.y.finite() && q.y.finite()
            &&& is_twice(p.x, q.x, (2 * u + 1) * pow2(1073), s.cx, s.fx, p.z)
            &&& is_twice(p.y, q.y, (2 * v + 1) * pow2(1073), s.cy, s.fy, p.z)
        }),
{
    law_points_lie_on_lines_of_sight(rgb, depth, confidence, k, params, u, v);
    law_points_lie_on_lines_of_sight(rgb, depth2, confidence, k, params, u, v);
    let p = point_of_pixel(rgb, depth, confidence, k, params, u, v);
    let q = point_of_pixel(rgb, depth2, confidence, k, params, u, v);
    let s = k.spec_scaled(
        params.rgb_width,
        params.rgb_height,
        params.depth_width,
        params.depth_height,
    );
    let i = (v * params.depth_width + u) as int;
    assert((2 * depth[i].units()) * pow2(925) == 2 * (depth[i].units() * pow2(925)))
        by (nonlinear_arith);
    lemma_twice_as_far(p.x, q.x, (2 * u + 1) * pow2(1073), s.cx, s.fx, p.z, q.z);
    lemma_twice_as_far(p.y, q.y, (2 * v + 1) * pow2(1073), s.cy, s.fy, p.z, q.z);
}

/// Whether the centre of pixel `i` of `depth` pixels falls in pixel `g` of `rgb` over
/// the same length, or so near to it that rounding does not tell.
pub open spec fn falls_in(i: nat, g: nat, rgb: u32, depth: u32) -> bool {
    let at = (2 * i + 1) * rgb;
    &&& g < rgb
    &&& (2 * depth) * g * 0x20_0000_0000_0000 <= at * 0x20_0000_0000_0005
    &&& at * 0x1f_ffff_ffff_fffb < (2 * depth) * (g + 1) * 0x20_0000_0000_0000
}

/// A depth pixel takes its colour from the image pixel that its centre falls in. For
/// images of any usual size rounding plays no part, unless the centre falls on the
/// very edge between two pixels.
pub proof fn law_colour_is_at_the_centre(i: nat, rgb: u32, depth: u32)
    requires
        rgb > 0,
        i < depth,
    ensures
        falls_in(i, rgb_index(i, rgb, depth), rgb, depth),
        10 * (depth * rgb) <= 0x20_0000_0000_0000 ==> {
            let g = rgb_index(i, rgb, depth);
            (2 * depth) * g <= (2 * i + 1) * rgb <= (2 * depth) * (g + 1)
        },
{
    lemma2_to64();
    lemma2_to64_rest();
    let ratio = Double::spec_from_count(rgb as nat).spec_div(
        Double::spec_from_count(depth as nat),
    );
    lemma_halfway_is_exact(i);
    let centre = pixel_centre(i);
    let at = centre.spec_mul(ratio);
    lemma_ratio(depth, rgb);
    lemma_pow2_adds(34, 1073);
    lemma_pow2_strictly_increases(1107, 1900);
    let half = pow2(1073) as int;
    lemma_pow2_pos(1073);
    lemma_pow2_unfold(1074);
    let nn = (2 * i + 1) as int;
    assert(nn * half <= pow2(34) * half) by (nonlinear_arith)
        requires
            nn <= pow2(34),
            half >= 0,
    ;
    lemma_scaled_entry(centre, depth, rgb);
    assert(at.finite() && !at.negative());
    let (d, r) = (depth as int, rgb as int);
    let (pu, one) = (at.units() as int, pow2(1074) as int);
    let n = nn * r;
    let b = 0x20_0000_0000_0000int;
    assert(r * (nn * half) == n * half) by (nonlinear_arith)
        requires
            n == nn * r,
    ;
    lemma_pow2_adds(53, 32);
    lemma_pow2_strictly_increases(85, 1073);
    assert(n >= 1 && n * half >= half) by (nonlinear_arith)
        requires
            n == nn * r,
            nn >= 1,
            r >= 1,
            half >= 0,
    ;
    assert(d * b <= half);
    assert(abs(d * pu - n * half) * b <= 5 * (n * half));
    let g = rgb_index(i, rgb, depth) as int;
    let whole = pu / one;
    lemma_fundamental_div_mod(pu, one);
    lemma_mod_pos_bound(pu, one);
    assert(g <= whole && (g == whole || g == r - 1));
    assert(g * one <= pu) by (nonlinear_arith)
        requires
            g <= whole,
            pu == one * whole + pu % one,
            pu % one >= 0,
            one >= 0,
    ;
    // From above.
    assert((2 * d) * g * b <= n * (b + 5)) by {
        assert(((2 * d) * g * b) * half <= (d * pu) * b) by (nonlinear_arith)
            requires
                g * one <= pu,
                one == 2 * half,
                d >= 0,
                b >= 0,
        ;
        assert((n * half) * b + 5 * (n * half) == (n * (b + 5)) * half) by (nonlinear_arith);
        lemma_cancel((2 * d) * g * b, n * (b + 5), half);
    }
    // From below.
    assert(n * (b - 5) < (2 * d) * (g + 1) * b) by {
        if g == whole {
            let top = (2 * d) * (g + 1) * b;
            assert(one * (g + 1) == one * whole + one) by (nonlinear_arith)
                requires
                    g == whole,
            ;
            assert((d * pu) * b < top * half) by (nonlinear_arith)
                requires
                    pu < one * (g + 1),
                    one == 2 * half,
                    top == (2 * d) * (g + 1) * b,
                    d >= 1,
                    b >= 1,
            ;
            assert((n * half) * b - 5 * (n * half) == (n * (b - 5)) * half) by (nonlinear_arith);
            if n * (b - 5) >= top {
                lemma_times(top, n * (b - 5), half);
            }
        } else {
            assert(n * (b - 5) < (2 * d) * r * b) by (nonlinear_arith)
                requires
                    n == nn * r,
                    0 <= nn < 2 * d,
                    r >= 1,
                    b >= 5,
            ;
        }
    }
    if 10 * (depth * rgb) <= 0x20_0000_0000_0000 {
        assert(n <= 2 * (d * r) - 1) by (nonlinear_arith)
            requires
                n == nn * r,
                nn + 1 <= 2 * d,
                r >= 1,
        ;
        let low = (2 * d) * g;
        let high = (2 * d) * (g + 1);
        assert(low <= n && n <= high);
    }
}

/// The colour of a point is that of the image pixel at `column` and `row`, which the
/// centre of its depth pixel falls in.
pub proof fn law_points_have_the_colour_at_their_centre(
    rgb: Seq<u8>,
    depth: Seq<Single>,
    confidence: Option<Seq<Confidence>>,
    k: Intrinsics,
    params: UnprojectParams,
    u: nat,
    v: nat,
) -> (at: (nat, nat))
    requires
        u < params.depth_width && v < params.depth_height,
        params.rgb_width > 0 && params.rgb_height > 0,
        depth.len() == params.depth_width * params.depth_height,
        kept(depth, confidence, params.min_confidence, (v * params.depth_width + u) as int),
    ensures
        ({
            let (column, row) = at;
            let p = point_of_pixel(rgb, depth, confidence, k, params, u, v);
            let first = 3 * (row * params.rgb_width + column);
            &&& falls_in(u, column, params.rgb_width, params.depth_width)
            &&& falls_in(v, row, params.rgb_height, params.depth_height)
            &&& p.r == rgb[first] && p.g == rgb[first + 1] && p.b == rgb[first + 2]
        }),
{
    let (dw, dh) = (params.depth_width, params.depth_height);
    let i = (v * dw + u) as nat;
    lemma_pixel_place(u, v, dw as nat, dh as nat);
    law_points_in_scan_order(rgb, depth, confidence, k, params, depth.len(), i);
    law_colour_is_at_the_centre(u, params.rgb_width, dw);
    law_colour_is_at_the_centre(v, params.rgb_height, dh);
    (rgb_index(u, params.rgb_width, dw), rgb_index(v, params.rgb_height, dh))
}

/// Half the angle that the field of view is given by, in radians: 360 times it is pi
/// times the angle in degrees, up to rounding.
pub proof fn law_half_angle_is_in_radians(degrees: Double)
    requires
        degrees.finite(),
    ensures
        ({
            let half = half_angle(degrees);
            let (x, y) = (
                half.signed_units() * 360_000_000_000_000_000,
                degrees.signed_units() * 3_141_592_653_589_793,
            );
            &&& half.finite()
            &&& abs(x - y) <= 2 * abs(degrees.signed_units()) + 360_000_000_000_000_000
        }),
{
    lemma2_to64();
    lemma2_to64_rest();
    lemma_two_units();
    let r = Double { bits: RADIANS_PER_DEGREE };
    let two = Double { bits: TWO };
    assert(r.magnitude() % pow2(52) == 0x1_df46_a252_9d39 && r.magnitude() / pow2(52) == 0x3f9);
    let m = 0x11_df46_a252_9d39int;
    assert(r.units() == 0x11_df46_a252_9d39 * pow2(1016));
    let product = degrees.spec_mul(r);
    let one = pow2(1074) as int;
    let tick = pow2(1016) as int;
    lemma_pow2_adds(58, 1016);
    lemma_pow2_pos(1016);
    let (d, w) = (degrees.signed_units(), pow2(58) as int);
    assert(w == 0x400_0000_0000_0000);
    lemma_degrees_are_finite(degrees);
    law_product_is_close(degrees, r);
    law_quotient_is_close(product, two);
    let (p, h) = (product.signed_units(), half_angle(degrees).signed_units());
    let b = 0x20_0000_0000_0000int;
    // In ticks, the product.
    assert(p * one - d * (m * tick) == (p * w - d * m) * tick) by (nonlinear_arith)
        requires
            one == w * tick,
    ;
    assert(d * (m * tick) == (d * m) * tick) by (nonlinear_arith);
    lemma_abs_product(p * w - d * m, tick);
    lemma_abs_product(d * m, tick);
    assert(abs(p * w - d * m) * b <= abs(d * m) + w * 0x10_0000_0000_0000) by {
        assert((abs(p * w - d * m) * tick) * b == (abs(p * w - d * m) * b) * tick)
            by (nonlinear_arith);
        assert(abs(d * m) * tick + one * 0x10_0000_0000_0000 == (abs(d * m) + w
            * 0x10_0000_0000_0000) * tick) by (nonlinear_arith)
            requires
                one == w * tick,
        ;
        lemma_cancel(
            abs(p * w - d * m) * b,
            abs(d * m) + w * 0x10_0000_0000_0000,
            tick,
        );
    }
    // In ones, the quotient.
    assert(h * (2 * one) - p * one == (2 * h - p) * one) by (nonlinear_arith);
    lemma_abs_product(2 * h - p, one);
    lemma_abs_product(p, one);
    lemma_pow2_pos(1074);
    assert(abs(2 * h - p) * b <= abs(p) + 0x20_0000_0000_0000) by {
        assert((abs(2 * h - p) * one) * b == (abs(2 * h - p) * b) * one) by (nonlinear_arith);
        assert(abs(p) * one + (2 * one) * 0x10_0000_0000_0000 == (abs(p) + 0x20_0000_0000_0000)
            * one) by (nonlinear_arith);
        lemma_cancel(abs(2 * h - p) * b, abs(p) + b, one);
    }
    lemma_radians(d, p, h);
}

proof fn lemma_radians(d: int, p: int, h: int)
    requires
        abs(p * 0x400_0000_0000_0000 - d * 0x11_df46_a252_9d39) * 0x20_0000_0000_0000 <= abs(
            d * 0x11_df46_a252_9d39,
        ) + 0x400_0000_0000_0000 * 0x10_0000_0000_0000,
        abs(2 * h - p) * 0x20_0000_0000_0000 <= abs(p) + 0x20_0000_0000_0000,
    ensures
        abs(h * 360_000_000_000_000_000 - d * 3_141_592_653_589_793) <= 2 * abs(d)
            + 360_000_000_000_000_000,
{
}

proof fn lemma_degrees_are_finite(degrees: Double)
    requires
        degrees.finite(),
    ensures
        degrees.spec_mul(Double { bits: RADIANS_PER_DEGREE }).finite(),
        half_angle(degrees).finite(),
{
    let r = Double { bits: RADIANS_PER_DEGREE };
    lemma2_to64();
    lemma2_to64_rest();
    assert(r.magnitude() % pow2(52) == 0x1_df46_a252_9d39 && r.magnitude() / pow2(52) == 0x3f9);
    lemma_pow2_adds(58, 1016);
    lemma_pow2_pos(1074);
    let (u, v, one) = (degrees.units(), r.units(), pow2(1074));
    assert(v <= one) by (nonlinear_arith)
        requires
            v == 0x11_df46_a252_9d39 * pow2(1016),
            one == 0x400_0000_0000_0000 * pow2(1016),
    ;
    assert(u * v <= one * u) by (nonlinear_arith)
        requires
            0 <= v <= one,
            u >= 0,
    ;
    law_rounding_keeps_order(53, u * v, one * u, one);
    assert(one * 1 == one);
    lemma_round_scales(53, u, 1, one);
    law_rounding_keeps_values(53, degrees.magnitude());
    lemma_half(degrees.spec_mul(r));
}

/// In a matrix that is made up, the pixels are square and the principal point is in
/// the middle of the image, exactly. A pixel at the left or right edge of the image is
/// seen at half the field of view: `width / 2` is `fx` times the tangent, up to
/// rounding.
pub proof fn law_made_up_matrix_has_the_field_of_view(width: u32, height: u32, tangent: Double)
    ensures
        ({
            let k = centred(width, height, tangent);
            let (x, y) = (
                2 * (k.fx.signed_units() * tangent.signed_units()),
                width * pow2(1074) * pow2(1074),
            );
            &&& k.fy == k.fx
            &&& k.cx.finite() && 2 * k.cx.signed_units() == width * pow2(1074)
            &&& k.cy.finite() && 2 * k.cy.signed_units() == height * pow2(1074)
            &&& tangent.magnitude() <= HALF_OF_LARGEST && k.fx.finite() ==> abs(x - y)
                * 0x20_0000_0000_0000 <= y + tangent.units() * 0x20_0000_0000_0000
            &&& tangent.magnitude() <= HALF_OF_LARGEST && tangent.units() >= pow2(200)
                ==> k.fx.finite()
            &&& tangent.zero() || tangent.nan() ==> !k.fx.finite()
        }),
{
    law_half_of_count_is_exact(width);
    law_half_of_count_is_exact(height);
    if tangent.magnitude() <= HALF_OF_LARGEST {
        lemma_tangent(width, tangent);
    }
}

/// Twice a number that is not too large is finite.
proof fn lemma_twice_is_finite(x: Double)
    requires
        x.magnitude() <= HALF_OF_LARGEST,
    ensures
        (Double { bits: TWO }).spec_mul(x).finite(),
{
    lemma_two_units();
    lemma_twice(x);
    let (u, one) = (x.units(), pow2(1074));
    lemma_pow2_pos(1074);
    lemma_round_zero(1);
    assert((2 * one) * u == one * (2 * u) && one * 1 == one) by (nonlinear_arith);
    lemma_round_scales(53, 2 * u, 1, one);
}

proof fn lemma_tangent(width: u32, tangent: Double)
    requires
        tangent.magnitude() <= HALF_OF_LARGEST,
    ensures
        ({
            let fx = Double::spec_from_count(width as nat).spec_div(
                (Double { bits: TWO }).spec_mul(tangent),
            );
            let (x, y) = (
                2 * (fx.signed_units() * tangent.signed_units()),
                width * pow2(1074) * pow2(1074),
            );
            &&& fx.finite() ==> abs(x - y) * 0x20_0000_0000_0000 <= y + tangent.units()
                * 0x20_0000_0000_0000
            &&& tangent.units() >= pow2(200) ==> fx.finite()
            &&& tangent.zero() ==> !fx.finite()
        }),
{
    lemma2_to64();
    lemma2_to64_rest();
    let two = Double { bits: TWO };
    let wide = two.spec_mul(tangent);
    lemma_twice_is_finite(tangent);
    law_doubling_is_exact(tangent);
    law_counts_are_exact(width as nat);
    let count = Double::spec_from_count(width as nat);
    let fx = count.spec_div(wide);
    let one = pow2(1074) as int;
    lemma_pow2_pos(1074);
    lemma_zero_units(wide.magnitude());
    lemma_zero_units(tangent.magnitude());
    let (w, t, f) = (width as int, tangent.signed_units(), fx.signed_units());
    if wide.zero() {
        assert(!fx.finite());
        lemma_pow2_pos(200);
    } else {
        law_quotient_is_close(count, wide);
        assert(f * (2 * t) == 2 * (f * t)) by (nonlinear_arith);
        assert((w * one) * one >= 0) by (nonlinear_arith)
            requires
                w >= 0,
                one >= 0,
        ;
        if tangent.units() >= pow2(200) {
            lemma_pow2_adds(32, 1074);
            lemma_pow2_adds(1106, 1074);
            lemma_pow2_adds(2000, 200);
            lemma_pow2_strictly_increases(2180, 2200);
            assert((w * one) * one <= (pow2(32) * one) * one) by (nonlinear_arith)
                requires
                    w <= pow2(32),
                    one >= 0,
            ;
            let tu = wide.units() as int;
            assert(pow2(2000) * pow2(200) <= pow2(2000) * tu) by (nonlinear_arith)
                requires
                    pow2(200) <= tu,
                    pow2(2000) >= 0,
            ;
        }
    }
}

/// Where the matrix at the size of the depth map has a focal length of zero, or an entry that is
/// not a number, a point has no finite coordinate along that axis.
pub proof fn law_no_focal_length_no_position(
    rgb: Seq<u8>,
    depth: Seq<Single>,
    confidence: Option<Seq<Confidence>>,
    k: Intrinsics,
    params: UnprojectParams,
    u: nat,
    v: nat,
)
    requires
        u < params.depth_width && v < params.depth_height,
        params.rgb_width > 0 && params.rgb_height > 0,
        depth.len() == params.depth_width * params.depth_height,
        kept(depth, confidence, params.min_confidence, (v * params.depth_width + u) as int),
    ensures
        ({
            let p = point_of_pixel(rgb, depth, confidence, k, params, u, v);
            let s = k.spec_scaled(
                params.rgb_width,
                params.rgb_height,
                params.depth_width,
                params.depth_height,
            );
            &&& s.fx.zero() ==> !p.x.finite()
            &&& s.fy.zero() ==> !p.y.finite()
            &&& s.fx.nan() || s.cx.nan() ==> p.x.nan()
            &&& s.fy.nan() || s.cy.nan() ==> p.y.nan()
            &&& k.fx.nan() ==> s.fx.nan()
            &&& k.fy.nan() ==> s.fy.nan()
            &&& k.cx.nan() ==> s.cx.nan()
            &&& k.cy.nan() ==> s.cy.nan()
        }),
{
    let i = (v * params.depth_width + u) as nat;
    lemma_pixel_place(u, v, params.depth_width as nat, params.depth_height as nat);
    law_points_in_scan_order(rgb, depth, confidence, k, params, depth.len(), i);
    let s = k.spec_scaled(
        params.rgb_width,
        params.rgb_height,
        params.depth_width,
        params.depth_height,
    );
    lemma_no_coordinate(u, s.cx, s.fx, depth[i as int].spec_widen());
    lemma_no_coordinate(v, s.cy, s.fy, depth[i as int].spec_widen());
}

proof fn lemma_no_coordinate(i: nat, c: Double, f: Double, z: Double)
    ensures
        f.zero() ==> !coordinate(i, c, f, z).finite(),
        f.nan() || c.nan() ==> coordinate(i, c, f, z).nan(),
{
    let offset = pixel_centre(i).spec_sub(c);
    let product = offset.spec_mul(z);
    assert(c.nan() ==> c.spec_neg().nan());
    assert(c.nan() ==> offset.nan());
    assert(offset.nan() ==> product.nan());
}

} // verus!
