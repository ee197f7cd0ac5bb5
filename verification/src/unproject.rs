//! Back-projection of a depth map and its RGB image through a camera matrix into
//! a coloured point cloud in the camera's reference frame.
//!
//! The axes are those of ARKit in the landscape orientation of the sensor: X to
//! the right, Y down, Z into the scene.
use vstd::arithmetic::div_mod::{lemma_fundamental_div_mod, lemma_fundamental_div_mod_converse};
use vstd::arithmetic::mul::lemma_mul_is_commutative;
use vstd::prelude::*;

use crate::decode::{Confidence, Intrinsics};
use crate::double::{
    law_counts_are_exact, law_divided_by_itself, law_times_one, lemma_halfway_is_exact,
    lemma_halfway_whole_part, Double, Single, HALF, SINGLE_NOT_A_NUMBER,
};

verus! {

/// A point in metres, with the colour of the pixel that it was seen at.
#[derive(Debug, Clone, Copy, PartialEq, Eq, Structural)]
pub struct ColoredPoint {
    pub x: Double,
    pub y: Double,
    pub z: Double,
    pub r: u8,
    pub g: u8,
    pub b: u8,
}

#[derive(Debug, Clone, Copy, PartialEq, Eq, Structural)]
pub struct UnprojectParams {
    /// Width of the RGB image; the camera matrix is at this resolution.
    pub rgb_width: u32,
    /// Height of the RGB image.
    pub rgb_height: u32,
    /// Width of the depth map.
    pub depth_width: u32,
    /// Height of the depth map.
    pub depth_height: u32,
    /// Depth pixels of which the confidence is below this level are dropped.
    pub min_confidence: Confidence,
}

/// The confidence levels behind an optional slice.
pub open spec fn levels(confidence: Option<&[Confidence]>) -> Option<Seq<Confidence>> {
    match confidence {
        Some(c) => Some(c@),
        None => None,
    }
}

/// Whether a depth sample counts: it is a finite number above zero, and its
/// confidence, where there is one, is no lower than `min`.
pub open spec fn kept(
    depth: Seq<Single>,
    confidence: Option<Seq<Confidence>>,
    min: Confidence,
    i: int,
) -> bool {
    &&& depth[i].spec_is_positive()
    &&& confidence matches Some(c) ==> c[i].level() >= min.level()
}

/// The centre of the pixel with index `i` along an axis.
pub open spec fn pixel_centre(i: nat) -> Double {
    Double::spec_from_count(i).spec_add(Double { bits: HALF })
}

/// The RGB pixel that lies at the centre of depth pixel `i`, along an axis that
/// has `rgb` pixels in the image and `depth` in the depth map.
pub open spec fn rgb_index(i: nat, rgb: u32, depth: u32) -> nat {
    let ratio = Double::spec_from_count(rgb as nat).spec_div(
        Double::spec_from_count(depth as nat),
    );
    pixel_centre(i).spec_mul(ratio).spec_clamped_index((rgb - 1) as nat)
}

/// The coordinate of depth pixel `i` along an axis with focal length `focal` and
/// principal point `principal`, at depth `z`.
pub open spec fn coordinate(i: nat, principal: Double, focal: Double, z: Double) -> Double {
    pixel_centre(i).spec_sub(principal).spec_mul(z).spec_div(focal)
}

/// The point seen at column `u` and row `v` of the depth map.
pub open spec fn point_at(
    rgb: Seq<u8>,
    depth: Seq<Single>,
    intrinsics_at_rgb: Intrinsics,
    params: UnprojectParams,
    u: nat,
    v: nat,
) -> ColoredPoint {
    let k = intrinsics_at_rgb.spec_scaled(
        params.rgb_width,
        params.rgb_height,
        params.depth_width,
        params.depth_height,
    );
    let z = depth[(v * params.depth_width + u) as int].spec_widen();
    let column = rgb_index(u, params.rgb_width, params.depth_width);
    let row = rgb_index(v, params.rgb_height, params.depth_height);
    let p = 3 * (row * params.rgb_width + column);
    ColoredPoint {
        x: coordinate(u, k.cx, k.fx, z),
        y: coordinate(v, k.cy, k.fy, z),
        z,
        r: rgb[p],
        g: rgb[p + 1],
        b: rgb[p + 2],
    }
}

/// The points of the first `count` depth pixels, row by row: one for each that
/// is kept.
pub open spec fn points(
    rgb: Seq<u8>,
    depth: Seq<Single>,
    confidence: Option<Seq<Confidence>>,
    intrinsics_at_rgb: Intrinsics,
    params: UnprojectParams,
    count: nat,
) -> Seq<ColoredPoint>
    decreases count,
{
    if count == 0 {
        seq![]
    } else {
        let i = (count - 1) as nat;
        let before = points(rgb, depth, confidence, intrinsics_at_rgb, params, i);
        if kept(depth, confidence, params.min_confidence, i as int) {
            before.push(
                point_at(
                    rgb,
                    depth,
                    intrinsics_at_rgb,
                    params,
                    i % params.depth_width as nat,
                    i / params.depth_width as nat,
                ),
            )
        } else {
            before
        }
    }
}

/// The offsets of the pixel centres from `principal`, and the RGB pixels at them,
/// along one axis.
fn axis(depth: u32, rgb: u32, principal: Double) -> (r: (Vec<Double>, Vec<u32>))
    requires
        rgb > 0,
    ensures
        r.0@.len() == depth,
        r.1@.len() == depth,
        forall|i: int|
            #![trigger r.0@[i]]
            0 <= i < depth ==> r.0@[i] == pixel_centre(i as nat).spec_sub(principal),
        forall|i: int|
            #![trigger r.1@[i]]
            0 <= i < depth ==> r.1@[i] == rgb_index(i as nat, rgb, depth) && r.1@[i] < rgb,
{
    let ratio = Double::from_count(rgb).div(Double::from_count(depth));
    let mut offsets: Vec<Double> = Vec::new();
    let mut samples: Vec<u32> = Vec::new();
    let mut i: u32 = 0;
    while i < depth
        invariant
            rgb > 0,
            i <= depth,
            ratio == Double::spec_from_count(rgb as nat).spec_div(
                Double::spec_from_count(depth as nat),
            ),
            offsets@.len() == i,
            samples@.len() == i,
            forall|j: int|
                #![trigger offsets@[j]]
                0 <= j < i ==> offsets@[j] == pixel_centre(j as nat).spec_sub(principal),
            forall|j: int|
                #![trigger samples@[j]]
                0 <= j < i ==> samples@[j] == rgb_index(j as nat, rgb, depth) && samples@[j] < rgb,
        decreases depth - i,
    {
        let centre = Double::from_count(i).add(Double { bits: HALF });
        offsets.push(centre.sub(principal));
        samples.push(centre.mul(ratio).clamped_index(rgb - 1));
        i = i + 1;
    }
    (offsets, samples)
}

proof fn lemma_grid_index(u: nat, v: nat, width: nat, height: nat)
    requires
        u < width,
        v < height,
    ensures
        v * width + u < width * height,
        (v * width + u) % width == u,
        (v * width + u) / width == v,
{
    assert(v * width + u < width * height) by (nonlinear_arith)
        requires
            u < width,
            v + 1 <= height,
    ;
    lemma_fundamental_div_mod_converse((v * width + u) as int, width as int, v as int, u as int);
}

/// Unprojects the depth pixels that are kept.
///
/// `rgb_pixels` is row-major RGB8, `depth` is row-major, in metres, and
/// `confidence`, where it is supplied, has one level per depth sample; without
/// it every sample counts as high.
#[must_use]
#[verifier::loop_isolation(false)]
pub fn unproject(
    rgb_pixels: &[u8],
    depth: &[Single],
    confidence: Option<&[Confidence]>,
    intrinsics_at_rgb: &Intrinsics,
    params: &UnprojectParams,
) -> (r: Vec<ColoredPoint>)
    requires
        depth@.len() == params.depth_width * params.depth_height,
        rgb_pixels@.len() == params.rgb_width * params.rgb_height * 3,
        confidence matches Some(c) ==> c@.len() == depth@.len(),
        (params.rgb_width > 0 && params.rgb_height > 0) || forall|i: int|
            0 <= i < depth@.len() ==> !kept(
                depth@,
                levels(confidence),
                params.min_confidence,
                i,
            ),
    ensures
        r@ == points(
            rgb_pixels@,
            depth@,
            levels(confidence),
            *intrinsics_at_rgb,
            *params,
            depth@.len(),
        ),
{
    let mut out: Vec<ColoredPoint> = Vec::new();
    if params.rgb_width == 0 || params.rgb_height == 0 {
        proof {
            lemma_nothing_kept(
                rgb_pixels@,
                depth@,
                levels(confidence),
                *intrinsics_at_rgb,
                *params,
                depth@.len(),
            );
        }
        return out;
    }
    let dw = params.depth_width;
    let dh = params.depth_height;
    let rw = params.rgb_width;
    let rh = params.rgb_height;
    let k = intrinsics_at_rgb.scaled(rw, rh, dw, dh);
    let (offsets_x, columns) = axis(dw, rw, k.cx);
    let (offsets_y, rows) = axis(dh, rh, k.cy);
    let ghost conf = levels(confidence);
    assert(depth.len() <= usize::MAX && rgb_pixels.len() <= usize::MAX);
    let mut v: u32 = 0;
    while v < dh
        invariant
            v <= dh,
            out@ == points(
                rgb_pixels@,
                depth@,
                conf,
                *intrinsics_at_rgb,
                *params,
                (v * dw) as nat,
            ),
        decreases dh - v,
    {
        let mut u: u32 = 0;
        while u < dw
            invariant
                u <= dw,
                out@ == points(
                    rgb_pixels@,
                    depth@,
                    conf,
                    *intrinsics_at_rgb,
                    *params,
                    (v * dw + u) as nat,
                ),
            decreases dw - u,
        {
            proof {
                lemma_grid_index(u as nat, v as nat, dw as nat, dh as nat);
                assert(v * dw >= 0) by (nonlinear_arith)
                    requires
                        v >= 0,
                        dw >= 0,
                ;
            }
            let i: usize = v as usize * dw as usize + u as usize;
            let sample = depth[i];
            let trusted = match confidence {
                Some(c) => c[i].at_least(params.min_confidence),
                None => true,
            };
            if sample.is_positive() && trusted {
                let z = sample.widen();
                let column = columns[u as usize];
                let row = rows[v as usize];
                proof {
                    lemma_grid_index(column as nat, row as nat, rw as nat, rh as nat);
                    assert(row * rw >= 0) by (nonlinear_arith)
                        requires
                            row >= 0,
                            rw >= 0,
                    ;
                }
                let p: usize = 3 * (row as usize * rw as usize + column as usize);
                out.push(
                    ColoredPoint {
                        x: offsets_x[u as usize].mul(z).div(k.fx),
                        y: offsets_y[v as usize].mul(z).div(k.fy),
                        z,
                        r: rgb_pixels[p],
                        g: rgb_pixels[p + 1],
                        b: rgb_pixels[p + 2],
                    },
                );
            }
            u = u + 1;
        }
        assert((v + 1) * dw == v * dw + dw) by (nonlinear_arith);
        v = v + 1;
    }
    assert(dh * dw == dw * dh) by (nonlinear_arith);
    out
}

proof fn lemma_nothing_kept(
    rgb: Seq<u8>,
    depth: Seq<Single>,
    confidence: Option<Seq<Confidence>>,
    k: Intrinsics,
    params: UnprojectParams,
    count: nat,
)
    requires
        forall|i: int|
            0 <= i < count ==> !kept(depth, confidence, params.min_confidence, i),
    ensures
        points(rgb, depth, confidence, k, params, count) == Seq::<ColoredPoint>::empty(),
    decreases count,
{
    if count > 0 {
        assert(!kept(depth, confidence, params.min_confidence, count - 1));
        lemma_nothing_kept(rgb, depth, confidence, k, params, (count - 1) as nat);
    }
}

/// Where the depth map is as large as the RGB image, each depth pixel takes the
/// colour of its own RGB pixel.
pub proof fn law_same_size_samples_own_pixel(i: nat, extent: u32)
    requires
        i < extent,
    ensures
        rgb_index(i, extent, extent) == i,
{
    law_counts_are_exact(extent as nat);
    law_divided_by_itself(Double::spec_from_count(extent as nat));
    lemma_halfway_is_exact(i);
    law_times_one(pixel_centre(i));
    lemma_halfway_whole_part(i);
}

/// An RGB pixel is inside the image.
pub proof fn law_samples_are_in_the_image(i: nat, rgb: u32, depth: u32)
    requires
        rgb > 0,
    ensures
        rgb_index(i, rgb, depth) < rgb,
{
}

/// How many of the first `count` depth pixels are kept.
pub open spec fn kept_count(
    depth: Seq<Single>,
    confidence: Option<Seq<Confidence>>,
    min: Confidence,
    count: nat,
) -> nat
    decreases count,
{
    if count == 0 {
        0
    } else {
        let before = kept_count(depth, confidence, min, (count - 1) as nat);
        if kept(depth, confidence, min, count - 1) {
            before + 1
        } else {
            before
        }
    }
}

/// There is one point for each depth pixel that is kept.
pub proof fn law_one_point_per_kept_pixel(
    rgb: Seq<u8>,
    depth: Seq<Single>,
    confidence: Option<Seq<Confidence>>,
    k: Intrinsics,
    params: UnprojectParams,
    count: nat,
)
    ensures
        points(rgb, depth, confidence, k, params, count).len() == kept_count(
            depth,
            confidence,
            params.min_confidence,
            count,
        ),
        kept_count(depth, confidence, params.min_confidence, count) <= count,
    decreases count,
{
    if count > 0 {
        law_one_point_per_kept_pixel(rgb, depth, confidence, k, params, (count - 1) as nat);
    }
}

/// The points come in the order of the depth pixels: the one of pixel `i` has as
/// many points before it as there are kept pixels before `i`.
pub proof fn law_points_in_scan_order(
    rgb: Seq<u8>,
    depth: Seq<Single>,
    confidence: Option<Seq<Confidence>>,
    k: Intrinsics,
    params: UnprojectParams,
    count: nat,
    i: nat,
)
    requires
        i < count,
        kept(depth, confidence, params.min_confidence, i as int),
    ensures
        ({
            let place = kept_count(depth, confidence, params.min_confidence, i);
            &&& place < points(rgb, depth, confidence, k, params, count).len()
            &&& points(rgb, depth, confidence, k, params, count)[place as int] == point_at(
                rgb,
                depth,
                k,
                params,
                i % params.depth_width as nat,
                i / params.depth_width as nat,
            )
        }),
    decreases count,
{
    law_one_point_per_kept_pixel(rgb, depth, confidence, k, params, (count - 1) as nat);
    if i < count - 1 {
        law_points_in_scan_order(rgb, depth, confidence, k, params, (count - 1) as nat, i);
    }
}

/// Every point is that of a depth pixel that is kept, and its depth is the one that was
/// measured there, exactly.
pub proof fn law_points_have_measured_depth(
    rgb: Seq<u8>,
    depth: Seq<Single>,
    confidence: Option<Seq<Confidence>>,
    k: Intrinsics,
    params: UnprojectParams,
    count: nat,
    j: int,
) -> (i: int)
    requires
        count <= depth.len(),
        depth.len() == params.depth_width * params.depth_height,
        0 <= j < points(rgb, depth, confidence, k, params, count).len(),
    ensures
        0 <= i < count,
        kept(depth, confidence, params.min_confidence, i),
        kept_count(depth, confidence, params.min_confidence, i as nat) == j,
        points(rgb, depth, confidence, k, params, count)[j].z == depth[i].spec_widen(),
    decreases count,
{
    let last = (count - 1) as nat;
    law_one_point_per_kept_pixel(rgb, depth, confidence, k, params, last);
    let before = points(rgb, depth, confidence, k, params, last);
    if j < before.len() {
        law_points_have_measured_depth(rgb, depth, confidence, k, params, last, j)
    } else {
        let dw = params.depth_width as nat;
        assert(dw > 0) by (nonlinear_arith)
            requires
                last < dw * params.depth_height,
                last >= 0,
                dw >= 0,
        ;
        lemma_fundamental_div_mod(last as int, dw as int);
        lemma_mul_is_commutative(dw as int, (last / dw) as int);
        last as int
    }
}

/// How many are kept where one is, and where all are.
pub(crate) proof fn lemma_kept_count(
    depth: Seq<Single>,
    confidence: Option<Seq<Confidence>>,
    min: Confidence,
    count: nat,
)
    ensures
        forall|i: int|
            0 <= i < count && #[trigger] kept(depth, confidence, min, i) ==> kept_count(
                depth,
                confidence,
                min,
                count,
            ) > 0,
        (forall|i: int| 0 <= i < count ==> #[trigger] kept(depth, confidence, min, i))
            ==> kept_count(depth, confidence, min, count) == count,
        kept_count(depth, confidence, min, count) <= count,
    decreases count,
{
    if count > 0 {
        lemma_kept_count(depth, confidence, min, (count - 1) as nat);
    }
}

/// No level given is the highest level given for every sample.
pub proof fn law_absent_confidence_counts_as_high(
    rgb: Seq<u8>,
    depth: Seq<Single>,
    k: Intrinsics,
    params: UnprojectParams,
    count: nat,
)
    requires
        count <= depth.len(),
    ensures
        points(rgb, depth, None, k, params, count) == points(
            rgb,
            depth,
            Some(Seq::new(depth.len(), |i: int| Confidence::High)),
            k,
            params,
            count,
        ),
    decreases count,
{
    if count > 0 {
        law_absent_confidence_counts_as_high(rgb, depth, k, params, (count - 1) as nat);
    }
}

/// A higher threshold keeps no sample that a lower one drops.
pub proof fn law_higher_threshold_keeps_less(
    depth: Seq<Single>,
    confidence: Option<Seq<Confidence>>,
    low: Confidence,
    high: Confidence,
    count: nat,
)
    requires
        low.level() <= high.level(),
    ensures
        forall|i: int| kept(depth, confidence, high, i) ==> kept(depth, confidence, low, i),
        kept_count(depth, confidence, high, count) <= kept_count(depth, confidence, low, count),
    decreases count,
{
    if count > 0 {
        law_higher_threshold_keeps_less(depth, confidence, low, high, (count - 1) as nat);
    }
}

/// The depth samples with what is not kept replaced by what is not a number.
pub open spec fn masked(
    depth: Seq<Single>,
    confidence: Option<Seq<Confidence>>,
    min: Confidence,
) -> Seq<Single> {
    Seq::new(
        depth.len(),
        |i: int|
            if kept(depth, confidence, min, i) {
                depth[i]
            } else {
                Single { bits: SINGLE_NOT_A_NUMBER }
            },
    )
}

/// Masking the depth samples first is the same as filtering by confidence.
pub proof fn law_masking_is_filtering(
    rgb: Seq<u8>,
    depth: Seq<Single>,
    confidence: Option<Seq<Confidence>>,
    k: Intrinsics,
    params: UnprojectParams,
    count: nat,
)
    requires
        count <= depth.len(),
        depth.len() == params.depth_width * params.depth_height,
    ensures
        points(
            rgb,
            masked(depth, confidence, params.min_confidence),
            None,
            k,
            params,
            count,
        ) == points(rgb, depth, confidence, k, params, count),
    decreases count,
{
    if count > 0 {
        let i = (count - 1) as nat;
        law_masking_is_filtering(rgb, depth, confidence, k, params, i);
        let dw = params.depth_width as nat;
        assert(dw > 0) by (nonlinear_arith)
            requires
                i < dw * params.depth_height,
                i >= 0,
                dw >= 0,
        ;
        lemma_fundamental_div_mod(i as int, dw as int);
        lemma_mul_is_commutative(dw as int, (i / dw) as int);
    }
}

/// A depth sample counts exactly where it is a finite number above zero and its level,
/// where there are levels, is the threshold or above: every level is above low, all but
/// low are above medium, and only high is above high.
pub proof fn law_which_samples_count(
    depth: Seq<Single>,
    confidence: Option<Seq<Confidence>>,
    min: Confidence,
    i: int,
)
    ensures
        kept(depth, confidence, min, i) <==> {
            &&& 0 < depth[i].bits < 0x7f80_0000
            &&& match confidence {
                None => true,
                Some(c) => match min {
                    Confidence::Low => true,
                    Confidence::Medium => c[i] != Confidence::Low,
                    Confidence::High => c[i] == Confidence::High,
                },
            }
        },
{
}

} // verus!
