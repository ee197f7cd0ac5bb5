//! What the steps of a conversion give, in terms of what goes into them: for every input, and
//! for every result that a call can have.
use vstd::arithmetic::power2::pow2;
use vstd::math::abs;
use vstd::prelude::*;

use crate::accuracy::{
    is_half_way, law_difference_is_close, law_midpoint_is_half_way, law_narrowing_is_close,
    law_product_is_close, law_quotient_is_close, law_sum_is_close,
};
use crate::batch::UsageError;
use crate::blending::{is_fair, like_exponential};
use crate::convert::{
    convert_one, decode_grid, depth_error, law_depth_is_looked_at_first,
    law_one_record_per_kept_pixel, prepare, resolve_intrinsics, row_map, ConvertError,
    ConvertOptions, DepthGrid, DepthMap, Photo, Prepared, RgbContents, RgbFile,
};
use crate::db::{law_relative_paths_come_below_the_root, DbError, PhotoRow};
use crate::decode::{eight_bytes, Confidence, DecodeError, Intrinsics};
use crate::double::{
    law_clamped_index, law_counts_are_exact, law_finite_singles, law_less_compares_values,
    law_lesser_and_greater, law_widening_loses_nothing, Double, Single,
};
use crate::jpeg::{
    is_decodable, is_plain_frame, law_other_files_can_be_decoded, law_plain_photos_can_be_decoded,
    Colors,
};
use crate::mean::{
    depth_sum, fades, is_edge, is_guided_by, law_blend_of_any_depths_is_the_weighted_mean,
    law_depth_does_not_bleed_across_edges, law_upsampled_depth_is_the_weighted_mean, signed_depth,
    signed_sum, weight_sum,
};
use crate::photo::{
    broken_off, chosen_format, decode_photo, law_broken_files_are_undecodable,
    law_outcomes_of_decoding, rgb_image, says_unknown, text_of, PhotoError, RgbImage,
};
use crate::steps::{
    law_cloud_comes_of_the_photo, law_depth_map_of_a_row, law_factor_one_takes_the_map_as_it_is,
    law_image_errors_name_the_file, law_made_up_matrix_is_centred,
    law_prepared_photo_is_that_of_the_row, law_stored_matrix_is_used,
    law_which_depth_maps_are_refused,
};
use crate::taps::{
    centre_falls_in, colors_differ_by, is_color_exponent, is_sample_for, is_spatial_exponent,
    law_colour_exponent, law_one_tap_per_sample, law_spatial_exponent, taps_of,
};
use crate::text::{decimal, integer};
use crate::unproject::{kept_count, law_which_samples_count};
use crate::upsample::{
    blend, blends_to, joint_bilateral_upsample, law_pixels_are_in_their_places, pixel_taps, taps,
    upsample_row, Tap, UpsampleParams, UpsampledDepth, Weight,
};
use crate::write::{LazCloud, WriteError};

verus! {

/// The taps of an output pixel are those of the finite samples no more than three columns and rows
/// away, row by row. The depth of a tap is that of its sample, and its exponents are those of the
/// distance and of the difference in colour, for every guide pixel `there` that the centre of the
/// sample falls in, and `at` for the output pixel.
pub proof fn law_taps(
    low: &[Single],
    rgb: &[u8],
    p: &UpsampleParams,
    ox: u32,
    oy: u32,
    r: Vec<Tap>,
    at: (nat, nat),
) -> (samples: Seq<(nat, nat)>)
    requires
        call_ensures(taps, (low, rgb, p, ox, oy), r),
        p.valid(),
        p.guide_width > 0 && p.guide_height > 0,
        ox < p.low_width * p.factor && oy < p.low_height * p.factor,
        centre_falls_in(ox as nat, (p.low_width * p.factor) as nat, at.0, p.guide_width as nat),
        centre_falls_in(oy as nat, (p.low_height * p.factor) as nat, at.1, p.guide_height as nat),
    ensures
        ({
            let o = (ox as nat, oy as nat);
            &&& taps_of(low@, rgb@, *p, o, r@, samples)
            &&& forall|q: (nat, nat)|
                is_sample_for(low@, *p, o, q) ==> #[trigger] samples.contains(q)
            &&& forall|j: int|
                #![trigger r@[j]]
                0 <= j < r@.len() ==> is_spatial_exponent(r@[j].spatial, o, samples[j], p.factor)
            &&& forall|j: int, there: (nat, nat)|
                #![trigger r@[j], is_guided_by(*p, samples[j], there)]
                0 <= j < r@.len() && is_guided_by(*p, samples[j], there) ==> is_color_exponent(
                    r@[j].color,
                    colors_differ_by(rgb@, p.guide_width, at, there),
                )
        }),
{
    let o = (ox as nat, oy as nat);
    let samples = law_one_tap_per_sample(low@, rgb@, *p, o);
    assert forall|j: int|
        #![trigger r@[j]]
        0 <= j < r@.len() implies is_spatial_exponent(r@[j].spatial, o, samples[j], p.factor) by {
        law_spatial_exponent(low@, rgb@, *p, o, samples[j]);
    }
    assert forall|j: int, there: (nat, nat)|
        #![trigger r@[j], is_guided_by(*p, samples[j], there)]
        0 <= j < r@.len() && is_guided_by(*p, samples[j], there) implies is_color_exponent(
        r@[j].color,
        colors_differ_by(rgb@, p.guide_width, at, there),
    ) by {
        law_colour_exponent(low@, rgb@, *p, o, samples[j], at, there);
    }
    samples
}

/// A blend of depths is their weighted mean, up to rounding.
pub proof fn law_blend(taps: &Vec<Tap>, weights: &Vec<Weight>, r: Single)
    requires
        call_ensures(blend, (taps, weights), r),
        1 <= taps@.len() <= 49,
        weights@.len() == taps@.len(),
        forall|i: int| 0 <= i < weights@.len() ==> is_fair(#[trigger] weights@[i]),
        forall|i: int| 0 <= i < taps@.len() ==> (#[trigger] taps@[i]).depth.finite(),
    ensures
        ({
            let w = weight_sum(weights@, taps@.len());
            let d = signed_sum(taps@, weights@, taps@.len());
            let size = depth_sum(taps@, weights@, taps@.len());
            &&& r.finite()
            &&& w > 0
            &&& abs(signed_depth(r) * w - d) * 0x80_0000 <= size + w * 0x80_0000
        }),
{
    law_blend_of_any_depths_is_the_weighted_mean(taps@, weights@);
}

/// A row of an upsampled depth map has so many times the columns, and each of its pixels is a blend
/// of the taps of that pixel.
pub proof fn law_upsample_row<F: Fn(Double) -> Double>(
    low: &[Single],
    rgb: &[u8],
    p: &UpsampleParams,
    oy: u32,
    exp: &F,
    r: Vec<Single>,
    ox: nat,
)
    requires
        call_ensures(upsample_row::<F>, (low, rgb, p, oy, exp), r),
        ox < p.low_width * p.factor,
    ensures
        r@.len() == p.low_width * p.factor,
        blends_to(*exp, pixel_taps(low@, rgb@, *p, ox, oy as nat), r@[ox as int]),
{
}

/// An upsampled depth map has so many times the columns and the rows. Where there are samples near
/// a pixel, of which one is `own`, the depth of the pixel is the mean of them, weighted with the
/// values of the exponential function for their distance and their colour.
pub proof fn law_joint_bilateral_upsample<F: Fn(Double) -> Double>(
    low: &[Single],
    low_w: u32,
    low_h: u32,
    rgb: &[u8],
    guide_w: u32,
    guide_h: u32,
    factor: u32,
    exp: &F,
    r: UpsampledDepth,
    o: (nat, nat),
    own: (nat, nat),
) -> (made_of: (Seq<(nat, nat)>, Seq<Weight>))
    requires
        call_ensures(
            joint_bilateral_upsample::<F>,
            (low, low_w, low_h, rgb, guide_w, guide_h, factor, exp),
            r,
        ),
        factor >= 1,
        low_w * factor <= u32::MAX && low_h * factor <= u32::MAX,
        o.0 < low_w * factor && o.1 < low_h * factor,
        like_exponential(*exp),
        ({
            let p = UpsampleParams {
                low_width: low_w,
                low_height: low_h,
                guide_width: guide_w,
                guide_height: guide_h,
                factor,
            };
            is_sample_for(low@, p, o, own)
        }),
    ensures
        r.width == low_w * factor,
        r.height == low_h * factor,
        r.depth@.len() == (low_w * factor) * (low_h * factor),
        ({
            let p = UpsampleParams {
                low_width: low_w,
                low_height: low_h,
                guide_width: guide_w,
                guide_height: guide_h,
                factor,
            };
            let (samples, weights) = made_of;
            let near = pixel_taps(low@, rgb@, p, o.0, o.1);
            let n = near.len();
            let depth = r.depth@[(o.1 * (low_w * factor) + o.0) as int];
            let (w, d) = (weight_sum(weights, n), signed_sum(near, weights, n));
            &&& taps_of(low@, rgb@, p, o, near, samples)
            &&& weights.len() == n
            &&& forall|q: (nat, nat)|
                is_sample_for(low@, p, o, q) ==> #[trigger] samples.contains(q)
            &&& forall|j: int|
                #![trigger near[j]]
                0 <= j < n ==> {
                    &&& call_ensures(*exp, (near[j].spatial,), weights[j].spatial)
                    &&& call_ensures(*exp, (near[j].color,), weights[j].color)
                    &&& is_spatial_exponent(near[j].spatial, o, samples[j], factor)
                }
            &&& depth.finite()
            &&& w > 0
            &&& abs(signed_depth(depth) * w - d) * 0x80_0000 <= depth_sum(near, weights, n) + w
                * 0x80_0000
        }),
{
    let p = UpsampleParams {
        low_width: low_w,
        low_height: low_h,
        guide_width: guide_w,
        guide_height: guide_h,
        factor,
    };
    law_pixels_are_in_their_places(*exp, low@, rgb@, p, r.depth@, o.0, o.1);
    let depth = r.depth@[(o.1 * (low_w * factor) + o.0) as int];
    law_upsampled_depth_is_the_weighted_mean(*exp, low@, rgb@, p, o, own, depth)
}

/// Depth does not bleed across an edge between two opposite colours: a pixel of the colour of the
/// samples at depth `a` is at depth `a`, but for next to nothing.
pub proof fn law_upsampling_keeps_edges<F: Fn(Double) -> Double>(
    low: &[Single],
    rgb: &[u8],
    p: UpsampleParams,
    exp: &F,
    r: UpsampledDepth,
    o: (nat, nat),
    at: (nat, nat),
    own: (nat, nat),
    there: (nat, nat),
    a: Single,
    b: Single,
)
    requires
        call_ensures(
            joint_bilateral_upsample::<F>,
            (
                low,
                p.low_width,
                p.low_height,
                rgb,
                p.guide_width,
                p.guide_height,
                p.factor,
                exp,
            ),
            r,
        ),
        fades(*exp),
        p.valid(),
        p.guide_width > 0 && p.guide_height > 0,
        o.0 < p.low_width * p.factor && o.1 < p.low_height * p.factor,
        centre_falls_in(o.0, (p.low_width * p.factor) as nat, at.0, p.guide_width as nat),
        centre_falls_in(o.1, (p.low_height * p.factor) as nat, at.1, p.guide_height as nat),
        a.spec_is_positive(),
        b.spec_is_positive(),
        is_edge(low@, rgb@, p, o, at, a, b),
        is_sample_for(low@, p, o, own),
        is_guided_by(p, own, there),
        colors_differ_by(rgb@, p.guide_width, at, there) == 0,
    ensures
        ({
            let depth = r.depth@[(o.1 * (p.low_width * p.factor) + o.0) as int];
            &&& depth.spec_is_positive()
            &&& abs(depth.units() - a.units()) * pow2(123) <= abs(b.units() - a.units()) + (
            a.units() + 0x80_0000) * pow2(100)
        }),
{
    law_pixels_are_in_their_places(*exp, low@, rgb@, p, r.depth@, o.0, o.1);
    let depth = r.depth@[(o.1 * (p.low_width * p.factor) + o.0) as int];
    law_depth_does_not_bleed_across_edges(
        *exp,
        low@,
        rgb@,
        p,
        o,
        at,
        own,
        there,
        a,
        b,
        depth,
    );
}

/// The depth map of a row decodes exactly where its blobs fit the sizes, and is then what the bytes
/// hold.
pub proof fn law_decode_grid(row: &PhotoRow, r: Result<DepthGrid, ConvertError>)
    requires
        call_ensures(decode_grid, (row,), r),
    ensures
        ({
            let len = row.depth_bytes@.len();
            let count = row.depth_width * row.depth_height;
            let fits = row.confidence_width == row.depth_width && row.confidence_height
                == row.depth_height;
            let short = row.confidence_bytes matches Some(bytes) && fits && bytes@.len() != count;
            &&& r is Ok <==> len > 0 && len == 4 * count && !short
            &&& len == 0 ==> r == Err::<DepthGrid, ConvertError>(
                ConvertError::NoDepth { id: row.id },
            )
            &&& r matches Ok(grid) ==> {
                &&& grid.width == row.depth_width && grid.height == row.depth_height
                &&& grid.depth@.len() == count
                &&& grid.confidence is Some <==> row.confidence_bytes is Some && fits
                &&& grid.confidence matches Some(c) ==> c@.len() == count
            }
        }),
        r matches Ok(grid) ==> forall|i: int|
            #![trigger grid.depth@[i]]
            0 <= i < grid.depth@.len() ==> {
                let bytes = row.depth_bytes@;
                &&& grid.depth@[i].bits == bytes[4 * i] + 0x100 * bytes[4 * i + 1] + 0x1_0000
                    * bytes[4 * i + 2] + 0x100_0000 * bytes[4 * i + 3]
                &&& grid.confidence matches Some(c) ==> {
                    let b = row.confidence_bytes->0@[i];
                    &&& c@[i] == Confidence::High <==> b == 2
                    &&& c@[i] == Confidence::Medium <==> b == 1
                }
            },
{
    law_which_depth_maps_are_refused(*row);
    if let Ok(grid) = r {
        assert forall|i: int|
            #![trigger grid.depth@[i]]
            0 <= i < grid.depth@.len() implies {
            let bytes = row.depth_bytes@;
            &&& grid.depth@[i].bits == bytes[4 * i] + 0x100 * bytes[4 * i + 1] + 0x1_0000 * bytes[4
                * i + 2] + 0x100_0000 * bytes[4 * i + 3]
            &&& grid.confidence matches Some(c) ==> {
                let b = row.confidence_bytes->0@[i];
                &&& c@[i] == Confidence::High <==> b == 2
                &&& c@[i] == Confidence::Medium <==> b == 1
            }
        } by {
            law_depth_map_of_a_row(*row, i);
        }
    }
}

/// The camera matrix of a photo is the one that its row stores, or else the one that is given, or
/// else one that is made up from the field of view; without any of them there is an error.
pub proof fn law_resolve_intrinsics<T: Fn(Double) -> Double>(
    row: &PhotoRow,
    rgb_w: u32,
    rgb_h: u32,
    opts: &ConvertOptions,
    tan: &T,
    r: Result<Intrinsics, ConvertError>,
)
    requires
        call_ensures(resolve_intrinsics::<T>, (row, rgb_w, rgb_h, opts, tan), r),
    ensures
        ({
            let stored = row.intrinsics_bytes matches Some(bytes) && bytes@.len() > 0;
            let given = opts.fallback_intrinsics;
            let angle = opts.fallback_hfov_degrees;
            &&& stored ==> {
                let blob = row.intrinsics_bytes->0@;
                &&& r is Ok <==> blob.len() == 72
                &&& r matches Ok(k) ==> {
                    &&& k.fx.bits == eight_bytes(blob, 0) && k.cx.bits == eight_bytes(blob, 16)
                    &&& k.fy.bits == eight_bytes(blob, 32) && k.cy.bits == eight_bytes(blob, 40)
                }
                &&& r matches Err(e) ==> e == (ConvertError::Intrinsics {
                    id: row.id,
                    error: DecodeError::IntrinsicsSize(blob.len() as usize),
                })
            }
            &&& !stored ==> (given matches Some(k) ==> r == Ok::<Intrinsics, ConvertError>(k))
            &&& !stored && given is None && angle is Some ==> {
                &&& r is Ok && r->Ok_0.fy == r->Ok_0.fx
                &&& 2 * r->Ok_0.cx.signed_units() == rgb_w * pow2(1074)
                &&& 2 * r->Ok_0.cy.signed_units() == rgb_h * pow2(1074)
            }
            &&& !stored && given is None && angle is None ==> r == Err::<Intrinsics, ConvertError>(
                ConvertError::NoIntrinsics { id: row.id },
            )
        }),
{
    let stored = row.intrinsics_bytes matches Some(bytes) && bytes@.len() > 0;
    if stored {
        law_stored_matrix_is_used(*tan, *row, rgb_w, rgb_h, *opts, r);
    } else if opts.fallback_intrinsics is None && opts.fallback_hfov_degrees is Some {
        law_made_up_matrix_is_centred(
            *tan,
            *row,
            rgb_w,
            rgb_h,
            *opts,
            opts.fallback_hfov_degrees->0,
            r,
        );
    }
}

/// What comes of the file of an image that cannot be opened, read or decoded names the file.
pub proof fn law_load(file: RgbFile, r: Result<RgbImage, ConvertError>)
    requires
        call_ensures(RgbFile::load, (file,), r),
    ensures
        match file.contents {
            RgbContents::NotOpened(words) => r == Err::<RgbImage, ConvertError>(
                ConvertError::OpenRgb { path: file.path, words },
            ),
            RgbContents::NotRead(words) => r == Err::<RgbImage, ConvertError>(
                ConvertError::ReadRgb { path: file.path, words },
            ),
            RgbContents::BrokenOff(..) => r matches Err(ConvertError::DecodeRgb { path, .. })
                && path == file.path,
            RgbContents::Bytes(..) => r matches Err(e) ==> e is DecodeRgb && e->DecodeRgb_path
                == file.path,
        },
        r matches Ok(image) ==> image.width > 0 && image.height > 0 && image.pixels@.len()
            == image.width * image.height * 3,
{
    law_image_errors_name_the_file(file, r);
}

/// A photo that is prepared has the depth map of its row, the pixels of its image, and what the
/// options ask for.
pub proof fn law_prepare<T: Fn(Double) -> Double>(
    row: &PhotoRow,
    file: RgbFile,
    opts: &ConvertOptions,
    tan: &T,
    r: Result<Prepared, ConvertError>,
)
    requires
        call_ensures(prepare::<T>, (row, file, opts, tan), r),
    ensures
        r matches Ok(p) ==> {
            &&& p.id == row.id
            &&& p.min_confidence == opts.min_confidence
            &&& p.upsample_factor == opts.upsample_factor
            &&& p.grid.width == row.depth_width && p.grid.height == row.depth_height
            &&& p.grid.depth@.len() == row.depth_width * row.depth_height
            &&& row.depth_bytes@.len() == 4 * p.grid.depth@.len()
            &&& file.contents is Bytes
            &&& p.rgb.width > 0 && p.rgb.height > 0
            &&& p.rgb.pixels@.len() == p.rgb.width * p.rgb.height * 3
            &&& row.intrinsics_bytes matches Some(bytes) ==> bytes@.len() == 72
                ==> p.intrinsics.fx.bits == eight_bytes(bytes@, 0) && p.intrinsics.fy.bits
                == eight_bytes(bytes@, 32) && p.intrinsics.cx.bits == eight_bytes(bytes@, 16)
                && p.intrinsics.cy.bits == eight_bytes(bytes@, 40)
        },
        row.depth_bytes@.len() == 0 ==> r == Err::<Prepared, ConvertError>(
            ConvertError::NoDepth { id: row.id },
        ),
{
    law_which_depth_maps_are_refused(*row);
    if let Ok(p) = r {
        let rgb = law_prepared_photo_is_that_of_the_row(*tan, *row, file, *opts, p@);
        law_image_errors_name_the_file(file, Ok(rgb));
        if row.intrinsics_bytes is Some && row.intrinsics_bytes->0@.len() == 72 {
            law_stored_matrix_is_used(
                *tan,
                *row,
                rgb.width,
                rgb.height,
                *opts,
                Ok(p.intrinsics),
            );
        }
    }
}

/// The samples that upsampling goes by are those that are kept; in the place of every other one is
/// what is not a number.
pub proof fn law_anchors(p: &Prepared, r: Vec<Single>, i: int)
    requires
        call_ensures(Prepared::anchors, (p,), r),
        0 <= i < p.grid.depth@.len(),
    ensures
        r@.len() == p.grid.depth@.len(),
        ({
            let sample = p.grid.depth@[i];
            let trusted = match (p.grid.confidence, p.min_confidence) {
                (None, _) => true,
                (Some(c), Confidence::Low) => true,
                (Some(c), Confidence::Medium) => c@[i] != Confidence::Low,
                (Some(c), Confidence::High) => c@[i] == Confidence::High,
            };
            let positive = 0 < sample.bits < 0x7f80_0000;
            &&& positive && trusted ==> r@[i] == sample
            &&& !(positive && trusted) ==> r@[i].nan()
        }),
{
    law_which_samples_count(
        p.grid.depth@,
        p@.map.levels,
        p.min_confidence,
        i,
    );
}

/// An upsampled depth map has so many times the columns and the rows, and no confidence.
pub proof fn law_upsampled<F: Fn(Double) -> Double>(p: &Prepared, exp: &F, r: DepthGrid)
    requires
        call_ensures(Prepared::upsampled::<F>, (p, exp), r),
        p.upsample_factor >= 2,
    ensures
        r.width == p.grid.width * p.upsample_factor,
        r.height == p.grid.height * p.upsample_factor,
        r.depth@.len() == r.width * r.height,
        r.confidence is None,
        p@.works_on(*exp, r@),
{
    law_factor_one_takes_the_map_as_it_is(*exp, p@, r@);
}

/// A depth map without a pixel that is kept has no cloud. Any other has one, with a record for each
/// pixel that is kept.
pub proof fn law_finish(p: &Prepared, grid: &DepthGrid, r: Result<LazCloud, ConvertError>)
    requires
        call_ensures(Prepared::finish, (p, grid), r),
    ensures
        ({
            let count = kept_count(
                grid.depth@,
                grid@.levels,
                p.min_confidence,
                grid.depth@.len(),
            );
            &&& r is Ok <==> count > 0
            &&& r matches Ok(cloud) ==> cloud.records@.len() == count
            &&& r matches Err(e) ==> e == (ConvertError::NoPoints {
                id: p.id,
                min_confidence: p.min_confidence,
            })
        }),
{
    law_one_record_per_kept_pixel(p@, grid@, r);
}

/// A conversion gives the cloud of the photo of the row: the one that is prepared from the row, the
/// image and the options, and of its depth map as it is up to a factor of one, or upsampled from two
/// on.
pub proof fn law_convert_one<F: Fn(Double) -> Double, T: Fn(Double) -> Double>(
    row: &PhotoRow,
    file: RgbFile,
    opts: &ConvertOptions,
    exp: &F,
    tan: &T,
    cloud: LazCloud,
) -> (made_of: (Photo, DepthMap))
    requires
        call_ensures(
            convert_one::<F, T>,
            (row, file, opts, exp, tan),
            Ok::<LazCloud, ConvertError>(cloud),
        ),
    ensures
        ({
            let (photo, map) = made_of;
            &&& photo.id == row.id
            &&& photo.map == row_map(*row)
            &&& photo.min_confidence == opts.min_confidence
            &&& photo.upsample_factor == opts.upsample_factor
            &&& photo.rgb_width > 0 && photo.rgb_height > 0
            &&& photo.finishes_as(map, Ok(cloud))
            &&& photo.works_on(*exp, map)
            &&& opts.upsample_factor <= 1 ==> map == photo.map
            &&& opts.upsample_factor >= 2 ==> {
                &&& map.width == row.depth_width * opts.upsample_factor
                &&& map.height == row.depth_height * opts.upsample_factor
                &&& map.levels is None
            }
            &&& cloud.records@.len() == kept_count(
                map.depth,
                map.levels,
                opts.min_confidence,
                map.depth.len(),
            )
        }),
{
    let (photo, map) = law_cloud_comes_of_the_photo(*exp, *tan, *row, file, *opts, cloud);
    let rgb = law_prepared_photo_is_that_of_the_row(*tan, *row, file, *opts, photo);
    law_factor_one_takes_the_map_as_it_is(*exp, photo, map);
    law_one_record_per_kept_pixel(photo, map, Ok(cloud));
    (photo, map)
}

/// A conversion of a photo without a depth blob, or with one of the wrong length, is refused for
/// that.
pub proof fn law_convert_one_looks_at_depth_first<
    F: Fn(Double) -> Double,
    T: Fn(Double) -> Double,
>(
    row: &PhotoRow,
    file: RgbFile,
    opts: &ConvertOptions,
    exp: &F,
    tan: &T,
    r: Result<LazCloud, ConvertError>,
)
    requires
        call_ensures(convert_one::<F, T>, (row, file, opts, exp, tan), r),
    ensures
        row.depth_bytes@.len() == 0 ==> r == Err::<LazCloud, ConvertError>(
            ConvertError::NoDepth { id: row.id },
        ),
        row.depth_bytes@.len() > 0 && row.depth_bytes@.len() != 4 * (row.depth_width
            * row.depth_height) ==> r is Err && r->Err_0 is Depth && r->Err_0->Depth_id == row.id,
{
    law_which_depth_maps_are_refused(*row);
    if depth_error(*row) is Some {
        law_depth_is_looked_at_first(*exp, *tan, *row, file, *opts, r);
    }
}

/// Samples become an image exactly where there are pixels.
pub proof fn law_rgb_image(
    width: u32,
    height: u32,
    samples: Vec<u8>,
    r: Result<RgbImage, PhotoError>,
)
    requires
        call_ensures(rgb_image, (width, height, samples), r),
    ensures
        r matches Ok(image) ==> {
            &&& width > 0 && height > 0
            &&& image.width == width && image.height == height && image.pixels == samples
        },
        r matches Err(e) ==> (width == 0 || height == 0) && e == PhotoError::NoPixels,
{
}

/// Decoding fails for want of a format exactly where neither the content nor the name tells it.
pub proof fn law_decode_photo(
    bytes: &[u8],
    extension: Option<&str>,
    r: Result<RgbImage, PhotoError>,
)
    requires
        call_ensures(decode_photo, (bytes, extension), r),
    ensures
        ({
            let format = chosen_format(bytes@, text_of(extension));
            &&& format is None ==> (r matches Err(e) && says_unknown(text_of(extension), e))
            &&& r matches Ok(image) ==> format is Some && image.width > 0 && image.height > 0
        }),
{
    law_outcomes_of_decoding(bytes@, text_of(extension), r);
}

/// A file that breaks off is undecodable in the words that reading it gave, where its format is
/// known.
pub proof fn law_broken_off(start: &[u8], extension: Option<&str>, words: String, r: PhotoError)
    requires
        call_ensures(broken_off, (start, extension, words), r),
    ensures
        chosen_format(start@, text_of(extension)) is Some ==> (r matches PhotoError::Undecodable(w)
            && w@ == words@),
        chosen_format(start@, text_of(extension)) is None ==> r is UnknownFormat,
{
    law_broken_files_are_undecodable(start@, text_of(extension), words@, r);
}

/// A file that is no JPEG file, or is one of the usual layout with its frame at the start, can be
/// handed to the decoder.
pub proof fn law_is_decodable(bytes: &[u8], r: bool)
    requires
        call_ensures(is_decodable, (bytes,), r),
    ensures
        bytes@.len() < 2 || bytes@[0] != 0xff || bytes@[1] != 0xd8 ==> r,
        bytes@.len() >= 26 && bytes@[0] == 0xff && bytes@[1] == 0xd8 && is_plain_frame(bytes@, 2)
            && bytes@[21] == 0xff && bytes@[22] == 0xda ==> r,
{
    if bytes@.len() < 2 || bytes@[0] != 0xff || bytes@[1] != 0xd8 {
        law_other_files_can_be_decoded(bytes@);
    } else if bytes@.len() >= 26 && is_plain_frame(bytes@, 2) && bytes@[21] == 0xff && bytes@[22]
        == 0xda {
        law_plain_photos_can_be_decoded(bytes@, 2, Colors::YCbCr);
    }
}

/// The results of the arithmetic are the exact ones, up to one part in `2^53` and half a unit.
pub proof fn law_arithmetic(
    a: Double,
    b: Double,
    sum: Double,
    difference: Double,
    product: Double,
    quotient: Double,
)
    requires
        a.finite(),
        b.finite(),
        call_ensures(Double::add, (a, b), sum),
        call_ensures(Double::sub, (a, b), difference),
        call_ensures(Double::mul, (a, b), product),
        call_ensures(Double::div, (a, b), quotient),
    ensures
        ({
            let (x, y, one) = (a.signed_units(), b.signed_units(), pow2(1074));
            let (c, h) = (0x20_0000_0000_0000int, 0x10_0000_0000_0000int);
            &&& sum.finite() ==> abs(sum.signed_units() - (x + y)) * c <= abs(x + y)
            &&& difference.finite() ==> abs(difference.signed_units() - (x - y)) * c <= abs(x - y)
            &&& product.finite() ==> abs(product.signed_units() * one - x * y) * c <= abs(x * y) + one
                * h
            &&& quotient.finite() && !b.zero() ==> abs(quotient.signed_units() * y - x * one) * c
                <= abs(x * one) + b.units() * h
            &&& abs(x + y) <= pow2(2000) ==> sum.finite()
            &&& abs(x - y) <= pow2(2000) ==> difference.finite()
            &&& abs(x * y) <= pow2(2000) * one ==> product.finite()
            &&& !b.zero() && abs(x * one) <= pow2(2000) * b.units() ==> quotient.finite()
        }),
{
    law_sum_is_close(a, b);
    law_difference_is_close(a, b);
    law_product_is_close(a, b);
    if !b.zero() {
        law_quotient_is_close(a, b);
    }
}

/// Comparing goes by the values; the lesser, the greater and the midpoint are what they are called.
pub proof fn law_comparisons(
    a: Double,
    b: Double,
    less: bool,
    least: Double,
    most: Double,
    middle: Double,
)
    requires
        a.finite(),
        b.finite(),
        call_ensures(Double::less, (a, b), less),
        call_ensures(Double::min, (a, b), least),
        call_ensures(Double::max, (a, b), most),
        call_ensures(Double::midpoint, (a, b), middle),
    ensures
        less <==> a.signed_units() < b.signed_units(),
        (least == a || least == b) && (most == a || most == b),
        least.rank() <= a.rank() <= most.rank() && least.rank() <= b.rank() <= most.rank(),
        !b.spec_less(a) ==> is_half_way(middle, a, b),
{
    law_less_compares_values(a, b);
    law_lesser_and_greater(a, b);
    if !b.spec_less(a) {
        law_midpoint_is_half_way(a, b);
    }
}

/// Counts and single-precision numbers are exact in double precision; whole parts are cut off, and
/// narrowing is off by one part in `2^24` and half a unit.
pub proof fn law_changes_of_format(
    count: u32,
    x: Double,
    s: Single,
    limit: u32,
    from_count: Double,
    index: u32,
    wide: Double,
    narrow: Single,
)
    requires
        x.finite(),
        s.finite(),
        call_ensures(Double::from_count, (count,), from_count),
        call_ensures(Double::clamped_index, (x, limit), index),
        call_ensures(Single::widen, (s,), wide),
        call_ensures(Single::narrow, (x,), narrow),
    ensures
        from_count.finite() && from_count.signed_units() == count * pow2(1074),
        index <= limit,
        x.negative() ==> index == 0,
        !x.negative() ==> index * pow2(1074) <= x.units(),
        !x.negative() && index < limit ==> x.units() < (index + 1) * pow2(1074),
        wide.finite() && wide.negative() == s.negative() && wide.units() == s.units() * pow2(925),
        narrow.finite() ==> abs(narrow.units() * pow2(925) - x.units()) * 0x100_0000 <= x.units()
            + pow2(925) * 0x80_0000,
{
    law_counts_are_exact(count as nat);
    law_clamped_index(x, limit as nat);
    law_widening_loses_nothing(s);
    if narrow.finite() {
        law_narrowing_is_close(x);
    }
}

/// The errors in words.
pub proof fn law_messages(
    id: i64,
    factor: u32,
    level: Confidence,
    no_points: String,
    no_depth: String,
    not_found: String,
    upsample: String,
)
    requires
        call_ensures(
            ConvertError::message,
            (&ConvertError::NoPoints { id, min_confidence: level },),
            no_points,
        ),
        call_ensures(ConvertError::message, (&ConvertError::NoDepth { id },), no_depth),
        call_ensures(DbError::message, (&DbError::NotFound(id),), not_found),
        call_ensures(UsageError::message, (&UsageError::Upsample(factor),), upsample),
    ensures
        no_points@ == "photo "@ + integer(id as int, 0)
            + " produced 0 points after filtering (confidence threshold="@ + (match level {
            Confidence::Low => "Low"@,
            Confidence::Medium => "Medium"@,
            Confidence::High => "High"@,
        }) + ")"@,
        no_depth@ == "photo "@ + integer(id as int, 0)
            + " has no depth_bytes (pre-LiDAR or migration-stale row)"@,
        not_found@ == "photo id "@ + integer(id as int, 0) + " not found"@,
        upsample@ == "--upsample must be between 1 and 16 (got "@ + decimal(factor as nat) + ")"@,
{
}

/// The errors of decoding and of writing in words.
pub proof fn law_messages_of_decoding(
    len: usize,
    width: usize,
    height: usize,
    words: String,
    depth: String,
    confidence: String,
    matrix: String,
    format: String,
    empty: String,
)
    requires
        call_ensures(
            DecodeError::message,
            (&DecodeError::DepthSizeMismatch { len, width, height },),
            depth,
        ),
        call_ensures(
            DecodeError::message,
            (&DecodeError::ConfidenceSizeMismatch { len, width, height },),
            confidence,
        ),
        call_ensures(DecodeError::message, (&DecodeError::IntrinsicsSize(len),), matrix),
        call_ensures(PhotoError::message, (&PhotoError::Undecodable(words),), format),
        call_ensures(WriteError::message, (&WriteError::Empty,), empty),
    ensures
        depth@ == "depth blob length "@ + decimal(len as nat) + " does not match "@ + decimal(
            width as nat,
        ) + "x"@ + decimal(height as nat) + "*4"@,
        confidence@ == "confidence blob length "@ + decimal(len as nat) + " does not match "@
            + decimal(width as nat) + "x"@ + decimal(height as nat),
        matrix@ == "intrinsics blob length "@ + decimal(len as nat) + " != 72 (9 × f64)"@,
        format@ == words@,
        empty@ == "no points to write — every depth pixel was skipped"@,
{
}

/// The path of the image of a photo is that of its row, seen from the directory of the options.
pub proof fn law_rgb_path(opts: &ConvertOptions, row: &PhotoRow, r: String)
    requires
        call_ensures(ConvertOptions::rgb_path, (opts, row), r),
    ensures
        ({
            let (path, root) = (row.rgb_path@, opts.rgb_root@);
            let bare = root.len() == 0 || root[root.len() - 1] == '/';
            if path.len() > 0 && path[0] == '/' {
                r@ == path
            } else if bare {
                r@ == root + path
            } else {
                r@ == root + seq!['/'] + path
            }
        }),
{
    law_relative_paths_come_below_the_root(row.rgb_path@, opts.rgb_root@);
}

/// Which numbers are finite, and which are finite and above zero.
pub proof fn law_kinds_of_numbers(
    x: Double,
    s: Single,
    finite: bool,
    nan: bool,
    turned: Double,
    single_finite: bool,
    positive: bool,
)
    requires
        call_ensures(Double::is_finite, (x,), finite),
        call_ensures(Double::is_nan, (x,), nan),
        call_ensures(Double::neg, (x,), turned),
        call_ensures(Single::is_finite, (s,), single_finite),
        call_ensures(Single::is_positive, (s,), positive),
    ensures
        ({
            let m = if x.bits >= 0x8000_0000_0000_0000 {
                x.bits - 0x8000_0000_0000_0000
            } else {
                x.bits as int
            };
            &&& finite <==> m < 0x7ff0_0000_0000_0000
            &&& nan <==> m > 0x7ff0_0000_0000_0000
        }),
        turned.rank() == -x.rank() && turned.negative() != x.negative(),
        single_finite <==> s.bits < 0x7f80_0000 || 0x8000_0000 <= s.bits < 0xff80_0000,
        positive <==> 0 < s.bits < 0x7f80_0000,
{
    law_finite_singles(s);
}

} // verus!
