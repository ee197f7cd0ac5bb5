//! What the operations of the library give, in terms of what goes into them: for every
//! input, and for every result that a call can have.
use vstd::arithmetic::power2::{lemma_pow2_strictly_increases, pow2};
use vstd::math::abs;
use vstd::prelude::*;

use crate::batch::{
    all_convertible, failure_line, law_a_run_goes_over_what_it_can_convert, law_outcomes_add_up,
    law_which_requests_are_refused, named, outcome_count, success_line, ConvertRequest, Tally,
    UsageError,
};
use crate::calendar::{
    day_number, days_to_ymd, format_iso8601, law_milliseconds_are_cut_off, law_month_lengths,
    law_time_reads_back, month_length, shows_time,
};
use crate::convert::{
    centred, default_output_name, half_angle, synthesize_intrinsics, ConvertOptions,
};
use crate::db::{
    comma_separated, fetch_query, fetched, law_columns_are_asked_for_by_name,
    law_relative_paths_come_below_the_root, law_row_is_what_the_columns_hold, list_query,
    resolve_rgb_path, DbError, PhotoColumns, PhotoListEntry, PhotoRow, Schema,
};
use crate::decode::{
    decode_confidence, decode_depth, decode_intrinsics, eight_bytes,
    law_matrix_entries_in_their_places, law_other_bytes_are_low, law_samples_take_four_bytes,
    Confidence, DecodeError, Intrinsics,
};
use crate::double::{Double, Single, HALF_OF_LARGEST};
use crate::listing::{
    database_directory, is_photo_line, law_bare_names_are_looked_up, law_header_names_the_columns,
    law_line_says_what_can_be_converted, law_there_or_missing, law_what_is_shown, list, photo_line,
    places, rgb_check, shown, Listing, RgbCheck,
};
use crate::sight::{
    falls_in, in_proportion, is_ordinary, is_seen_at, law_half_angle_is_in_radians,
    law_made_up_matrix_has_the_field_of_view, law_points_have_the_colour_at_their_centre,
    law_points_lie_on_lines_of_sight, law_scaling_is_proportional,
};
use crate::steps::law_output_name_tells_id_and_time;
use crate::text::{decimal, integer, left_aligned, right_aligned, value};
use crate::unproject::{
    kept, kept_count, law_one_point_per_kept_pixel, law_points_have_measured_depth,
    law_which_samples_count, levels, unproject, ColoredPoint, UnprojectParams,
};
use crate::write::{laz_cloud, LazCloud, WriteError};

verus! {

/// Decoding a depth blob succeeds exactly where there are four bytes for each pixel, and gives
/// the sample in each four of them, the least significant byte first.
pub proof fn law_decode_depth(
    bytes: &[u8],
    width: u32,
    height: u32,
    r: Result<Vec<Single>, DecodeError>,
)
    requires
        call_ensures(decode_depth, (bytes, width, height), r),
    ensures
        r is Ok <==> bytes@.len() == width * height * 4,
        r matches Err(e) ==> e == (DecodeError::DepthSizeMismatch {
            len: bytes@.len() as usize,
            width: width as usize,
            height: height as usize,
        }),
        r matches Ok(depth) ==> depth@.len() == width * height && forall|i: int|
            0 <= i < depth@.len() ==> (#[trigger] depth@[i]).bits == bytes@[4 * i] + 0x100
                * bytes@[4 * i + 1] + 0x1_0000 * bytes@[4 * i + 2] + 0x100_0000 * bytes@[4 * i + 3],
{
    if let Ok(depth) = r {
        assert forall|i: int| 0 <= i < width * height implies (#[trigger] depth@[i]).bits
            == bytes@[4 * i] + 0x100 * bytes@[4 * i + 1] + 0x1_0000 * bytes@[4 * i + 2]
            + 0x100_0000 * bytes@[4 * i + 3] by {
            law_samples_take_four_bytes(bytes@, i);
        }
    }
}

/// Decoding a confidence blob succeeds exactly where there is a byte for each pixel, and gives
/// high for 2, medium for 1, and low for every other byte.
pub proof fn law_decode_confidence(
    bytes: &[u8],
    width: u32,
    height: u32,
    r: Result<Vec<Confidence>, DecodeError>,
)
    requires
        call_ensures(decode_confidence, (bytes, width, height), r),
    ensures
        r is Ok <==> bytes@.len() == width * height,
        r matches Err(e) ==> e == (DecodeError::ConfidenceSizeMismatch {
            len: bytes@.len() as usize,
            width: width as usize,
            height: height as usize,
        }),
        r matches Ok(levels) ==> levels@.len() == bytes@.len() && forall|i: int|
            0 <= i < bytes@.len() ==> #[trigger] levels@[i] == if bytes@[i] == 2 {
                Confidence::High
            } else if bytes@[i] == 1 {
                Confidence::Medium
            } else {
                Confidence::Low
            },
{
    if let Ok(levels) = r {
        assert forall|i: int| 0 <= i < bytes@.len() implies #[trigger] levels@[i] == if bytes@[i]
            == 2 {
            Confidence::High
        } else if bytes@[i] == 1 {
            Confidence::Medium
        } else {
            Confidence::Low
        } by {
            law_other_bytes_are_low(bytes@, i);
        }
    }
}

/// Decoding a camera matrix succeeds exactly for 72 bytes, and takes the entries from their
/// places.
pub proof fn law_decode_intrinsics(bytes: &[u8], r: Result<Intrinsics, DecodeError>)
    requires
        call_ensures(decode_intrinsics, (bytes,), r),
    ensures
        r is Ok <==> bytes@.len() == 72,
        r matches Err(e) ==> e == DecodeError::IntrinsicsSize(bytes@.len() as usize),
        r matches Ok(k) ==> {
            &&& k.fx.bits == eight_bytes(bytes@, 0) && k.cx.bits == eight_bytes(bytes@, 16)
            &&& k.fy.bits == eight_bytes(bytes@, 32) && k.cy.bits == eight_bytes(bytes@, 40)
        },
{
    if bytes@.len() == 72 {
        law_matrix_entries_in_their_places(bytes@);
    }
}

/// A level is at least another one where it is the same or comes behind it in the order of low,
/// medium and high.
pub proof fn law_at_least(level: Confidence, threshold: Confidence, r: bool)
    requires
        call_ensures(Confidence::at_least, (level, threshold), r),
    ensures
        r <==> match threshold {
            Confidence::Low => true,
            Confidence::Medium => level != Confidence::Low,
            Confidence::High => level == Confidence::High,
        },
{
}

/// Scaling changes the entries of a camera matrix in proportion to the size of the image.
pub proof fn law_scaled(
    k: &Intrinsics,
    from_w: u32,
    from_h: u32,
    to_w: u32,
    to_h: u32,
    r: Intrinsics,
)
    requires
        call_ensures(Intrinsics::scaled, (k, from_w, from_h, to_w, to_h), r),
        from_w > 0 && from_h > 0,
        k.fx.finite() && k.fx.units() <= pow2(1900),
        k.fy.finite() && k.fy.units() <= pow2(1900),
        k.cx.finite() && k.cx.units() <= pow2(1900),
        k.cy.finite() && k.cy.units() <= pow2(1900),
    ensures
        r.fx.finite() && in_proportion(k.fx, r.fx, from_w, to_w),
        r.fy.finite() && in_proportion(k.fy, r.fy, from_h, to_h),
        r.cx.finite() && in_proportion(k.cx, r.cx, from_w, to_w),
        r.cy.finite() && in_proportion(k.cy, r.cy, from_h, to_h),
{
    law_scaling_is_proportional(*k, from_w, from_h, to_w, to_h);
}

/// Whether a depth sample counts: it is a finite number above zero, and its level, where there
/// are levels, is not below the threshold.
pub open spec fn counts(
    depth: Seq<Single>,
    confidence: Option<&[Confidence]>,
    min: Confidence,
    i: int,
) -> bool {
    &&& 0 < depth[i].bits < 0x7f80_0000
    &&& match (confidence, min) {
        (None, _) => true,
        (Some(c), Confidence::Low) => true,
        (Some(c), Confidence::Medium) => c@[i] != Confidence::Low,
        (Some(c), Confidence::High) => c@[i] == Confidence::High,
    }
}

proof fn lemma_counts(
    depth: Seq<Single>,
    confidence: Option<&[Confidence]>,
    min: Confidence,
    i: int,
)
    ensures
        counts(depth, confidence, min, i) <==> kept(depth, levels(confidence), min, i),
{
    law_which_samples_count(depth, levels(confidence), min, i);
}

/// Unprojecting gives a point for each depth pixel that counts: it has the depth that was
/// measured there, lies on the line of sight of the pixel, and has the colour of the image pixel
/// at `at`, which the centre of the depth pixel falls in.
pub proof fn law_unproject(
    rgb: &[u8],
    depth: &[Single],
    confidence: Option<&[Confidence]>,
    k: &Intrinsics,
    params: &UnprojectParams,
    r: Vec<ColoredPoint>,
    u: nat,
    v: nat,
) -> (found: (int, (nat, nat)))
    requires
        call_ensures(unproject, (rgb, depth, confidence, k, params), r),
        depth@.len() == params.depth_width * params.depth_height,
        params.rgb_width > 0 && params.rgb_height > 0,
        u < params.depth_width && v < params.depth_height,
        counts(depth@, confidence, params.min_confidence, (v * params.depth_width + u) as int),
        is_ordinary(*k),
    ensures
        ({
            let (j, at) = found;
            let p = r@[j];
            let s = k.spec_scaled(
                params.rgb_width,
                params.rgb_height,
                params.depth_width,
                params.depth_height,
            );
            let first = 3 * (at.1 * params.rgb_width + at.0);
            &&& 0 <= j < r@.len()
            &&& p.z.finite() && p.x.finite() && p.y.finite()
            &&& p.z.signed_units() == depth@[(v * params.depth_width + u) as int].units() * pow2(925)
            &&& in_proportion(k.fx, s.fx, params.rgb_width, params.depth_width)
            &&& in_proportion(k.cx, s.cx, params.rgb_width, params.depth_width)
            &&& in_proportion(k.fy, s.fy, params.rgb_height, params.depth_height)
            &&& in_proportion(k.cy, s.cy, params.rgb_height, params.depth_height)
            &&& is_seen_at(p.x, (2 * u + 1) * pow2(1073), s.cx, s.fx, p.z)
            &&& is_seen_at(p.y, (2 * v + 1) * pow2(1073), s.cy, s.fy, p.z)
            &&& falls_in(u, at.0, params.rgb_width, params.depth_width)
            &&& falls_in(v, at.1, params.rgb_height, params.depth_height)
            &&& p.r == rgb@[first] && p.g == rgb@[first + 1] && p.b == rgb@[first + 2]
            &&& j == kept_count(
                depth@,
                levels(confidence),
                params.min_confidence,
                (v * params.depth_width + u) as nat,
            )
        }),
{
    let c = levels(confidence);
    let i = (v * params.depth_width + u) as int;
    lemma_counts(depth@, confidence, params.min_confidence, i);
    law_points_lie_on_lines_of_sight(rgb@, depth@, c, *k, *params, u, v);
    let at = law_points_have_the_colour_at_their_centre(rgb@, depth@, c, *k, *params, u, v);
    lemma_pow2_strictly_increases(1200, 1900);
    law_scaling_is_proportional(
        *k,
        params.rgb_width,
        params.rgb_height,
        params.depth_width,
        params.depth_height,
    );
    (kept_count(depth@, c, params.min_confidence, i as nat) as int, at)
}

/// Unprojecting gives no other points: the point at place `j` is that of the depth pixel at place
/// `i`, which counts, and before which `j` pixels count.
pub proof fn law_unproject_gives_no_other_points(
    rgb: &[u8],
    depth: &[Single],
    confidence: Option<&[Confidence]>,
    k: &Intrinsics,
    params: &UnprojectParams,
    r: Vec<ColoredPoint>,
    j: int,
) -> (i: int)
    requires
        call_ensures(unproject, (rgb, depth, confidence, k, params), r),
        depth@.len() == params.depth_width * params.depth_height,
        0 <= j < r@.len(),
    ensures
        0 <= i < depth@.len(),
        counts(depth@, confidence, params.min_confidence, i),
        kept_count(depth@, levels(confidence), params.min_confidence, i as nat) == j,
        r@.len() == kept_count(depth@, levels(confidence), params.min_confidence, depth@.len()),
{
    let c = levels(confidence);
    law_one_point_per_kept_pixel(rgb@, depth@, c, *k, *params, depth@.len());
    let i = law_points_have_measured_depth(rgb@, depth@, c, *k, *params, depth@.len(), j);
    lemma_counts(depth@, confidence, params.min_confidence, i);
    i
}

/// A cloud is prepared for writing exactly where there are points: with a record for each, at the
/// same place, of which each channel is 257 times that of the point.
pub proof fn law_laz_cloud(points: &[ColoredPoint], r: Result<LazCloud, WriteError>)
    requires
        call_ensures(laz_cloud, (points,), r),
    ensures
        r is Err <==> points@.len() == 0,
        r matches Ok(cloud) ==> cloud.records@.len() == points@.len() && forall|i: int|
            #![trigger cloud.records@[i]]
            0 <= i < points@.len() ==> {
                let (c, p) = (cloud.records@[i], points@[i]);
                &&& c.x == p.x && c.y == p.y && c.z == p.z
                &&& c.red == 257 * p.r && c.green == 257 * p.g && c.blue == 257 * p.b
            },
{
}

/// A matrix that is made up from the field of view has square pixels and is centred in the image,
/// exactly; the edges of the image are seen at half the angle, of which `tangent` is the tangent.
pub proof fn law_synthesize_intrinsics<T: Fn(Double) -> Double>(
    width: u32,
    height: u32,
    degrees: Double,
    tan: &T,
    r: Intrinsics,
) -> (seen: (Double, Double))
    requires
        call_ensures(synthesize_intrinsics::<T>, (width, height, degrees, tan), r),
        degrees.finite(),
    ensures
        ({
            let (angle, tangent) = seen;
            let (x, y) = (
                2 * (r.fx.signed_units() * tangent.signed_units()),
                width * pow2(1074) * pow2(1074),
            );
            &&& call_ensures(*tan, (angle,), tangent)
            &&& angle.finite()
            &&& abs(
                angle.signed_units() * 360_000_000_000_000_000 - degrees.signed_units()
                    * 3_141_592_653_589_793,
            ) <= 2 * abs(degrees.signed_units()) + 360_000_000_000_000_000
            &&& r.fy == r.fx
            &&& r.cx.finite() && 2 * r.cx.signed_units() == width * pow2(1074)
            &&& r.cy.finite() && 2 * r.cy.signed_units() == height * pow2(1074)
            &&& tangent.magnitude() <= HALF_OF_LARGEST && r.fx.finite() ==> abs(x - y)
                * 0x20_0000_0000_0000 <= y + tangent.units() * 0x20_0000_0000_0000
            &&& tangent.magnitude() <= HALF_OF_LARGEST && tangent.units() >= pow2(200)
                ==> r.fx.finite()
        }),
{
    let angle = half_angle(degrees);
    let tangent = choose|tangent: Double|
        call_ensures(*tan, (angle,), tangent) && r == #[trigger] centred(
            width,
            height,
            tangent,
        );
    law_half_angle_is_in_radians(degrees);
    law_made_up_matrix_has_the_field_of_view(width, height, tangent);
    (angle, tangent)
}

/// The directory of a database is that of its path, or the current one where there is none.
pub proof fn law_database_directory(parent: Option<&str>, r: String)
    requires
        call_ensures(database_directory, (parent,), r),
    ensures
        parent is None ==> r@ == "."@,
        parent matches Some(p) ==> (p@.len() == 0 ==> r@ == "."@) && (p@.len() > 0 ==> r@ == p@),
{
}

/// Photos that are named are converted as they are named, and it is an error to name none.
pub proof fn law_named(ids: Vec<i64>, r: Result<Vec<i64>, UsageError>)
    requires
        call_ensures(named, (ids,), r),
    ensures
        ids@.len() == 0 ==> r == Err::<Vec<i64>, UsageError>(UsageError::NoPhotos),
        ids@.len() > 0 ==> r == Ok::<Vec<i64>, UsageError>(ids),
{
}

/// A run over all photos goes over those that have a depth map, and a camera matrix or an option
/// in its stead, in their order. `places` tells which those are.
pub proof fn law_all_convertible(
    entries: &Vec<PhotoListEntry>,
    opts: &ConvertOptions,
    r: Vec<i64>,
) -> (places: Seq<int>)
    requires
        call_ensures(all_convertible, (entries, opts), r),
    ensures
        r@ == places.map_values(|i: int| entries@[i].id),
        ({
            let fallback = opts.fallback_intrinsics is Some || opts.fallback_hfov_degrees is Some;
            &&& forall|k: int|
                #![trigger places[k]]
                0 <= k < places.len() ==> 0 <= places[k] < entries@.len()
                    && entries@[places[k]].has_depth && (entries@[places[k]].has_intrinsics
                    || fallback)
            &&& forall|i: int|
                0 <= i < entries@.len() && #[trigger] entries@[i].has_depth && (
                entries@[i].has_intrinsics || fallback) ==> places.contains(i)
        }),
        forall|j: int, k: int|
            #![trigger places[j], places[k]]
            0 <= j < k < places.len() ==> places[j] < places[k],
{
    law_a_run_goes_over_what_it_can_convert(
        entries@,
        opts.fallback_intrinsics is Some || opts.fallback_hfov_degrees is Some,
        entries@.len(),
    )
}

/// A request becomes options exactly where a matrix that is given has four values and the factor
/// is from 1 to 16; the options hold what was asked for.
pub proof fn law_options(request: ConvertRequest, r: Result<ConvertOptions, UsageError>)
    requires
        call_ensures(ConvertRequest::options, (request,), r),
    ensures
        ({
            let four = request.intrinsics matches Some(values) ==> values@.len() == 4;
            &&& r is Ok <==> four && 1 <= request.upsample <= 16
            &&& !four ==> r == Err::<ConvertOptions, UsageError>(UsageError::MatrixValues)
            &&& four && !(1 <= request.upsample <= 16) ==> r == Err::<ConvertOptions, UsageError>(
                UsageError::Upsample(request.upsample),
            )
        }),
        r matches Ok(opts) ==> {
            &&& opts.min_confidence == request.min_confidence
            &&& opts.rgb_root == request.rgb_root
            &&& opts.upsample_factor == request.upsample
            &&& opts.fallback_hfov_degrees == request.hfov_degrees
            &&& opts.fallback_intrinsics is Some <==> request.intrinsics is Some
            &&& opts.fallback_intrinsics matches Some(k) ==> {
                let v = request.intrinsics->0@;
                k.fx == v[0] && k.fy == v[1] && k.cx == v[2] && k.cy == v[3]
            }
        },
{
    law_which_requests_are_refused(request);
}

/// What is said of a photo that was converted, and of one that was not.
pub proof fn law_lines_of_a_run(
    id: i64,
    count: usize,
    path: &str,
    words: &str,
    done: String,
    failed: String,
)
    requires
        call_ensures(success_line, (id, count, path), done),
        call_ensures(failure_line, (id, words), failed),
    ensures
        done@ == "photo "@ + integer(id as int, 0) + ": wrote "@ + decimal(count as nat)
            + " points to "@ + path@,
        failed@ == "photo "@ + integer(id as int, 0) + ": "@ + words@,
{
}

proof fn lemma_outcomes(outcomes: Seq<bool>, wanted: bool)
    ensures
        outcome_count(outcomes, wanted) == outcomes.filter(|b: bool| b == wanted).len(),
    decreases outcomes.len(),
{
    reveal(Seq::filter);
    if outcomes.len() > 0 {
        lemma_outcomes(outcomes.drop_last(), wanted);
        law_outcomes_add_up(outcomes.drop_last(), seq![outcomes.last()], wanted);
        assert(outcomes.drop_last() + seq![outcomes.last()] =~= outcomes);
    } else {
        law_outcomes_add_up(outcomes, outcomes, wanted);
        assert(outcomes + outcomes =~= outcomes);
    }
}

/// A run is summed up by how many photos were converted and how many were not, and fails as a
/// whole where there was a photo and none was converted.
pub proof fn law_tally(outcomes: &Vec<bool>, tally: Tally, summary: String, failed: bool)
    requires
        call_ensures(Tally::of, (outcomes,), tally),
        call_ensures(Tally::summary, (&tally,), summary),
        call_ensures(Tally::all_failed, (&tally,), failed),
    ensures
        tally.ok == outcomes@.filter(|b: bool| b == true).len(),
        tally.failed == outcomes@.filter(|b: bool| b == false).len(),
        summary@ == "done — "@ + decimal(tally.ok as nat) + " ok, "@ + decimal(
            tally.failed as nat,
        ) + " failed"@,
        failed <==> tally.ok == 0 && tally.failed > 0,
{
    lemma_outcomes(outcomes@, true);
    lemma_outcomes(outcomes@, false);
}

/// The query for the listing asks for the columns that the table has, by name and in a fixed
/// order, and puts the photos in the order of their ids.
pub proof fn law_list_query(schema: &Schema, r: String)
    requires
        call_ensures(list_query, (schema,), r),
    ensures
        r@ == "SELECT "@ + comma_separated(
            seq![
                "id"@,
                "utc_unix_timestamp"@,
                "rgb_path"@,
                if schema@.contains("place_name"@) {
                    "place_name"@
                } else {
                    "NULL"@
                },
                if schema@.contains("fish_length"@) {
                    "fish_length"@
                } else {
                    "NULL"@
                },
                "depth_bytes IS NOT NULL"@,
                if schema@.contains("intrinsics_bytes"@) {
                    "intrinsics_bytes IS NOT NULL"@
                } else {
                    "0"@
                },
            ],
        ) + " FROM photos ORDER BY id ASC"@,
{
    law_columns_are_asked_for_by_name(schema@);
}

/// The query for one photo asks for its columns by name, in a fixed order.
pub proof fn law_fetch_query(schema: &Schema, r: String)
    requires
        call_ensures(fetch_query, (schema,), r),
    ensures
        r@ == "SELECT "@ + comma_separated(
            seq![
                "id"@,
                "utc_unix_timestamp"@,
                "rgb_path"@,
                "depth_bytes"@,
                "depth_width"@,
                "depth_height"@,
                "confidence_bytes"@,
                "confidence_width"@,
                "confidence_height"@,
                if schema@.contains("intrinsics_bytes"@) {
                    "intrinsics_bytes"@
                } else {
                    "NULL"@
                },
            ],
        ) + " FROM photos WHERE id = ?1"@,
{
    law_columns_are_asked_for_by_name(schema@);
}

/// What is fetched of a photo is what its columns hold, and an error with its id where there is
/// no such photo.
pub proof fn law_fetched(found: Option<PhotoColumns>, id: i64, r: Result<PhotoRow, DbError>)
    requires
        call_ensures(fetched, (found, id), r),
    ensures
        found is None ==> r == Err::<PhotoRow, DbError>(DbError::NotFound(id)),
        found matches Some(columns) ==> {
            &&& r is Ok
            &&& r->Ok_0.id == columns.id
            &&& r->Ok_0.utc_unix_timestamp == columns.utc_unix_timestamp
            &&& r->Ok_0.rgb_path == columns.rgb_path
            &&& columns.depth_bytes matches Some(bytes) ==> r->Ok_0.depth_bytes@ == bytes@
            &&& columns.depth_bytes is None ==> r->Ok_0.depth_bytes@.len() == 0
            &&& r->Ok_0.confidence_bytes == columns.confidence_bytes
            &&& r->Ok_0.intrinsics_bytes == columns.intrinsics_bytes
            &&& 0 <= columns.depth_width <= u32::MAX ==> r->Ok_0.depth_width == columns.depth_width
            &&& 0 <= columns.depth_height <= u32::MAX ==> r->Ok_0.depth_height
                == columns.depth_height
            &&& 0 <= columns.confidence_width <= u32::MAX ==> r->Ok_0.confidence_width
                == columns.confidence_width
            &&& 0 <= columns.confidence_height <= u32::MAX ==> r->Ok_0.confidence_height
                == columns.confidence_height
        },
{
    if let Some(columns) = found {
        law_row_is_what_the_columns_hold(r->Ok_0, columns);
    }
}

/// A path from the root is left as it is, and another one comes below the directory.
pub proof fn law_resolve_rgb_path(path: &str, root: &str, r: String)
    requires
        call_ensures(resolve_rgb_path, (path, root), r),
    ensures
        path@.len() > 0 && path@[0] == '/' ==> r@ == path@,
        !(path@.len() > 0 && path@[0] == '/') ==> {
            let bare = root@.len() == 0 || root@[root@.len() - 1] == '/';
            &&& bare ==> r@ == root@ + path@
            &&& !bare ==> r@ == root@ + seq!['/'] + path@
        },
{
    law_relative_paths_come_below_the_root(path@, root@);
}

/// An image is looked up by its name where its path is a bare name, with its first slash or its
/// end at `n`, and at the resolved path otherwise.
pub proof fn law_rgb_check(path: &str, root: &str, r: RgbCheck, n: nat)
    requires
        call_ensures(rgb_check, (path, root), r),
        n <= path@.len(),
        forall|i: int| 0 <= i < n ==> path@[i] != '/',
        n < path@.len() ==> path@[n as int] == '/',
    ensures
        ({
            let name = path@.take(n as int);
            let bare = n > 0 && name != seq!['.'] && name != seq!['.', '.'] && forall|i: int|
                n <= i < path@.len() ==> #[trigger] path@[i] == '/' || (path@[i] == '.' && path@[i
                    - 1] == '/');
            let dir = root@.len() == 0 || root@[root@.len() - 1] == '/';
            &&& r is Listed <==> bare
            &&& r matches RgbCheck::Listed(s) ==> s@ == name
            &&& r matches RgbCheck::At(s) ==> s@ == if n == 0 && path@.len() > 0 {
                path@
            } else if dir {
                root@ + path@
            } else {
                root@ + seq!['/'] + path@
            }
        }),
{
    law_bare_names_are_looked_up(path@, n);
    law_relative_paths_come_below_the_root(path@, root@);
}

/// The date of a day number is a day of the calendar, and days are counted from the first of
/// January 1970.
pub proof fn law_days_to_ymd(days: i64, r: (i64, u32, u32))
    requires
        call_ensures(days_to_ymd, (days,), r),
    ensures
        1 <= r.1 <= 12,
        1 <= r.2 <= 31,
        r.1 == 4 || r.1 == 6 || r.1 == 9 || r.1 == 11 ==> r.2 <= 30,
        r.1 == 2 ==> r.2 <= 29,
        r.1 == 2 && r.2 == 29 ==> r.0 as int % 4 == 0 && !(r.0 as int % 100 == 0 && r.0 as int % 400
            != 0),
        day_number(r.0 as int, r.1 as int, r.2 as int) == days,
{
    law_month_lengths(r.0 as int);
    assert(month_length(r.0 as int, r.1 as int) <= 31);
}

/// The text of a timestamp reads back as the moment: the year, of at least four digits, and behind
/// it the month, the day, the hour, the minute and the second.
pub proof fn law_format_iso8601(stored: i64, r: String) -> (y: int)
    requires
        call_ensures(format_iso8601, (stored,), r),
    ensures
        ({
            let t = r@;
            let n = t.len() - 15;
            let day = day_number(
                y,
                value(t.subrange(n + 1, n + 3)),
                value(t.subrange(n + 4, n + 6)),
            );
            let secs = day * 86_400 + value(t.subrange(n + 7, n + 9)) * 3600 + value(
                t.subrange(n + 10, n + 12),
            ) * 60 + value(t.subrange(n + 13, n + 15));
            &&& n >= 4 && t.take(n) == integer(y, 4)
            &&& t[n] == '-' && t[n + 3] == '-' && t[n + 6] == ' '
            &&& t[n + 9] == ':' && t[n + 12] == ':'
            &&& stored <= 32_503_680_000 ==> secs == stored
            &&& stored > 32_503_680_000 ==> 1000 * secs <= stored < 1000 * secs + 1000
        }),
{
    law_milliseconds_are_cut_off(stored as int);
    law_time_reads_back(stored as int, r@)
}

/// The line of a photo says what can be made of it: "yes" exactly where there are a depth map and
/// a camera matrix of its own, "no(d)" exactly where there is no depth map, and "no(K)" in the case
/// that remains.
pub proof fn law_photo_line(
    e: &PhotoListEntry,
    length: &Option<String>,
    present: bool,
    r: String,
) -> (columns: (Seq<char>, Seq<char>, Seq<char>))
    requires
        call_ensures(photo_line, (e, length, present), r),
    ensures
        ({
            let (time, can, rgb) = columns;
            let id = right_aligned(integer(e.id as int, 0), 6);
            let fish = match *length {
                Some(cm) => cm@,
                None => "         -"@,
            };
            let place = match e.place_name {
                Some(name) => name@,
                None => seq![],
            };
            &&& r@ == id + "  "@ + left_aligned(time, 20) + "  "@ + fish + "  "@ + can + "  "@ + rgb
                + "  "@ + place
            &&& shows_time(e.utc_unix_timestamp as int, time)
            &&& can == "      yes"@ <==> e.has_depth && e.has_intrinsics
            &&& can == "   no(d) "@ <==> !e.has_depth
            &&& can == "    no(K)"@ <==> e.has_depth && !e.has_intrinsics
            &&& rgb == "  yes"@ <==> present
            &&& rgb == "   no"@ <==> !present
        }),
{
    law_line_says_what_can_be_converted(*e, *length, present, r@)
}

/// A listing has a line for each photo that is shown behind its header, or says that there are no
/// photos, and tells how many are hidden.
pub proof fn law_list(
    entries: &Vec<PhotoListEntry>,
    lengths: &Vec<Option<String>>,
    present: &Vec<bool>,
    show_missing: bool,
    root: &str,
    r: Listing,
)
    requires
        call_ensures(list, (entries, lengths, present, show_missing, root), r),
        lengths@.len() == entries@.len(),
        present@.len() == entries@.len(),
    ensures
        entries@.len() == 0 ==> r.lines@.len() == 1 && r.lines@[0]@ == "(no photos)"@,
        entries@.len() > 0 ==> r.lines@[0]@
            == "    id  captured (utc)         fish (cm)   depth+K?   rgb?  place"@,
        ({
            let missing = places(present@, false, present@.len()).len();
            &&& entries@.len() > 0 && show_missing ==> r.lines@.len() == entries@.len() + 1
            &&& entries@.len() > 0 && !show_missing ==> r.lines@.len() + missing == entries@.len() + 1
            &&& r.note is Some <==> missing > 0 && !show_missing
            &&& r.note matches Some(note) ==> note@ == "("@ + decimal(missing)
                + " hidden — RGB file missing under "@ + root@
                + "; pass --show-missing-rgb to include)"@
        }),
        forall|k: int|
            #![trigger r.lines@[k + 1]]
            0 <= k < r.lines@.len() - 1 && entries@.len() > 0 ==> is_photo_line(
                entries@[shown(present@, show_missing)[k]],
                lengths@[shown(present@, show_missing)[k]],
                present@[shown(present@, show_missing)[k]],
                r.lines@[k + 1]@,
            ),
{
    law_header_names_the_columns();
    law_what_is_shown(present@);
    law_there_or_missing(present@, present@.len());
    assert forall|k: int|
        #![trigger r.lines@[k + 1]]
        0 <= k < r.lines@.len() - 1 && entries@.len() > 0 implies is_photo_line(
        entries@[shown(present@, show_missing)[k]],
        lengths@[shown(present@, show_missing)[k]],
        present@[shown(present@, show_missing)[k]],
        r.lines@[k + 1]@,
    ) by {
        assert(r.lines@[k + 1]@ == r.lines@[k + 1]@);
    }
}

/// The file name of a cloud.
pub proof fn law_default_output_name(id: i64, stamp: i64, r: String)
    requires
        call_ensures(default_output_name, (id, stamp), r),
    ensures
        r@ == "photo-"@ + integer(id as int, 6) + "-"@ + integer(stamp as int, 0) + ".laz"@,
{
    law_output_name_tells_id_and_time(id as int, stamp as int);
}

/// The operations on plain values can be called on every input.
pub proof fn law_every_input_is_taken(
    bytes: &[u8],
    width: u32,
    height: u32,
    level: Confidence,
    k: &Intrinsics,
    points: &[ColoredPoint],
    text: &str,
    parent: Option<&str>,
    number: i64,
    entries: &Vec<PhotoListEntry>,
    opts: &ConvertOptions,
    request: ConvertRequest,
    schema: &Schema,
    found: Option<PhotoColumns>,
)
    ensures
        call_requires(decode_depth, (bytes, width, height)),
        call_requires(decode_confidence, (bytes, width, height)),
        call_requires(decode_intrinsics, (bytes,)),
        call_requires(Confidence::at_least, (level, level)),
        call_requires(Intrinsics::scaled, (k, width, height, width, height)),
        call_requires(laz_cloud, (points,)),
        call_requires(resolve_rgb_path, (text, text)),
        call_requires(rgb_check, (text, text)),
        call_requires(database_directory, (parent,)),
        call_requires(format_iso8601, (number,)),
        call_requires(default_output_name, (number, number)),
        call_requires(all_convertible, (entries, opts)),
        call_requires(ConvertRequest::options, (request,)),
        call_requires(list_query, (schema,)),
        call_requires(fetch_query, (schema,)),
        call_requires(fetched, (found, number)),
{
}

} // verus!
