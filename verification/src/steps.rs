//! What each step of a conversion does with the row, the image and the options: the laws
//! of [`crate::convert`] in terms of the bytes and the numbers that go in.
use vstd::arithmetic::power2::pow2;
use vstd::math::abs;
use vstd::prelude::*;

use crate::convert::{
    centred, converts_to, depth_error, half_angle, output_name, photo_of, prepares_to, resolves_to,
    row_map, usable_confidence, ConvertError, ConvertOptions, DepthMap, Photo, RgbContents, RgbFile,
};
use crate::db::PhotoRow;
use crate::decode::{
    double_blob, eight_bytes, law_intrinsics_round_trip, law_matrix_entries_in_their_places,
    law_other_bytes_are_low, law_samples_take_four_bytes, matrix, Confidence, DecodeError,
    Intrinsics,
};
use crate::double::{Double, Single, HALF_OF_LARGEST};
use crate::photo::{breaks_off_as, decodes_to, PhotoError, RgbImage};
use crate::sight::{
    is_ordinary, is_seen_at, law_made_up_matrix_has_the_field_of_view,
    law_points_lie_on_lines_of_sight, point_of_pixel,
};
use crate::text::{decimal, integer, is_digits, law_integer_reads_back, value};
use crate::unproject::{kept, kept_count, points, UnprojectParams};
use crate::upsample::{blends_to, pixel_taps, UpsampleParams};
use crate::write::{law_records_are_the_points, LazCloud};

verus! {

/// The depth map of a row that is in order: a sample in every four bytes of the depth
/// blob, and a level in every byte of the confidence blob, where there is one of the same
/// size.
pub proof fn law_depth_map_of_a_row(row: PhotoRow, i: int)
    requires
        depth_error(row) is None,
        0 <= i < row.depth_width * row.depth_height,
    ensures
        ({
            let map = row_map(row);
            let bytes = row.depth_bytes@;
            let fits = row.confidence_width == row.depth_width && row.confidence_height
                == row.depth_height;
            &&& map.width == row.depth_width && map.height == row.depth_height
            &&& map.depth.len() == row.depth_width * row.depth_height
            &&& bytes.len() == 4 * map.depth.len()
            &&& map.depth[i].bits == bytes[4 * i] + 0x100 * bytes[4 * i + 1] + 0x1_0000
                * bytes[4 * i + 2] + 0x100_0000 * bytes[4 * i + 3]
            &&& map.levels is Some <==> row.confidence_bytes is Some && fits
            &&& map.levels matches Some(levels) ==> {
                let b = row.confidence_bytes->0@[i];
                &&& levels.len() == map.depth.len()
                &&& row.confidence_bytes->0@.len() == map.depth.len()
                &&& levels[i] == Confidence::High <==> b == 2
                &&& levels[i] == Confidence::Medium <==> b == 1
                &&& levels[i] == Confidence::Low <==> b != 1 && b != 2
            }
        }),
{
    law_samples_take_four_bytes(row.depth_bytes@, i);
    if let Some(bytes) = usable_confidence(row) {
        law_other_bytes_are_low(bytes, i);
    }
}

/// What is wrong with the depth map of a row, and when: there is no depth blob, or it has
/// not four bytes for each pixel, or a confidence blob that is of the same size has not
/// one byte for each.
pub proof fn law_which_depth_maps_are_refused(row: PhotoRow)
    ensures
        ({
            let len = row.depth_bytes@.len();
            let count = row.depth_width * row.depth_height;
            let fits = row.confidence_width == row.depth_width && row.confidence_height
                == row.depth_height;
            let short = row.confidence_bytes matches Some(bytes) && fits && bytes@.len() != count;
            let misfit = DecodeError::DepthSizeMismatch {
                len: len as usize,
                width: row.depth_width as usize,
                height: row.depth_height as usize,
            };
            &&& depth_error(row) is None <==> len > 0 && len == 4 * count && !short
            &&& depth_error(row) == Some(ConvertError::NoDepth { id: row.id }) <==> len == 0
            &&& depth_error(row) == Some(ConvertError::Depth { id: row.id, error: misfit }) <==> len
                > 0 && len != 4 * count
            &&& len > 0 && len == 4 * count && short ==> depth_error(row) == Some(
                ConvertError::Confidence {
                    id: row.id,
                    error: DecodeError::ConfidenceSizeMismatch {
                        len: row.confidence_bytes->0@.len() as usize,
                        width: row.depth_width as usize,
                        height: row.depth_height as usize,
                    },
                },
            )
        }),
{
}

/// The camera matrix that a row stores is used as it is stored, whatever the options give.
/// A blob of another length is an error.
pub proof fn law_stored_matrix_is_used<T: Fn(Double) -> Double>(
    tan: T,
    row: PhotoRow,
    rgb_w: u32,
    rgb_h: u32,
    opts: ConvertOptions,
    r: Result<Intrinsics, ConvertError>,
)
    requires
        row.intrinsics_bytes matches Some(bytes) && bytes@.len() > 0,
        resolves_to(tan, row, rgb_w, rgb_h, opts, r),
    ensures
        ({
            let blob = row.intrinsics_bytes->0@;
            &&& blob.len() == 72 ==> {
                &&& r is Ok
                &&& r->Ok_0.fx.bits == eight_bytes(blob, 0)
                &&& r->Ok_0.cx.bits == eight_bytes(blob, 16)
                &&& r->Ok_0.fy.bits == eight_bytes(blob, 32)
                &&& r->Ok_0.cy.bits == eight_bytes(blob, 40)
            }
            &&& blob.len() != 72 ==> r == Err::<Intrinsics, ConvertError>(
                ConvertError::Intrinsics {
                    id: row.id,
                    error: DecodeError::IntrinsicsSize(blob.len() as usize),
                },
            )
        }),
{
    let blob = row.intrinsics_bytes->0@;
    if blob.len() == 72 {
        law_matrix_entries_in_their_places(blob);
    }
}

/// A stored blob that was made of a camera matrix gives that matrix.
pub proof fn law_stored_matrix_round_trip<T: Fn(Double) -> Double>(
    tan: T,
    row: PhotoRow,
    rgb_w: u32,
    rgb_h: u32,
    opts: ConvertOptions,
    r: Result<Intrinsics, ConvertError>,
    k: Intrinsics,
)
    requires
        row.intrinsics_bytes matches Some(bytes) && bytes@ == double_blob(matrix(k)),
        resolves_to(tan, row, rgb_w, rgb_h, opts, r),
    ensures
        r == Ok::<Intrinsics, ConvertError>(k),
{
    law_intrinsics_round_trip(k);
}

/// For a row without a camera matrix, and options that give only the field of view, one is
/// made up from the tangent of half the angle: the pixels are square, the principal point
/// is in the middle of the image, exactly, and the edges of the image are seen at half the
/// angle, up to rounding.
pub proof fn law_made_up_matrix_is_centred<T: Fn(Double) -> Double>(
    tan: T,
    row: PhotoRow,
    rgb_w: u32,
    rgb_h: u32,
    opts: ConvertOptions,
    degrees: Double,
    r: Result<Intrinsics, ConvertError>,
) -> (tangent: Double)
    requires
        row.intrinsics_bytes matches Some(bytes) ==> bytes@.len() == 0,
        opts.fallback_intrinsics is None,
        opts.fallback_hfov_degrees == Some(degrees),
        resolves_to(tan, row, rgb_w, rgb_h, opts, r),
    ensures
        call_ensures(tan, (half_angle(degrees),), tangent),
        r is Ok,
        ({
            let k = r->Ok_0;
            let (x, y) = (
                2 * (k.fx.signed_units() * tangent.signed_units()),
                rgb_w * pow2(1074) * pow2(1074),
            );
            &&& k.fy == k.fx
            &&& k.cx.finite() && 2 * k.cx.signed_units() == rgb_w * pow2(1074)
            &&& k.cy.finite() && 2 * k.cy.signed_units() == rgb_h * pow2(1074)
            &&& tangent.magnitude() <= HALF_OF_LARGEST && k.fx.finite() ==> abs(x - y)
                * 0x20_0000_0000_0000 <= y + tangent.units() * 0x20_0000_0000_0000
            &&& tangent.magnitude() <= HALF_OF_LARGEST && tangent.units() >= pow2(200)
                ==> k.fx.finite()
        }),
{
    let tangent = choose|tangent: Double|
        call_ensures(tan, (half_angle(degrees),), tangent) && r == Ok::<Intrinsics, ConvertError>(
            #[trigger] centred(rgb_w, rgb_h, tangent),
        );
    law_made_up_matrix_has_the_field_of_view(rgb_w, rgb_h, tangent);
    tangent
}

/// What comes of the file of an image: a file that cannot be opened or read is an error that
/// names its path, and what cannot be decoded is one too.
pub proof fn law_image_errors_name_the_file(file: RgbFile, r: Result<RgbImage, ConvertError>)
    requires
        file.loads_to(r),
    ensures
        match file.contents {
            RgbContents::NotOpened(words) => r == Err::<RgbImage, ConvertError>(
                ConvertError::OpenRgb { path: file.path, words },
            ),
            RgbContents::NotRead(words) => r == Err::<RgbImage, ConvertError>(
                ConvertError::ReadRgb { path: file.path, words },
            ),
            RgbContents::BrokenOff(start, words) => r matches Err(
                ConvertError::DecodeRgb { path, error },
            ) && path == file.path && breaks_off_as(
                start@,
                extension_of(file),
                words@,
                error,
            ),
            RgbContents::Bytes(bytes) => match r {
                Ok(image) => decodes_to(bytes@, extension_of(file), Ok(image)),
                Err(e) => e is DecodeRgb && e->DecodeRgb_path == file.path && decodes_to(
                    bytes@,
                    extension_of(file),
                    Err(e->DecodeRgb_error),
                ),
            },
        },
{
    if let RgbContents::Bytes(bytes) = file.contents {
        let photo = choose|photo: Result<RgbImage, PhotoError>| #[trigger]
            decodes_to(bytes@, file.spec_extension(), photo) && r == match photo {
                Ok(image) => Ok::<RgbImage, ConvertError>(image),
                Err(error) => Err(ConvertError::DecodeRgb { path: file.path, error }),
            };
        assert(decodes_to(bytes@, file.spec_extension(), photo));
    }
}

/// The extension of the name of a file.
pub open spec fn extension_of(file: RgbFile) -> Option<Seq<char>> {
    if let Some(e) = file.extension {
        Some(e@)
    } else {
        None
    }
}

/// A photo that is prepared has the depth map of its row, the pixels of its image, and a
/// camera matrix that was found for an image of that size; and what the options ask for.
pub proof fn law_prepared_photo_is_that_of_the_row<T: Fn(Double) -> Double>(
    tan: T,
    row: PhotoRow,
    file: RgbFile,
    opts: ConvertOptions,
    photo: Photo,
) -> (rgb: RgbImage)
    requires
        prepares_to(tan, row, file, opts, Ok(photo)),
    ensures
        depth_error(row) is None,
        file.loads_to(Ok(rgb)),
        rgb.width > 0 && rgb.height > 0,
        rgb.pixels@.len() == rgb.width * rgb.height * 3,
        resolves_to(tan, row, rgb.width, rgb.height, opts, Ok(photo.intrinsics)),
        photo.id == row.id,
        photo.map == row_map(row),
        photo.rgb_width == rgb.width,
        photo.rgb_height == rgb.height,
        photo.pixels == rgb.pixels@,
        photo.min_confidence == opts.min_confidence,
        photo.upsample_factor == opts.upsample_factor,
{
    let r = Ok::<Photo, ConvertError>(photo);
    let loaded = choose|loaded: Result<RgbImage, ConvertError>| #[trigger]
        file.loads_to(loaded) && match loaded {
            Err(e) => r == Err::<Photo, ConvertError>(e),
            Ok(rgb) => rgb.valid() && exists|k: Result<Intrinsics, ConvertError>| #[trigger]
                resolves_to(tan, row, rgb.width, rgb.height, opts, k) && r == match k {
                    Err(e) => Err::<Photo, ConvertError>(e),
                    Ok(k) => Ok(photo_of(row, rgb, k, opts)),
                },
        };
    let rgb = loaded->Ok_0;
    assert(file.loads_to(Ok(rgb)));
    let k = choose|k: Result<Intrinsics, ConvertError>| #[trigger]
        resolves_to(tan, row, rgb.width, rgb.height, opts, k) && r == match k {
            Err(e) => Err::<Photo, ConvertError>(e),
            Ok(k) => Ok(photo_of(row, rgb, k, opts)),
        };
    assert(resolves_to(tan, row, rgb.width, rgb.height, opts, k));
    rgb
}

/// A photo that cannot be prepared is refused for its depth map, or else for its image, or
/// else for its camera matrix.
pub proof fn law_first_fault_counts<T: Fn(Double) -> Double>(
    tan: T,
    row: PhotoRow,
    file: RgbFile,
    opts: ConvertOptions,
    e: ConvertError,
)
    requires
        prepares_to(tan, row, file, opts, Err(e)),
    ensures
        depth_error(row) matches Some(fault) ==> e == fault,
        depth_error(row) is None ==> file.loads_to(Err(e)) || is_matrix_fault(
            tan,
            row,
            file,
            opts,
            e,
        ),
{
    let r = Err::<Photo, ConvertError>(e);
    if depth_error(row) is None {
        let loaded = choose|loaded: Result<RgbImage, ConvertError>| #[trigger]
            file.loads_to(loaded) && match loaded {
                Err(e) => r == Err::<Photo, ConvertError>(e),
                Ok(rgb) => rgb.valid() && exists|k: Result<Intrinsics, ConvertError>| #[trigger]
                    resolves_to(tan, row, rgb.width, rgb.height, opts, k) && r == match k {
                        Err(e) => Err::<Photo, ConvertError>(e),
                        Ok(k) => Ok(photo_of(row, rgb, k, opts)),
                    },
            };
        assert(file.loads_to(loaded));
        if let Ok(rgb) = loaded {
            let k = choose|k: Result<Intrinsics, ConvertError>| #[trigger]
                resolves_to(tan, row, rgb.width, rgb.height, opts, k) && r == match k {
                    Err(e) => Err::<Photo, ConvertError>(e),
                    Ok(k) => Ok(photo_of(row, rgb, k, opts)),
                };
            assert(resolves_to(tan, row, rgb.width, rgb.height, opts, k));
            assert(k == Err::<Intrinsics, ConvertError>(e));
            assert(file.loads_to(Ok(rgb)));
        }
    }
}

/// Whether the image loads, and the camera matrix is at fault in this way.
pub open spec fn is_matrix_fault<T: Fn(Double) -> Double>(
    tan: T,
    row: PhotoRow,
    file: RgbFile,
    opts: ConvertOptions,
    e: ConvertError,
) -> bool {
    exists|rgb: RgbImage| #[trigger]
        file.loads_to(Ok(rgb)) && resolves_to(tan, row, rgb.width, rgb.height, opts, Err(e))
}

/// What is unprojected: the depth map of the photo itself up to a factor of one, and from
/// two on one that has so many times the columns and the rows.
pub proof fn law_factor_one_takes_the_map_as_it_is<F: Fn(Double) -> Double>(
    exp: F,
    photo: Photo,
    map: DepthMap,
)
    ensures
        photo.upsample_factor <= 1 ==> (photo.works_on(exp, map) <==> map == photo.map),
        photo.upsample_factor >= 2 && photo.works_on(exp, map) ==> {
            &&& map.width == photo.map.width * photo.upsample_factor
            &&& map.height == photo.map.height * photo.upsample_factor
            &&& map.depth.len() == map.width * map.height
            &&& map.levels is None
        },
{
}

/// In an upsampled depth map, the pixel at column `ox` and row `oy` is blended from the
/// samples of the photo that are kept, at its own place in the rows.
pub proof fn law_upsampled_pixel_is_a_blend<F: Fn(Double) -> Double>(
    exp: F,
    photo: Photo,
    map: DepthMap,
    anchors: Seq<Single>,
    ox: nat,
    oy: nat,
)
    requires
        photo.upsample_factor >= 2,
        photo.works_on(exp, map),
        anchors.len() == photo.map.depth.len(),
        forall|i: int|
            0 <= i < anchors.len() ==> #[trigger] anchors[i] == if kept(
                photo.map.depth,
                photo.map.levels,
                photo.min_confidence,
                i,
            ) {
                photo.map.depth[i]
            } else {
                Single { bits: 0x7fc0_0000 }
            },
        ox < map.width,
        oy < map.height,
    ensures
        blends_to(
            exp,
            pixel_taps(
                anchors,
                photo.pixels,
                UpsampleParams {
                    low_width: photo.map.width,
                    low_height: photo.map.height,
                    guide_width: photo.rgb_width,
                    guide_height: photo.rgb_height,
                    factor: photo.upsample_factor,
                },
                ox,
                oy,
            ),
            map.depth[(oy * map.width + ox) as int],
        ),
{
    assert(anchors =~= photo.anchors());
}

/// A cloud has a record for each depth pixel that is kept, on the line of sight of the
/// pixel and at the depth that was measured there.
pub proof fn law_records_lie_on_lines_of_sight(
    photo: Photo,
    map: DepthMap,
    r: Result<LazCloud, ConvertError>,
    u: nat,
    v: nat,
) -> (j: int)
    requires
        photo.rgb_width > 0 && photo.rgb_height > 0,
        map.depth.len() == map.width * map.height,
        photo.finishes_as(map, r),
        u < map.width && v < map.height,
        kept(map.depth, map.levels, photo.min_confidence, (v * map.width + u) as int),
    ensures
        r is Ok,
        0 <= j < r->Ok_0.records@.len(),
        j == kept_count(map.depth, map.levels, photo.min_confidence, (v * map.width + u) as nat),
        ({
            let p = r->Ok_0.records@[j];
            let s = photo.intrinsics.spec_scaled(
                photo.rgb_width,
                photo.rgb_height,
                map.width,
                map.height,
            );
            &&& p.z.finite()
            &&& p.z.signed_units() == map.depth[(v * map.width + u) as int].units() * pow2(925)
            &&& is_ordinary(photo.intrinsics) ==> {
                &&& p.x.finite() && p.y.finite()
                &&& is_seen_at(p.x, (2 * u + 1) * pow2(1073), s.cx, s.fx, p.z)
                &&& is_seen_at(p.y, (2 * v + 1) * pow2(1073), s.cy, s.fy, p.z)
            }
        }),
{
    let params = UnprojectParams {
        rgb_width: photo.rgb_width,
        rgb_height: photo.rgb_height,
        depth_width: map.width,
        depth_height: map.height,
        min_confidence: photo.min_confidence,
    };
    let all = points(
        photo.pixels,
        map.depth,
        map.levels,
        photo.intrinsics,
        params,
        map.depth.len(),
    );
    assert(photo.points(map) == all);
    law_points_lie_on_lines_of_sight(
        photo.pixels,
        map.depth,
        map.levels,
        photo.intrinsics,
        params,
        u,
        v,
    );
    let j = kept_count(map.depth, map.levels, photo.min_confidence, (v * map.width + u) as nat);
    assert(all[j as int] == point_of_pixel(
        photo.pixels,
        map.depth,
        map.levels,
        photo.intrinsics,
        params,
        u,
        v,
    ));
    law_records_are_the_points(r->Ok_0, all, j as int);
    j as int
}

/// A photo without a depth pixel to keep is refused for that, by its id and the threshold.
pub proof fn law_no_kept_pixel_no_cloud(photo: Photo, map: DepthMap, r: Result<LazCloud, ConvertError>)
    requires
        photo.finishes_as(map, r),
        r is Err,
    ensures
        r == Err::<LazCloud, ConvertError>(
            ConvertError::NoPoints { id: photo.id, min_confidence: photo.min_confidence },
        ),
{
}

/// A cloud that comes of a conversion is that of a photo which could be prepared, and of a
/// depth map that this photo works on.
pub proof fn law_cloud_comes_of_the_photo<F: Fn(Double) -> Double, T: Fn(Double) -> Double>(
    exp: F,
    tan: T,
    row: PhotoRow,
    file: RgbFile,
    opts: ConvertOptions,
    cloud: LazCloud,
) -> (made_of: (Photo, DepthMap))
    requires
        converts_to(exp, tan, row, file, opts, Ok(cloud)),
    ensures
        ({
            let (photo, map) = made_of;
            &&& prepares_to(tan, row, file, opts, Ok(photo))
            &&& photo.works_on(exp, map)
            &&& photo.finishes_as(map, Ok(cloud))
        }),
{
    let r = Ok::<LazCloud, ConvertError>(cloud);
    let prepared = choose|prepared: Result<Photo, ConvertError>| #[trigger]
        prepares_to(tan, row, file, opts, prepared) && match prepared {
            Err(e) => r == Err::<LazCloud, ConvertError>(e),
            Ok(photo) => exists|map: DepthMap| #[trigger]
                photo.works_on(exp, map) && photo.finishes_as(map, r),
        };
    let photo = prepared->Ok_0;
    assert(prepares_to(tan, row, file, opts, prepared));
    let map = choose|map: DepthMap| #[trigger]
        photo.works_on(exp, map) && photo.finishes_as(map, r);
    (photo, map)
}

/// Whether the photo of a row can be prepared, and the cloud of it is refused in this way.
pub open spec fn is_refused_cloud<F: Fn(Double) -> Double, T: Fn(Double) -> Double>(
    exp: F,
    tan: T,
    row: PhotoRow,
    file: RgbFile,
    opts: ConvertOptions,
    e: ConvertError,
) -> bool {
    exists|photo: Photo, map: DepthMap|
        prepares_to(tan, row, file, opts, Ok(photo)) && #[trigger] photo.works_on(exp, map)
            && photo.finishes_as(map, Err(e))
}

/// A conversion that fails does so because the photo cannot be prepared, or else because its
/// cloud is refused.
pub proof fn law_failure_comes_of_the_photo<F: Fn(Double) -> Double, T: Fn(Double) -> Double>(
    exp: F,
    tan: T,
    row: PhotoRow,
    file: RgbFile,
    opts: ConvertOptions,
    e: ConvertError,
)
    requires
        converts_to(exp, tan, row, file, opts, Err(e)),
    ensures
        prepares_to(tan, row, file, opts, Err(e)) || is_refused_cloud(exp, tan, row, file, opts, e),
{
    let r = Err::<LazCloud, ConvertError>(e);
    let prepared = choose|prepared: Result<Photo, ConvertError>| #[trigger]
        prepares_to(tan, row, file, opts, prepared) && match prepared {
            Err(e) => r == Err::<LazCloud, ConvertError>(e),
            Ok(photo) => exists|map: DepthMap| #[trigger]
                photo.works_on(exp, map) && photo.finishes_as(map, r),
        };
    assert(prepares_to(tan, row, file, opts, prepared));
    if let Ok(photo) = prepared {
        let map = choose|map: DepthMap| #[trigger]
            photo.works_on(exp, map) && photo.finishes_as(map, r);
        assert(photo.works_on(exp, map));
    }
}

/// The file name of a cloud: the id with at least six digits, and the time stamp.
pub proof fn law_output_name_tells_id_and_time(id: int, stamp: int)
    ensures
        ({
            let digits = integer(id, 6);
            let rest = integer(stamp, 0);
            &&& output_name(id, stamp) == "photo-"@ + digits + "-"@ + rest + ".laz"@
            &&& id >= 0 ==> is_digits(digits) && value(digits) == id
            &&& stamp >= 0 ==> is_digits(rest) && value(rest) == stamp
            &&& 0 <= id < 1_000_000 ==> digits.len() == 6
        }),
{
    law_integer_reads_back(id, 6);
    law_integer_reads_back(stamp, 0);
    if 0 <= id < 1_000_000 {
        reveal_with_fuel(decimal, 7);
        assert(decimal(id as nat).len() <= 6);
    }
}

/// What is said of a photo that cannot be converted names the photo, or the file of its image,
/// and the reason.
pub proof fn law_words_name_the_photo(
    id: i64,
    error: DecodeError,
    path: String,
    words: String,
    fault: PhotoError,
)
    ensures
        (ConvertError::NoDepth { id }).spec_message() == "photo "@ + integer(id as int, 0)
            + " has no depth_bytes (pre-LiDAR or migration-stale row)"@,
        (ConvertError::Depth { id, error }).spec_message() == "decode depth for photo "@ + integer(
            id as int,
            0,
        ) + ": "@ + error.spec_message(),
        (ConvertError::Confidence { id, error }).spec_message() == "decode confidence for photo "@
            + integer(id as int, 0) + ": "@ + error.spec_message(),
        (ConvertError::Intrinsics { id, error }).spec_message() == "decode intrinsics for photo "@
            + integer(id as int, 0) + ": "@ + error.spec_message(),
        (ConvertError::OpenRgb { path, words }).spec_message() == "open rgb image at "@ + path@
            + ": "@ + words@,
        (ConvertError::ReadRgb { path, words }).spec_message() == "sniff format of "@ + path@
            + ": "@ + words@,
        (ConvertError::DecodeRgb { path, error: fault }).spec_message() == "decode rgb image at "@
            + path@ + ": "@ + fault.spec_message(),
        (ConvertError::NoIntrinsics { id }).spec_message() == "photo "@ + integer(id as int, 0)
            + " has no intrinsics_bytes (pre-schema-v7 capture); "@
            + "pass --intrinsics fx,fy,cx,cy or --hfov-degrees"@,
        (ConvertError::NoPoints { id, min_confidence: Confidence::Low }).spec_message() == "photo "@
            + integer(id as int, 0) + " produced 0 points after filtering (confidence threshold="@
            + "Low"@ + ")"@,
        (ConvertError::NoPoints { id, min_confidence: Confidence::Medium }).spec_message()
            == "photo "@ + integer(id as int, 0)
            + " produced 0 points after filtering (confidence threshold="@ + "Medium"@ + ")"@,
        (ConvertError::NoPoints { id, min_confidence: Confidence::High }).spec_message()
            == "photo "@ + integer(id as int, 0)
            + " produced 0 points after filtering (confidence threshold="@ + "High"@ + ")"@,
        PhotoError::UnknownFormat(words).spec_message() == words@,
        PhotoError::Undecodable(words).spec_message() == words@,
{
}

} // verus!
