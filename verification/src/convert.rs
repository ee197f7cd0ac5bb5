//! From the row of a photo and the file of its image to a cloud.
//!
//! The decisions are taken in a fixed order: the depth and confidence blobs are
//! decoded, then the image, then the camera matrix is settled, then depth is
//! upsampled where that is asked for, then the pixels are unprojected.
use vstd::arithmetic::div_mod::{
    lemma_fundamental_div_mod, lemma_fundamental_div_mod_converse, lemma_mod_pos_bound,
};
use vstd::prelude::*;

use crate::blending::{
    between, law_exponents_are_in_range, law_upsampled_depth_stays_in_range, lemma_between_widened,
    like_exponential, window_between,
};
use crate::db::{resolve_rgb_path, resolved, PhotoRow};
use crate::decode::{
    blob_intrinsics, blob_levels, decode_confidence, decode_depth, decode_intrinsics, depth_samples,
    Confidence, DecodeError, Intrinsics,
};
use crate::double::{Double, Single, SINGLE_NOT_A_NUMBER, TWO};
use crate::photo::{
    breaks_off_as, broken_off, decode_photo, decodes_to, PhotoError, RgbImage,
};
use crate::text::{
    integer, is_digits, law_integer_shape, law_integers_differ_in_text, push_integer,
};
use crate::unproject::{
    kept, kept_count, law_one_point_per_kept_pixel, law_points_have_measured_depth,
    lemma_kept_count, levels, masked, points, unproject, ColoredPoint, UnprojectParams,
};
use crate::upsample::{
    blends_to, in_window, joint_bilateral_upsample, law_no_sample_no_depth, pixel_taps,
    upsampled_from, UpsampleParams,
};
use crate::write::{laz_cloud, LazCloud};

verus! {

/// How photos are converted.
#[derive(Debug, Clone)]
pub struct ConvertOptions {
    /// Depth pixels of which the confidence is below this level are dropped.
    pub min_confidence: Confidence,
    /// The directory that the paths of the images are relative to.
    pub rgb_root: String,
    /// The camera matrix, at the resolution of the image, for a row that has
    /// none. It counts before `fallback_hfov_degrees`.
    pub fallback_intrinsics: Option<Intrinsics>,
    /// The horizontal field of view, in degrees, for a row that has no camera
    /// matrix: a matrix with square pixels is made up, centred in the image.
    pub fallback_hfov_degrees: Option<Double>,
    /// How many output pixels there are to a depth pixel, along either axis. Up
    /// to one, the depth map is taken as it is.
    pub upsample_factor: u32,
}

impl ConvertOptions {
    /// Whether there is a camera matrix for a row that has none.
    pub open spec fn has_fallback(self) -> bool {
        self.fallback_intrinsics is Some || self.fallback_hfov_degrees is Some
    }

    /// The path of the image of a photo.
    pub fn rgb_path(&self, row: &PhotoRow) -> (r: String)
        ensures
            r@ == resolved(row.rgb_path@, self.rgb_root@),
    {
        resolve_rgb_path(row.rgb_path.as_str(), self.rgb_root.as_str())
    }
}

/// Why a photo cannot be converted.
#[derive(Debug, Clone)]
pub enum ConvertError {
    NoDepth { id: i64 },
    Depth { id: i64, error: DecodeError },
    Confidence { id: i64, error: DecodeError },
    /// The file of the image cannot be opened, in these words.
    OpenRgb { path: String, words: String },
    /// The first bytes of the image cannot be read, in these words.
    ReadRgb { path: String, words: String },
    DecodeRgb { path: String, error: PhotoError },
    Intrinsics { id: i64, error: DecodeError },
    NoIntrinsics { id: i64 },
    NoPoints { id: i64, min_confidence: Confidence },
}

/// The name of a level.
pub open spec fn level_name(level: Confidence) -> Seq<char> {
    match level {
        Confidence::Low => "Low"@,
        Confidence::Medium => "Medium"@,
        Confidence::High => "High"@,
    }
}

impl ConvertError {
    /// The error in words.
    pub open spec fn spec_message(self) -> Seq<char> {
        match self {
            ConvertError::NoDepth { id } => "photo "@ + integer(id as int, 0)
                + " has no depth_bytes (pre-LiDAR or migration-stale row)"@,
            ConvertError::Depth { id, error } => "decode depth for photo "@ + integer(id as int, 0)
                + ": "@ + error.spec_message(),
            ConvertError::Confidence { id, error } => "decode confidence for photo "@ + integer(
                id as int,
                0,
            ) + ": "@ + error.spec_message(),
            ConvertError::OpenRgb { path, words } => "open rgb image at "@ + path@ + ": "@ + words@,
            ConvertError::ReadRgb { path, words } => "sniff format of "@ + path@ + ": "@ + words@,
            ConvertError::DecodeRgb { path, error } => "decode rgb image at "@ + path@ + ": "@
                + error.spec_message(),
            ConvertError::Intrinsics { id, error } => "decode intrinsics for photo "@ + integer(
                id as int,
                0,
            ) + ": "@ + error.spec_message(),
            ConvertError::NoIntrinsics { id } => "photo "@ + integer(id as int, 0)
                + " has no intrinsics_bytes (pre-schema-v7 capture); "@
                + "pass --intrinsics fx,fy,cx,cy or --hfov-degrees"@,
            ConvertError::NoPoints { id, min_confidence } => "photo "@ + integer(id as int, 0)
                + " produced 0 points after filtering (confidence threshold="@ + level_name(
                min_confidence,
            ) + ")"@,
        }
    }

    /// The error in words.
    pub fn message(&self) -> (r: String)
        ensures
            r@ == self.spec_message(),
    {
        let mut out = String::new();
        match self {
            ConvertError::NoDepth { id } => {
                out.append("photo ");
                push_integer(&mut out, *id, 0);
                out.append(" has no depth_bytes (pre-LiDAR or migration-stale row)");
            },
            ConvertError::Depth { id, error } => {
                out.append("decode depth for photo ");
                push_integer(&mut out, *id, 0);
                out.append(": ");
                out.append(error.message().as_str());
            },
            ConvertError::Confidence { id, error } => {
                out.append("decode confidence for photo ");
                push_integer(&mut out, *id, 0);
                out.append(": ");
                out.append(error.message().as_str());
            },
            ConvertError::OpenRgb { path, words } => {
                out.append("open rgb image at ");
                out.append(path.as_str());
                out.append(": ");
                out.append(words.as_str());
            },
            ConvertError::ReadRgb { path, words } => {
                out.append("sniff format of ");
                out.append(path.as_str());
                out.append(": ");
                out.append(words.as_str());
            },
            ConvertError::DecodeRgb { path, error } => {
                out.append("decode rgb image at ");
                out.append(path.as_str());
                out.append(": ");
                out.append(error.message().as_str());
            },
            ConvertError::Intrinsics { id, error } => {
                out.append("decode intrinsics for photo ");
                push_integer(&mut out, *id, 0);
                out.append(": ");
                out.append(error.message().as_str());
            },
            ConvertError::NoIntrinsics { id } => {
                out.append("photo ");
                push_integer(&mut out, *id, 0);
                out.append(" has no intrinsics_bytes (pre-schema-v7 capture); ");
                out.append("pass --intrinsics fx,fy,cx,cy or --hfov-degrees");
            },
            ConvertError::NoPoints { id, min_confidence } => {
                out.append("photo ");
                push_integer(&mut out, *id, 0);
                out.append(" produced 0 points after filtering (confidence threshold=");
                match min_confidence {
                    Confidence::Low => out.append("Low"),
                    Confidence::Medium => out.append("Medium"),
                    Confidence::High => out.append("High"),
                }
                out.append(")");
            },
        }
        assert(out@ =~= self.spec_message());
        out
    }
}

/// The file name for the cloud of a photo: the same photo gets the same name
/// whenever it is converted.
pub open spec fn output_name(id: int, utc_unix_timestamp: int) -> Seq<char> {
    "photo-"@ + integer(id, 6) + "-"@ + integer(utc_unix_timestamp, 0) + ".laz"@
}

/// The file name for the cloud of a photo.
#[must_use]
pub fn default_output_name(id: i64, utc_unix_timestamp: i64) -> (r: String)
    ensures
        r@ == output_name(id as int, utc_unix_timestamp as int),
{
    let mut out = "photo-".to_owned();
    push_integer(&mut out, id, 6);
    out.append("-");
    push_integer(&mut out, utc_unix_timestamp, 0);
    out.append(".laz");
    out
}

/// A depth map: its samples, row by row, and their confidence where it is known.
#[verifier::ext_equal]
pub struct DepthMap {
    pub depth: Seq<Single>,
    pub levels: Option<Seq<Confidence>>,
    pub width: u32,
    pub height: u32,
}

impl DepthMap {
    /// There is a sample, and a level where levels are known, for each place.
    pub open spec fn valid(self) -> bool {
        &&& self.depth.len() == self.width * self.height
        &&& self.levels matches Some(c) ==> c.len() == self.depth.len()
    }
}

/// A depth map, to compute with.
#[derive(Debug, Clone)]
pub struct DepthGrid {
    pub depth: Vec<Single>,
    pub confidence: Option<Vec<Confidence>>,
    pub width: u32,
    pub height: u32,
}

impl View for DepthGrid {
    type V = DepthMap;

    open spec fn view(&self) -> DepthMap {
        DepthMap {
            depth: self.depth@,
            levels: match self.confidence {
                Some(c) => Some(c@),
                None => None,
            },
            width: self.width,
            height: self.height,
        }
    }
}

/// The depth map of a row.
pub open spec fn row_map(row: PhotoRow) -> DepthMap {
    DepthMap {
        depth: depth_samples(row.depth_bytes@),
        levels: match usable_confidence(row) {
            Some(bytes) => Some(blob_levels(bytes)),
            None => None,
        },
        width: row.depth_width,
        height: row.depth_height,
    }
}

/// The confidence blob of a row, where there is one that fits the depth map.
pub open spec fn usable_confidence(row: PhotoRow) -> Option<Seq<u8>> {
    match row.confidence_bytes {
        Some(bytes) => if row.confidence_width == row.depth_width && row.confidence_height
            == row.depth_height {
            Some(bytes@)
        } else {
            None
        },
        None => None,
    }
}

/// What is wrong with the depth map of a row.
pub open spec fn depth_error(row: PhotoRow) -> Option<ConvertError> {
    let count = row.depth_width * row.depth_height;
    if row.depth_bytes@.len() == 0 {
        Some(ConvertError::NoDepth { id: row.id })
    } else if row.depth_bytes@.len() != count * 4 {
        let error = DecodeError::DepthSizeMismatch {
            len: row.depth_bytes@.len() as usize,
            width: row.depth_width as usize,
            height: row.depth_height as usize,
        };
        Some(ConvertError::Depth { id: row.id, error })
    } else {
        match usable_confidence(row) {
            Some(bytes) => if bytes.len() != count {
                let error = DecodeError::ConfidenceSizeMismatch {
                    len: bytes.len() as usize,
                    width: row.confidence_width as usize,
                    height: row.confidence_height as usize,
                };
                Some(ConvertError::Confidence { id: row.id, error })
            } else {
                None
            },
            None => None,
        }
    }
}

/// Decodes the depth map of a row. Confidence that is not stored, or that does
/// not fit the depth map, is left aside.
pub fn decode_grid(row: &PhotoRow) -> (r: Result<DepthGrid, ConvertError>)
    ensures
        match r {
            Ok(grid) => depth_error(*row) is None && grid@ == row_map(*row),
            Err(e) => depth_error(*row) == Some(e),
        },
{
    if row.depth_bytes.len() == 0 {
        return Err(ConvertError::NoDepth { id: row.id });
    }
    let width = row.depth_width;
    let height = row.depth_height;
    let depth = match decode_depth(row.depth_bytes.as_slice(), width, height) {
        Ok(depth) => depth,
        Err(error) => {
            return Err(ConvertError::Depth { id: row.id, error });
        },
    };
    let fits = row.confidence_width == width && row.confidence_height == height;
    let mut confidence: Option<Vec<Confidence>> = None;
    if fits {
        if let Some(bytes) = &row.confidence_bytes {
            match decode_confidence(bytes.as_slice(), width, height) {
                Ok(levels) => {
                    confidence = Some(levels);
                },
                Err(error) => {
                    return Err(ConvertError::Confidence { id: row.id, error });
                },
            }
        }
    }
    Ok(DepthGrid { depth, confidence, width, height })
}

/// One degree in radians: the bits of the quotient of pi and 180.
pub const RADIANS_PER_DEGREE: u64 = 0x3f91_df46_a252_9d39;

/// Half an angle in degrees, in radians.
pub open spec fn half_angle(degrees: Double) -> Double {
    degrees.spec_mul(Double { bits: RADIANS_PER_DEGREE }).spec_div(Double { bits: TWO })
}

/// The camera matrix with square pixels, centred in the image, for which half the
/// horizontal field of view has this tangent.
pub open spec fn centred(width: u32, height: u32, tangent: Double) -> Intrinsics {
    let two = Double { bits: TWO };
    let focal = Double::spec_from_count(width as nat).spec_div(two.spec_mul(tangent));
    Intrinsics {
        fx: focal,
        fy: focal,
        cx: Double::spec_from_count(width as nat).spec_div(two),
        cy: Double::spec_from_count(height as nat).spec_div(two),
    }
}

/// Makes up a camera matrix from the horizontal field of view, with `tan` as the
/// tangent function: square pixels, and the principal point in the middle of the
/// image.
pub fn synthesize_intrinsics<T: Fn(Double) -> Double>(
    rgb_w: u32,
    rgb_h: u32,
    hfov_degrees: Double,
    tan: &T,
) -> (r: Intrinsics)
    requires
        forall|x: Double| call_requires(*tan, (x,)),
    ensures
        exists|tangent: Double|
            call_ensures(*tan, (half_angle(hfov_degrees),), tangent) && r == #[trigger] centred(
                rgb_w,
                rgb_h,
                tangent,
            ),
{
    let two = Double { bits: TWO };
    let angle = hfov_degrees.mul(Double { bits: RADIANS_PER_DEGREE }).div(two);
    let tangent = tan(angle);
    let focal = Double::from_count(rgb_w).div(two.mul(tangent));
    let r = Intrinsics {
        fx: focal,
        fy: focal,
        cx: Double::from_count(rgb_w).div(two),
        cy: Double::from_count(rgb_h).div(two),
    };
    assert(r == centred(rgb_w, rgb_h, tangent));
    r
}

/// Whether `r` is the camera matrix of a photo: that of its row, else the one
/// given in the options, else one made up from the field of view given there.
pub open spec fn resolves_to<T: Fn(Double) -> Double>(
    tan: T,
    row: PhotoRow,
    rgb_w: u32,
    rgb_h: u32,
    opts: ConvertOptions,
    r: Result<Intrinsics, ConvertError>,
) -> bool {
    let blob = match row.intrinsics_bytes {
        Some(bytes) => bytes@,
        None => seq![],
    };
    if blob.len() > 0 {
        r == if blob.len() == 72 {
            Ok(blob_intrinsics(blob))
        } else {
            let error = DecodeError::IntrinsicsSize(blob.len() as usize);
            Err(ConvertError::Intrinsics { id: row.id, error })
        }
    } else {
        match (opts.fallback_intrinsics, opts.fallback_hfov_degrees) {
            (Some(k), _) => r == Ok::<Intrinsics, ConvertError>(k),
            (None, Some(degrees)) => exists|tangent: Double|
                call_ensures(tan, (half_angle(degrees),), tangent) && r == Ok::<
                    Intrinsics,
                    ConvertError,
                >(#[trigger] centred(rgb_w, rgb_h, tangent)),
            (None, None) => r == Err::<Intrinsics, ConvertError>(
                ConvertError::NoIntrinsics { id: row.id },
            ),
        }
    }
}

/// The camera matrix of a photo.
pub fn resolve_intrinsics<T: Fn(Double) -> Double>(
    row: &PhotoRow,
    rgb_w: u32,
    rgb_h: u32,
    opts: &ConvertOptions,
    tan: &T,
) -> (r: Result<Intrinsics, ConvertError>)
    requires
        forall|x: Double| call_requires(*tan, (x,)),
    ensures
        resolves_to(*tan, *row, rgb_w, rgb_h, *opts, r),
{
    if let Some(bytes) = &row.intrinsics_bytes {
        if bytes.len() > 0 {
            return match decode_intrinsics(bytes.as_slice()) {
                Ok(k) => Ok(k),
                Err(error) => Err(ConvertError::Intrinsics { id: row.id, error }),
            };
        }
    }
    if let Some(k) = opts.fallback_intrinsics {
        return Ok(k);
    }
    match opts.fallback_hfov_degrees {
        Some(degrees) => Ok(synthesize_intrinsics(rgb_w, rgb_h, degrees, tan)),
        None => Err(ConvertError::NoIntrinsics { id: row.id }),
    }
}

/// What came of reading the file of an image.
#[derive(Debug, Clone)]
pub enum RgbContents {
    Bytes(Vec<u8>),
    /// The file cannot be opened, in these words.
    NotOpened(String),
    /// The first bytes of the file cannot be read, in these words.
    NotRead(String),
    /// The file starts with these bytes, and cannot be read to its end, in these
    /// words.
    BrokenOff(Vec<u8>, String),
}

/// The file of an image.
#[derive(Debug, Clone)]
pub struct RgbFile {
    /// The path, as it is shown in messages.
    pub path: String,
    /// The extension of the file name.
    pub extension: Option<String>,
    pub contents: RgbContents,
}

impl RgbFile {
    pub open spec fn spec_extension(self) -> Option<Seq<char>> {
        match self.extension {
            Some(e) => Some(e@),
            None => None,
        }
    }

    /// Whether loading the image can give this.
    pub open spec fn loads_to(self, r: Result<RgbImage, ConvertError>) -> bool {
        match self.contents {
            RgbContents::NotOpened(words) => r == Err::<RgbImage, ConvertError>(
                ConvertError::OpenRgb { path: self.path, words },
            ),
            RgbContents::NotRead(words) => r == Err::<RgbImage, ConvertError>(
                ConvertError::ReadRgb { path: self.path, words },
            ),
            RgbContents::BrokenOff(start, words) => r matches Err(
                ConvertError::DecodeRgb { path, error },
            ) && path == self.path && breaks_off_as(
                start@,
                self.spec_extension(),
                words@,
                error,
            ),
            RgbContents::Bytes(bytes) => exists|photo: Result<RgbImage, PhotoError>| #[trigger]
                decodes_to(bytes@, self.spec_extension(), photo) && r == match photo {
                    Ok(image) => Ok::<RgbImage, ConvertError>(image),
                    Err(error) => Err(ConvertError::DecodeRgb { path: self.path, error }),
                },
        }
    }

    /// Loads the image.
    pub fn load(self) -> (r: Result<RgbImage, ConvertError>)
        ensures
            self.loads_to(r),
            r matches Ok(image) ==> image.valid(),
    {
        let RgbFile { path, extension, contents } = self;
        let name = match &extension {
            Some(e) => Some(e.as_str()),
            None => None,
        };
        match contents {
            RgbContents::NotOpened(words) => Err(ConvertError::OpenRgb { path, words }),
            RgbContents::NotRead(words) => Err(ConvertError::ReadRgb { path, words }),
            RgbContents::BrokenOff(start, words) => {
                let error = broken_off(start.as_slice(), name, words);
                Err(ConvertError::DecodeRgb { path, error })
            },
            RgbContents::Bytes(bytes) => {
                match decode_photo(bytes.as_slice(), name) {
                    Ok(image) => Ok(image),
                    Err(error) => Err(ConvertError::DecodeRgb { path, error }),
                }
            },
        }
    }
}

/// A photo with all that its conversion needs.
#[verifier::ext_equal]
pub struct Photo {
    pub id: i64,
    pub map: DepthMap,
    pub rgb_width: u32,
    pub rgb_height: u32,
    pub pixels: Seq<u8>,
    pub intrinsics: Intrinsics,
    pub min_confidence: Confidence,
    pub upsample_factor: u32,
}

impl Photo {
    /// There are an image and a depth map with a sample.
    pub open spec fn valid(self) -> bool {
        &&& self.map.valid()
        &&& self.map.depth.len() > 0
        &&& self.rgb_width > 0
        &&& self.rgb_height > 0
        &&& self.pixels.len() == self.rgb_width * self.rgb_height * 3
    }

    /// The columns and the rows of an upsampled depth map can be counted.
    pub open spec fn countable(self) -> bool {
        &&& self.map.width * self.upsample_factor <= u32::MAX
        &&& self.map.height * self.upsample_factor <= u32::MAX
    }

    /// Whether the depth sample at place `i` is kept.
    pub open spec fn keeps(self, i: int) -> bool {
        kept(self.map.depth, self.map.levels, self.min_confidence, i)
    }

    /// The sizes that upsampling goes by.
    pub open spec fn upsample_params(self) -> UpsampleParams {
        UpsampleParams {
            low_width: self.map.width,
            low_height: self.map.height,
            guide_width: self.rgb_width,
            guide_height: self.rgb_height,
            factor: self.upsample_factor,
        }
    }

    /// The depth samples that upsampling goes by: those that are kept.
    pub open spec fn anchors(self) -> Seq<Single> {
        masked(self.map.depth, self.map.levels, self.min_confidence)
    }

    /// Whether `map` is the depth map to unproject: the one of the photo, or one
    /// that was upsampled from it.
    pub open spec fn works_on<F: Fn(Double) -> Double>(self, exp: F, map: DepthMap) -> bool {
        if self.upsample_factor > 1 {
            &&& map.width == self.map.width * self.upsample_factor
            &&& map.height == self.map.height * self.upsample_factor
            &&& map.levels is None
            &&& upsampled_from(
                exp,
                self.anchors(),
                self.pixels,
                self.upsample_params(),
                map.depth,
            )
        } else {
            map == self.map
        }
    }

    /// How a depth map of this size is unprojected.
    pub open spec fn unproject_params(self, width: u32, height: u32) -> UnprojectParams {
        UnprojectParams {
            rgb_width: self.rgb_width,
            rgb_height: self.rgb_height,
            depth_width: width,
            depth_height: height,
            min_confidence: self.min_confidence,
        }
    }

    /// The points that a depth map gives.
    pub open spec fn points(self, map: DepthMap) -> Seq<ColoredPoint> {
        points(
            self.pixels,
            map.depth,
            map.levels,
            self.intrinsics,
            self.unproject_params(map.width, map.height),
            map.depth.len(),
        )
    }

    /// Whether `r` is the cloud of a depth map, or says that it has no points.
    pub open spec fn finishes_as(self, map: DepthMap, r: Result<LazCloud, ConvertError>) -> bool {
        let all = self.points(map);
        if all.len() > 0 {
            r matches Ok(cloud) && cloud.holds(all)
        } else {
            r == Err::<LazCloud, ConvertError>(
                ConvertError::NoPoints { id: self.id, min_confidence: self.min_confidence },
            )
        }
    }
}

/// The photo of a row, with the image and the camera matrix that were found for it.
pub open spec fn photo_of(
    row: PhotoRow,
    rgb: RgbImage,
    k: Intrinsics,
    opts: ConvertOptions,
) -> Photo {
    Photo {
        id: row.id,
        map: row_map(row),
        rgb_width: rgb.width,
        rgb_height: rgb.height,
        pixels: rgb.pixels@,
        intrinsics: k,
        min_confidence: opts.min_confidence,
        upsample_factor: opts.upsample_factor,
    }
}

/// Whether preparing the photo of a row can give this.
pub open spec fn prepares_to<T: Fn(Double) -> Double>(
    tan: T,
    row: PhotoRow,
    file: RgbFile,
    opts: ConvertOptions,
    r: Result<Photo, ConvertError>,
) -> bool {
    match depth_error(row) {
        Some(e) => r == Err::<Photo, ConvertError>(e),
        None => exists|loaded: Result<RgbImage, ConvertError>| #[trigger]
            file.loads_to(loaded) && match loaded {
                Err(e) => r == Err::<Photo, ConvertError>(e),
                Ok(rgb) => rgb.valid() && exists|k: Result<Intrinsics, ConvertError>| #[trigger]
                    resolves_to(tan, row, rgb.width, rgb.height, opts, k) && r == match k {
                        Err(e) => Err::<Photo, ConvertError>(e),
                        Ok(k) => Ok(photo_of(row, rgb, k, opts)),
                    },
            },
    }
}

/// A photo that is ready to be unprojected, or to be upsampled first.
#[derive(Debug, Clone)]
pub struct Prepared {
    pub id: i64,
    pub grid: DepthGrid,
    pub rgb: RgbImage,
    pub intrinsics: Intrinsics,
    pub min_confidence: Confidence,
    pub upsample_factor: u32,
}

impl View for Prepared {
    type V = Photo;

    open spec fn view(&self) -> Photo {
        Photo {
            id: self.id,
            map: self.grid@,
            rgb_width: self.rgb.width,
            rgb_height: self.rgb.height,
            pixels: self.rgb.pixels@,
            intrinsics: self.intrinsics,
            min_confidence: self.min_confidence,
            upsample_factor: self.upsample_factor,
        }
    }
}

/// What was prepared, or why not.
pub open spec fn prepared_photo(r: Result<Prepared, ConvertError>) -> Result<Photo, ConvertError> {
    match r {
        Ok(p) => Ok(p@),
        Err(e) => Err(e),
    }
}

proof fn lemma_row_map(row: PhotoRow)
    requires
        depth_error(row) is None,
    ensures
        row_map(row).valid(),
        row_map(row).depth.len() > 0,
{
}

/// Decodes what the conversion of a photo needs. Of several things that are wrong,
/// the first counts: the depth map, then the image, then the camera matrix.
pub fn prepare<T: Fn(Double) -> Double>(
    row: &PhotoRow,
    file: RgbFile,
    opts: &ConvertOptions,
    tan: &T,
) -> (r: Result<Prepared, ConvertError>)
    requires
        forall|x: Double| call_requires(*tan, (x,)),
    ensures
        prepares_to(*tan, *row, file, *opts, prepared_photo(r)),
        r matches Ok(p) ==> p@.valid(),
{
    let grid = match decode_grid(row) {
        Ok(grid) => grid,
        Err(e) => {
            return Err(e);
        },
    };
    let loaded = file.load();
    assert(file.loads_to(loaded));
    let rgb = match loaded {
        Ok(rgb) => rgb,
        Err(e) => {
            return Err(e);
        },
    };
    let k = resolve_intrinsics(row, rgb.width, rgb.height, opts, tan);
    assert(resolves_to(*tan, *row, rgb.width, rgb.height, *opts, k));
    proof {
        lemma_row_map(*row);
    }
    match k {
        Ok(intrinsics) => Ok(
            Prepared {
                id: row.id,
                grid,
                rgb,
                intrinsics,
                min_confidence: opts.min_confidence,
                upsample_factor: opts.upsample_factor,
            },
        ),
        Err(e) => Err(e),
    }
}

proof fn lemma_upsample_params(photo: Photo)
    requires
        photo.valid(),
        photo.countable(),
        photo.upsample_factor >= 1,
    ensures
        photo.upsample_params().valid(),
        photo.map.height >= 1,
{
    let (w, h) = (photo.map.width as int, photo.map.height as int);
    assert(w > 0 && h > 0) by (nonlinear_arith)
        requires
            w >= 0,
            h >= 0,
            w * h > 0,
    ;
}

impl Prepared {
    /// The sizes that upsampling goes by.
    pub fn upsample_params(&self) -> (r: UpsampleParams)
        ensures
            r == self@.upsample_params(),
            self@.valid() && self@.countable() && self@.upsample_factor >= 1 ==> r.valid(),
    {
        proof {
            if self@.valid() && self@.countable() && self@.upsample_factor >= 1 {
                lemma_upsample_params(self@);
            }
        }
        UpsampleParams {
            low_width: self.grid.width,
            low_height: self.grid.height,
            guide_width: self.rgb.width,
            guide_height: self.rgb.height,
            factor: self.upsample_factor,
        }
    }

    /// The depth samples with what is not kept taken out. An upsampled depth map
    /// has no confidence, so the filter comes before it.
    pub fn anchors(&self) -> (r: Vec<Single>)
        requires
            self.grid@.valid(),
        ensures
            r@ == self@.anchors(),
    {
        let depth = self.grid.depth.as_slice();
        let ghost all = self@.anchors();
        let mut out: Vec<Single> = Vec::with_capacity(depth.len());
        let mut i: usize = 0;
        while i < depth.len()
            invariant
                i <= depth@.len(),
                depth@ == self.grid.depth@,
                self.grid@.valid(),
                all == self@.anchors(),
                out@ == all.take(i as int),
            decreases depth@.len() - i,
        {
            let trusted = match &self.grid.confidence {
                Some(c) => c[i].at_least(self.min_confidence),
                None => true,
            };
            if depth[i].is_positive() && trusted {
                out.push(depth[i]);
            } else {
                out.push(Single { bits: SINGLE_NOT_A_NUMBER });
            }
            assert(out@ =~= all.take(i + 1));
            i = i + 1;
        }
        assert(out@ =~= all);
        out
    }

    /// The depth map upsampled, with `exp` as the exponential function.
    pub fn upsampled<F: Fn(Double) -> Double>(&self, exp: &F) -> (r: DepthGrid)
        requires
            self@.valid(),
            self@.countable(),
            self@.upsample_factor > 1,
            forall|x: Double| call_requires(*exp, (x,)),
        ensures
            self@.works_on(*exp, r@),
            r@.valid(),
    {
        let anchors = self.anchors();
        let params = self.upsample_params();
        let up = joint_bilateral_upsample(
            anchors.as_slice(),
            params.low_width,
            params.low_height,
            self.rgb.pixels.as_slice(),
            params.guide_width,
            params.guide_height,
            params.factor,
            exp,
        );
        DepthGrid { depth: up.depth, confidence: None, width: up.width, height: up.height }
    }

    /// Unprojects a depth map into a cloud.
    pub fn finish(&self, grid: &DepthGrid) -> (r: Result<LazCloud, ConvertError>)
        requires
            self.rgb.valid(),
            grid@.valid(),
        ensures
            self@.finishes_as(grid@, r),
    {
        let params = UnprojectParams {
            rgb_width: self.rgb.width,
            rgb_height: self.rgb.height,
            depth_width: grid.width,
            depth_height: grid.height,
            min_confidence: self.min_confidence,
        };
        let confidence = match &grid.confidence {
            Some(c) => Some(c.as_slice()),
            None => None,
        };
        assert(levels(confidence) == grid@.levels);
        let all = unproject(
            self.rgb.pixels.as_slice(),
            grid.depth.as_slice(),
            confidence,
            &self.intrinsics,
            &params,
        );
        match laz_cloud(all.as_slice()) {
            Ok(cloud) => Ok(cloud),
            Err(_) => Err(
                ConvertError::NoPoints { id: self.id, min_confidence: self.min_confidence },
            ),
        }
    }
}

/// Whether converting the photo of a row can give this.
pub open spec fn converts_to<F: Fn(Double) -> Double, T: Fn(Double) -> Double>(
    exp: F,
    tan: T,
    row: PhotoRow,
    file: RgbFile,
    opts: ConvertOptions,
    r: Result<LazCloud, ConvertError>,
) -> bool {
    exists|prepared: Result<Photo, ConvertError>| #[trigger]
        prepares_to(tan, row, file, opts, prepared) && match prepared {
            Err(e) => r == Err::<LazCloud, ConvertError>(e),
            Ok(photo) => exists|map: DepthMap| #[trigger]
                photo.works_on(exp, map) && photo.finishes_as(map, r),
        }
}

/// Whether the upsampled depth map of a row can be counted.
pub open spec fn countable(row: PhotoRow, opts: ConvertOptions) -> bool {
    opts.upsample_factor > 1 ==> row.depth_width * opts.upsample_factor <= u32::MAX
        && row.depth_height * opts.upsample_factor <= u32::MAX
}

/// Converts the photo of a row to a cloud, with `exp` and `tan` as the
/// exponential function and the tangent.
pub fn convert_one<F: Fn(Double) -> Double, T: Fn(Double) -> Double>(
    row: &PhotoRow,
    file: RgbFile,
    opts: &ConvertOptions,
    exp: &F,
    tan: &T,
) -> (r: Result<LazCloud, ConvertError>)
    requires
        countable(*row, *opts),
        forall|x: Double| call_requires(*exp, (x,)),
        forall|x: Double| call_requires(*tan, (x,)),
    ensures
        converts_to(*exp, *tan, *row, file, *opts, r),
{
    let prepared = prepare(row, file, opts, tan);
    let ghost photo = prepared_photo(prepared);
    assert(prepares_to(*tan, *row, file, *opts, photo));
    let p = match prepared {
        Ok(p) => p,
        Err(e) => {
            return Err(e);
        },
    };
    assert(p@.map == row_map(*row));
    if p.upsample_factor > 1 {
        let grid = p.upsampled(exp);
        let r = p.finish(&grid);
        assert(p@.works_on(*exp, grid@));
        r
    } else {
        let r = p.finish(&p.grid);
        assert(p@.works_on(*exp, p.grid@));
        r
    }
}

proof fn lemma_split_at_dash(a: Seq<char>, x: Seq<char>, b: Seq<char>, y: Seq<char>)
    requires
        is_digits(a),
        is_digits(b),
        a + seq!['-'] + x == b + seq!['-'] + y,
    ensures
        a == b,
        x == y,
{
    let s = a + seq!['-'] + x;
    let t = b + seq!['-'] + y;
    if a.len() < b.len() {
        assert(s[a.len() as int] == '-' && t[a.len() as int] == b[a.len() as int]);
    } else if b.len() < a.len() {
        assert(t[b.len() as int] == '-' && s[b.len() as int] == a[b.len() as int]);
    }
    assert(a =~= s.take(a.len() as int));
    assert(b =~= t.take(b.len() as int));
    assert(x =~= s.skip(a.len() as int + 1));
    assert(y =~= t.skip(b.len() as int + 1));
}

/// An integer in front of a dash can be told apart from what follows it.
proof fn lemma_integer_before_dash(a: int, x: Seq<char>, b: int, y: Seq<char>, width: nat)
    requires
        integer(a, width) + seq!['-'] + x == integer(b, width) + seq!['-'] + y,
    ensures
        a == b,
        x == y,
{
    let s = integer(a, width);
    let t = integer(b, width);
    law_integer_shape(a, width);
    law_integer_shape(b, width);
    assert((s + seq!['-'] + x)[0] == s[0] && (t + seq!['-'] + y)[0] == t[0]);
    if a < 0 {
        assert((s + seq!['-'] + x).skip(1) =~= s.skip(1) + seq!['-'] + x);
        assert((t + seq!['-'] + y).skip(1) =~= t.skip(1) + seq!['-'] + y);
        lemma_split_at_dash(s.skip(1), x, t.skip(1), y);
        assert(s =~= seq!['-'] + s.skip(1));
        assert(t =~= seq!['-'] + t.skip(1));
    } else {
        lemma_split_at_dash(s, x, t, y);
    }
    law_integers_differ_in_text(a, b, width);
}

proof fn lemma_output_name(id: int, stamp: int)
    ensures
        output_name(id, stamp).skip(6) == integer(id, 6) + seq!['-'] + (integer(stamp, 0)
            + ".laz"@),
{
    reveal_strlit("photo-");
    reveal_strlit("-");
    assert("-"@ =~= seq!['-']);
    assert(output_name(id, stamp).skip(6) =~= integer(id, 6) + seq!['-'] + (integer(stamp, 0)
        + ".laz"@));
}

/// Clouds of different photos get different file names: a name tells the id and
/// the time stamp.
pub proof fn law_output_names_differ(id1: int, stamp1: int, id2: int, stamp2: int)
    requires
        output_name(id1, stamp1) == output_name(id2, stamp2),
    ensures
        id1 == id2,
        stamp1 == stamp2,
{
    let s1 = integer(stamp1, 0);
    let s2 = integer(stamp2, 0);
    lemma_output_name(id1, stamp1);
    lemma_output_name(id2, stamp2);
    lemma_integer_before_dash(id1, s1 + ".laz"@, id2, s2 + ".laz"@, 6);
    assert(s1.len() == s2.len());
    assert(s1 =~= (s1 + ".laz"@).take(s1.len() as int));
    assert(s2 =~= (s2 + ".laz"@).take(s2.len() as int));
    law_integers_differ_in_text(stamp1, stamp2, 0);
}

/// The camera matrix of the row counts before all that the options give.
pub proof fn law_row_matrix_comes_first<T: Fn(Double) -> Double>(
    tan: T,
    row: PhotoRow,
    rgb_w: u32,
    rgb_h: u32,
    opts1: ConvertOptions,
    r1: Result<Intrinsics, ConvertError>,
    opts2: ConvertOptions,
    r2: Result<Intrinsics, ConvertError>,
)
    requires
        row.intrinsics_bytes matches Some(bytes) && bytes@.len() > 0,
        resolves_to(tan, row, rgb_w, rgb_h, opts1, r1),
        resolves_to(tan, row, rgb_w, rgb_h, opts2, r2),
    ensures
        r1 == r2,
{
}

/// For a row without a camera matrix, one that is given counts before the field
/// of view, and with neither the photo cannot be converted.
pub proof fn law_given_matrix_comes_second<T: Fn(Double) -> Double>(
    tan: T,
    row: PhotoRow,
    rgb_w: u32,
    rgb_h: u32,
    opts: ConvertOptions,
    r: Result<Intrinsics, ConvertError>,
)
    requires
        row.intrinsics_bytes matches Some(bytes) ==> bytes@.len() == 0,
        resolves_to(tan, row, rgb_w, rgb_h, opts, r),
    ensures
        opts.fallback_intrinsics matches Some(k) ==> r == Ok::<Intrinsics, ConvertError>(k),
        r is Err <==> opts.fallback_intrinsics is None && opts.fallback_hfov_degrees is None,
{
}

/// Confidence that does not fit the depth map counts as if it were not stored.
pub proof fn law_misfit_confidence_is_left_aside(row: PhotoRow)
    requires
        row.confidence_width != row.depth_width || row.confidence_height != row.depth_height,
    ensures
        depth_error(row) == depth_error(PhotoRow { confidence_bytes: None, ..row }),
        row_map(row) == row_map(PhotoRow { confidence_bytes: None, ..row }),
        row_map(row).levels is None,
{
}

/// A photo of which the depth map is at fault is refused for that, whatever its
/// image and the options are.
pub proof fn law_depth_is_looked_at_first<F: Fn(Double) -> Double, T: Fn(Double) -> Double>(
    exp: F,
    tan: T,
    row: PhotoRow,
    file: RgbFile,
    opts: ConvertOptions,
    r: Result<LazCloud, ConvertError>,
)
    requires
        depth_error(row) is Some,
        converts_to(exp, tan, row, file, opts, r),
    ensures
        r == Err::<LazCloud, ConvertError>(depth_error(row)->0),
{
}

/// A cloud has one record for each depth pixel that is kept, and a photo is
/// refused for want of points only where no pixel is kept.
pub proof fn law_one_record_per_kept_pixel(
    photo: Photo,
    map: DepthMap,
    r: Result<LazCloud, ConvertError>,
)
    requires
        photo.finishes_as(map, r),
    ensures
        ({
            let count = kept_count(map.depth, map.levels, photo.min_confidence, map.depth.len());
            match r {
                Ok(cloud) => count > 0 && cloud.records@.len() == count,
                Err(_) => count == 0,
            }
        }),
{
    law_one_point_per_kept_pixel(
        photo.pixels,
        map.depth,
        map.levels,
        photo.intrinsics,
        photo.unproject_params(map.width, map.height),
        map.depth.len(),
    );
}

/// An upsampled pixel with no kept sample in its window is dropped: no depth is
/// invented for it.
pub proof fn law_pixels_without_samples_are_dropped<F: Fn(Double) -> Double>(
    exp: F,
    photo: Photo,
    map: DepthMap,
    ox: nat,
    oy: nat,
)
    requires
        photo.map.valid(),
        photo.upsample_factor > 1,
        photo.works_on(exp, map),
        ox < map.width,
        oy < map.height,
        forall|qx: nat, qy: nat|
            in_window(photo.upsample_params(), ox, oy, qx, qy) ==> !photo.keeps(
                #[trigger] (qy * photo.map.width + qx) as int,
            ),
    ensures
        !kept(map.depth, map.levels, photo.min_confidence, (oy * map.width + ox) as int),
{
    let params = photo.upsample_params();
    let low = photo.anchors();
    assert forall|qx: nat, qy: nat| in_window(params, ox, oy, qx, qy) implies !low[#[trigger] (qy
        * params.low_width + qx) as int].finite() by {
        let (w, h) = (photo.map.width as nat, photo.map.height as nat);
        assert(0 <= qy * w + qx < w * h) by (nonlinear_arith)
            requires
                0 <= qx < w,
                0 <= qy,
                qy + 1 <= h,
        ;
        assert(!photo.keeps((qy * photo.map.width + qx) as int));
    }
    let taps = pixel_taps(low, photo.pixels, params, ox, oy);
    let r = map.depth[(oy * map.width + ox) as int];
    assert(blends_to(exp, taps, r));
    law_no_sample_no_depth(exp, low, photo.pixels, params, ox, oy, r);
}

/// Whether the depth sample of a row at place `i` is kept.
pub open spec fn row_keeps(row: PhotoRow, opts: ConvertOptions, i: int) -> bool {
    let map = row_map(row);
    kept(map.depth, map.levels, opts.min_confidence, i)
}

/// The bytes of an optional blob.
pub open spec fn blob_of(blob: Option<Vec<u8>>) -> Option<Seq<u8>> {
    match blob {
        Some(bytes) => Some(bytes@),
        None => None,
    }
}

/// Whether all that a cloud is made of is the same in two rows, but for the values
/// of depth samples that are rejected in both.
pub open spec fn differ_in_rejected_samples(
    a: PhotoRow,
    b: PhotoRow,
    opts: ConvertOptions,
) -> bool {
    &&& a.id == b.id
    &&& a.depth_width == b.depth_width && a.depth_height == b.depth_height
    &&& a.confidence_width == b.confidence_width && a.confidence_height == b.confidence_height
    &&& blob_of(a.confidence_bytes) == blob_of(b.confidence_bytes)
    &&& blob_of(a.intrinsics_bytes) == blob_of(b.intrinsics_bytes)
    &&& a.depth_bytes@.len() == b.depth_bytes@.len()
    &&& forall|i: int|
        0 <= i < row_map(a).depth.len() ==> {
            ||| #[trigger] row_map(a).depth[i] == row_map(b).depth[i]
            ||| !row_keeps(a, opts, i) && !row_keeps(b, opts, i)
        }
}

proof fn lemma_rejected_samples_do_not_count<F: Fn(Double) -> Double, T: Fn(Double) -> Double>(
    exp: F,
    tan: T,
    a: PhotoRow,
    b: PhotoRow,
    file: RgbFile,
    opts: ConvertOptions,
    r: Result<LazCloud, ConvertError>,
)
    requires
        opts.upsample_factor > 1,
        differ_in_rejected_samples(a, b, opts),
        converts_to(exp, tan, a, file, opts, r),
    ensures
        converts_to(exp, tan, b, file, opts, r),
{
    assert(depth_error(a) == depth_error(b));
    let prepared = choose|prepared: Result<Photo, ConvertError>| #[trigger]
        prepares_to(tan, a, file, opts, prepared) && match prepared {
            Err(e) => r == Err::<LazCloud, ConvertError>(e),
            Ok(photo) => exists|map: DepthMap| #[trigger]
                photo.works_on(exp, map) && photo.finishes_as(map, r),
        };
    let other = match prepared {
        Ok(photo) => Ok(Photo { map: row_map(b), ..photo }),
        Err(e) => Err(e),
    };
    if depth_error(a) is None {
        let loaded = choose|loaded: Result<RgbImage, ConvertError>| #[trigger]
            file.loads_to(loaded) && match loaded {
                Err(e) => prepared == Err::<Photo, ConvertError>(e),
                Ok(rgb) => rgb.valid() && exists|k: Result<Intrinsics, ConvertError>| #[trigger]
                    resolves_to(tan, a, rgb.width, rgb.height, opts, k) && prepared == match k {
                        Err(e) => Err::<Photo, ConvertError>(e),
                        Ok(k) => Ok(photo_of(a, rgb, k, opts)),
                    },
            };
        assert(file.loads_to(loaded));
        if let Ok(rgb) = loaded {
            let k = choose|k: Result<Intrinsics, ConvertError>| #[trigger]
                resolves_to(tan, a, rgb.width, rgb.height, opts, k) && prepared == match k {
                    Err(e) => Err::<Photo, ConvertError>(e),
                    Ok(k) => Ok(photo_of(a, rgb, k, opts)),
                };
            assert(resolves_to(tan, b, rgb.width, rgb.height, opts, k));
            assert(other == match k {
                Err(e) => Err::<Photo, ConvertError>(e),
                Ok(k) => Ok(photo_of(b, rgb, k, opts)),
            });
        }
    }
    assert(prepares_to(tan, b, file, opts, other));
    if let Ok(photo) = prepared {
        let twin = Photo { map: row_map(b), ..photo };
        assert(photo.map == row_map(a));
        assert(photo.anchors() =~= twin.anchors()) by {
            assert forall|i: int| 0 <= i < photo.map.depth.len() implies photo.anchors()[i]
                == twin.anchors()[i] by {
                assert(row_map(a).depth[i] == row_map(b).depth[i] || (!row_keeps(a, opts, i)
                    && !row_keeps(b, opts, i)));
            }
        }
        let map = choose|map: DepthMap| #[trigger]
            photo.works_on(exp, map) && photo.finishes_as(map, r);
        assert(twin.works_on(exp, map));
        assert(twin.finishes_as(map, r));
    }
}

/// Rejected samples do not leak into an upsampled cloud: two rows that differ only
/// in samples that are rejected in both convert alike.
pub proof fn law_rejected_samples_do_not_leak<F: Fn(Double) -> Double, T: Fn(Double) -> Double>(
    exp: F,
    tan: T,
    a: PhotoRow,
    b: PhotoRow,
    file: RgbFile,
    opts: ConvertOptions,
    r: Result<LazCloud, ConvertError>,
)
    requires
        opts.upsample_factor > 1,
        differ_in_rejected_samples(a, b, opts),
    ensures
        converts_to(exp, tan, a, file, opts, r) <==> converts_to(exp, tan, b, file, opts, r),
{
    if converts_to(exp, tan, a, file, opts, r) {
        lemma_rejected_samples_do_not_count(exp, tan, a, b, file, opts, r);
    }
    if converts_to(exp, tan, b, file, opts, r) {
        assert(differ_in_rejected_samples(b, a, opts)) by {
            assert forall|i: int| 0 <= i < row_map(b).depth.len() implies #[trigger] row_map(
                b,
            ).depth[i] == row_map(a).depth[i] || (!row_keeps(b, opts, i) && !row_keeps(
                a,
                opts,
                i,
            )) by {
                assert(row_map(a).depth[i] == row_map(b).depth[i] || (!row_keeps(a, opts, i)
                    && !row_keeps(b, opts, i)));
            }
        }
        lemma_rejected_samples_do_not_count(exp, tan, b, a, file, opts, r);
    }
}

/// Whether every depth sample of a photo that is kept lies between `lo` and `hi`.
pub open spec fn kept_between(photo: Photo, lo: Single, hi: Single) -> bool {
    forall|i: int|
        0 <= i < photo.map.depth.len() && #[trigger] photo.keeps(i) ==> between(
            photo.map.depth[i],
            lo,
            hi,
        )
}

proof fn lemma_place(x: nat, y: nat, w: nat, h: nat)
    requires
        x < w,
        y < h,
    ensures
        0 <= y * w + x < w * h,
        (y * w + x) % w == x,
        (y * w + x) / w == y,
{
    assert(0 <= y * w + x < w * h) by (nonlinear_arith)
        requires
            x < w,
            y + 1 <= h,
    ;
    lemma_fundamental_div_mod_converse((y * w + x) as int, w as int, y as int, x as int);
}

/// The depth of an upsampled pixel with a kept sample in its window.
proof fn lemma_upsampled_pixel<F: Fn(Double) -> Double>(
    exp: F,
    photo: Photo,
    map: DepthMap,
    ox: nat,
    oy: nat,
    qx: nat,
    qy: nat,
    lo: Single,
    hi: Single,
)
    requires
        photo.valid(),
        photo.upsample_factor > 1,
        photo.works_on(exp, map),
        like_exponential(exp),
        kept_between(photo, lo, hi),
        lo.spec_is_positive(),
        hi.spec_is_positive(),
        ox < map.width,
        oy < map.height,
        in_window(photo.upsample_params(), ox, oy, qx, qy),
        photo.keeps((qy * photo.map.width + qx) as int),
    ensures
        between(map.depth[(oy * map.width + ox) as int], lo, hi),
{
    let p = photo.upsample_params();
    let low = photo.anchors();
    let (w, h) = (photo.map.width as nat, photo.map.height as nat);
    assert forall|x: nat, y: nat| in_window(p, ox, oy, x, y) implies {
        let sample = low[#[trigger] (y * p.low_width + x) as int];
        sample.finite() ==> between(sample, lo, hi)
    } by {
        lemma_place(x, y, w, h);
        let i = (y * p.low_width + x) as int;
        assert(photo.keeps(i) ==> between(photo.map.depth[i], lo, hi));
    }
    assert(window_between(low, p, ox, oy, lo, hi));
    lemma_place(qx, qy, w, h);
    law_exponents_are_in_range(exp, low, photo.pixels, p, ox, oy);
    let r = map.depth[(oy * map.width + ox) as int];
    assert(blends_to(exp, pixel_taps(low, photo.pixels, p, ox, oy), r));
    law_upsampled_depth_stays_in_range(
        exp,
        low,
        photo.pixels,
        p,
        ox,
        oy,
        qx,
        qy,
        lo,
        hi,
        r,
    );
}

/// The depth of an upsampled pixel that is kept.
proof fn lemma_kept_pixel<F: Fn(Double) -> Double>(
    exp: F,
    photo: Photo,
    map: DepthMap,
    i: int,
    lo: Single,
    hi: Single,
)
    requires
        photo.valid(),
        photo.upsample_factor > 1,
        photo.works_on(exp, map),
        like_exponential(exp),
        kept_between(photo, lo, hi),
        lo.spec_is_positive(),
        hi.spec_is_positive(),
        0 <= i < map.depth.len(),
        kept(map.depth, map.levels, photo.min_confidence, i),
    ensures
        between(map.depth[i], lo, hi),
{
    let (w, h) = (map.width as nat, map.height as nat);
    assert(w > 0) by (nonlinear_arith)
        requires
            0 <= i < w * h,
            w >= 0,
    ;
    lemma_fundamental_div_mod(i, w as int);
    lemma_mod_pos_bound(i, w as int);
    let (ox, oy) = ((i as nat) % w, (i as nat) / w);
    assert(oy < h) by (nonlinear_arith)
        requires
            i == w * oy + ox,
            ox >= 0,
            i < w * h,
            w > 0,
    ;
    assert(oy * map.width + ox == i) by (nonlinear_arith)
        requires
            i == w * oy + ox,
            w == map.width,
    ;
    let p = photo.upsample_params();
    if exists|qx: nat, qy: nat|
        in_window(p, ox, oy, qx, qy) && photo.keeps(
            #[trigger] (qy * photo.map.width + qx) as int,
        ) {
        let (qx, qy) = choose|qx: nat, qy: nat|
            in_window(p, ox, oy, qx, qy) && photo.keeps(
                #[trigger] (qy * photo.map.width + qx) as int,
            );
        lemma_upsampled_pixel(exp, photo, map, ox, oy, qx, qy, lo, hi);
    } else {
        law_pixels_without_samples_are_dropped(exp, photo, map, ox, oy);
    }
}

/// An upsampled pixel is kept where the sample that it lies in is.
proof fn lemma_own_sample<F: Fn(Double) -> Double>(
    exp: F,
    photo: Photo,
    map: DepthMap,
    ox: nat,
    oy: nat,
    lo: Single,
    hi: Single,
)
    requires
        photo.valid(),
        photo.upsample_factor > 1,
        photo.works_on(exp, map),
        like_exponential(exp),
        kept_between(photo, lo, hi),
        lo.spec_is_positive(),
        hi.spec_is_positive(),
        ox < map.width,
        oy < map.height,
        ({
            let f = photo.upsample_factor as nat;
            photo.keeps(((oy / f) * photo.map.width + ox / f) as int)
        }),
    ensures
        kept(map.depth, map.levels, photo.min_confidence, (oy * map.width + ox) as int),
{
    let f = photo.upsample_factor as nat;
    lemma_own_place(ox, photo.map.width as nat, f);
    lemma_own_place(oy, photo.map.height as nat, f);
    lemma_upsampled_pixel(exp, photo, map, ox, oy, ox / f, oy / f, lo, hi);
}

proof fn lemma_own_place(o: nat, n: nat, f: nat)
    requires
        f >= 1,
        o < n * f,
    ensures
        o / f < n,
{
    lemma_fundamental_div_mod(o as int, f as int);
    lemma_mod_pos_bound(o as int, f as int);
    let k = o / f;
    assert(k < n) by (nonlinear_arith)
        requires
            o == f * k + o % f,
            o % f >= 0,
            o < n * f,
    ;
}

/// How many pixels of an upsampled depth map are kept.
proof fn lemma_upsampled_count<F: Fn(Double) -> Double>(
    exp: F,
    photo: Photo,
    map: DepthMap,
    lo: Single,
    hi: Single,
    i0: int,
)
    requires
        photo.valid(),
        photo.upsample_factor > 1,
        photo.works_on(exp, map),
        like_exponential(exp),
        kept_between(photo, lo, hi),
        lo.spec_is_positive(),
        hi.spec_is_positive(),
        0 <= i0 < photo.map.depth.len(),
        photo.keeps(i0),
    ensures
        ({
            let n = map.depth.len();
            let count = kept_count(map.depth, map.levels, photo.min_confidence, n);
            &&& 0 < count <= n
            &&& (forall|i: int| 0 <= i < photo.map.depth.len() ==> #[trigger] photo.keeps(i))
                ==> count == n
        }),
{
    let f = photo.upsample_factor as nat;
    let (w, h) = (photo.map.width as nat, photo.map.height as nat);
    let (ow, oh) = (map.width as nat, map.height as nat);
    let n = map.depth.len();
    lemma_kept_count(map.depth, map.levels, photo.min_confidence, n);
    // The pixel at the corner of the sample that is kept.
    assert(w > 0) by (nonlinear_arith)
        requires
            0 <= i0 < w * h,
            w >= 0,
    ;
    lemma_fundamental_div_mod(i0, w as int);
    lemma_mod_pos_bound(i0, w as int);
    let (qx, qy) = ((i0 as nat) % w, (i0 as nat) / w);
    assert(qy < h && qy * w + qx == i0) by (nonlinear_arith)
        requires
            i0 == w * qy + qx,
            qx >= 0,
            i0 < w * h,
            w > 0,
    ;
    let (ox, oy) = (qx * f, qy * f);
    lemma_fundamental_div_mod_converse(ox as int, f as int, qx as int, 0);
    lemma_fundamental_div_mod_converse(oy as int, f as int, qy as int, 0);
    assert(ox < w * f && oy < h * f) by (nonlinear_arith)
        requires
            ox == qx * f,
            oy == qy * f,
            qx < w,
            qy < h,
            f >= 1,
    ;
    lemma_own_sample(exp, photo, map, ox, oy, lo, hi);
    lemma_place(ox, oy, ow, oh);
    assert(kept(map.depth, map.levels, photo.min_confidence, (oy * map.width + ox) as int));
    if forall|i: int| 0 <= i < photo.map.depth.len() ==> #[trigger] photo.keeps(i) {
        assert forall|i: int| 0 <= i < n implies #[trigger] kept(
            map.depth,
            map.levels,
            photo.min_confidence,
            i,
        ) by {
            lemma_fundamental_div_mod(i, ow as int);
            lemma_mod_pos_bound(i, ow as int);
            let (x, y) = ((i as nat) % ow, (i as nat) / ow);
            assert(y < oh && y * ow + x == i) by (nonlinear_arith)
                requires
                    i == ow * y + x,
                    x >= 0,
                    i < ow * oh,
                    ow > 0,
            ;
            lemma_own_place(x, w, f);
            lemma_own_place(y, h, f);
            lemma_place(x / f, y / f, w, h);
            assert(photo.keeps(((y / f) * photo.map.width + x / f) as int));
            lemma_own_sample(exp, photo, map, x, y, lo, hi);
        }
    }
}

/// An upsampled cloud has no more points than there are upsampled pixels, whatever
/// the exponential function.
pub proof fn law_no_more_points_than_pixels<F: Fn(Double) -> Double, T: Fn(Double) -> Double>(
    exp: F,
    tan: T,
    row: PhotoRow,
    file: RgbFile,
    opts: ConvertOptions,
    cloud: LazCloud,
)
    requires
        opts.upsample_factor > 1,
        converts_to(exp, tan, row, file, opts, Ok(cloud)),
    ensures
        ({
            let f = opts.upsample_factor;
            0 < cloud.records@.len() <= (row.depth_width * f) * (row.depth_height * f)
        }),
{
    let r = Ok::<LazCloud, ConvertError>(cloud);
    let prepared = choose|prepared: Result<Photo, ConvertError>| #[trigger]
        prepares_to(tan, row, file, opts, prepared) && match prepared {
            Err(e) => r == Err::<LazCloud, ConvertError>(e),
            Ok(photo) => exists|map: DepthMap| #[trigger]
                photo.works_on(exp, map) && photo.finishes_as(map, r),
        };
    assert(prepares_to(tan, row, file, opts, prepared));
    if let Ok(photo) = prepared {
        let map = choose|map: DepthMap| #[trigger]
            photo.works_on(exp, map) && photo.finishes_as(map, r);
        assert(photo.works_on(exp, map) && photo.finishes_as(map, r));
        law_one_record_per_kept_pixel(photo, map, r);
        lemma_kept_count(map.depth, map.levels, photo.min_confidence, map.depth.len());
    }
}

/// An upsampled cloud: where one depth sample of a row is kept, the one at place
/// `i0`, the photo is not refused for want of points. There are no more points than
/// upsampled pixels, and as many where every sample is kept. The depth of each point
/// lies between the least and the greatest of the samples that are kept.
pub proof fn law_upsampled_cloud<F: Fn(Double) -> Double, T: Fn(Double) -> Double>(
    exp: F,
    tan: T,
    row: PhotoRow,
    file: RgbFile,
    opts: ConvertOptions,
    lo: Single,
    hi: Single,
    i0: int,
    r: Result<LazCloud, ConvertError>,
)
    requires
        opts.upsample_factor > 1,
        like_exponential(exp),
        depth_error(row) is None,
        lo.spec_is_positive(),
        hi.spec_is_positive(),
        forall|i: int|
            0 <= i < row_map(row).depth.len() && #[trigger] row_keeps(row, opts, i) ==> between(
                row_map(row).depth[i],
                lo,
                hi,
            ),
        0 <= i0 < row_map(row).depth.len(),
        row_keeps(row, opts, i0),
        converts_to(exp, tan, row, file, opts, r),
    ensures
        match r {
            Err(e) => !(e is NoPoints),
            Ok(cloud) => {
                let f = opts.upsample_factor;
                let most = (row.depth_width * f) * (row.depth_height * f);
                &&& 0 < cloud.records@.len() <= most
                &&& (forall|i: int|
                    0 <= i < row_map(row).depth.len() ==> #[trigger] row_keeps(row, opts, i))
                    ==> cloud.records@.len() == most
                &&& forall|j: int|
                    0 <= j < cloud.records@.len() ==> {
                        let z = (#[trigger] cloud.records@[j]).z;
                        &&& z.finite()
                        &&& !z.spec_less(lo.spec_widen())
                        &&& !hi.spec_widen().spec_less(z)
                    }
            },
        },
{
    let prepared = choose|prepared: Result<Photo, ConvertError>| #[trigger]
        prepares_to(tan, row, file, opts, prepared) && match prepared {
            Err(e) => r == Err::<LazCloud, ConvertError>(e),
            Ok(photo) => exists|map: DepthMap| #[trigger]
                photo.works_on(exp, map) && photo.finishes_as(map, r),
        };
    assert(prepares_to(tan, row, file, opts, prepared));
    if let Ok(photo) = prepared {
        let map = choose|map: DepthMap| #[trigger]
            photo.works_on(exp, map) && photo.finishes_as(map, r);
        assert(photo.works_on(exp, map) && photo.finishes_as(map, r));
        lemma_row_map(row);
        assert(photo.map == row_map(row) && photo.valid());
        assert forall|i: int| 0 <= i < photo.map.depth.len() && #[trigger] photo.keeps(
            i,
        ) implies between(photo.map.depth[i], lo, hi) by {
            assert(row_keeps(row, opts, i));
        }
        assert(kept_between(photo, lo, hi));
        assert(photo.keeps(i0));
        lemma_upsampled_count(exp, photo, map, lo, hi, i0);
        law_one_record_per_kept_pixel(photo, map, r);
        if forall|i: int| 0 <= i < row_map(row).depth.len() ==> #[trigger] row_keeps(row, opts, i) {
            assert forall|i: int| 0 <= i < photo.map.depth.len() implies #[trigger] photo.keeps(
                i,
            ) by {
                assert(row_keeps(row, opts, i));
            }
        }
        if let Ok(cloud) = r {
            assert forall|j: int| 0 <= j < cloud.records@.len() implies {
                let z = (#[trigger] cloud.records@[j]).z;
                &&& z.finite()
                &&& !z.spec_less(lo.spec_widen())
                &&& !hi.spec_widen().spec_less(z)
            } by {
                let i = law_points_have_measured_depth(
                    photo.pixels,
                    map.depth,
                    map.levels,
                    photo.intrinsics,
                    photo.unproject_params(map.width, map.height),
                    map.depth.len(),
                    j,
                );
                lemma_kept_pixel(exp, photo, map, i, lo, hi);
                lemma_between_widened(map.depth[i], lo, hi);
            }
        }
    } else {
        lemma_not_for_want_of_points(tan, row, file, opts, prepared);
    }
}

/// A photo that cannot be prepared is not refused for want of points.
proof fn lemma_not_for_want_of_points<T: Fn(Double) -> Double>(
    tan: T,
    row: PhotoRow,
    file: RgbFile,
    opts: ConvertOptions,
    prepared: Result<Photo, ConvertError>,
)
    requires
        prepares_to(tan, row, file, opts, prepared),
    ensures
        prepared matches Err(e) ==> !(e is NoPoints),
{
}

} // verus!
