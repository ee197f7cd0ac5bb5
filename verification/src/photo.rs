//! The RGB image of a capture, decoded from the bytes of its file.
use vstd::prelude::*;

use crate::jpeg::{can_decode, is_decodable};

verus! {

/// The formats that the image decoder knows.
#[verifier::external_type_specification]
#[verifier::external_body]
pub struct ExImageFormat(image::ImageFormat);

/// What `image::guess_format` finds in the first bytes of a file.
pub uninterp spec fn sniffed_format(bytes: Seq<u8>) -> Option<image::ImageFormat>;

/// What `image::ImageFormat::from_extension` has for a file name's extension.
pub uninterp spec fn extension_format(extension: Seq<char>) -> Option<image::ImageFormat>;

/// Whether these can be the words for an extension that stands for no format. The
/// extension stands in them in its debug form, which differs in its escapes from
/// one platform to the next.
pub uninterp spec fn can_reject_with(extension: Seq<char>, words: Seq<char>) -> bool;

/// Whether decoding these bytes in this format can come out so: with a width, a
/// height and samples, or with a failure in these words.
///
/// It can come out in more than one way, since the JPEG decoder picks its routines
/// by the machine that it runs on.
pub uninterp spec fn can_decode_to(
    bytes: Seq<u8>,
    format: image::ImageFormat,
    outcome: Result<(u32, u32, Seq<u8>), Seq<char>>,
) -> bool;

/// Calls `image::guess_format`, which compares the start of the file with the
/// signatures of the formats: its result depends on the bytes alone, and is an
/// error, always in the same words, where no signature matches.
#[verifier::external_body]
fn sniff(bytes: &[u8]) -> (r: Result<image::ImageFormat, String>)
    ensures
        match r {
            Ok(format) => sniffed_format(bytes@) == Some(format),
            Err(words) => sniffed_format(bytes@) is None && words@
                == "The image format could not be determined"@,
        },
{
    match image::guess_format(bytes) {
        Ok(format) => Ok(format),
        Err(error) => Err(error.to_string()),
    }
}

/// Calls `image::ImageFormat::from_extension`, which looks the extension up in a
/// fixed table: its result depends on the extension alone.
#[verifier::external_body]
fn format_for(extension: &str) -> (r: Option<image::ImageFormat>)
    ensures
        r == extension_format(extension@),
{
    image::ImageFormat::from_extension(extension)
}

/// Calls `to_string` of the `image::ImageError` for an extension that stands for no
/// format: a fixed text around the debug form of the extension.
#[verifier::external_body]
fn unknown_extension(extension: &str) -> (r: String)
    ensures
        can_reject_with(extension@, r@),
        "The file extension `."@.is_prefix_of(r@),
        "` was not recognized as an image format"@.is_suffix_of(r@),
{
    let hint = image::error::ImageFormatHint::PathExtension(extension.into());
    image::ImageError::Unsupported(hint.into()).to_string()
}

/// Calls `decode` on an `image::ImageReader` over the bytes, with the format set,
/// and `to_rgb8` on what it gives. Where that succeeds, the samples are three to
/// a pixel of the width and the height. Where it fails, `anyhow::Error` puts the
/// error and its causes into words.
///
/// The JPEG decoder behind it, `zune_jpeg`, panics on some layouts of the components:
/// `setup_component_params` takes YCCK for YCbCr where components are missing,
/// `finish_progressive_decoding` and `finish_baseline_decoding` size the room for
/// upsampling by the first component, `finish_progressive_decoding` gives a fourth
/// component of YCbCr no samples, and `decode_mcu_width` places the rows of a
/// component by a width that may be too large. Files that are laid out so are left
/// out. Whether one of them would in fact panic may depend on its scans too. What is
/// said holds where integer overflow wraps, as it does in a release build; in one
/// that checks for overflow, the decoder may panic on the values in a scan.
///
/// Nothing is said of which bytes can be decoded, of what the samples are, nor of
/// what the words are.
#[verifier::external_body]
fn decode_as(bytes: &[u8], format: image::ImageFormat) -> (r: Result<(u32, u32, Vec<u8>), String>)
    requires
        can_decode(bytes@),
    ensures
        match r {
            Ok((width, height, samples)) => {
                &&& samples@.len() == width * height * 3
                &&& can_decode_to(bytes@, format, Ok((width, height, samples@)))
            },
            Err(words) => can_decode_to(bytes@, format, Err(words@)),
        },
{
    let cursor = std::io::Cursor::new(bytes);
    match image::ImageReader::with_format(cursor, format).decode() {
        Ok(image) => {
            let rgb = image.to_rgb8();
            Ok((rgb.width(), rgb.height(), rgb.into_raw()))
        },
        Err(error) => Err(format!("{:#}", anyhow::Error::new(error))),
    }
}

/// Why the image of a capture cannot be used.
#[derive(Debug, Clone)]
pub enum PhotoError {
    /// Neither the content nor the file name tells the format, in these words.
    UnknownFormat(String),
    /// The decoder failed, in these words.
    Undecodable(String),
    /// The components are laid out in a way that the decoder has no room for.
    UnsupportedLayout,
    /// The image has no pixels.
    NoPixels,
}

impl PhotoError {
    /// The error in words.
    pub open spec fn spec_message(self) -> Seq<char> {
        match self {
            PhotoError::UnknownFormat(words) => words@,
            PhotoError::Undecodable(words) => words@,
            PhotoError::UnsupportedLayout => "The layout of the JPEG components is not supported"@,
            PhotoError::NoPixels => "The image has no pixels"@,
        }
    }

    /// The error in words.
    pub fn message(&self) -> (r: String)
        ensures
            r@ == self.spec_message(),
    {
        match self {
            PhotoError::UnknownFormat(words) => words.as_str().to_owned(),
            PhotoError::Undecodable(words) => words.as_str().to_owned(),
            PhotoError::UnsupportedLayout => {
                "The layout of the JPEG components is not supported".to_owned()
            },
            PhotoError::NoPixels => "The image has no pixels".to_owned(),
        }
    }
}

/// Row-major RGB8 pixels.
#[derive(Debug, Clone)]
pub struct RgbImage {
    pub width: u32,
    pub height: u32,
    pub pixels: Vec<u8>,
}

impl RgbImage {
    /// There are pixels, and each has its three samples.
    pub open spec fn valid(self) -> bool {
        &&& self.width > 0
        &&& self.height > 0
        &&& self.pixels@.len() == self.width * self.height * 3
    }
}

/// The extension of a file name, where there is something in it.
pub open spec fn used_extension(extension: Option<Seq<char>>) -> Option<Seq<char>> {
    match extension {
        Some(e) => if e.len() > 0 {
            Some(e)
        } else {
            None
        },
        None => None,
    }
}

/// The format that the content shows, or else the one that the extension of the
/// file name stands for.
pub open spec fn chosen_format(bytes: Seq<u8>, extension: Option<Seq<char>>) -> Option<
    image::ImageFormat,
> {
    match (sniffed_format(bytes), used_extension(extension)) {
        (Some(format), _) => Some(format),
        (None, Some(e)) => extension_format(e),
        (None, None) => None,
    }
}

/// Whether this says that the format is unknown, of a file whose name has this
/// extension.
pub open spec fn says_unknown(extension: Option<Seq<char>>, e: PhotoError) -> bool {
    e matches PhotoError::UnknownFormat(words) && match used_extension(extension) {
        Some(x) => {
            &&& can_reject_with(x, words@)
            &&& "The file extension `."@.is_prefix_of(words@)
            &&& "` was not recognized as an image format"@.is_suffix_of(words@)
        },
        None => words@ == "The image format could not be determined"@,
    }
}

/// The characters of an optional text.
pub open spec fn text_of(s: Option<&str>) -> Option<Seq<char>> {
    match s {
        Some(s) => Some(s@),
        None => None,
    }
}

/// The format to decode a file in. What the content shows counts before what the
/// name says.
fn choose_format(bytes: &[u8], extension: Option<&str>) -> (r: Result<
    image::ImageFormat,
    PhotoError,
>)
    ensures
        match r {
            Ok(format) => chosen_format(bytes@, text_of(extension)) == Some(format),
            Err(e) => chosen_format(bytes@, text_of(extension)) is None && says_unknown(
                text_of(extension),
                e,
            ),
        },
{
    let unknown = match sniff(bytes) {
        Ok(format) => {
            return Ok(format);
        },
        Err(words) => words,
    };
    if let Some(e) = extension {
        if e.unicode_len() > 0 {
            return match format_for(e) {
                Some(format) => Ok(format),
                None => Err(PhotoError::UnknownFormat(unknown_extension(e))),
            };
        }
    }
    Err(PhotoError::UnknownFormat(unknown))
}

/// The image with these samples.
pub fn rgb_image(width: u32, height: u32, samples: Vec<u8>) -> (r: Result<RgbImage, PhotoError>)
    requires
        samples@.len() == width * height * 3,
    ensures
        match r {
            Ok(image) => image.valid() && image.width == width && image.height == height
                && image.pixels == samples,
            Err(e) => (width == 0 || height == 0) && e == PhotoError::NoPixels,
        },
{
    if width == 0 || height == 0 {
        return Err(PhotoError::NoPixels);
    }
    Ok(RgbImage { width, height, pixels: samples })
}

/// What decoding a photo gives for each outcome of the decoder.
pub open spec fn photo_for(
    outcome: Result<(u32, u32, Seq<u8>), Seq<char>>,
    r: Result<RgbImage, PhotoError>,
) -> bool {
    match outcome {
        Ok((width, height, samples)) => if width == 0 || height == 0 {
            r == Err::<RgbImage, PhotoError>(PhotoError::NoPixels)
        } else {
            r matches Ok(image) && image.width == width && image.height == height
                && image.pixels@ == samples && image.valid()
        },
        Err(words) => r matches Err(PhotoError::Undecodable(w)) && w@ == words,
    }
}

/// Whether decoding the bytes of a file in this format can give this.
pub open spec fn decodes_in(
    bytes: Seq<u8>,
    format: image::ImageFormat,
    r: Result<RgbImage, PhotoError>,
) -> bool {
    exists|outcome: Result<(u32, u32, Seq<u8>), Seq<char>>| #[trigger]
        can_decode_to(bytes, format, outcome) && photo_for(outcome, r)
}

/// Whether decoding the bytes of a file, whose name has this extension, can give
/// this.
pub open spec fn decodes_to(
    bytes: Seq<u8>,
    extension: Option<Seq<char>>,
    r: Result<RgbImage, PhotoError>,
) -> bool {
    match chosen_format(bytes, extension) {
        Some(format) => if can_decode(bytes) {
            decodes_in(bytes, format, r)
        } else {
            r == Err::<RgbImage, PhotoError>(PhotoError::UnsupportedLayout)
        },
        None => r matches Err(e) && says_unknown(extension, e),
    }
}

/// Decodes the image in a file with these bytes, whose name has this extension.
pub fn decode_photo(bytes: &[u8], extension: Option<&str>) -> (r: Result<RgbImage, PhotoError>)
    ensures
        decodes_to(bytes@, text_of(extension), r),
{
    let format = match choose_format(bytes, extension) {
        Ok(format) => format,
        Err(e) => {
            return Err(e);
        },
    };
    if !is_decodable(bytes) {
        return Err(PhotoError::UnsupportedLayout);
    }
    match decode_as(bytes, format) {
        Ok((width, height, samples)) => {
            let ghost outcome = Ok::<(u32, u32, Seq<u8>), Seq<char>>((width, height, samples@));
            let r = rgb_image(width, height, samples);
            assert(can_decode_to(bytes@, format, outcome) && photo_for(outcome, r));
            r
        },
        Err(words) => {
            let ghost outcome = Err::<(u32, u32, Seq<u8>), Seq<char>>(words@);
            let r = Err(PhotoError::Undecodable(words));
            assert(can_decode_to(bytes@, format, outcome) && photo_for(outcome, r));
            r
        },
    }
}

/// Whether this is the error of a file that starts with these bytes and cannot be
/// read to its end, in these words.
pub open spec fn breaks_off_as(
    start: Seq<u8>,
    extension: Option<Seq<char>>,
    words: Seq<char>,
    e: PhotoError,
) -> bool {
    match chosen_format(start, extension) {
        Some(_) => e matches PhotoError::Undecodable(w) && w@ == words,
        None => says_unknown(extension, e),
    }
}

/// The error of a file that starts with these bytes and cannot be read to its end,
/// in these words. The format is looked for first.
pub fn broken_off(start: &[u8], extension: Option<&str>, words: String) -> (r: PhotoError)
    ensures
        breaks_off_as(start@, text_of(extension), words@, r),
{
    match choose_format(start, extension) {
        Ok(_) => PhotoError::Undecodable(words),
        Err(e) => e,
    }
}

/// Where the content shows the format, the name of the file does not matter.
pub proof fn law_content_comes_before_name(
    bytes: Seq<u8>,
    name1: Option<Seq<char>>,
    name2: Option<Seq<char>>,
    r: Result<RgbImage, PhotoError>,
)
    requires
        sniffed_format(bytes) is Some,
    ensures
        decodes_to(bytes, name1, r) == decodes_to(bytes, name2, r),
{
}

/// A photo that decodes has the size and the samples that the decoder gave. One without
/// pixels is refused, and where the decoder fails its words are passed on.
pub proof fn law_photo_is_what_the_decoder_gave(
    outcome: Result<(u32, u32, Seq<u8>), Seq<char>>,
    r: Result<RgbImage, PhotoError>,
)
    requires
        photo_for(outcome, r),
    ensures
        match (outcome, r) {
            (Ok((width, height, samples)), Ok(image)) => {
                &&& width > 0 && height > 0
                &&& image.width == width && image.height == height
                &&& image.pixels@ == samples
            },
            (Ok((width, height, _)), Err(e)) => (width == 0 || height == 0)
                && e == PhotoError::NoPixels,
            (Err(words), Ok(_)) => false,
            (Err(words), Err(e)) => e matches PhotoError::Undecodable(w) && w@ == words,
        },
{
}

/// The extension of the name counts only where the content does not show the format, and only
/// where there is something in it.
pub proof fn law_name_counts_where_content_does_not(bytes: Seq<u8>, name: Seq<char>)
    ensures
        sniffed_format(bytes) is Some ==> chosen_format(bytes, Some(name)) == sniffed_format(bytes)
            && chosen_format(bytes, None) == sniffed_format(bytes),
        sniffed_format(bytes) is None ==> chosen_format(bytes, None) is None,
        sniffed_format(bytes) is None && name.len() > 0 ==> chosen_format(bytes, Some(name))
            == extension_format(name),
        sniffed_format(bytes) is None && name.len() == 0 ==> chosen_format(bytes, Some(name)) is None,
{
}

/// What can come of the bytes of a file: what the decoder gives in the format that was chosen,
/// or a layout that is not supported, or a format that is not known.
pub proof fn law_outcomes_of_decoding(
    bytes: Seq<u8>,
    extension: Option<Seq<char>>,
    r: Result<RgbImage, PhotoError>,
)
    requires
        decodes_to(bytes, extension, r),
    ensures
        chosen_format(bytes, extension) is None ==> (r matches Err(e) && says_unknown(
            extension,
            e,
        )),
        chosen_format(bytes, extension) is Some && !can_decode(bytes) ==> r == Err::<
            RgbImage,
            PhotoError,
        >(PhotoError::UnsupportedLayout),
        chosen_format(bytes, extension) matches Some(format) ==> can_decode(bytes) ==> decodes_in(
            bytes,
            format,
            r,
        ),
{
}

/// A file that breaks off is undecodable, in the words that reading it gave, where its start
/// shows a format or its name does.
pub proof fn law_broken_files_are_undecodable(
    start: Seq<u8>,
    extension: Option<Seq<char>>,
    words: Seq<char>,
    e: PhotoError,
)
    requires
        breaks_off_as(start, extension, words, e),
    ensures
        chosen_format(start, extension) is Some ==> (e matches PhotoError::Undecodable(w) && w@
            == words),
        chosen_format(start, extension) is None ==> e is UnknownFormat,
{
}

/// What is said of a file whose format is not known: that it could not be determined, where the
/// name has no extension, and that the extension was not recognized, where it has one.
pub proof fn law_words_on_unknown_formats(name: Seq<char>, e: PhotoError)
    ensures
        says_unknown(None, e) ==> (e matches PhotoError::UnknownFormat(words) && words@
            == "The image format could not be determined"@),
        says_unknown(Some(name), e) && name.len() == 0 ==> says_unknown(None, e),
        says_unknown(Some(name), e) && name.len() > 0 ==> (e matches PhotoError::UnknownFormat(words)
            && can_reject_with(name, words@) && "The file extension `."@.is_prefix_of(words@)
            && "` was not recognized as an image format"@.is_suffix_of(words@)),
{
}

/// What decoding gives is made of what the decoder gave for these bytes in this format.
pub proof fn law_decoding_goes_by_the_decoder(
    bytes: Seq<u8>,
    format: image::ImageFormat,
    r: Result<RgbImage, PhotoError>,
) -> (outcome: Result<(u32, u32, Seq<u8>), Seq<char>>)
    requires
        decodes_in(bytes, format, r),
    ensures
        can_decode_to(bytes, format, outcome),
        photo_for(outcome, r),
{
    choose|outcome: Result<(u32, u32, Seq<u8>), Seq<char>>| #[trigger]
        can_decode_to(bytes, format, outcome) && photo_for(outcome, r)
}

} // verus!
