use fishsense_laz::photo::{broken_off, decode_photo, rgb_image, PhotoError};
use image::{ImageBuffer, ImageFormat, Luma, Rgb, Rgba};
use std::io::Cursor;

fn gradient() -> ImageBuffer<Rgb<u8>, Vec<u8>> {
    ImageBuffer::from_fn(5, 3, |x, y| Rgb([(x * 50) as u8, (y * 80) as u8, (x * y) as u8]))
}

fn png() -> Vec<u8> {
    let mut out = Cursor::new(Vec::new());
    gradient().write_to(&mut out, ImageFormat::Png).unwrap();
    out.into_inner()
}

#[test]
fn a_png_comes_out_as_it_went_in() {
    let image = decode_photo(&png(), Some("png")).unwrap();
    assert_eq!((image.width, image.height), (5, 3));
    assert_eq!(image.pixels, gradient().into_raw());
}

#[test]
fn a_jpeg_comes_out_nearly_as_it_went_in() {
    let mut out = Cursor::new(Vec::new());
    let solid = ImageBuffer::from_pixel(16, 8, Rgb([200u8, 100, 50]));
    solid.write_to(&mut out, ImageFormat::Jpeg).unwrap();
    let image = decode_photo(&out.into_inner(), Some("jpg")).unwrap();
    assert_eq!((image.width, image.height), (16, 8));
    assert_eq!(image.pixels.len(), 16 * 8 * 3);
    for pixel in image.pixels.chunks(3) {
        for (got, want) in pixel.iter().zip([200i32, 100, 50]) {
            assert!((i32::from(*got) - want).abs() <= 5);
        }
    }
}

#[test]
fn other_pixels_become_rgb() {
    let mut grey = Cursor::new(Vec::new());
    ImageBuffer::from_pixel(2, 2, Luma([77u8])).write_to(&mut grey, ImageFormat::Png).unwrap();
    let image = decode_photo(&grey.into_inner(), None).unwrap();
    assert_eq!(image.pixels, [77; 12]);
    let mut alpha = Cursor::new(Vec::new());
    ImageBuffer::from_pixel(1, 1, Rgba([1u8, 2, 3, 4])).write_to(&mut alpha, ImageFormat::Png).unwrap();
    assert_eq!(decode_photo(&alpha.into_inner(), None).unwrap().pixels, [1, 2, 3]);
}

#[test]
fn the_content_counts_before_the_name() {
    assert_eq!(decode_photo(&png(), Some("jpg")).unwrap().pixels, gradient().into_raw());
    assert_eq!(decode_photo(&png(), Some("xyz")).unwrap().pixels, gradient().into_raw());
    assert_eq!(decode_photo(&png(), None).unwrap().pixels, gradient().into_raw());
}

#[test]
fn the_name_counts_where_the_content_shows_nothing() {
    let e = decode_photo(b"nothing of the kind", Some("JPG")).unwrap_err();
    assert!(matches!(&e, PhotoError::Undecodable(words) if !words.is_empty()), "{e:?}");
    let e = decode_photo(&[], Some("png")).unwrap_err();
    assert!(matches!(e, PhotoError::Undecodable(_)));
}

#[test]
fn neither_the_content_nor_the_name() {
    let e = decode_photo(b"nothing of the kind", Some("xyz")).unwrap_err();
    assert!(matches!(&e, PhotoError::UnknownFormat(words) if *words == e.message()));
    assert_eq!(
        e.message(),
        "The file extension `.\"xyz\"` was not recognized as an image format"
    );
    let e = decode_photo(b"nothing of the kind", None).unwrap_err();
    assert!(matches!(&e, PhotoError::UnknownFormat(words) if *words == e.message()));
    assert_eq!(e.message(), "The image format could not be determined");
}

#[test]
fn the_words_are_those_of_the_reader() {
    // What the reader over a file of that name says.
    let unknown = image::ImageReader::new(Cursor::new(b"nothing of the kind"))
        .with_guessed_format()
        .unwrap()
        .decode()
        .unwrap_err();
    assert_eq!(decode_photo(b"nothing of the kind", None).unwrap_err().message(), unknown.to_string());
    for extension in ["xyz", "a\"b", "tab\there", "café", "back\\slash", "e\u{301}", "\u{7f}"] {
        let named = ImageFormat::from_path(format!("a.{extension}")).unwrap_err();
        assert_eq!(
            decode_photo(b"nothing of the kind", Some(extension)).unwrap_err().message(),
            named.to_string()
        );
    }
}

#[test]
fn an_empty_extension_counts_as_none() {
    let e = decode_photo(b"nothing of the kind", Some("")).unwrap_err();
    assert_eq!(e.message(), "The image format could not be determined");
    assert_eq!(decode_photo(&png(), Some("")).unwrap().pixels, gradient().into_raw());
}

#[test]
fn a_failure_is_told_with_its_causes() {
    let mut cut = png();
    cut.truncate(30);
    let mut flipped = png();
    flipped[20] ^= 0xff;
    let inputs: [(&[u8], &str, ImageFormat); 4] = [
        (&cut, "png", ImageFormat::Png),
        (&flipped, "png", ImageFormat::Png),
        (b"nothing of the kind", "jpg", ImageFormat::Jpeg),
        (&[0xff, 0xd8, 0xff], "jpg", ImageFormat::Jpeg),
    ];
    for (bytes, extension, format) in inputs {
        let error = image::ImageReader::with_format(Cursor::new(bytes), format).decode().unwrap_err();
        let mut words = error.to_string();
        let mut cause = std::error::Error::source(&error);
        while let Some(next) = cause {
            words = format!("{words}: {next}");
            cause = next.source();
        }
        assert_eq!(decode_photo(bytes, Some(extension)).unwrap_err().message(), words);
    }
}

#[test]
fn a_file_that_breaks_off() {
    let words = || "Input/output error".to_string();
    let e = broken_off(&png(), Some("jpg"), words());
    assert!(matches!(&e, PhotoError::Undecodable(w) if *w == words()));
    let e = broken_off(b"nothing of the kind", Some("jpg"), words());
    assert_eq!(e.message(), words());
    // Without a format there is nothing to read on for.
    let e = broken_off(b"nothing of the kind", None, words());
    assert_eq!(e.message(), "The image format could not be determined");
    let e = broken_off(b"nothing of the kind", Some("xyz"), words());
    assert!(matches!(e, PhotoError::UnknownFormat(_)));
}

#[test]
fn a_broken_file_is_not_decoded() {
    let mut bytes = png();
    bytes.truncate(30);
    let e = decode_photo(&bytes, Some("png")).unwrap_err();
    assert!(matches!(&e, PhotoError::Undecodable(words) if *words == e.message()));
}

#[test]
fn an_image_without_pixels_is_refused() {
    assert!(matches!(rgb_image(0, 4, vec![]), Err(PhotoError::NoPixels)));
    assert!(matches!(rgb_image(4, 0, vec![]), Err(PhotoError::NoPixels)));
    assert_eq!(rgb_image(4, 0, vec![]).unwrap_err().message(), "The image has no pixels");
    assert_eq!(rgb_image(1, 1, vec![1, 2, 3]).unwrap().pixels, [1, 2, 3]);
}
