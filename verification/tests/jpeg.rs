//! Layouts of JPEG files, and what becomes of them.
use fishsense_laz::jpeg::{headers, is_decodable, Colors, Sampling};
use fishsense_laz::photo::{decode_photo, PhotoError};
use image::{ImageBuffer, ImageFormat, Rgb};
use std::io::Cursor;

#[derive(Clone)]
struct Sketch {
    progressive: bool,
    width: u16,
    height: u16,
    factors: Vec<(u8, u8)>,
    note_before: Option<u8>,
    note_after: Option<u8>,
    note_late: Option<u8>,
    scans: Vec<Vec<usize>>,
}

fn sketch(progressive: bool, width: u16, height: u16, factors: &[(u8, u8)]) -> Sketch {
    Sketch {
        progressive,
        width,
        height,
        factors: factors.to_vec(),
        note_before: None,
        note_after: None,
        note_late: None,
        scans: vec![(0..factors.len()).collect()],
    }
}

fn one_by_one(n: usize) -> Vec<Vec<usize>> {
    (0..n).map(|i| vec![i]).collect()
}

fn note(out: &mut Vec<u8>, transform: Option<u8>) {
    if let Some(t) = transform {
        out.extend_from_slice(&[0xff, 0xee, 0, 14]);
        out.extend_from_slice(b"Adobe");
        out.extend_from_slice(&[0, 100, 0, 0, 0, 0, t]);
    }
}

/// A file in which every coefficient is zero: a code of one bit for the first of a
/// block, and one for the others.
fn file(s: &Sketch) -> Vec<u8> {
    let mut out = vec![0xff, 0xd8];
    note(&mut out, s.note_before);
    out.extend_from_slice(&[0xff, 0xdb, 0, 67, 0]);
    out.extend_from_slice(&[1; 64]);
    let n = s.factors.len() as u8;
    out.extend_from_slice(&[0xff, if s.progressive { 0xc2 } else { 0xc0 }, 0, 8 + 3 * n, 8]);
    out.extend_from_slice(&s.height.to_be_bytes());
    out.extend_from_slice(&s.width.to_be_bytes());
    out.push(n);
    for (i, (h, v)) in s.factors.iter().enumerate() {
        out.extend_from_slice(&[i as u8 + 1, h * 16 + v, 0]);
    }
    note(&mut out, s.note_after);
    for class in [0, 0x10] {
        out.extend_from_slice(&[0xff, 0xc4, 0, 20, class]);
        out.extend_from_slice(&[1, 0, 0, 0, 0, 0, 0, 0, 0, 0, 0, 0, 0, 0, 0, 0, 0]);
    }
    let h_max = u32::from(s.factors.iter().map(|f| f.0).max().unwrap());
    let v_max = u32::from(s.factors.iter().map(|f| f.1).max().unwrap());
    let (width, height) = (u32::from(s.width), u32::from(s.height));
    for (k, scan) in s.scans.iter().enumerate() {
        if k == 1 {
            note(&mut out, s.note_late);
        }
        let count = scan.len() as u8;
        out.extend_from_slice(&[0xff, 0xda, 0, 6 + 2 * count, count]);
        for i in scan {
            out.extend_from_slice(&[*i as u8 + 1, 0]);
        }
        out.extend_from_slice(&[0, if s.progressive { 0 } else { 63 }, 0]);
        let (across, down) = (width.div_ceil(8 * h_max), height.div_ceil(8 * v_max));
        let blocks: u32 = match scan[..] {
            [i] if s.progressive => {
                let (h, v) = (u32::from(s.factors[i].0), u32::from(s.factors[i].1));
                (width * h).div_ceil(8 * h_max) * (height * v).div_ceil(8 * v_max)
            }
            _ => scan
                .iter()
                .map(|i| u32::from(s.factors[*i].0) * u32::from(s.factors[*i].1) * across * down)
                .sum(),
        };
        let bits = if s.progressive { blocks } else { 2 * blocks };
        out.resize(out.len() + bits.div_ceil(8) as usize, 0);
    }
    if s.scans.len() == 1 {
        note(&mut out, s.note_late);
    }
    out.extend_from_slice(&[0xff, 0xd9]);
    out
}

fn is_refused(s: &Sketch) -> bool {
    let bytes = file(s);
    let refused = matches!(
        decode_photo(&bytes, Some("jpg")),
        Err(PhotoError::UnsupportedLayout)
    );
    assert_eq!(refused, !is_decodable(&bytes));
    refused
}

fn size(s: &Sketch) -> (u32, u32) {
    let image = decode_photo(&file(s), Some("jpg")).unwrap();
    assert_eq!(image.pixels.len(), (image.width * image.height * 3) as usize);
    (image.width, image.height)
}

const QUARTERED: [(u8, u8); 3] = [(2, 2), (1, 1), (1, 1)];

#[test]
fn headers_are_read_up_to_the_first_scan() {
    let mut s = sketch(true, 300, 200, &[(2, 2), (1, 1), (4, 3)]);
    s.scans = vec![vec![0, 2], vec![1]];
    let read = headers(&file(&s)).unwrap();
    assert!(read.frame.progressive);
    assert_eq!((read.frame.width, read.frame.height), (300, 200));
    let factors = [Sampling { h: 2, v: 2 }, Sampling { h: 1, v: 1 }, Sampling { h: 4, v: 3 }];
    assert_eq!(read.frame.components, factors);
    assert_eq!((read.colors, read.first_scan, read.turns_ycbcr), (Colors::YCbCr, 2, false));
    assert!(!headers(&file(&sketch(false, 1, 1, &[(1, 1)]))).unwrap().frame.progressive);
}

#[test]
fn colours_are_those_that_are_noted_last() {
    let colors = |n: usize, before: Option<u8>, after: Option<u8>| {
        let mut s = sketch(false, 8, 8, &vec![(1, 1); n]);
        s.note_before = before;
        s.note_after = after;
        headers(&file(&s)).unwrap().colors
    };
    assert_eq!(colors(3, None, None), Colors::YCbCr);
    assert_eq!(colors(1, None, None), Colors::Luma);
    assert_eq!(colors(1, Some(2), None), Colors::Luma);
    assert_eq!(colors(1, None, Some(2)), Colors::Ycck);
    assert_eq!(colors(4, None, None), Colors::Cmyk);
    assert_eq!(colors(4, Some(1), None), Colors::Cmyk);
    assert_eq!(colors(4, Some(2), None), Colors::Ycck);
    assert_eq!(colors(4, Some(2), Some(1)), Colors::YCbCr);
    assert_eq!(colors(3, Some(0), None), Colors::Cmyk);
    assert!(headers(&file(&Sketch { note_after: Some(3), ..sketch(false, 8, 8, &QUARTERED) })).is_none());
}

#[test]
fn a_late_note_is_found() {
    let mut s = sketch(true, 8, 8, &[(1, 1); 4]);
    for (t, found) in [(None, false), (Some(0), false), (Some(1), true), (Some(2), false)] {
        s.note_late = t;
        assert_eq!(headers(&file(&s)).unwrap().turns_ycbcr, found);
    }
}

#[test]
fn what_is_no_jpeg_has_no_headers() {
    assert!(headers(b"").is_none());
    assert!(headers(b"\x89PNG\r\n\x1a\n").is_none());
    assert!(headers(&[0xff, 0xd8]).is_none());
    let bytes = file(&sketch(false, 8, 8, &QUARTERED));
    let scan = bytes.windows(2).position(|w| w == [0xff, 0xda]).unwrap();
    assert!(headers(&bytes[..scan + 2]).is_none());
    assert!(headers(&bytes[..scan + 5]).is_some());
    // Two frames.
    let frame = bytes.windows(2).position(|w| w == [0xff, 0xc0]).unwrap();
    let mut twice = bytes[..frame + 19].to_vec();
    twice.extend_from_slice(&bytes[frame..]);
    assert!(headers(&twice).is_none());
    assert!(decode_photo(&twice, None).is_err());
}

#[test]
fn fill_bytes_and_odd_segments_are_passed_over() {
    let bytes = file(&sketch(false, 24, 16, &QUARTERED));
    let with = |extra: &[u8]| {
        let mut all = bytes[..2].to_vec();
        all.extend_from_slice(extra);
        all.extend_from_slice(&bytes[2..]);
        let read = headers(&all).unwrap();
        let image = decode_photo(&all, Some("jpg")).unwrap();
        assert_eq!((image.width, image.height), (24, 16));
        assert_eq!((read.frame.width, read.frame.height), (24, 16));
    };
    with(&[]);
    with(&[0xff, 0xff]);
    with(&[1, 2, 3, 0xff, 0, 4]);
    with(&[0xff, 0xfe, 0, 4, 0xff, 0xda]);
    with(&[0xff, 0xe0, 0, 7, 1, 2, 3, 4, 5]);
    // A segment of six bytes, of which seven are read.
    with(&[0xff, 0xe0, 0, 6, 1, 2, 3, 4, 0xff]);
    with(&[0xff, 0xee, 0, 7, 1, 2, 3, 4, 5]);
    with(&[0xff, 0xdd, 0, 4, 0, 0]);
}

#[test]
fn usual_layouts_are_decoded() {
    for factors in [QUARTERED, [(2, 1), (1, 1), (1, 1)], [(1, 2), (1, 1), (1, 1)], [(1, 1); 3]] {
        for progressive in [false, true] {
            let mut s = sketch(progressive, 37, 21, &factors);
            assert_eq!(size(&s), (37, 21));
            s.scans = one_by_one(3);
            assert_eq!(size(&s), (37, 21));
        }
    }
    assert_eq!(size(&sketch(true, 37, 21, &[(1, 1)])), (37, 21));
    assert_eq!(size(&sketch(false, 37, 21, &[(2, 2)])), (37, 21));
    assert_eq!(size(&sketch(true, 37, 21, &[(1, 1); 4])), (37, 21));
}

#[test]
fn encoded_images_are_decoded() {
    let mut out = Cursor::new(Vec::new());
    let solid = ImageBuffer::from_pixel(40, 24, Rgb([200u8, 100, 50]));
    solid.write_to(&mut out, ImageFormat::Jpeg).unwrap();
    let bytes = out.into_inner();
    assert!(is_decodable(&bytes));
    assert!(headers(&bytes).unwrap().decodable());
}

#[test]
fn the_first_component_may_be_narrow_in_one_scan() {
    let mut s = sketch(false, 8, 8, &[(1, 1), (2, 2), (1, 1)]);
    assert_eq!(size(&s), (8, 8));
    s.width = 40;
    assert!(!is_refused(&s));
}

#[test]
fn two_components_are_not_ycck() {
    let mut s = sketch(true, 8, 8, &[(1, 1), (1, 1)]);
    assert!(!is_refused(&s));
    s.note_before = Some(2);
    assert!(is_refused(&s));
    s.progressive = false;
    assert!(!is_refused(&s));
    // One component counts as luma, unless it is noted behind the frame.
    let mut s = sketch(true, 8, 8, &[(1, 1)]);
    s.note_before = Some(2);
    assert_eq!(size(&s), (8, 8));
    s.note_after = Some(2);
    assert!(is_refused(&s));
    s.note_after = Some(1);
    assert!(!is_refused(&s));
}

#[test]
fn the_first_component_is_not_narrow_in_many_scans() {
    let factors = [(1, 1), (2, 2), (1, 1)];
    assert!(is_refused(&sketch(true, 8, 8, &factors)));
    let mut s = sketch(false, 8, 8, &factors);
    s.scans = one_by_one(3);
    assert!(is_refused(&s));
    // Nothing is halved both ways.
    let mut s = sketch(true, 8, 8, &[(1, 2), (2, 2), (1, 2)]);
    assert_eq!(size(&s), (8, 8));
    s.progressive = false;
    s.scans = one_by_one(3);
    assert_eq!(size(&s), (8, 8));
    // There is no room for the rows of the first component.
    s.width = 20;
    s.factors = vec![(1, 1), (2, 1), (2, 1)];
    assert!(is_refused(&s));
    s.width = 8;
    assert_eq!(size(&s), (8, 8));
}

#[test]
fn four_components_are_not_ycbcr() {
    let mut s = sketch(true, 8, 8, &[(2, 2), (1, 1), (1, 1), (1, 1)]);
    assert_eq!(size(&s), (8, 8));
    s.note_after = Some(1);
    assert!(is_refused(&s));
    s.note_after = Some(2);
    assert_eq!(size(&s), (8, 8));
    s.note_late = Some(1);
    assert!(is_refused(&s));
    s.progressive = false;
    assert!(!is_refused(&s));
}

#[test]
fn the_refusal_in_words() {
    let e = decode_photo(&file(&sketch(true, 8, 8, &[(1, 1), (2, 2), (1, 1)])), None).unwrap_err();
    assert_eq!(e.message(), "The layout of the JPEG components is not supported");
}

#[test]
fn no_layout_of_three_components_is_too_much() {
    let factors = [(1, 1), (1, 2), (2, 1), (2, 2)];
    let mut refused = 0;
    for code in 0..64usize {
        let f = [factors[code % 4], factors[code / 4 % 4], factors[code / 16]];
        for progressive in [false, true] {
            for (width, height) in [(8, 8), (9, 30), (20, 9), (40, 17)] {
                let mut s = sketch(progressive, width, height, &f);
                for scans in [s.scans.clone(), one_by_one(3), vec![vec![0, 1], vec![2]]] {
                    s.scans = scans;
                    refused += usize::from(is_refused(&s));
                }
            }
        }
    }
    assert!(refused > 0);
}

#[test]
fn no_layout_of_four_components_is_too_much() {
    let factors = [(1, 1), (1, 2), (2, 1), (2, 2)];
    for code in 0..256usize {
        let f = [factors[code % 4], factors[code / 4 % 4], factors[code / 16 % 4], factors[code / 64]];
        for progressive in [false, true] {
            for t in [None, Some(0), Some(1), Some(2)] {
                let mut s = sketch(progressive, 11, 19, &f);
                s.note_after = t;
                is_refused(&s);
                s.note_after = None;
                s.note_late = t;
                s.scans = one_by_one(4);
                is_refused(&s);
            }
        }
    }
}
