use fishsense_laz::double::Double;
use fishsense_laz::unproject::ColoredPoint;
use fishsense_laz::write::{
    laz_cloud, LazCloud, WriteError, LAS_VERSION_MAJOR, LAS_VERSION_MINOR, POINT_FORMAT, SCALE_M,
};
use las::{point::Format, Builder, Color, Point, Transform, Vector, Version, Writer};
use std::io::Cursor;

fn double(x: f64) -> Double {
    Double { bits: x.to_bits() }
}

fn number(x: Double) -> f64 {
    f64::from_bits(x.bits)
}

fn point(x: f64, y: f64, z: f64, r: u8, g: u8, b: u8) -> ColoredPoint {
    ColoredPoint { x: double(x), y: double(y), z: double(z), r, g, b }
}

/// The LAZ file of a cloud.
fn encode(cloud: &LazCloud) -> Vec<u8> {
    let mut builder = Builder::from(Version::new(LAS_VERSION_MAJOR, LAS_VERSION_MINOR));
    builder.point_format = Format::new(POINT_FORMAT).unwrap();
    builder.point_format.is_compressed = true;
    let transform = |offset: Double| Transform {
        scale: f64::from_bits(SCALE_M),
        offset: number(offset),
    };
    builder.transforms = Vector {
        x: transform(cloud.offset.x),
        y: transform(cloud.offset.y),
        z: transform(cloud.offset.z),
    };
    let header = builder.into_header().unwrap();
    let mut writer = Writer::new(Cursor::new(Vec::new()), header).unwrap();
    for p in &cloud.records {
        let point = Point {
            x: number(p.x),
            y: number(p.y),
            z: number(p.z),
            color: Some(Color { red: p.red, green: p.green, blue: p.blue }),
            ..Default::default()
        };
        writer.write_point(point).unwrap();
    }
    writer.into_inner().unwrap().into_inner()
}

#[test]
fn roundtrip_xyz_and_color() {
    let points = vec![
        point(1.0, 2.0, 3.0, 10, 128, 255),
        point(-0.5, 0.25, 0.0, 0, 255, 0),
        point(4.123, -2.456, 7.89, 50, 60, 70),
    ];
    let t_laz = encode(&laz_cloud(&points).unwrap());

    let mut reader = las::Reader::new(Cursor::new(t_laz)).unwrap();
    let read_back: Vec<Point> = reader.points().collect::<Result<_, _>>().unwrap();
    assert_eq!(read_back.len(), points.len());

    let scale = f64::from_bits(SCALE_M);
    for (orig, got) in points.iter().zip(read_back.iter()) {
        assert!((number(orig.x) - got.x).abs() < scale);
        assert!((number(orig.y) - got.y).abs() < scale);
        assert!((number(orig.z) - got.z).abs() < scale);
        let c = got.color.expect("color");
        assert_eq!(c.red, u16::from(orig.r) * 0x0101);
        assert_eq!(c.green, u16::from(orig.g) * 0x0101);
        assert_eq!(c.blue, u16::from(orig.b) * 0x0101);
    }
}

#[test]
fn empty_cloud_errors() {
    let err = laz_cloud(&[]).unwrap_err();
    assert_eq!(err, WriteError::Empty);
    assert!(err.message().contains("no points"));
    assert_eq!(err.message(), "no points to write — every depth pixel was skipped");
}

#[test]
fn the_offset_is_the_middle_of_the_cloud() {
    let points = vec![
        point(1.0, -7.5, 0.1, 1, 2, 3),
        point(-4.0, 2.25, 0.3, 4, 5, 6),
        point(0.5, 0.0, 0.2, 7, 8, 9),
    ];
    let cloud = laz_cloud(&points).unwrap();
    assert_eq!(number(cloud.offset.x), f64::midpoint(-4.0, 1.0));
    assert_eq!(number(cloud.offset.y), f64::midpoint(-7.5, 2.25));
    assert_eq!(number(cloud.offset.z), f64::midpoint(0.1, 0.3));
    assert_eq!(cloud.records.len(), 3);
    assert_eq!(cloud.records[2].red, 7 * 0x101);
    assert_eq!(cloud.records[2].x, double(0.5));
}

#[test]
fn a_stretched_channel_keeps_both_ends() {
    let cloud = laz_cloud(&[point(0.0, 0.0, 1.0, 0, 255, 128)]).unwrap();
    let p = cloud.records[0];
    assert_eq!((p.red, p.green, p.blue), (0, 65535, 0x8080));
}

#[test]
fn what_is_not_a_number_does_not_move_the_offset() {
    let points = vec![point(f64::NAN, 0.0, 1.0, 0, 0, 0), point(3.0, 0.0, 2.0, 0, 0, 0)];
    let cloud = laz_cloud(&points).unwrap();
    assert_eq!(number(cloud.offset.x), 3.0);
    assert_eq!(number(cloud.offset.z), 1.5);
}

#[test]
fn the_step_is_a_millimetre() {
    assert_eq!(f64::from_bits(SCALE_M), 0.001);
}

#[test]
fn the_offset_lies_in_the_cloud() {
    let points = vec![
        point(f64::MAX, -3.5, 1e-310, 0, 0, 0),
        point(1.5, f64::MIN, 3e-310, 0, 0, 0),
    ];
    let cloud = laz_cloud(&points).unwrap();
    let (x, y, z) = (number(cloud.offset.x), number(cloud.offset.y), number(cloud.offset.z));
    assert!(1.5 <= x && x <= f64::MAX);
    assert!(f64::MIN <= y && y <= -3.5);
    assert!(1e-310 <= z && z <= 3e-310);
}
