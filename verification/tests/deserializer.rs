use country_boundaries::deserializer::{
    from_reader, read_areas, read_cell, read_f64, read_point, read_polygons, read_ring,
    read_string, read_u16, read_u32, read_u8, read_usize32,
};
use country_boundaries::{
    Cell, CountryBoundaries, GeometrySizes, Multipolygon, Point, ReadError,
};

fn sizes(entries: &[(&str, f64)]) -> GeometrySizes {
    let mut sizes = GeometrySizes::new();
    for (id, size) in entries {
        sizes.insert(String::from(*id), size.to_bits());
    }
    sizes
}

#[test]
fn test_read_string() {
    assert!(read_string(&mut [0x00].as_slice()).is_err());
    assert!(read_string(&mut [0x00, 0x01].as_slice()).is_err());
    assert!(read_string(&mut [0x00, 0x02, 0x41].as_slice()).is_err());

    assert!(read_string(&mut [0x00, 0x00].as_slice()).unwrap().is_empty());
    assert_eq!("A", read_string(&mut [0x00, 0x01, 0x41].as_slice()).unwrap());
    assert_eq!("AB", read_string(&mut [0x00, 0x02, 0x41, 0x42].as_slice()).unwrap());
}

#[test]
fn read_float() {
    assert!(read_f64(&mut [0x00, 0x00, 0x00, 0x00, 0x00, 0x00, 0x00].as_slice()).is_err());

    assert_eq!(
        12.5,
        f64::from_bits(
            read_f64(&mut [0x40, 0x29, 0x00, 0x00, 0x00, 0x00, 0x00, 0x00].as_slice()).unwrap()
        )
    );
}

#[test]
fn test_read_u8() {
    assert!(read_u8(&mut [].as_slice()).is_err());

    assert_eq!(17, read_u8(&mut [0x11].as_slice()).unwrap());
    assert_eq!(u8::MIN, read_u8(&mut [0x00].as_slice()).unwrap());
    assert_eq!(u8::MAX, read_u8(&mut [0xff].as_slice()).unwrap());
}

#[test]
fn test_read_u16() {
    assert!(read_u16(&mut [0x00].as_slice()).is_err());

    assert_eq!(17, read_u16(&mut [0x00, 0x11].as_slice()).unwrap());
    assert_eq!(u16::MIN, read_u16(&mut [0x00, 0x00].as_slice()).unwrap());
    assert_eq!(u16::MAX, read_u16(&mut [0xff, 0xff].as_slice()).unwrap());
}

#[test]
fn test_read_u32() {
    assert!(read_u32(&mut [0x00, 0x00, 0x00].as_slice()).is_err());

    assert_eq!(17, read_u32(&mut [0x00, 0x00, 0x00, 0x11].as_slice()).unwrap());
    assert_eq!(u32::MIN, read_u32(&mut [0x00, 0x00, 0x00, 0x00].as_slice()).unwrap());
    assert_eq!(u32::MAX, read_u32(&mut [0xff, 0xff, 0xff, 0xff].as_slice()).unwrap());
}

#[test]
fn test_read_usize32() {
    assert!(read_usize32(&mut [0x00, 0x00, 0x00].as_slice()).is_err());

    assert_eq!(17, read_usize32(&mut [0x00, 0x00, 0x00, 0x11].as_slice()).unwrap());
    assert_eq!(0, read_usize32(&mut [0x00, 0x00, 0x00, 0x00].as_slice()).unwrap());
    assert_eq!(0xffff, read_usize32(&mut [0x00, 0x00, 0xff, 0xff].as_slice()).unwrap());
}

#[test]
fn read_usize32_on_16_bit_machines_results_in_error_if_number_too_big() {
    let result = read_usize32(&mut [0x00, 0xff, 0xff, 0xff].as_slice());
    if usize::BITS < 32 {
        assert!(result.is_err());
    } else {
        assert_eq!(Ok(0xff_ffff), result);
    }
}

#[test]
fn test_read_point() {
    assert_eq!(
        Point { x: 1, y: 2 },
        read_point(&mut [0x00, 0x01, 0x00, 0x02].as_slice()).unwrap()
    );
}

#[test]
fn test_read_ring() {
    let empty = [0x00, 0x00, 0x00, 0x00];
    for i in 0..empty.len() - 1 {
        assert!(read_ring(&mut &empty[0..i]).is_err());
    }
    assert!(read_ring(&mut empty.as_slice()).unwrap().is_empty());

    let two_points = [
        0x00, 0x00, 0x00, 0x02, // length
        0x00, 0x01, // p1.x
        0x00, 0x02, // p1.y
        0x00, 0x03, // p2.x
        0x00, 0x04, // p2.y
    ];
    for i in 0..two_points.len() - 1 {
        assert!(read_ring(&mut &two_points[0..i]).is_err());
    }
    assert_eq!(
        vec![Point { x: 1, y: 2 }, Point { x: 3, y: 4 }],
        read_ring(&mut two_points.as_slice()).unwrap()
    );
}

#[test]
fn test_read_polygons() {
    assert!(read_polygons(&mut [0x00].as_slice()).unwrap().is_empty());

    let two_rings = [
        0x02, // polygons length
        0x00, 0x00, 0x00, 0x01, // ring length
        0x00, 0x01, // p1.x
        0x00, 0x02, // p1.y
        0x00, 0x00, 0x00, 0x01, // ring length
        0x00, 0x03, // p2.x
        0x00, 0x04, // p2.y
    ];
    for i in 0..two_rings.len() - 1 {
        assert!(read_polygons(&mut &two_rings[0..i]).is_err());
    }
    assert_eq!(
        vec![vec![Point { x: 1, y: 2 }], vec![Point { x: 3, y: 4 }]],
        read_polygons(&mut two_rings.as_slice()).unwrap()
    );
}

#[test]
fn test_read_cell() {
    assert_eq!(
        Cell { containing_ids: vec![], intersecting_areas: vec![] },
        read_cell(&mut [0x00, 0x00].as_slice()).unwrap()
    );

    let cell = [
        0x01, // containing ids length
        0x00, 0x01, 0x41, // "A"
        0x01, // intersecting areas length
        0x00, 0x01, 0x42, // "B"
        0x00, 0x00, // empty multipolygon
    ];
    for i in 0..cell.len() - 1 {
        assert!(read_polygons(&mut &cell[0..i]).is_err());
    }
    assert_eq!(
        Cell {
            containing_ids: vec![String::from("A")],
            intersecting_areas: vec![(
                String::from("B"),
                Multipolygon { inner: vec![], outer: vec![] }
            )]
        },
        read_cell(&mut cell.as_slice()).unwrap()
    );
}

#[test]
fn test_read_wrong_version() {
    let minimum = [
        0x00, 0x03, // version number
        0x00, 0x00, 0x00, 0x00, // geometry sizes map length
        0x00, 0x00, 0x00, 0x00, // raster width
        0x00, 0x00, 0x00, 0x00, // raster size
    ];
    assert!(from_reader(&mut minimum.as_slice()).is_err());
}

#[test]
fn test_read_minimum() {
    let minimum = [
        0x00, 0x02, // version number
        0x00, 0x00, 0x00, 0x00, // geometry sizes map length
        0x00, 0x00, 0x00, 0x00, // raster width
        0x00, 0x00, 0x00, 0x00, // raster size
    ];
    for i in 0..minimum.len() - 1 {
        assert!(from_reader(&mut &minimum[0..i]).is_err());
    }
    assert_eq!(
        CountryBoundaries::new(vec![], 0, sizes(&[])),
        from_reader(&mut minimum.as_slice()).unwrap()
    );
}

#[test]
fn test_read_basic() {
    let basic = [
        0x00, 0x02, // version number
        0x00, 0x00, 0x00, 0x01, // geometry sizes map length
        0x00, 0x01, 0x41, // "A"
        0x40, 0x29, 0x00, 0x00, 0x00, 0x00, 0x00, 0x00, // 12.5
        0x00, 0x00, 0x00, 0x01, // raster width
        0x00, 0x00, 0x00, 0x01, // raster size
        0x01, // cell containing ids length
        0x00, 0x01, 0x41, // "A"
        0x00, // intersecting areas length
    ];
    for i in 0..basic.len() - 1 {
        assert!(from_reader(&mut &basic[0..i]).is_err());
    }
    assert_eq!(
        CountryBoundaries::new(
            vec![Cell { containing_ids: vec![String::from("A")], intersecting_areas: vec![] }],
            1,
            sizes(&[("A", 12.5)])
        ),
        from_reader(&mut basic.as_slice()).unwrap()
    );
}

#[test]
fn wrong_version_names_expected_and_actual_version() {
    assert_eq!(
        Err(ReadError::WrongVersion { expected: 2, actual: 3 }),
        from_reader(&mut [0x00, 0x03].as_slice())
    );
    assert_eq!(
        Err(ReadError::WrongVersion { expected: 2, actual: 0x0200 }),
        CountryBoundaries::from_reader(&[0x02, 0x00, 0x00])
    );
}

#[test]
fn each_error_has_an_input() {
    assert_eq!(Err(ReadError::UnexpectedEof), read_u8(&mut [].as_slice()));
    assert_eq!(Err(ReadError::UnexpectedEof), read_string(&mut [0x00, 0x02, 0x41].as_slice()));
    assert_eq!(Err(ReadError::InvalidUtf8), read_string(&mut [0x00, 0x01, 0xff].as_slice()));
    // a continuation byte is missing
    assert_eq!(Err(ReadError::InvalidUtf8), read_string(&mut [0x00, 0x01, 0xc3].as_slice()));
    // an overlong encoding and a surrogate
    assert_eq!(Err(ReadError::InvalidUtf8), read_string(&mut [0x00, 0x02, 0xc0, 0x80].as_slice()));
    assert_eq!(
        Err(ReadError::InvalidUtf8),
        read_string(&mut [0x00, 0x03, 0xed, 0xa0, 0x80].as_slice())
    );
    assert_eq!(
        Err(ReadError::WrongVersion { expected: 2, actual: 1 }),
        from_reader(&mut [0x00, 0x01].as_slice())
    );
}

#[test]
fn truncation_is_reported_before_invalid_text() {
    // two bytes are announced, one is there, and that one is not UTF-8
    assert_eq!(Err(ReadError::UnexpectedEof), read_string(&mut [0x00, 0x02, 0xff].as_slice()));
}

#[test]
fn reading_shortens_the_reader_by_what_was_read() {
    let bytes = [0x00, 0x02, 0x41, 0x42, 0x07, 0x08];
    let mut reader = bytes.as_slice();
    assert_eq!("AB", read_string(&mut reader).unwrap());
    assert_eq!(&[0x07, 0x08], reader);
    assert_eq!(Ok(0x0708), read_u16(&mut reader));
    assert!(reader.is_empty());

    let mut reader = bytes.as_slice();
    assert_eq!(Ok(0x0002_4142), read_u32(&mut reader));
    assert_eq!(&[0x07, 0x08], reader);

    let mut reader = [0x01, 0x02, 0x03, 0x04, 0x05, 0x06, 0x07, 0x08, 0x09].as_slice();
    assert_eq!(Ok(0x0102_0304_0506_0708), read_f64(&mut reader));
    assert_eq!(&[0x09], reader);
}

#[test]
fn strings_are_decoded_as_utf8() {
    assert_eq!(
        "Aä€😀",
        read_string(
            &mut [0x00, 0x0a, 0x41, 0xc3, 0xa4, 0xe2, 0x82, 0xac, 0xf0, 0x9f, 0x98, 0x80]
                .as_slice()
        )
        .unwrap()
    );
}

#[test]
fn read_areas_reads_id_outer_and_inner_rings() {
    let area = [
        0x00, 0x02, 0x44, 0x45, // "DE"
        0x01, // outer rings
        0x00, 0x00, 0x00, 0x03, // points
        0x00, 0x00, 0x00, 0x00, // (0, 0)
        0x00, 0x0a, 0x00, 0x00, // (10, 0)
        0x00, 0x00, 0x00, 0x0a, // (0, 10)
        0x01, // inner rings
        0x00, 0x00, 0x00, 0x01, // points
        0xff, 0xff, 0x01, 0x00, // (65535, 256)
    ];
    for i in 0..area.len() - 1 {
        assert_eq!(Err(ReadError::UnexpectedEof), read_areas(&mut &area[0..i]));
    }
    assert_eq!(
        (
            String::from("DE"),
            Multipolygon {
                outer: vec![vec![
                    Point { x: 0, y: 0 },
                    Point { x: 10, y: 0 },
                    Point { x: 0, y: 10 }
                ]],
                inner: vec![vec![Point { x: 65535, y: 256 }]],
            }
        ),
        read_areas(&mut area.as_slice()).unwrap()
    );
}

#[test]
fn later_sizes_replace_earlier_ones_of_the_same_id() {
    let dataset = [
        0x00, 0x02, // version number
        0x00, 0x00, 0x00, 0x03, // geometry sizes map length
        0x00, 0x01, 0x41, // "A"
        0x40, 0x29, 0x00, 0x00, 0x00, 0x00, 0x00, 0x00, // 12.5
        0x00, 0x01, 0x42, // "B"
        0x3f, 0xf0, 0x00, 0x00, 0x00, 0x00, 0x00, 0x00, // 1.0
        0x00, 0x01, 0x41, // "A"
        0x40, 0x00, 0x00, 0x00, 0x00, 0x00, 0x00, 0x00, // 2.0
        0x00, 0x00, 0x00, 0x01, // raster width
        0x00, 0x00, 0x00, 0x00, // raster size
    ];
    let boundaries = CountryBoundaries::from_reader(&dataset).unwrap();
    assert_eq!(Some(2.0f64.to_bits()), boundaries.geometry_sizes().get("A"));
    assert_eq!(Some(1.0f64.to_bits()), boundaries.geometry_sizes().get("B"));
    assert_eq!(None, boundaries.geometry_sizes().get("C"));
    assert_eq!(1, boundaries.raster_width());
    assert!(boundaries.raster().is_empty());
}

fn encode_string(out: &mut Vec<u8>, text: &str) {
    out.extend_from_slice(&(text.len() as u16).to_be_bytes());
    out.extend_from_slice(text.as_bytes());
}

fn encode_rings(out: &mut Vec<u8>, rings: &[Vec<Point>]) {
    out.push(rings.len() as u8);
    for ring in rings {
        out.extend_from_slice(&(ring.len() as u32).to_be_bytes());
        for point in ring {
            out.extend_from_slice(&point.x.to_be_bytes());
            out.extend_from_slice(&point.y.to_be_bytes());
        }
    }
}

fn encode(entries: &[(&str, f64)], width: u32, raster: &[Cell]) -> Vec<u8> {
    let mut out = vec![0x00, 0x02];
    out.extend_from_slice(&(entries.len() as u32).to_be_bytes());
    for (id, size) in entries {
        encode_string(&mut out, id);
        out.extend_from_slice(&size.to_be_bytes());
    }
    out.extend_from_slice(&width.to_be_bytes());
    out.extend_from_slice(&(raster.len() as u32).to_be_bytes());
    for cell in raster {
        out.push(cell.containing_ids.len() as u8);
        for id in &cell.containing_ids {
            encode_string(&mut out, id);
        }
        out.push(cell.intersecting_areas.len() as u8);
        for (id, area) in &cell.intersecting_areas {
            encode_string(&mut out, id);
            encode_rings(&mut out, &area.outer);
            encode_rings(&mut out, &area.inner);
        }
    }
    out
}

#[test]
fn reading_an_encoded_dataset_gives_it_back() {
    let entries = [("DE", 357_000.0), ("Österreich", 83_879.0), ("", -0.0), ("X", f64::MAX)];
    let raster = vec![
        Cell::new(vec![String::from("DE")], vec![]),
        Cell::new(
            vec![],
            vec![
                (
                    String::from("DE"),
                    Multipolygon {
                        outer: vec![
                            vec![
                                Point { x: 0, y: 0 },
                                Point { x: 0, y: 65535 },
                                Point { x: 65535, y: 65535 },
                            ],
                            vec![],
                        ],
                        inner: vec![vec![Point { x: 1, y: 258 }]],
                    },
                ),
                (String::from("Österreich"), Multipolygon { outer: vec![], inner: vec![] }),
            ],
        ),
        Cell::new(vec![String::from("A"), String::from("B")], vec![]),
        Cell::new(vec![], vec![]),
    ];
    let bytes = encode(&entries, 2, &raster);
    assert_eq!(
        CountryBoundaries::new(raster.clone(), 2, sizes(&entries)),
        CountryBoundaries::from_reader(&bytes).unwrap()
    );
    // what stands behind the dataset is left in the reader
    let mut longer = bytes.clone();
    longer.extend_from_slice(&[0xaa, 0xbb]);
    let mut reader = longer.as_slice();
    assert_eq!(
        CountryBoundaries::new(raster, 2, sizes(&entries)),
        from_reader(&mut reader).unwrap()
    );
    assert_eq!(&[0xaa, 0xbb], reader);
    for i in 0..bytes.len() {
        assert_eq!(Err(ReadError::UnexpectedEof), CountryBoundaries::from_reader(&bytes[0..i]));
    }
}
