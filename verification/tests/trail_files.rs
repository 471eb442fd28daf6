use taco_pack::space::pack::trail::{read_point, read_trl_file, ByteReader, TrailFileError};

fn file(version: i32, map: i32, points: &[[f32; 3]]) -> Vec<u8> {
    let mut b = Vec::new();
    b.extend_from_slice(&version.to_le_bytes());
    b.extend_from_slice(&map.to_le_bytes());
    for p in points {
        for c in p {
            b.extend_from_slice(&c.to_le_bytes());
        }
    }
    b
}

#[test]
fn header_is_read() {
    let d = read_trl_file(&file(0, 38, &[[1.0, 2.0, 3.0], [0.0, 0.0, 0.0], [4.0, 5.0, 6.0]])).unwrap();
    assert_eq!(d.map_id, 38);
    assert!(d.sections.is_empty());
    let d = read_trl_file(&file(0, -5, &[])).unwrap();
    assert_eq!(d.map_id, -5);
    // a partial point at the end is not an error
    let mut b = file(0, 7, &[[1.0, 1.0, 1.0]]);
    b.extend_from_slice(&[1, 2, 3]);
    assert_eq!(read_trl_file(&b).unwrap().map_id, 7);
}

#[test]
fn header_errors() {
    assert!(matches!(read_trl_file(&[0, 0, 0]), Err(TrailFileError::ReadingVersion)));
    assert!(matches!(read_trl_file(&file(2, 1, &[])), Err(TrailFileError::UnsupportedVersion(2))));
    assert!(matches!(read_trl_file(&file(-1, 1, &[])), Err(TrailFileError::UnsupportedVersion(-1))));
    assert!(matches!(read_trl_file(&[0, 0, 0, 0, 1, 2]), Err(TrailFileError::ReadingMapId)));
}

#[test]
fn points_are_read_in_groups_of_four_bytes() {
    let bytes: Vec<u8> = (1..=13).collect();
    let mut r = ByteReader::new(&bytes);
    let p = read_point(&mut r).unwrap();
    assert_eq!(p, [[1, 2, 3, 4], [5, 6, 7, 8], [9, 10, 11, 12]]);
    assert!(read_point(&mut r).is_err());
    assert!(read_point(&mut r).is_err());
}
