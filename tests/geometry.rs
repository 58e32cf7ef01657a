use dicom_volume::catalog::resolve_referenced_file;
use dicom_volume::decimal::Decimal;
use dicom_volume::directory::{empty_metadata, DirectoryEntry};
use dicom_volume::error::DicomError;
use dicom_volume::volume::{data_type_of, isqrt, slice_spacing, xy_spacing};

fn at(path: &str, p: Option<[i64; 3]>, location: Option<i64>, thickness: Option<i64>) -> DirectoryEntry {
    let mut m = empty_metadata();
    m.image_position = p.map(|p| p.iter().map(|v| Decimal { micros: *v }).collect());
    m.slice_location = location.map(|l| Decimal { micros: l });
    m.slice_thickness = thickness.map(|t| Decimal { micros: t });
    DirectoryEntry { path: path.to_string(), metadata: m, is_valid: true }
}

#[test]
fn catalog_references_resolve_under_the_catalog_directory() {
    assert_eq!(resolve_referenced_file("/media", "DICOM\\001\\IMG1"), "/media/DICOM/001/IMG1");
    assert_eq!(resolve_referenced_file("/media/", "IMG2"), "/media/IMG2");
    assert_eq!(resolve_referenced_file("", "A\\B"), "/A/B");
}

#[test]
fn spacing_from_the_closest_positions() {
    let es = vec![at("a", Some([0, 0, 0]), None, None), at("b", Some([0, 0, 2_500_000]), None, None)];
    assert_eq!(slice_spacing(&es).unwrap(), Decimal { micros: 2_500_000 });
    let three = vec![
        at("a", Some([0, 0, 0]), None, None),
        at("b", Some([0, 0, 5_000_000]), None, None),
        at("c", Some([3_000_000, 4_000_000, 5_000_000]), None, None),
    ];
    assert_eq!(slice_spacing(&three).unwrap(), Decimal { micros: 5_000_000 });
}

#[test]
fn spacing_falls_back_to_locations_then_thickness() {
    let es = vec![at("a", None, Some(10_000_000), Some(1)), at("b", None, Some(7_000_000), None)];
    assert_eq!(slice_spacing(&es).unwrap(), Decimal { micros: 3_000_000 });
    let one = vec![at("a", Some([0, 0, 0]), None, Some(1_500_000))];
    assert_eq!(slice_spacing(&one).unwrap(), Decimal { micros: 1_500_000 });
    let none = vec![at("a", None, None, None)];
    assert!(matches!(slice_spacing(&none), Err(DicomError::MissingSliceSpacing)));
}

#[test]
fn integer_square_roots() {
    assert_eq!(isqrt(0), 0);
    assert_eq!(isqrt(1), 1);
    assert_eq!(isqrt(15), 3);
    assert_eq!(isqrt(16), 4);
    assert_eq!(isqrt(6_250_000_000_000), 2_500_000);
}

#[test]
fn in_plane_spacing_and_data_type() {
    let mut m = empty_metadata();
    assert!(matches!(xy_spacing(&m), Err(DicomError::MissingPixelSpacing)));
    m.pixel_spacing = Some(vec![Decimal { micros: 700_000 }, Decimal { micros: 800_000 }]);
    let (x, y) = xy_spacing(&m).unwrap();
    assert_eq!(x, Decimal { micros: 800_000 });
    assert_eq!(y, Decimal { micros: 700_000 });
    assert_eq!(data_type_of(8), "unsigned char");
    assert_eq!(data_type_of(16), "unsigned short");
}
