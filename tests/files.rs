use dicom::object::{FileMetaTableBuilder, InMemDicomObject};
use dicom_core::{DataElement, PrimitiveValue, Tag, VR};
use dicom_volume::catalog::{image_paths, is_catalog_class, is_catalog_file, parse_catalog};
use dicom_volume::dataset::ElementHeader;
use dicom_volume::directory::scan_files;
use dicom_volume::error::DicomError;
use dicom_volume::handler::DicomHandler;
use dicom_volume::propagate::complete_study;
use dicom_volume::volume::assemble_volume;

fn dicom_bytes(sop: &str, extra: &[(u16, u16, VR, &str)]) -> Vec<u8> {
    let mut obj = InMemDicomObject::new_empty();
    obj.put(DataElement::new(
        Tag(0x0008, 0x0016),
        VR::UI,
        PrimitiveValue::from("1.2.840.10008.5.1.4.1.1.2"),
    ));
    obj.put(DataElement::new(Tag(0x0008, 0x0018), VR::UI, PrimitiveValue::from(sop)));
    for (g, e, vr, v) in extra {
        obj.put(DataElement::new(Tag(*g, *e), *vr, PrimitiveValue::from(*v)));
    }
    let file = obj
        .with_meta(FileMetaTableBuilder::new().transfer_syntax("1.2.840.10008.1.2.1"))
        .unwrap();
    let mut out: Vec<u8> = Vec::new();
    file.write_all(&mut out).unwrap();
    out[128..].to_vec()
}

fn ct_slice(sop: &str, series: &str, instance: &str) -> Vec<u8> {
    dicom_bytes(
        sop,
        &[
            (0x0008, 0x0060, VR::CS, "CT"),
            (0x0010, 0x0010, VR::PN, "Doe^Jane"),
            (0x0010, 0x0020, VR::LO, "PAT-A"),
            (0x0020, 0x000D, VR::UI, "1.2.3"),
            (0x0020, 0x000E, VR::UI, "1.2.3.4"),
            (0x0020, 0x0011, VR::IS, series),
            (0x0020, 0x0013, VR::IS, instance),
            (0x0020, 0x0032, VR::DS, "0\\0\\2.5"),
        ],
    )
}

#[test]
fn a_dicom_stream_is_recognised_and_loads() {
    let h = DicomHandler::new();
    let bytes = ct_slice("1.9.1", "3", "7");
    assert!(h.is_dicom_file(bytes.clone()));
    let f = h.load_file(bytes).unwrap();
    assert!(f.is_valid);
    assert!(f.image.is_none());
    assert_eq!(f.metadata.modality.as_deref(), Some("CT"));
    assert_eq!(f.metadata.patient_name.as_deref(), Some("Doe^Jane"));
    assert_eq!(f.metadata.series_number, Some(3));
    assert_eq!(f.metadata.instance_number, Some(7));
    assert_eq!(f.metadata.sop_instance_uid.as_deref(), Some("1.9.1"));
    let pos = f.metadata.image_position.unwrap();
    assert_eq!(pos.len(), 3);
    assert_eq!(pos[2].micros, 2_500_000);
}

#[test]
fn other_bytes_are_not_dicom() {
    let h = DicomHandler::new();
    let junk = b"hello, this is not a medical image".to_vec();
    assert!(!h.is_dicom_file(junk.clone()));
    assert!(matches!(h.load_file(junk.clone()), Err(DicomError::Open(_))));
    assert!(matches!(h.get_metadata(junk.clone()), Err(DicomError::Open(_))));
    assert!(matches!(h.load_file_with_image(junk.clone()), Err(DicomError::Open(_))));
    assert!(matches!(h.get_image_bytes(junk.clone()), Err(DicomError::Open(_))));
    assert!(matches!(h.extract_pixel_data(junk), Err(DicomError::Open(_))));
    assert!(!h.is_dicom_file(Vec::new()));
}

#[test]
fn a_file_without_pixels_loads_without_an_image() {
    let h = DicomHandler::new();
    let bytes = ct_slice("1.9.2", "1", "1");
    let f = h.load_file_with_image(bytes.clone()).unwrap();
    assert!(f.is_valid);
    assert!(f.image.is_none());
    assert!(matches!(h.get_image_bytes(bytes.clone()), Err(DicomError::Decode(_))));
    assert!(matches!(h.extract_pixel_data(bytes), Err(DicomError::Decode(_))));
}

#[test]
fn metadata_agrees_with_the_element_list() {
    let h = DicomHandler::new();
    let bytes = ct_slice("1.9.3", "4", "12");
    let m = h.get_metadata(bytes.clone()).unwrap();
    let obj = dicom::object::from_reader(&bytes[..]).unwrap();
    let els = dicom_volume::element::extract_elements(&obj).unwrap();
    let modality = dicom_volume::element::get_element_value(&els, 0x0008, 0x0060);
    assert_eq!(modality, m.modality);
    let number = dicom_volume::element::get_element_value(&els, 0x0020, 0x0013);
    assert_eq!(number.as_deref(), Some("12"));
    assert_eq!(m.instance_number, Some(12));
    let name = els.iter().find(|e| e.tag == "00100010").unwrap();
    assert_eq!(name.alias, "PatientName");
    assert_eq!(name.vr, "PN");
    assert_eq!(name.value, "Doe^Jane");
}

#[test]
fn the_pixel_data_value_is_masked() {
    let mut obj = InMemDicomObject::new_empty();
    obj.put(DataElement::new(Tag(0x0008, 0x0016), VR::UI, PrimitiveValue::from("1.2.840.10008.5.1.4.1.1.2")));
    obj.put(DataElement::new(Tag(0x0008, 0x0018), VR::UI, PrimitiveValue::from("1.9.9")));
    obj.put(DataElement::new(Tag(0x7FE0, 0x0010), VR::OB, PrimitiveValue::from(vec![1u8, 2, 3, 4])));
    let file = obj
        .with_meta(FileMetaTableBuilder::new().transfer_syntax("1.2.840.10008.1.2.1"))
        .unwrap();
    let els = dicom_volume::element::extract_elements(&file).unwrap();
    let pixels = els.iter().find(|e| e.tag == "7FE00010").unwrap();
    assert_eq!(pixels.value, "\u{ab}pixel data\u{bb}");
    let header = ElementHeader { group: 0x0009, element: 0x0001, vr: "LO".to_string(), primitive: true };
    assert!(dicom_volume::element::to_element(&file, &header).is_err());
}

#[test]
fn scanning_skips_non_dicom_files_and_orders_by_instance() {
    let h = DicomHandler::new();
    let files = vec![
        ("/d/readme.txt".to_string(), b"not dicom".to_vec()),
        ("/d/b.dcm".to_string(), ct_slice("1.9.10", "1", "2")),
        ("/d/a.dcm".to_string(), ct_slice("1.9.11", "1", "1")),
    ];
    let entries = scan_files(&h, &files);
    assert_eq!(entries.len(), 2);
    assert_eq!(entries[0].path, "/d/a.dcm");
    assert_eq!(entries[0].metadata.instance_number, Some(1));
    assert_eq!(entries[1].path, "/d/b.dcm");
    assert_eq!(entries[1].metadata.instance_number, Some(2));
    assert!(entries.iter().all(|e| e.is_valid));
}

#[test]
fn a_study_is_completed_from_its_files() {
    let h = DicomHandler::new();
    let files = vec![
        ("/d/1.dcm".to_string(), ct_slice("1.9.20", "1", "1")),
        (
            "/d/2.dcm".to_string(),
            dicom_bytes(
                "1.9.21",
                &[
                    (0x0010, 0x0020, VR::LO, "PAT-A"),
                    (0x0020, 0x000D, VR::UI, "1.2.3"),
                    (0x0020, 0x000E, VR::UI, "1.2.3.4"),
                    (0x0020, 0x0013, VR::IS, "2"),
                ],
            ),
        ),
    ];
    let cs = complete_study(&h, files).unwrap();
    assert_eq!(cs.patient_id, "PAT-A");
    assert_eq!(cs.study.study_instance_uid, "1.2.3");
    assert_eq!(cs.entries.len(), 2);
    for e in cs.entries.iter() {
        assert_eq!(e.metadata.modality.as_deref(), Some("CT"));
        assert_eq!(e.metadata.patient_name.as_deref(), Some("Doe^Jane"));
    }
}

#[test]
fn a_directory_without_dicom_has_no_study_and_no_volume() {
    let h = DicomHandler::new();
    let files = vec![("/d/x".to_string(), b"xyz".to_vec())];
    assert!(matches!(complete_study(&h, files.clone()), Err(DicomError::NoValidFiles)));
    assert!(matches!(assemble_volume(&h, &files), Err(DicomError::NoEntries)));
}

#[test]
fn a_volume_needs_pixel_spacing() {
    let h = DicomHandler::new();
    let files = vec![("/d/1.dcm".to_string(), ct_slice("1.9.30", "1", "1"))];
    assert!(matches!(assemble_volume(&h, &files), Err(DicomError::MissingPixelSpacing)));
}

fn record(kind: &str, extra: Vec<DataElement<InMemDicomObject>>) -> InMemDicomObject {
    let mut obj = InMemDicomObject::new_empty();
    obj.put(DataElement::new(Tag(0x0004, 0x1430), VR::CS, PrimitiveValue::from(kind)));
    for e in extra {
        obj.put(e);
    }
    obj
}

fn below(items: Vec<InMemDicomObject>) -> DataElement<InMemDicomObject> {
    DataElement::new(Tag(0x0004, 0x1220), VR::SQ, dicom_core::value::DataSetSequence::from(items))
}

fn catalog_bytes() -> Vec<u8> {
    let image = |id: &str| {
        record("IMAGE", vec![DataElement::new(Tag(0x0004, 0x1500), VR::CS, PrimitiveValue::from(id))])
    };
    let series = record(
        "SERIES",
        vec![
            DataElement::new(Tag(0x0008, 0x0060), VR::CS, PrimitiveValue::from("CT")),
            below(vec![image("DICOM\\001\\IMG1"), image("DICOM\\001\\IMG2")]),
        ],
    );
    let study = record("STUDY", vec![below(vec![series])]);
    let patient = record(
        "PATIENT",
        vec![
            DataElement::new(Tag(0x0010, 0x0020), VR::LO, PrimitiveValue::from("PAT-A")),
            below(vec![study]),
        ],
    );
    let mut root = InMemDicomObject::new_empty();
    root.put(below(vec![patient]));
    let file = root
        .with_meta(
            FileMetaTableBuilder::new()
                .transfer_syntax("1.2.840.10008.1.2.1")
                .media_storage_sop_class_uid("1.2.840.10008.1.3.10")
                .media_storage_sop_instance_uid("1.2.3.99"),
        )
        .unwrap();
    let mut out: Vec<u8> = Vec::new();
    file.write_all(&mut out).unwrap();
    out[128..].to_vec()
}

#[test]
fn a_catalog_resolves_its_image_records() {
    let bytes = catalog_bytes();
    assert!(is_catalog_file(bytes.clone()));
    let root = parse_catalog(bytes, "/media").unwrap();
    assert_eq!(root.children.len(), 1);
    assert_eq!(root.children[0].record_type, "PATIENT");
    assert!(root.children[0].metadata.iter().any(|(t, v)| t == "00100020" && v == "PAT-A"));
    assert_eq!(image_paths(&root), vec!["/media/DICOM/001/IMG1".to_string(), "/media/DICOM/001/IMG2".to_string()]);
}

#[test]
fn an_ordinary_file_is_not_a_catalog() {
    let slice = ct_slice("1.9.40", "1", "1");
    assert!(!is_catalog_file(slice.clone()));
    assert!(matches!(parse_catalog(slice, "/m"), Err(DicomError::NotCatalog)));
    assert!(matches!(parse_catalog(b"junk".to_vec(), "/m"), Err(DicomError::Open(_))));
    assert!(is_catalog_class("1.2.840.10008.1.3.10"));
    assert!(!is_catalog_class("1.2.840.10008.1.3.1"));
}

fn image_bytes(frames: Option<&str>, pixels: Vec<u8>) -> Vec<u8> {
    let mut obj = InMemDicomObject::new_empty();
    obj.put(DataElement::new(Tag(0x0008, 0x0016), VR::UI, PrimitiveValue::from("1.2.840.10008.5.1.4.1.1.7")));
    obj.put(DataElement::new(Tag(0x0008, 0x0018), VR::UI, PrimitiveValue::from("1.9.50")));
    obj.put(DataElement::new(Tag(0x0028, 0x0002), VR::US, PrimitiveValue::from([1u16])));
    obj.put(DataElement::new(Tag(0x0028, 0x0004), VR::CS, PrimitiveValue::from("MONOCHROME2")));
    if let Some(n) = frames {
        obj.put(DataElement::new(Tag(0x0028, 0x0008), VR::IS, PrimitiveValue::from(n)));
    }
    obj.put(DataElement::new(Tag(0x0028, 0x0010), VR::US, PrimitiveValue::from([2u16])));
    obj.put(DataElement::new(Tag(0x0028, 0x0011), VR::US, PrimitiveValue::from([2u16])));
    obj.put(DataElement::new(Tag(0x0028, 0x0100), VR::US, PrimitiveValue::from([8u16])));
    obj.put(DataElement::new(Tag(0x0028, 0x0101), VR::US, PrimitiveValue::from([8u16])));
    obj.put(DataElement::new(Tag(0x0028, 0x0102), VR::US, PrimitiveValue::from([7u16])));
    obj.put(DataElement::new(Tag(0x0028, 0x0103), VR::US, PrimitiveValue::from([0u16])));
    obj.put(DataElement::new(Tag(0x7FE0, 0x0010), VR::OB, PrimitiveValue::from(pixels)));
    let file = obj
        .with_meta(FileMetaTableBuilder::new().transfer_syntax("1.2.840.10008.1.2.1"))
        .unwrap();
    let mut out: Vec<u8> = Vec::new();
    file.write_all(&mut out).unwrap();
    out[128..].to_vec()
}

#[test]
fn pixels_decode_to_samples_and_png() {
    let h = DicomHandler::new();
    let bytes = image_bytes(None, vec![0, 64, 128, 255]);
    let img = h.extract_pixel_data(bytes.clone()).unwrap();
    assert_eq!((img.width, img.height), (2, 2));
    assert_eq!(img.bits_allocated, 8);
    assert_eq!(img.bits_stored, 8);
    assert_eq!(img.pixel_representation, 0);
    assert_eq!(img.samples_per_pixel, 1);
    assert_eq!(img.photometric_interpretation, "MONOCHROME2");
    assert_eq!(img.pixel_data.len(), 4);
    let png = h.get_image_bytes(bytes.clone()).unwrap();
    assert_eq!(&png[..4], &[0x89, b'P', b'N', b'G']);
    let f = h.load_file_with_image(bytes.clone()).unwrap();
    assert!(f.image.is_some());
    assert_eq!(h.get_frames(bytes).unwrap().len(), 1);
}

#[test]
fn multi_frame_files_give_one_image_per_frame() {
    let h = DicomHandler::new();
    let bytes = image_bytes(Some("2"), vec![0, 1, 2, 3, 4, 5, 6, 7]);
    let frames = h.get_frames(bytes.clone()).unwrap();
    assert_eq!(frames.len(), 2);
    let obj = dicom::object::from_reader(&bytes[..]).unwrap();
    assert_eq!(dicom_volume::handler::frame_count(&obj), 2);
    let single = dicom::object::from_reader(&ct_slice("1.9.51", "1", "1")[..]).unwrap();
    assert_eq!(dicom_volume::handler::frame_count(&single), 1);
    assert!(matches!(h.get_frames(b"junk".to_vec()), Err(DicomError::Open(_))));
}

#[test]
fn tags_can_be_listed_and_found_by_name() {
    let h = DicomHandler::new();
    let tags = h.get_all_tags(ct_slice("1.9.60", "2", "3")).unwrap();
    assert!(tags.windows(2).all(|w| w[0].tag < w[1].tag));
    let e = dicom_volume::element::get_element_by_name(&tags, "Modality").unwrap();
    assert_eq!(e.tag, "00080060");
    assert_eq!(e.value, "CT");
    assert!(dicom_volume::element::get_element_by_name(&tags, "NoSuchThing").is_none());
    assert!(matches!(h.get_all_tags(b"zz".to_vec()), Err(DicomError::Open(_))));
}
