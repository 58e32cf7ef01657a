use dicom_volume::decimal::Decimal;
use dicom_volume::directory::{empty_metadata, order_entries, DirectoryEntry};
use dicom_volume::hierarchy::{group_entries, organize, Instance};
use dicom_volume::propagate::{fill_missing, propagate_entries, SeriesCommon, StudyCommon};
use dicom_volume::spatial::sort_instances;

fn entry(path: &str, series: Option<i32>, instance: Option<i32>) -> DirectoryEntry {
    let mut m = empty_metadata();
    m.series_number = series;
    m.instance_number = instance;
    DirectoryEntry { path: path.to_string(), metadata: m, is_valid: true }
}

fn keyed(path: &str, patient: &str, study: &str, series: &str, number: i32) -> DirectoryEntry {
    let mut e = entry(path, Some(number), Some(1));
    e.metadata.patient_id = Some(patient.to_string());
    e.metadata.study_instance_uid = Some(study.to_string());
    e.metadata.series_instance_uid = Some(series.to_string());
    e
}

fn instance(path: &str, number: Option<i32>, location: Option<i64>, z: Option<i64>) -> Instance {
    Instance {
        path: path.to_string(),
        sop_instance_uid: None,
        instance_number: number,
        image_position: z.map(|z| vec![Decimal { micros: 0 }, Decimal { micros: 0 }, Decimal { micros: z }]),
        image_orientation: None,
        slice_location: location.map(|l| Decimal { micros: l }),
        is_valid: true,
    }
}

fn paths(v: &[Instance]) -> Vec<String> {
    v.iter().map(|i| i.path.clone()).collect()
}

#[test]
fn entries_order_by_series_then_instance() {
    let es = vec![entry("a", Some(2), Some(1)), entry("b", Some(1), Some(5)), entry("c", Some(1), Some(2))];
    let r = order_entries(es);
    let got: Vec<(Option<i32>, Option<i32>)> =
        r.iter().map(|e| (e.metadata.series_number, e.metadata.instance_number)).collect();
    assert_eq!(got, vec![(Some(1), Some(2)), (Some(1), Some(5)), (Some(2), Some(1))]);
}

#[test]
fn absent_numbers_sort_last() {
    let es = vec![
        entry("a", None, Some(1)),
        entry("b", Some(3), None),
        entry("c", Some(3), Some(9)),
        entry("d", Some(-1), Some(4)),
    ];
    let r = order_entries(es);
    let got: Vec<&str> = r.iter().map(|e| e.path.as_str()).collect();
    assert_eq!(got, vec!["d", "c", "b", "a"]);
}

#[test]
fn slice_location_decides_when_present() {
    let s = vec![
        instance("a", Some(1), Some(30_000_000), Some(1)),
        instance("b", Some(2), None, Some(0)),
        instance("c", Some(3), Some(-5_000_000), Some(2)),
    ];
    let r = sort_instances(s);
    assert_eq!(paths(&r), vec!["c", "a", "b"]);
}

#[test]
fn z_then_instance_number_without_locations() {
    let s = vec![
        instance("a", Some(1), None, Some(7_000_000)),
        instance("b", Some(2), None, None),
        instance("c", Some(3), None, Some(-2_000_000)),
    ];
    assert_eq!(paths(&sort_instances(s)), vec!["c", "a", "b"]);
    let t = vec![instance("a", Some(9), None, None), instance("b", None, None, None), instance("c", Some(2), None, None)];
    assert_eq!(paths(&sort_instances(t)), vec!["c", "a", "b"]);
}

#[test]
fn projection_orders_oblique_slices_along_the_normal() {
    // rows along x, columns along z: the normal points along -y
    let orientation = vec![
        Decimal { micros: 1_000_000 },
        Decimal { micros: 0 },
        Decimal { micros: 0 },
        Decimal { micros: 0 },
        Decimal { micros: 0 },
        Decimal { micros: 1_000_000 },
    ];
    let mk = |path: &str, y: i64, z: i64| Instance {
        path: path.to_string(),
        sop_instance_uid: None,
        instance_number: None,
        image_position: Some(vec![Decimal { micros: 0 }, Decimal { micros: y }, Decimal { micros: z }]),
        image_orientation: Some(orientation.clone()),
        slice_location: Some(Decimal { micros: 0 }),
        is_valid: true,
    };
    let s = vec![mk("a", 1_000_000, 0), mk("b", 3_000_000, -9_000_000), mk("c", 2_000_000, 9_000_000)];
    assert_eq!(paths(&sort_instances(s)), vec!["b", "c", "a"]);
}

#[test]
fn sorting_twice_changes_nothing() {
    let s = vec![
        instance("a", Some(4), None, Some(3)),
        instance("b", Some(1), None, Some(3)),
        instance("c", None, None, None),
        instance("d", Some(2), None, Some(-1)),
    ];
    let once = sort_instances(s);
    let first_order = paths(&once);
    let twice = sort_instances(once);
    assert_eq!(paths(&twice), first_order);
}

#[test]
fn one_study_groups_into_its_series() {
    let es = vec![
        keyed("1", "P", "S", "A", 1),
        keyed("2", "P", "S", "B", 2),
        keyed("3", "P", "S", "A", 1),
        keyed("4", "P", "S", "C", 3),
        keyed("5", "P", "S", "B", 2),
    ];
    let ps = group_entries(&es);
    assert_eq!(ps.len(), 1);
    assert_eq!(ps[0].studies.len(), 1);
    assert_eq!(ps[0].studies[0].series.len(), 3);
    let total: usize = ps[0].studies[0].series.iter().map(|s| s.instances.len()).sum();
    assert_eq!(total, 5);
}

#[test]
fn missing_keys_collapse_under_unknown_and_invalid_entries_are_skipped() {
    let mut a = entry("a", Some(1), Some(1));
    a.metadata.patient_id = Some("P".to_string());
    let b = entry("b", Some(1), Some(2));
    let mut c = entry("c", Some(1), Some(3));
    c.is_valid = false;
    let ps = group_entries(&vec![a, b, c]);
    assert_eq!(ps.len(), 2);
    assert_eq!(ps[0].patient_id, "P");
    assert_eq!(ps[1].patient_id, "UNKNOWN");
    assert_eq!(ps[1].studies[0].study_instance_uid, "UNKNOWN");
    assert_eq!(ps[1].studies[0].series[0].series_instance_uid, "UNKNOWN");
    let total: usize = ps.iter().map(|p| p.studies[0].series[0].instances.len()).sum();
    assert_eq!(total, 2);
}

#[test]
fn organized_series_follow_their_numbers() {
    let es = vec![keyed("1", "P", "S", "late", 9), keyed("2", "P", "S", "early", 2), keyed("3", "P", "S", "mid", 5)];
    let ps = organize(&es);
    let uids: Vec<&str> =
        ps[0].studies[0].series.iter().map(|s| s.series_instance_uid.as_str()).collect();
    assert_eq!(uids, vec!["early", "mid", "late"]);
}

#[test]
fn a_present_field_is_never_overwritten() {
    let mut m = empty_metadata();
    m.modality = Some("CT".to_string());
    let sc = StudyCommon { patient_name: Some("N".to_string()), patient_id: Some("I".to_string()) };
    let rc = SeriesCommon {
        modality: Some("MR".to_string()),
        series_description: Some("axial".to_string()),
        series_instance_uid: None,
        series_number: Some(4),
        slice_thickness: Some(Decimal { micros: 1_250_000 }),
        spacing_between_slices: None,
        pixel_spacing: Some(vec![Decimal { micros: 500_000 }]),
    };
    let r = fill_missing(m, &sc, &rc);
    assert_eq!(r.modality.as_deref(), Some("CT"));
    assert_eq!(r.series_description.as_deref(), Some("axial"));
    assert_eq!(r.patient_name.as_deref(), Some("N"));
    assert_eq!(r.series_number, Some(4));
    assert_eq!(r.slice_thickness, Some(Decimal { micros: 1_250_000 }));
    assert_eq!(r.pixel_spacing, Some(vec![Decimal { micros: 500_000 }]));
    assert_eq!(r.series_instance_uid, None);
}

#[test]
fn propagation_takes_the_first_present_values() {
    let mut a = entry("a", None, Some(1));
    a.metadata.modality = Some("MR".to_string());
    let mut b = entry("b", Some(6), Some(2));
    b.metadata.modality = Some("CT".to_string());
    let r = propagate_entries(vec![a, b]);
    assert_eq!(r[0].metadata.series_number, Some(6));
    assert_eq!(r[0].metadata.modality.as_deref(), Some("MR"));
    assert_eq!(r[1].metadata.modality.as_deref(), Some("CT"));
}

#[test]
fn patients_by_name_and_studies_newest_first() {
    let mut a = keyed("1", "PAT-B", "S1", "A", 1);
    a.metadata.patient_name = Some("Zed".to_string());
    a.metadata.study_date = Some("20200101".to_string());
    let mut b = keyed("2", "PAT-B", "S2", "B", 1);
    b.metadata.study_date = Some("20230101".to_string());
    let c = keyed("3", "PAT-B", "S3", "C", 1);
    let mut d = keyed("4", "PAT-A", "S4", "D", 1);
    d.metadata.patient_name = Some("Adams".to_string());
    let ps = organize(&vec![a, b, c, d]);
    assert_eq!(ps.len(), 2);
    assert_eq!(ps[0].patient_id, "PAT-A");
    assert_eq!(ps[1].patient_id, "PAT-B");
    let uids: Vec<&str> = ps[1].studies.iter().map(|t| t.study_instance_uid.as_str()).collect();
    assert_eq!(uids, vec!["S2", "S1", "S3"]);
}

#[test]
fn a_volume_follows_the_direction_of_its_first_two_slices() {
    let orientation = vec![
        Decimal { micros: 1_000_000 },
        Decimal { micros: 0 },
        Decimal { micros: 0 },
        Decimal { micros: 0 },
        Decimal { micros: 1_000_000 },
        Decimal { micros: 0 },
    ];
    let mk = |path: &str, z: i64| Instance {
        path: path.to_string(),
        sop_instance_uid: None,
        instance_number: None,
        image_position: Some(vec![Decimal { micros: 0 }, Decimal { micros: 0 }, Decimal { micros: z }]),
        image_orientation: Some(orientation.clone()),
        slice_location: None,
        is_valid: true,
    };
    // the normal points along +z; the first two slices run downwards
    let s = vec![mk("a", 5_000_000), mk("b", 1_000_000), mk("c", 9_000_000)];
    assert_eq!(paths(&dicom_volume::spatial::sort_for_volume(s)), vec!["c", "a", "b"]);
    let t = vec![mk("a", 1_000_000), mk("b", 5_000_000), mk("c", -9_000_000)];
    assert_eq!(paths(&dicom_volume::spatial::sort_for_volume(t)), vec!["c", "a", "b"]);
}

#[test]
fn series_values_stop_once_description_modality_and_number_are_known() {
    let mut a = entry("a", Some(3), Some(1));
    a.metadata.modality = Some("CT".to_string());
    a.metadata.series_description = Some("axial".to_string());
    let mut b = entry("b", Some(3), Some(2));
    b.metadata.slice_thickness = Some(Decimal { micros: 2_000_000 });
    let r = propagate_entries(vec![a, b]);
    assert_eq!(r[0].metadata.slice_thickness, None);
    assert_eq!(r[1].metadata.slice_thickness, Some(Decimal { micros: 2_000_000 }));
    assert_eq!(r[1].metadata.modality.as_deref(), Some("CT"));
}
