//! Directory scanning: classifying a set of files as DICOM or not,
//! collecting per-file metadata, and ordering the result.
use vstd::prelude::*;
use crate::dataset::dicom_parses;
use crate::error::DicomError;
use crate::handler::{DicomHandler, file_metadata, file_renders};
use crate::metadata::DicomMetadata;
use crate::sorting::{sort_by, sorted_by, sort_by_keys, lemma_sort_by};

verus! {

broadcast use vstd::seq_lib::group_to_multiset_ensures;

/// One file found by a scan. A DICOM file whose metadata could not be
/// extracted is kept with empty metadata and `is_valid` false.
#[derive(Clone, Debug)]
pub struct DirectoryEntry {
    pub path: String,
    pub metadata: DicomMetadata,
    pub is_valid: bool,
}

/// The sort key of an absent number: after every `i32`.
pub const ABSENT_NUMBER_KEY: i128 = 0x8000_0000;

pub open spec fn number_key(v: Option<i32>) -> i128 {
    match v {
        Some(n) => n as i128,
        None => ABSENT_NUMBER_KEY,
    }
}

pub fn number_key_exec(v: Option<i32>) -> (r: i128)
    ensures
        r == number_key(v),
{
    match v {
        Some(n) => n as i128,
        None => ABSENT_NUMBER_KEY,
    }
}

/// Scan order: series number, then instance number, absent numbers last.
pub open spec fn entry_key(e: DirectoryEntry) -> (i128, i128) {
    (number_key(e.metadata.series_number), number_key(e.metadata.instance_number))
}

pub open spec fn entry_order() -> spec_fn(DirectoryEntry) -> (i128, i128) {
    |e: DirectoryEntry| entry_key(e)
}

/// A metadata record with every attribute absent.
pub fn empty_metadata() -> (r: DicomMetadata)
    ensures
        r.patient_name is None,
        r.patient_id is None,
        r.study_date is None,
        r.study_description is None,
        r.accession_number is None,
        r.study_instance_uid is None,
        r.series_description is None,
        r.series_number is None,
        r.series_instance_uid is None,
        r.modality is None,
        r.instance_number is None,
        r.sop_instance_uid is None,
        r.image_position is None,
        r.image_orientation is None,
        r.slice_location is None,
        r.slice_thickness is None,
        r.spacing_between_slices is None,
        r.pixel_spacing is None,
{
    DicomMetadata {
        patient_name: None,
        patient_id: None,
        study_date: None,
        study_description: None,
        accession_number: None,
        study_instance_uid: None,
        series_description: None,
        series_number: None,
        series_instance_uid: None,
        modality: None,
        instance_number: None,
        sop_instance_uid: None,
        image_position: None,
        image_orientation: None,
        slice_location: None,
        slice_thickness: None,
        spacing_between_slices: None,
        pixel_spacing: None,
    }
}

/// Orders entries by series number, then instance number, absent numbers
/// last; entries with equal numbers keep their order.
pub fn order_entries(entries: Vec<DirectoryEntry>) -> (r: Vec<DirectoryEntry>)
    ensures
        r@ == sort_by(entries@, entry_order()),
        sorted_by(r@, entry_order()),
        r@.to_multiset() == entries@.to_multiset(),
{
    let mut keys: Vec<(i128, i128)> = Vec::new();
    let mut i: usize = 0;
    while i < entries.len()
        invariant
            i <= entries.len(),
            keys@.len() == i,
            forall|j: int| 0 <= j < i ==> keys@[j] == entry_key(#[trigger] entries@[j]),
        decreases entries.len() - i,
    {
        let e = &entries[i];
        keys.push(
            (number_key_exec(e.metadata.series_number), number_key_exec(e.metadata.instance_number)),
        );
        i = i + 1;
    }
    proof {
        lemma_sort_by(entries@, entry_order());
    }
    sort_by_keys(entries, keys, Ghost(entry_order()))
}

/// The files whose bytes read as DICOM, in order.
pub open spec fn dicom_files(files: Seq<(String, Vec<u8>)>) -> Seq<(String, Vec<u8>)>
    decreases files.len(),
{
    if files.len() == 0 {
        Seq::empty()
    } else {
        let prev = dicom_files(files.drop_last());
        if dicom_parses(files.last().1@) {
            prev.push(files.last())
        } else {
            prev
        }
    }
}

/// `e` is the scan entry of file `f`: its path; valid exactly when every
/// primitive element of the file has a text form, and then with the file's
/// metadata.
pub open spec fn entry_for(e: DirectoryEntry, f: (String, Vec<u8>)) -> bool {
    &&& e.path@ == f.0@
    &&& e.is_valid <==> file_renders(f.1@)
    &&& e.is_valid ==> file_metadata(e.metadata, f.1@)
}

/// `found` holds the entries of the DICOM files among `files`, in order.
pub open spec fn entries_for(found: Seq<DirectoryEntry>, files: Seq<(String, Vec<u8>)>) -> bool {
    &&& found.len() == dicom_files(files).len()
    &&& forall|k: int| 0 <= k < found.len() ==> entry_for(#[trigger] found[k], dicom_files(files)[k])
}

/// `r` is what scanning `files` gives: the entries of its DICOM files, in
/// scan order.
pub open spec fn scanned(r: Seq<DirectoryEntry>, files: Seq<(String, Vec<u8>)>) -> bool {
    exists|found: Seq<DirectoryEntry>| entries_for(found, files) && r == sort_by(found, entry_order())
}

/// A copy of a byte string.
pub fn copy_bytes(b: &Vec<u8>) -> (r: Vec<u8>)
    ensures
        r@ == b@,
{
    let mut out: Vec<u8> = Vec::new();
    let mut i: usize = 0;
    while i < b.len()
        invariant
            i <= b.len(),
            out@ == b@.take(i as int),
        decreases b.len() - i,
    {
        out.push(b[i]);
        i = i + 1;
        assert(out@ =~= b@.take(i as int));
    }
    assert(b@.take(b@.len() as int) =~= b@);
    out
}

/// Scans the contents of a directory, given as `(path, bytes)` pairs:
/// files that are not DICOM are left out; a DICOM file whose metadata
/// cannot be extracted is kept as an invalid entry with empty metadata.
/// The entries come in scan order.
pub fn scan_files(handler: &DicomHandler, files: &Vec<(String, Vec<u8>)>) -> (r: Vec<DirectoryEntry>)
    ensures
        scanned(r@, files@),
        sorted_by(r@, entry_order()),
        r@.len() == dicom_files(files@).len(),
        forall|i: int|
            0 <= i < r@.len() ==> exists|k: int|
                0 <= k < dicom_files(files@).len() && entry_for(#[trigger] r@[i], dicom_files(files@)[k]),
{
    let ghost all = files@;
    let mut found: Vec<DirectoryEntry> = Vec::new();
    let mut k: usize = 0;
    assert(all.take(0) =~= Seq::<(String, Vec<u8>)>::empty());
    while k < files.len()
        invariant
            k <= files.len(),
            all == files@,
            entries_for(found@, all.take(k as int)),
        decreases files.len() - k,
    {
        assert(all.take(k + 1).drop_last() =~= all.take(k as int));
        assert(all.take(k + 1).last() == all[k as int]);
        let ghost before = found@;
        let bytes = copy_bytes(&files[k].1);
        match handler.load_file(bytes) {
            Ok(file) => {
                found.push(DirectoryEntry { path: files[k].0.clone(), metadata: file.metadata, is_valid: true });
            },
            Err(DicomError::Open(_)) => {},
            Err(_) => {
                found.push(
                    DirectoryEntry { path: files[k].0.clone(), metadata: empty_metadata(), is_valid: false },
                );
            },
        }
        assert forall|j: int| 0 <= j < found@.len() implies entry_for(#[trigger] found@[j], dicom_files(all.take(k + 1))[j]) by {
            if j < before.len() {
                assert(found@[j] == before[j]);
            }
        }
        k = k + 1;
    }
    assert(all.take(all.len() as int) =~= all);
    let ghost before = found@;
    let r = order_entries(found);
    assert(r@.to_multiset().len() == before.to_multiset().len());
    assert forall|i: int| 0 <= i < r@.len() implies exists|k: int|
        0 <= k < dicom_files(files@).len() && entry_for(#[trigger] r@[i], dicom_files(files@)[k]) by {
        assert(r@.to_multiset().count(r@[i]) > 0);
        assert(before.to_multiset().count(r@[i]) > 0);
        assert(before.contains(r@[i]));
        let k = choose|k: int| 0 <= k < before.len() && before[k] == r@[i];
        assert(entry_for(before[k], dicom_files(files@)[k]));
    }
    r
}

} // verus!
