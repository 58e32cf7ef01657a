//! Completing the metadata of a study: values common to a study or a
//! series fill the attributes that individual files lack.
use vstd::prelude::*;
use crate::decimal::Decimal;
use crate::directory::{DirectoryEntry, dicom_files, entries_for, entry_for, entry_order, scan_files, scanned};
use crate::error::DicomError;
use crate::handler::{DicomHandler, file_renders};
use crate::hierarchy::{Patient, Study, entry_keys, groups, key_string, organize, organized, patient_in_order, patient_ok, placed, patient_order, study_order, study_in_order};
use crate::sorting::{sort_by, lemma_sort_by};
use crate::metadata::DicomMetadata;

verus! {

broadcast use vstd::seq_lib::group_to_multiset_ensures;

/// Study-level values shared by the files of a study.
#[derive(Clone, Debug)]
pub struct StudyCommon {
    pub patient_name: Option<String>,
    pub patient_id: Option<String>,
}

/// Series-level values shared by the files of a series.
#[derive(Clone, Debug)]
pub struct SeriesCommon {
    pub modality: Option<String>,
    pub series_description: Option<String>,
    pub series_instance_uid: Option<String>,
    pub series_number: Option<i32>,
    pub slice_thickness: Option<Decimal>,
    pub spacing_between_slices: Option<Decimal>,
    pub pixel_spacing: Option<Vec<Decimal>>,
}

/// The first present value of a sequence of optional values.
pub open spec fn first_some<A>(s: Seq<Option<A>>) -> Option<A>
    decreases s.len(),
{
    if s.len() == 0 {
        None
    } else if first_some(s.drop_last()) is Some {
        first_some(s.drop_last())
    } else {
        s.last()
    }
}

/// The view of an optional vector of decimals.
pub open spec fn decimals_view(v: Option<Vec<Decimal>>) -> Option<Seq<Decimal>> {
    match v {
        Some(d) => Some(d@),
        None => None,
    }
}

pub proof fn lemma_first_some_push<A>(s: Seq<Option<A>>, x: Option<A>)
    ensures
        first_some(s.push(x)) == if first_some(s) is Some {
            first_some(s)
        } else {
            x
        },
{
    assert(s.push(x).drop_last() =~= s);
}

/// `c` holds, for each study-level attribute, its first present value in `ms`.
pub open spec fn study_common_of(c: StudyCommon, ms: Seq<DirectoryEntry>) -> bool {
    &&& c.patient_name == first_some(ms.map_values(|m: DirectoryEntry| m.metadata.patient_name))
    &&& c.patient_id == first_some(ms.map_values(|m: DirectoryEntry| m.metadata.patient_id))
}

/// `c` holds, for each series-level attribute, its first present value in `ms`.
pub open spec fn series_values_of(c: SeriesCommon, ms: Seq<DirectoryEntry>) -> bool {
    &&& c.modality == first_some(ms.map_values(|m: DirectoryEntry| m.metadata.modality))
    &&& c.series_description == first_some(ms.map_values(|m: DirectoryEntry| m.metadata.series_description))
    &&& c.series_instance_uid == first_some(ms.map_values(|m: DirectoryEntry| m.metadata.series_instance_uid))
    &&& c.series_number == first_some(ms.map_values(|m: DirectoryEntry| m.metadata.series_number))
    &&& c.slice_thickness == first_some(ms.map_values(|m: DirectoryEntry| m.metadata.slice_thickness))
    &&& c.spacing_between_slices == first_some(ms.map_values(|m: DirectoryEntry| m.metadata.spacing_between_slices))
    &&& decimals_view(c.pixel_spacing) == first_some(ms.map_values(|m: DirectoryEntry| decimals_view(m.metadata.pixel_spacing)))
}

/// The series-level values of `ms` are complete once its description,
/// modality and number are all known.
pub open spec fn series_complete(ms: Seq<DirectoryEntry>) -> bool {
    &&& first_some(ms.map_values(|m: DirectoryEntry| m.metadata.series_description)) is Some
    &&& first_some(ms.map_values(|m: DirectoryEntry| m.metadata.modality)) is Some
    &&& first_some(ms.map_values(|m: DirectoryEntry| m.metadata.series_number)) is Some
}

/// How many entries, from the `k`-th on, the series-level collection
/// reads: it stops at the first prefix that is complete.
pub open spec fn series_reach(ms: Seq<DirectoryEntry>, k: int) -> int
    decreases ms.len() - k,
{
    if k >= ms.len() || series_complete(ms.take(k)) {
        if k >= ms.len() {
            ms.len() as int
        } else {
            k
        }
    } else {
        series_reach(ms, k + 1)
    }
}

/// `c` holds the series-level values of `ms`: for each attribute, its
/// first present value among the entries read before the collection is
/// complete.
pub open spec fn series_common_of(c: SeriesCommon, ms: Seq<DirectoryEntry>) -> bool {
    series_values_of(c, ms.take(series_reach(ms, 0)))
}

pub(crate) fn clone_text(v: &Option<String>) -> (r: Option<String>)
    ensures
        r == *v,
{
    match v {
        Some(s) => Some(s.clone()),
        None => None,
    }
}

pub(crate) fn clone_decimals(v: &Option<Vec<Decimal>>) -> (r: Option<Vec<Decimal>>)
    ensures
        r is Some <==> v is Some,
        r is Some ==> r->0@ == v->0@,
{
    match v {
        Some(d) => {
            let mut out: Vec<Decimal> = Vec::new();
            let mut i: usize = 0;
            while i < d.len()
                invariant
                    i <= d.len(),
                    out@ == d@.take(i as int),
                decreases d.len() - i,
            {
                out.push(d[i]);
                i = i + 1;
                assert(out@ =~= d@.take(i as int));
            }
            assert(d@.take(d@.len() as int) =~= d@);
            Some(out)
        },
        None => None,
    }
}

/// Collects the study-level values: the first present value of each.
pub fn collect_study_common(ms: &Vec<DirectoryEntry>) -> (r: StudyCommon)
    ensures
        study_common_of(r, ms@),
{
    let mut c = StudyCommon {
        patient_name: None,
        patient_id: None,
    };
    let mut i: usize = 0;
    assert(ms@.take(0).map_values(|m: DirectoryEntry| m.metadata.patient_name) =~= Seq::empty());
    assert(ms@.take(0).map_values(|m: DirectoryEntry| m.metadata.patient_id) =~= Seq::empty());
    while i < ms.len()
        invariant
            i <= ms.len(),
            c.patient_name == first_some(ms@.take(i as int).map_values(|m: DirectoryEntry| m.metadata.patient_name)),
            c.patient_id == first_some(ms@.take(i as int).map_values(|m: DirectoryEntry| m.metadata.patient_id)),
        decreases ms.len() - i,
    {
        proof {
            assert(ms@.take(i + 1).map_values(|m: DirectoryEntry| m.metadata.patient_name) =~= ms@.take(i as int).map_values(|m: DirectoryEntry| m.metadata.patient_name).push(ms@[i as int].metadata.patient_name));
            lemma_first_some_push(ms@.take(i as int).map_values(|m: DirectoryEntry| m.metadata.patient_name), ms@[i as int].metadata.patient_name);
            assert(ms@.take(i + 1).map_values(|m: DirectoryEntry| m.metadata.patient_id) =~= ms@.take(i as int).map_values(|m: DirectoryEntry| m.metadata.patient_id).push(ms@[i as int].metadata.patient_id));
            lemma_first_some_push(ms@.take(i as int).map_values(|m: DirectoryEntry| m.metadata.patient_id), ms@[i as int].metadata.patient_id);
        }
        if c.patient_name.is_none() {
            c.patient_name = clone_text(&ms[i].metadata.patient_name);
        }
        if c.patient_id.is_none() {
            c.patient_id = clone_text(&ms[i].metadata.patient_id);
        }
        i = i + 1;
    }
    assert(ms@.take(ms@.len() as int).map_values(|m: DirectoryEntry| m.metadata.patient_name) =~= ms@.map_values(|m: DirectoryEntry| m.metadata.patient_name));
    assert(ms@.take(ms@.len() as int).map_values(|m: DirectoryEntry| m.metadata.patient_id) =~= ms@.map_values(|m: DirectoryEntry| m.metadata.patient_id));
    c
}

/// Collects the series-level values: the first present value of each,
/// reading the entries in order until the description, modality and number
/// are all known.
pub fn collect_series_common(ms: &Vec<DirectoryEntry>) -> (r: SeriesCommon)
    ensures
        series_common_of(r, ms@),
{
    let mut c = SeriesCommon {
        modality: None,
        series_description: None,
        series_instance_uid: None,
        series_number: None,
        slice_thickness: None,
        spacing_between_slices: None,
        pixel_spacing: None,
    };
    let mut i: usize = 0;
    assert(ms@.take(0).map_values(|m: DirectoryEntry| m.metadata.modality) =~= Seq::empty());
    assert(ms@.take(0).map_values(|m: DirectoryEntry| m.metadata.series_description) =~= Seq::empty());
    assert(ms@.take(0).map_values(|m: DirectoryEntry| m.metadata.series_instance_uid) =~= Seq::empty());
    assert(ms@.take(0).map_values(|m: DirectoryEntry| m.metadata.series_number) =~= Seq::empty());
    assert(ms@.take(0).map_values(|m: DirectoryEntry| m.metadata.slice_thickness) =~= Seq::empty());
    assert(ms@.take(0).map_values(|m: DirectoryEntry| m.metadata.spacing_between_slices) =~= Seq::empty());
    assert(ms@.take(0).map_values(|m: DirectoryEntry| decimals_view(m.metadata.pixel_spacing)) =~= Seq::empty());
    while i < ms.len() && !(c.series_description.is_some() && c.modality.is_some()
        && c.series_number.is_some())
        invariant
            i <= ms.len(),
            series_reach(ms@, 0) == series_reach(ms@, i as int),
            c.modality == first_some(ms@.take(i as int).map_values(|m: DirectoryEntry| m.metadata.modality)),
            c.series_description == first_some(ms@.take(i as int).map_values(|m: DirectoryEntry| m.metadata.series_description)),
            c.series_instance_uid == first_some(ms@.take(i as int).map_values(|m: DirectoryEntry| m.metadata.series_instance_uid)),
            c.series_number == first_some(ms@.take(i as int).map_values(|m: DirectoryEntry| m.metadata.series_number)),
            c.slice_thickness == first_some(ms@.take(i as int).map_values(|m: DirectoryEntry| m.metadata.slice_thickness)),
            c.spacing_between_slices == first_some(ms@.take(i as int).map_values(|m: DirectoryEntry| m.metadata.spacing_between_slices)),
            decimals_view(c.pixel_spacing) == first_some(ms@.take(i as int).map_values(|m: DirectoryEntry| decimals_view(m.metadata.pixel_spacing))),
        decreases ms.len() - i,
    {
        proof {
            assert(!series_complete(ms@.take(i as int)));
            assert(series_reach(ms@, i as int) == series_reach(ms@, i + 1));
            assert(ms@.take(i + 1).map_values(|m: DirectoryEntry| m.metadata.modality) =~= ms@.take(i as int).map_values(|m: DirectoryEntry| m.metadata.modality).push(ms@[i as int].metadata.modality));
            lemma_first_some_push(ms@.take(i as int).map_values(|m: DirectoryEntry| m.metadata.modality), ms@[i as int].metadata.modality);
            assert(ms@.take(i + 1).map_values(|m: DirectoryEntry| m.metadata.series_description) =~= ms@.take(i as int).map_values(|m: DirectoryEntry| m.metadata.series_description).push(ms@[i as int].metadata.series_description));
            lemma_first_some_push(ms@.take(i as int).map_values(|m: DirectoryEntry| m.metadata.series_description), ms@[i as int].metadata.series_description);
            assert(ms@.take(i + 1).map_values(|m: DirectoryEntry| m.metadata.series_instance_uid) =~= ms@.take(i as int).map_values(|m: DirectoryEntry| m.metadata.series_instance_uid).push(ms@[i as int].metadata.series_instance_uid));
            lemma_first_some_push(ms@.take(i as int).map_values(|m: DirectoryEntry| m.metadata.series_instance_uid), ms@[i as int].metadata.series_instance_uid);
            assert(ms@.take(i + 1).map_values(|m: DirectoryEntry| m.metadata.series_number) =~= ms@.take(i as int).map_values(|m: DirectoryEntry| m.metadata.series_number).push(ms@[i as int].metadata.series_number));
            lemma_first_some_push(ms@.take(i as int).map_values(|m: DirectoryEntry| m.metadata.series_number), ms@[i as int].metadata.series_number);
            assert(ms@.take(i + 1).map_values(|m: DirectoryEntry| m.metadata.slice_thickness) =~= ms@.take(i as int).map_values(|m: DirectoryEntry| m.metadata.slice_thickness).push(ms@[i as int].metadata.slice_thickness));
            lemma_first_some_push(ms@.take(i as int).map_values(|m: DirectoryEntry| m.metadata.slice_thickness), ms@[i as int].metadata.slice_thickness);
            assert(ms@.take(i + 1).map_values(|m: DirectoryEntry| m.metadata.spacing_between_slices) =~= ms@.take(i as int).map_values(|m: DirectoryEntry| m.metadata.spacing_between_slices).push(ms@[i as int].metadata.spacing_between_slices));
            lemma_first_some_push(ms@.take(i as int).map_values(|m: DirectoryEntry| m.metadata.spacing_between_slices), ms@[i as int].metadata.spacing_between_slices);
            assert(ms@.take(i + 1).map_values(|m: DirectoryEntry| decimals_view(m.metadata.pixel_spacing)) =~= ms@.take(i as int).map_values(|m: DirectoryEntry| decimals_view(m.metadata.pixel_spacing)).push(decimals_view(ms@[i as int].metadata.pixel_spacing)));
            lemma_first_some_push(ms@.take(i as int).map_values(|m: DirectoryEntry| decimals_view(m.metadata.pixel_spacing)), decimals_view(ms@[i as int].metadata.pixel_spacing));
        }
        if c.modality.is_none() {
            c.modality = clone_text(&ms[i].metadata.modality);
        }
        if c.series_description.is_none() {
            c.series_description = clone_text(&ms[i].metadata.series_description);
        }
        if c.series_instance_uid.is_none() {
            c.series_instance_uid = clone_text(&ms[i].metadata.series_instance_uid);
        }
        if c.series_number.is_none() {
            c.series_number = ms[i].metadata.series_number;
        }
        if c.slice_thickness.is_none() {
            c.slice_thickness = ms[i].metadata.slice_thickness;
        }
        if c.spacing_between_slices.is_none() {
            c.spacing_between_slices = ms[i].metadata.spacing_between_slices;
        }
        if c.pixel_spacing.is_none() {
            c.pixel_spacing = clone_decimals(&ms[i].metadata.pixel_spacing);
        }
        i = i + 1;
    }
    assert(series_reach(ms@, i as int) == i);
    assert(ms@.take(i as int).take(i as int) =~= ms@.take(i as int));
    c
}

/// Fills the absent study- and series-level attributes of `m` from the
/// common values. A present attribute is never overwritten.
pub fn fill_missing(m: DicomMetadata, sc: &StudyCommon, rc: &SeriesCommon) -> (r: DicomMetadata)
    ensures
        r.patient_name == (if m.patient_name is Some { m.patient_name } else { sc.patient_name }),
        r.patient_id == (if m.patient_id is Some { m.patient_id } else { sc.patient_id }),
        r.study_date == m.study_date,
        r.study_description == m.study_description,
        r.accession_number == m.accession_number,
        r.study_instance_uid == m.study_instance_uid,
        r.series_description == (if m.series_description is Some { m.series_description } else { rc.series_description }),
        r.series_number == (if m.series_number is Some { m.series_number } else { rc.series_number }),
        r.series_instance_uid == (if m.series_instance_uid is Some { m.series_instance_uid } else { rc.series_instance_uid }),
        r.modality == (if m.modality is Some { m.modality } else { rc.modality }),
        r.instance_number == m.instance_number,
        r.sop_instance_uid == m.sop_instance_uid,
        r.image_position == m.image_position,
        r.image_orientation == m.image_orientation,
        r.slice_location == m.slice_location,
        r.slice_thickness == (if m.slice_thickness is Some { m.slice_thickness } else { rc.slice_thickness }),
        r.spacing_between_slices == (if m.spacing_between_slices is Some { m.spacing_between_slices } else { rc.spacing_between_slices }),
        decimals_view(r.pixel_spacing) == (if m.pixel_spacing is Some { decimals_view(m.pixel_spacing) } else { decimals_view(rc.pixel_spacing) }),
{
    let patient_name = if m.patient_name.is_some() {
        m.patient_name
    } else {
        clone_text(&sc.patient_name)
    };
    let patient_id = if m.patient_id.is_some() {
        m.patient_id
    } else {
        clone_text(&sc.patient_id)
    };
    let study_date = m.study_date;
    let study_description = m.study_description;
    let accession_number = m.accession_number;
    let study_instance_uid = m.study_instance_uid;
    let series_description = if m.series_description.is_some() {
        m.series_description
    } else {
        clone_text(&rc.series_description)
    };
    let series_number = if m.series_number.is_some() {
        m.series_number
    } else {
        rc.series_number
    };
    let series_instance_uid = if m.series_instance_uid.is_some() {
        m.series_instance_uid
    } else {
        clone_text(&rc.series_instance_uid)
    };
    let modality = if m.modality.is_some() {
        m.modality
    } else {
        clone_text(&rc.modality)
    };
    let instance_number = m.instance_number;
    let sop_instance_uid = m.sop_instance_uid;
    let image_position = m.image_position;
    let image_orientation = m.image_orientation;
    let slice_location = m.slice_location;
    let slice_thickness = if m.slice_thickness.is_some() {
        m.slice_thickness
    } else {
        rc.slice_thickness
    };
    let spacing_between_slices = if m.spacing_between_slices.is_some() {
        m.spacing_between_slices
    } else {
        rc.spacing_between_slices
    };
    let pixel_spacing = if m.pixel_spacing.is_some() {
        m.pixel_spacing
    } else {
        clone_decimals(&rc.pixel_spacing)
    };
    DicomMetadata {
        patient_name,
        patient_id,
        study_date,
        study_description,
        accession_number,
        study_instance_uid,
        series_description,
        series_number,
        series_instance_uid,
        modality,
        instance_number,
        sop_instance_uid,
        image_position,
        image_orientation,
        slice_location,
        slice_thickness,
        spacing_between_slices,
        pixel_spacing,
    }
}

/// `r` is `m` with its absent attributes filled from `sc` and `rc`.
pub open spec fn filled(r: DicomMetadata, m: DicomMetadata, sc: StudyCommon, rc: SeriesCommon) -> bool {
    &&& r.patient_name == (if m.patient_name is Some { m.patient_name } else { sc.patient_name })
    &&& r.patient_id == (if m.patient_id is Some { m.patient_id } else { sc.patient_id })
    &&& r.study_date == m.study_date
    &&& r.study_description == m.study_description
    &&& r.accession_number == m.accession_number
    &&& r.study_instance_uid == m.study_instance_uid
    &&& r.series_description == (if m.series_description is Some { m.series_description } else { rc.series_description })
    &&& r.series_number == (if m.series_number is Some { m.series_number } else { rc.series_number })
    &&& r.series_instance_uid == (if m.series_instance_uid is Some { m.series_instance_uid } else { rc.series_instance_uid })
    &&& r.modality == (if m.modality is Some { m.modality } else { rc.modality })
    &&& r.instance_number == m.instance_number
    &&& r.sop_instance_uid == m.sop_instance_uid
    &&& r.image_position == m.image_position
    &&& r.image_orientation == m.image_orientation
    &&& r.slice_location == m.slice_location
    &&& r.slice_thickness == (if m.slice_thickness is Some { m.slice_thickness } else { rc.slice_thickness })
    &&& r.spacing_between_slices == (if m.spacing_between_slices is Some { m.spacing_between_slices } else { rc.spacing_between_slices })
    &&& decimals_view(r.pixel_spacing) == (if m.pixel_spacing is Some { decimals_view(m.pixel_spacing) } else { decimals_view(rc.pixel_spacing) })
}

/// `out` is `es` with its metadata completed from the values common to it.
pub open spec fn propagated(out: Seq<DirectoryEntry>, es: Seq<DirectoryEntry>) -> bool {
    exists|sc: StudyCommon, rc: SeriesCommon|
        study_common_of(sc, es) && series_common_of(rc, es) && out.len() == es.len() && forall|i: int|
            0 <= i < out.len() ==> (#[trigger] out[i]).path == es[i].path && out[i].is_valid == es[i].is_valid
                && filled(out[i].metadata, es[i].metadata, sc, rc)
}

/// The entry is valid and has the given patient and study keys.
pub open spec fn in_study(e: DirectoryEntry, pk: Seq<char>, tk: Seq<char>) -> bool {
    e.is_valid && entry_keys(e).0 == pk && entry_keys(e).1 == tk
}

/// The valid entries with the given patient and study keys, in order.
pub open spec fn select_entries(es: Seq<DirectoryEntry>, pk: Seq<char>, tk: Seq<char>) -> Seq<DirectoryEntry>
    decreases es.len(),
{
    if es.len() == 0 {
        Seq::empty()
    } else if in_study(es[0], pk, tk) {
        seq![es[0]] + select_entries(es.drop_first(), pk, tk)
    } else {
        select_entries(es.drop_first(), pk, tk)
    }
}

/// Completes the metadata of the given entries: each absent study- or
/// series-level attribute takes the first value present among the entries.
pub fn propagate_entries(entries: Vec<DirectoryEntry>) -> (r: Vec<DirectoryEntry>)
    ensures
        propagated(r@, entries@),
{
    let sc = collect_study_common(&entries);
    let rc = collect_series_common(&entries);
    let ghost orig = entries@;
    let mut rest = entries;
    let mut out: Vec<DirectoryEntry> = Vec::new();
    while rest.len() > 0
        invariant
            rest@ == orig.take(rest@.len() as int),
            rest@.len() + out@.len() == orig.len(),
            forall|k: int|
                0 <= k < out@.len() ==> (#[trigger] out@[k]).path == orig[k + rest@.len()].path && out@[k].is_valid
                    == orig[k + rest@.len()].is_valid && filled(out@[k].metadata, orig[k + rest@.len()].metadata, sc, rc),
        decreases rest.len(),
    {
        let e = rest.pop().unwrap();
        let DirectoryEntry { path, metadata, is_valid } = e;
        let metadata = fill_missing(metadata, &sc, &rc);
        out.insert(0, DirectoryEntry { path, metadata, is_valid });
        assert forall|k: int| 0 <= k < out@.len() implies (#[trigger] out@[k]).path == orig[k + rest@.len()].path
            && out@[k].is_valid == orig[k + rest@.len()].is_valid && filled(
            out@[k].metadata,
            orig[k + rest@.len()].metadata,
            sc,
            rc,
        ) by {
            if k > 0 {
                assert(out@[k] == out@.drop_first()[k - 1]);
            }
        }
    }
    out
}

/// Some DICOM file among `files` has a text form for every primitive
/// element, so that it scans as a valid entry.
pub open spec fn loadable_file(files: Seq<(String, Vec<u8>)>) -> bool {
    exists|k: int| 0 <= k < dicom_files(files).len() && file_renders(#[trigger] dicom_files(files)[k].1@)
}

/// One study of a directory, with the completed metadata of its files.
#[derive(Clone, Debug)]
pub struct CompleteStudy {
    pub patient_id: String,
    pub patient_name: Option<String>,
    pub study: Study,
    pub entries: Vec<DirectoryEntry>,
}

/// Loads the first study of the first patient of a directory, given as
/// `(path, bytes)` pairs: the directory is scanned and organized, and the
/// valid entries of that patient and study, in scan order, have their
/// metadata completed from the values common to them. Other studies are
/// left out.
pub fn complete_study(handler: &DicomHandler, files: Vec<(String, Vec<u8>)>) -> (r: Result<
    CompleteStudy,
    DicomError,
>)
    ensures
        r is Err <==> !loadable_file(files@),
        r is Err ==> r->Err_0 is NoValidFiles,
        exists|es: Seq<DirectoryEntry>, ps: Seq<Patient>|
            #[trigger] scanned(es, files@) && #[trigger] organized(ps, es) && (r is Ok ==> {
                &&& ps.len() > 0 && ps[0].studies@.len() > 0
                &&& r->Ok_0.patient_id == ps[0].patient_id
                &&& r->Ok_0.patient_name == ps[0].patient_name
                &&& r->Ok_0.study == ps[0].studies@[0]
                &&& propagated(
                    r->Ok_0.entries@,
                    select_entries(es, ps[0].patient_id@, ps[0].studies@[0].study_instance_uid@),
                )
            }),
{
    let entries = scan_files(handler, &files);
    let mut patients = organize(&entries);
    let ghost es = entries@;
    let ghost ps = patients@;
    let ghost found = choose|found: Seq<DirectoryEntry>|
        entries_for(found, files@) && entries@ == sort_by(found, entry_order());
    proof {
        lemma_sort_by(found, entry_order());
        if loadable_file(files@) {
            let k = choose|k: int| 0 <= k < dicom_files(files@).len() && file_renders(#[trigger] dicom_files(files@)[k].1@);
            assert(entry_for(found[k], dicom_files(files@)[k]));
            assert(found.contains(found[k]));
            assert(found.to_multiset().count(found[k]) > 0);
            assert(entries@.to_multiset().count(found[k]) > 0);
            assert(entries@.contains(found[k]));
            let j = choose|j: int| 0 <= j < entries@.len() && entries@[j] == found[k];
            assert(entries@[j].is_valid);
        }
    }
    let mut any_valid = false;
    let mut i: usize = 0;
    while i < entries.len()
        invariant
            i <= entries.len(),
            any_valid == exists|j: int| 0 <= j < i && (#[trigger] entries@[j]).is_valid,
        decreases entries.len() - i,
    {
        if entries[i].is_valid {
            any_valid = true;
        }
        i = i + 1;
    }
    if !any_valid {
        assert(scanned(es, files@) && organized(ps, es));
        return Err(DicomError::NoValidFiles);
    }
    proof {
        let j = choose|j: int| 0 <= j < entries@.len() && (#[trigger] entries@[j]).is_valid;
        let k = choose|k: int| 0 <= k < dicom_files(files@).len() && entry_for(entries@[j], dicom_files(files@)[k]);
        assert(file_renders(dicom_files(files@)[k].1@));
        let (g, mid) = choose|g: Seq<Patient>, mid: Seq<Patient>|
            groups(g, entries@) && mid.len() == g.len() && (forall|p: int|
                0 <= p < g.len() ==> patient_in_order(#[trigger] mid[p], g[p])) && patients@ == sort_by(
                mid,
                patient_order(mid),
            );
        assert(placed(g, entry_keys(entries@[j]).0, entry_keys(entries@[j]).1, entry_keys(entries@[j]).2));
        lemma_sort_by(mid, patient_order(mid));
        assert(patients@.len() > 0);
        assert(patients@.contains(patients@[0]));
        assert(patients@.to_multiset().count(patients@[0]) > 0);
        assert(mid.to_multiset().count(patients@[0]) > 0);
        assert(mid.contains(patients@[0]));
        let p = choose|p: int| 0 <= p < mid.len() && mid[p] == patients@[0];
        assert(patient_in_order(mid[p], g[p]));
        assert(patient_ok(g[p]));
        let ms = choose|ms: Seq<Study>|
            ms.len() == g[p].studies@.len() && (forall|t: int|
                0 <= t < ms.len() ==> study_in_order(#[trigger] ms[t], g[p].studies@[t])) && mid[p].studies@
                == sort_by(ms, study_order(ms));
        lemma_sort_by(ms, study_order(ms));
        assert(patients@[0].studies@.len() > 0);
    }
    let mut patient = patients.remove(0);
    let study = patient.studies.remove(0);
    let ghost pk = patient.patient_id@;
    let ghost tk = study.study_instance_uid@;
    assert(pk == ps[0].patient_id@ && tk == ps[0].studies@[0].study_instance_uid@);
    let mut sel: Vec<DirectoryEntry> = Vec::new();
    let mut rest = entries;
    while rest.len() > 0
        invariant
            pk == patient.patient_id@,
            tk == study.study_instance_uid@,
            select_entries(es, pk, tk) == sel@ + select_entries(rest@, pk, tk),
        decreases rest.len(),
    {
        let ghost before = rest@;
        let e = rest.remove(0);
        assert(rest@ == before.drop_first());
        let mut keep = false;
        if e.is_valid {
            let pkey = key_string(&e.metadata.patient_id);
            let tkey = key_string(&e.metadata.study_instance_uid);
            if pkey == patient.patient_id && tkey == study.study_instance_uid {
                keep = true;
            }
        }
        assert(keep == in_study(e, pk, tk));
        if keep {
            let ghost old_sel = sel@;
            sel.push(e);
            assert(select_entries(before, pk, tk) == seq![e] + select_entries(rest@, pk, tk));
            assert(old_sel + (seq![e] + select_entries(rest@, pk, tk)) =~= sel@ + select_entries(rest@, pk, tk));
        }
    }
    assert(sel@ + Seq::<DirectoryEntry>::empty() =~= sel@);
    let entries = propagate_entries(sel);
    assert(scanned(es, files@) && organized(ps, es));
    Ok(
        CompleteStudy {
            patient_id: patient.patient_id,
            patient_name: patient.patient_name,
            study,
            entries,
        },
    )
}

} // verus!
