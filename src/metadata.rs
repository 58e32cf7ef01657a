//! The metadata record: a fixed set of well-known attributes taken from
//! the uniform elements, numbers and vectors read from their text.
use vstd::prelude::*;
use dicom::object::InMemDicomObject;
use crate::dataset::{dataset_headers, dataset_texts};
use crate::decimal::{Decimal, decimal_of, decimal_list_of, parse_decimal, parse_decimal_list};
use crate::element::{DicomElement, value_for, tag_text, get_element_value, extract_elements,
    primitive_headers, all_render, elements_of};
use crate::error::DicomError;
use crate::text::{i32_of, parse_i32};

verus! {

/// The well-known attributes of one file; each may be absent.
#[derive(Clone, Debug)]
pub struct DicomMetadata {
    /// Patient's name
    pub patient_name: Option<String>,
    /// Patient ID
    pub patient_id: Option<String>,
    /// Study date
    pub study_date: Option<String>,
    /// Study description
    pub study_description: Option<String>,
    /// Accession number
    pub accession_number: Option<String>,
    /// Study instance UID
    pub study_instance_uid: Option<String>,
    /// Series description
    pub series_description: Option<String>,
    /// Series number
    pub series_number: Option<i32>,
    /// Series instance UID
    pub series_instance_uid: Option<String>,
    /// Modality
    pub modality: Option<String>,
    /// Instance number
    pub instance_number: Option<i32>,
    /// SOP instance UID
    pub sop_instance_uid: Option<String>,
    /// Image position (patient): x, y, z
    pub image_position: Option<Vec<Decimal>>,
    /// Image orientation (patient): row then column direction cosines
    pub image_orientation: Option<Vec<Decimal>>,
    /// Slice location
    pub slice_location: Option<Decimal>,
    /// Slice thickness
    pub slice_thickness: Option<Decimal>,
    /// Spacing between slices
    pub spacing_between_slices: Option<Decimal>,
    /// Pixel spacing: row, column
    pub pixel_spacing: Option<Vec<Decimal>>,
}

/// A text attribute: copied as it stands.
pub open spec fn text_field(f: Option<String>, v: Option<Seq<char>>) -> bool {
    match f {
        Some(s) => v == Some(s@),
        None => v is None,
    }
}

/// An integer attribute: present when its text reads as an `i32`.
pub open spec fn int_field(f: Option<i32>, v: Option<Seq<char>>) -> bool {
    f == match v {
        Some(t) => i32_of(t),
        None => None,
    }
}

/// A decimal attribute: present when its text reads as a decimal.
pub open spec fn decimal_field(f: Option<Decimal>, v: Option<Seq<char>>) -> bool {
    f == match v {
        Some(t) => decimal_of(t),
        None => None,
    }
}

/// A vector attribute: the components that read, present when at least one does.
pub open spec fn decimals_field(f: Option<Vec<Decimal>>, v: Option<Seq<char>>) -> bool {
    match match v {
        Some(t) => decimal_list_of(t),
        None => None,
    } {
        Some(ds) => f is Some && f->0@ == ds,
        None => f is None,
    }
}

/// `m` holds what the elements `els` say of each well-known attribute.
pub open spec fn metadata_matches(m: DicomMetadata, els: Seq<DicomElement>) -> bool {
    &&& text_field(m.patient_name, value_for(els, tag_text(0x0010, 0x0010)))
    &&& text_field(m.patient_id, value_for(els, tag_text(0x0010, 0x0020)))
    &&& text_field(m.study_date, value_for(els, tag_text(0x0008, 0x0020)))
    &&& text_field(m.study_description, value_for(els, tag_text(0x0008, 0x1030)))
    &&& text_field(m.accession_number, value_for(els, tag_text(0x0008, 0x0050)))
    &&& text_field(m.study_instance_uid, value_for(els, tag_text(0x0020, 0x000D)))
    &&& text_field(m.series_description, value_for(els, tag_text(0x0008, 0x103E)))
    &&& int_field(m.series_number, value_for(els, tag_text(0x0020, 0x0011)))
    &&& text_field(m.series_instance_uid, value_for(els, tag_text(0x0020, 0x000E)))
    &&& text_field(m.modality, value_for(els, tag_text(0x0008, 0x0060)))
    &&& int_field(m.instance_number, value_for(els, tag_text(0x0020, 0x0013)))
    &&& text_field(m.sop_instance_uid, value_for(els, tag_text(0x0008, 0x0018)))
    &&& decimals_field(m.image_position, value_for(els, tag_text(0x0020, 0x0032)))
    &&& decimals_field(m.image_orientation, value_for(els, tag_text(0x0020, 0x0037)))
    &&& decimal_field(m.slice_location, value_for(els, tag_text(0x0020, 0x1041)))
    &&& decimal_field(m.slice_thickness, value_for(els, tag_text(0x0018, 0x0050)))
    &&& decimal_field(m.spacing_between_slices, value_for(els, tag_text(0x0018, 0x0088)))
    &&& decimals_field(m.pixel_spacing, value_for(els, tag_text(0x0028, 0x0030)))
}

/// Reads an integer attribute.
pub fn int_value(elements: &Vec<DicomElement>, group: u16, element: u16) -> (r: Option<i32>)
    ensures
        int_field(r, value_for(elements@, tag_text(group, element))),
{
    match get_element_value(elements, group, element) {
        Some(s) => parse_i32(s.as_str()),
        None => None,
    }
}

/// Reads a decimal attribute.
pub fn decimal_value(elements: &Vec<DicomElement>, group: u16, element: u16) -> (r: Option<Decimal>)
    ensures
        decimal_field(r, value_for(elements@, tag_text(group, element))),
{
    match get_element_value(elements, group, element) {
        Some(s) => parse_decimal(s.as_str()),
        None => None,
    }
}

/// Reads a multi-valued decimal attribute.
pub fn decimals_value(elements: &Vec<DicomElement>, group: u16, element: u16) -> (r: Option<
    Vec<Decimal>,
>)
    ensures
        decimals_field(r, value_for(elements@, tag_text(group, element))),
{
    match get_element_value(elements, group, element) {
        Some(s) => parse_decimal_list(s.as_str()),
        None => None,
    }
}

/// Maps the uniform elements onto the metadata record. Never fails: an
/// absent or malformed attribute is left out.
pub fn metadata_from_elements(elements: &Vec<DicomElement>) -> (r: DicomMetadata)
    ensures
        metadata_matches(r, elements@),
{
    let patient_name = get_element_value(elements, 0x0010, 0x0010);
    let patient_id = get_element_value(elements, 0x0010, 0x0020);
    let study_date = get_element_value(elements, 0x0008, 0x0020);
    let study_description = get_element_value(elements, 0x0008, 0x1030);
    let accession_number = get_element_value(elements, 0x0008, 0x0050);
    let study_instance_uid = get_element_value(elements, 0x0020, 0x000D);
    let series_description = get_element_value(elements, 0x0008, 0x103E);
    let series_number = int_value(elements, 0x0020, 0x0011);
    let series_instance_uid = get_element_value(elements, 0x0020, 0x000E);
    let modality = get_element_value(elements, 0x0008, 0x0060);
    let instance_number = int_value(elements, 0x0020, 0x0013);
    let sop_instance_uid = get_element_value(elements, 0x0008, 0x0018);
    let image_position = decimals_value(elements, 0x0020, 0x0032);
    let image_orientation = decimals_value(elements, 0x0020, 0x0037);
    let slice_location = decimal_value(elements, 0x0020, 0x1041);
    let slice_thickness = decimal_value(elements, 0x0018, 0x0050);
    let spacing_between_slices = decimal_value(elements, 0x0018, 0x0088);
    let pixel_spacing = decimals_value(elements, 0x0028, 0x0030);
    DicomMetadata {
        patient_name,
        patient_id,
        study_date,
        study_description,
        accession_number,
        study_instance_uid,
        series_description,
        series_number,
        series_instance_uid,
        modality,
        instance_number,
        sop_instance_uid,
        image_position,
        image_orientation,
        slice_location,
        slice_thickness,
        spacing_between_slices,
        pixel_spacing
    }
}

/// Extracts the metadata record of a parsed data set; fails only when an
/// element has no text form.
pub fn extract_metadata(obj: &InMemDicomObject) -> (r: Result<DicomMetadata, DicomError>)
    ensures
        ({
            let ph = primitive_headers(dataset_headers(*obj));
            &&& r is Ok <==> all_render(dataset_texts(*obj), ph)
            &&& r is Ok ==> exists|els: Seq<DicomElement>|
                #[trigger] elements_of(els, dataset_texts(*obj), ph) && metadata_matches(r->Ok_0, els)
            &&& r is Err ==> r->Err_0 is Unrenderable
        }),
{
    let elements = match extract_elements(obj) {
        Ok(e) => e,
        Err(e) => {
            return Err(e);
        },
    };
    let m = metadata_from_elements(&elements);
    assert(metadata_matches(m, elements@));
    assert(elements_of(elements@, dataset_texts(*obj), primitive_headers(dataset_headers(*obj))));
    Ok(m)
}

/// Every attribute of a metadata record agrees with the element of its tag
/// in the full element list it was taken from: a text attribute is that
/// element's value, a numeric one is what that value reads as.
pub proof fn law_metadata_agrees_with_elements(m: DicomMetadata, els: Seq<DicomElement>)
    requires
        metadata_matches(m, els),
    ensures
        m.patient_name is Some ==> value_for(els, tag_text(0x0010, 0x0010)) == Some(m.patient_name->0@),
        m.patient_id is Some ==> value_for(els, tag_text(0x0010, 0x0020)) == Some(m.patient_id->0@),
        m.study_date is Some ==> value_for(els, tag_text(0x0008, 0x0020)) == Some(m.study_date->0@),
        m.modality is Some ==> value_for(els, tag_text(0x0008, 0x0060)) == Some(m.modality->0@),
        m.study_description is Some ==> value_for(els, tag_text(0x0008, 0x1030)) == Some(m.study_description->0@),
        m.series_description is Some ==> value_for(els, tag_text(0x0008, 0x103E)) == Some(m.series_description->0@),
        m.accession_number is Some ==> value_for(els, tag_text(0x0008, 0x0050)) == Some(m.accession_number->0@),
        m.study_instance_uid is Some ==> value_for(els, tag_text(0x0020, 0x000D)) == Some(m.study_instance_uid->0@),
        m.series_instance_uid is Some ==> value_for(els, tag_text(0x0020, 0x000E)) == Some(m.series_instance_uid->0@),
        m.sop_instance_uid is Some ==> value_for(els, tag_text(0x0008, 0x0018)) == Some(m.sop_instance_uid->0@),
        m.instance_number is Some ==> value_for(els, tag_text(0x0020, 0x0013)) is Some && i32_of(value_for(els, tag_text(0x0020, 0x0013))->0) == m.instance_number,
        m.series_number is Some ==> value_for(els, tag_text(0x0020, 0x0011)) is Some && i32_of(value_for(els, tag_text(0x0020, 0x0011))->0) == m.series_number,
        m.slice_location is Some ==> value_for(els, tag_text(0x0020, 0x1041)) is Some && decimal_of(value_for(els, tag_text(0x0020, 0x1041))->0) == m.slice_location,
        m.slice_thickness is Some ==> value_for(els, tag_text(0x0018, 0x0050)) is Some && decimal_of(value_for(els, tag_text(0x0018, 0x0050))->0) == m.slice_thickness,
        m.spacing_between_slices is Some ==> value_for(els, tag_text(0x0018, 0x0088)) is Some && decimal_of(value_for(els, tag_text(0x0018, 0x0088))->0) == m.spacing_between_slices,
        m.image_position is Some ==> value_for(els, tag_text(0x0020, 0x0032)) is Some && decimal_list_of(value_for(els, tag_text(0x0020, 0x0032))->0) == Some(m.image_position->0@),
        m.image_orientation is Some ==> value_for(els, tag_text(0x0020, 0x0037)) is Some && decimal_list_of(value_for(els, tag_text(0x0020, 0x0037))->0) == Some(m.image_orientation->0@),
        m.pixel_spacing is Some ==> value_for(els, tag_text(0x0028, 0x0030)) is Some && decimal_list_of(value_for(els, tag_text(0x0028, 0x0030))->0) == Some(m.pixel_spacing->0@),
{
}

} // verus!
