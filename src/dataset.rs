//! The parsed DICOM data set, as the dicom crates read it, and the few
//! questions this library asks of it.
use vstd::prelude::*;
use dicom_core::DataDictionary;
use dicom::object::{InMemDicomObject, StandardDataDictionary, Tag};

verus! {

#[verifier::external_type_specification]
#[verifier::external_body]
#[verifier::reject_recursive_types(D)]
pub struct ExInMemDicomObject<D>(InMemDicomObject<D>);

/// The default dictionary parameter of `InMemDicomObject`, so the data set
/// type can stand in signatures.
#[verifier::external_type_specification]
#[verifier::external_body]
pub struct ExStandardDataDictionary(StandardDataDictionary);

/// The header of one data element: its tag, its value representation as
/// a two-letter code, and whether its value is primitive (not a sequence
/// and of defined length).
#[derive(Clone, Debug)]
pub struct ElementHeader {
    pub group: u16,
    pub element: u16,
    pub vr: String,
    pub primitive: bool,
}

/// Tag order: by group, then by element number.
pub open spec fn tag_less(a: ElementHeader, b: ElementHeader) -> bool {
    a.group < b.group || (a.group == b.group && a.element < b.element)
}

/// Headers in strictly ascending tag order (hence with distinct tags).
pub open spec fn tags_ascending(hs: Seq<ElementHeader>) -> bool {
    forall|i: int, j: int| 0 <= i < j < hs.len() ==> tag_less(#[trigger] hs[i], #[trigger] hs[j])
}

/// What a DICOM file holds, as this library reads it: the headers of the
/// data set's elements in tag order, the text of each element that renders
/// as text, the items of each sequence element, and the media
/// storage SOP class of the file meta group.
pub struct FileView {
    pub headers: Seq<ElementHeader>,
    pub texts: Map<(u16, u16), Seq<char>>,
    pub sequences: Map<(u16, u16), Seq<ItemView>>,
    pub media_class: Seq<char>,
}

/// An item of a sequence element: the texts of its elements and the items
/// of its own sequence elements.
pub struct ItemView {
    pub texts: Map<(u16, u16), Seq<char>>,
    pub sequences: Map<(u16, u16), Seq<ItemView>>,
}

/// The content of the file that a byte string holds, if it reads as one:
/// the file meta group and then the data set, with or without the 128-byte
/// preamble before the `DICM` code.
pub uninterp spec fn file_content(b: Seq<u8>) -> Option<FileView>;

/// Whether a byte string reads as a DICOM file.
pub open spec fn dicom_parses(b: Seq<u8>) -> bool {
    file_content(b) is Some
}

pub open spec fn file_headers(b: Seq<u8>) -> Seq<ElementHeader> {
    file_content(b)->0.headers
}

pub open spec fn file_texts(b: Seq<u8>) -> Map<(u16, u16), Seq<char>> {
    file_content(b)->0.texts
}

/// The headers of the elements of a data set, in the order it holds them.
pub uninterp spec fn dataset_headers(obj: InMemDicomObject) -> Seq<ElementHeader>;

/// The textual rendering of each element of a data set whose value has one.
pub uninterp spec fn dataset_texts(obj: InMemDicomObject) -> Map<(u16, u16), Seq<char>>;

/// The items of each sequence element of a data set, each with its texts
/// and its own sequences.
pub uninterp spec fn dataset_sequences(obj: InMemDicomObject) -> Map<(u16, u16), Seq<ItemView>>;

/// What a data set holds, as an item.
pub open spec fn item_view(obj: InMemDicomObject) -> ItemView {
    ItemView { texts: dataset_texts(obj), sequences: dataset_sequences(obj) }
}

/// The alias that the standard data dictionary gives a tag, if it knows it.
pub uninterp spec fn standard_alias(group: u16, element: u16) -> Option<Seq<char>>;

/// A file as read: its data set and the media storage SOP class of its
/// file meta group.
pub struct ParsedFile {
    pub dataset: InMemDicomObject,
    pub media_class: String,
}

/// `ds` holds what the file view says of the data set.
pub open spec fn dataset_is(ds: InMemDicomObject, v: FileView) -> bool {
    &&& dataset_headers(ds) == v.headers
    &&& dataset_texts(ds) == v.texts
    &&& dataset_sequences(ds) == v.sequences
}

/// Relies on `InMemDicomObject::element` and `Value::items`: copies of the
/// items of the sequence element with the given tag, if there is one.
#[verifier::external_body]
pub(crate) fn sequence_items(obj: &InMemDicomObject, group: u16, element: u16) -> (r: Option<
    Vec<InMemDicomObject>,
>)
    ensures
        r is Some <==> dataset_sequences(*obj).contains_key((group, element)),
        r is Some ==> r->0@.len() == dataset_sequences(*obj)[(group, element)].len(),
        r is Some ==> forall|i: int|
            0 <= i < r->0@.len() ==> item_view(#[trigger] r->0@[i]) == dataset_sequences(*obj)[(group, element)][i],
{
    obj.element(Tag(group, element)).ok().and_then(|e| e.items()).map(|items| items.to_vec())
}

/// Relies on `dicom_object::from_reader` (the reader detects and skips a
/// preamble), on `FileDicomObject::meta` with
/// `FileMetaTable::media_storage_sop_class_uid` (trailing blanks and NULs
/// removed) and on `FileDicomObject::into_inner`: what is read depends on
/// the bytes alone.
#[verifier::external_body]
pub(crate) fn read_object(bytes: &[u8]) -> (r: Result<ParsedFile, String>)
    ensures
        r is Ok == dicom_parses(bytes@),
        r is Ok ==> dataset_is(r->Ok_0.dataset, file_content(bytes@)->0),
        r is Ok ==> r->Ok_0.media_class@ == file_content(bytes@)->0.media_class,
{
    dicom::object::from_reader(bytes).map(|obj| {
        let media_class = obj.meta().media_storage_sop_class_uid().to_string();
        ParsedFile { dataset: obj.into_inner(), media_class }
    }).map_err(|e| e.to_string())
}

/// Relies on `InMemDicomObject::iter`, which walks the element map (a
/// `BTreeMap` keyed by tag) in ascending tag order, and on each header's
/// `tag`, `vr` and `is_non_primitive`.
#[verifier::external_body]
pub(crate) fn element_headers(obj: &InMemDicomObject) -> (r: Vec<ElementHeader>)
    ensures
        r@ == dataset_headers(*obj),
        tags_ascending(r@),
{
    obj.iter().map(|e| {
        let h = e.header();
        ElementHeader {
            group: h.tag.group(),
            element: h.tag.element(),
            vr: String::from(h.vr().to_string()),
            primitive: !h.is_non_primitive(),
        }
    }).collect()
}

/// Relies on `InMemDicomObject::element` and `Value::to_str`: the text of
/// the element with the given tag, if the data set holds one whose value
/// renders as text.
#[verifier::external_body]
pub(crate) fn element_text(obj: &InMemDicomObject, group: u16, element: u16) -> (r: Option<
    String,
>)
    ensures
        r is Some <==> dataset_texts(*obj).contains_key((group, element)),
        r is Some ==> r->0@ == dataset_texts(*obj)[(group, element)],
{
    obj.element(Tag(group, element)).ok().and_then(|e| e.value().to_str().ok()).map(
        |v| v.to_string(),
    )
}

/// Relies on `StandardDataDictionary::by_tag`: a lookup in the static table
/// of the standard's attributes.
#[verifier::external_body]
pub(crate) fn dictionary_alias(group: u16, element: u16) -> (r: Option<&'static str>)
    ensures
        r is Some <==> standard_alias(group, element) is Some,
        r is Some ==> r->0@ == standard_alias(group, element)->0,
{
    StandardDataDictionary.by_tag(Tag(group, element)).map(|entry| entry.alias)
}

} // verus!
