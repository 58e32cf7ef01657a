//! Loading single files: validity, metadata, the full tag list and pixels.
use vstd::prelude::*;
use dicom::object::InMemDicomObject;
use crate::dataset::{dataset_is, file_content, file_headers, file_texts, ElementHeader, dataset_headers, dataset_texts, dicom_parses, element_headers,
    element_text, read_object};
use crate::error::DicomError;
use crate::element::{DicomElement, all_render, element_of, elements_of, extract_elements, primitive_headers, value_for};
use crate::propagate::decimals_view;
use crate::metadata::{DicomMetadata, extract_metadata, metadata_matches};
use crate::pixels::{FrameView, PixelError, PixelStage, frame_png, first_frame_samples, png_frame, raw_frame};
use crate::text::{i32_of, parse_i32, parse_u16, u16_of};

verus! {

pub const BITS_ALLOCATED: (u16, u16) = (0x0028, 0x0100);

pub const BITS_STORED: (u16, u16) = (0x0028, 0x0101);

pub const PIXEL_REPRESENTATION: (u16, u16) = (0x0028, 0x0103);

pub const PHOTOMETRIC_INTERPRETATION: (u16, u16) = (0x0028, 0x0004);

pub const SAMPLES_PER_PIXEL: (u16, u16) = (0x0028, 0x0002);

pub const NUMBER_OF_FRAMES: (u16, u16) = (0x0028, 0x0008);

/// The photometric interpretation assumed when the attribute has no text.
pub const DEFAULT_PHOTOMETRIC: &'static str = "MONOCHROME2";

/// One decoded frame with the parameters that describe its samples.
#[derive(Clone, Debug)]
pub struct DicomImage {
    pub width: u32,
    pub height: u32,
    pub bits_allocated: u16,
    pub bits_stored: u16,
    pub pixel_representation: u16,
    pub photometric_interpretation: String,
    pub samples_per_pixel: u16,
    pub pixel_data: Vec<u8>,
}

/// A loaded file: its metadata and, when asked for and decodable, its image.
#[derive(Clone, Debug)]
pub struct DicomFile {
    pub metadata: DicomMetadata,
    pub image: Option<DicomImage>,
    pub is_valid: bool,
}

/// The pixel-describing attributes of a data set.
#[derive(Clone, Debug)]
pub struct PixelAttributes {
    pub bits_allocated: u16,
    pub bits_stored: u16,
    pub pixel_representation: u16,
    pub photometric_interpretation: String,
    pub samples_per_pixel: u16,
}

impl PixelAttributes {
    pub open spec fn view(self) -> (u16, u16, u16, Seq<char>, u16) {
        (
            self.bits_allocated,
            self.bits_stored,
            self.pixel_representation,
            self.photometric_interpretation@,
            self.samples_per_pixel,
        )
    }
}

/// Entry point of the single-file operations.
#[derive(Clone, Debug, Default)]
pub struct DicomHandler {}

/// The data set holds an element with this tag.
pub open spec fn has_tag(hs: Seq<ElementHeader>, group: u16, element: u16) -> bool {
    exists|i: int| 0 <= i < hs.len() && #[trigger] hs[i].group == group && hs[i].element == element
}

/// A required unsigned attribute: missing, unreadable, or its value.
pub open spec fn u16_attribute(hs: Seq<ElementHeader>, texts: Map<(u16, u16), Seq<char>>, tag: (u16, u16)) -> Result<u16, DicomError> {
    if !has_tag(hs, tag.0, tag.1) {
        Err(DicomError::MissingAttribute { group: tag.0, element: tag.1 })
    } else if texts.contains_key(tag) && u16_of(texts[tag]) is Some {
        Ok(u16_of(texts[tag])->0)
    } else {
        Err(DicomError::InvalidAttribute { group: tag.0, element: tag.1 })
    }
}

/// The photometric interpretation: required, with a default for a value
/// that has no text.
pub open spec fn photometric_of(hs: Seq<ElementHeader>, texts: Map<(u16, u16), Seq<char>>) -> Result<Seq<char>, DicomError> {
    let tag = PHOTOMETRIC_INTERPRETATION;
    if !has_tag(hs, tag.0, tag.1) {
        Err(DicomError::MissingAttribute { group: tag.0, element: tag.1 })
    } else if texts.contains_key(tag) {
        Ok(texts[tag])
    } else {
        Ok(DEFAULT_PHOTOMETRIC@)
    }
}

/// The pixel attributes, read in a fixed order; the first failure is reported.
pub open spec fn pixel_attributes_of(hs: Seq<ElementHeader>, texts: Map<(u16, u16), Seq<char>>) -> Result<
    (u16, u16, u16, Seq<char>, u16),
    DicomError,
> {
    match u16_attribute(hs, texts, BITS_ALLOCATED) {
        Err(e) => Err(e),
        Ok(ba) => match u16_attribute(hs, texts, BITS_STORED) {
            Err(e) => Err(e),
            Ok(bs) => match u16_attribute(hs, texts, PIXEL_REPRESENTATION) {
                Err(e) => Err(e),
                Ok(pr) => match photometric_of(hs, texts) {
                    Err(e) => Err(e),
                    Ok(pi) => match u16_attribute(hs, texts, SAMPLES_PER_PIXEL) {
                        Err(e) => Err(e),
                        Ok(spp) => Ok((ba, bs, pr, pi, spp)),
                    },
                },
            },
        },
    }
}

/// The number of frames a data set holds: its Number of Frames when that
/// reads as an integer above one, else one.
pub open spec fn frame_count_of(texts: Map<(u16, u16), Seq<char>>) -> u32 {
    if texts.contains_key(NUMBER_OF_FRAMES) {
        match i32_of(texts[NUMBER_OF_FRAMES]) {
            Some(n) => if n > 1 {
                n as u32
            } else {
                1
            },
            None => 1,
        }
    } else {
        1
    }
}

/// Reads the number of frames of a data set.
pub fn frame_count(obj: &InMemDicomObject) -> (r: u32)
    ensures
        r == frame_count_of(dataset_texts(*obj)),
        r >= 1,
{
    match element_text(obj, NUMBER_OF_FRAMES.0, NUMBER_OF_FRAMES.1) {
        Some(t) => match parse_i32(t.as_str()) {
            Some(n) => if n > 1 {
                n as u32
            } else {
                1
            },
            None => 1,
        },
        None => 1,
    }
}

fn contains_tag(hs: &Vec<ElementHeader>, group: u16, element: u16) -> (r: bool)
    ensures
        r == has_tag(hs@, group, element),
{
    let mut i: usize = 0;
    while i < hs.len()
        invariant
            i <= hs.len(),
            forall|j: int| 0 <= j < i ==> !(#[trigger] hs@[j].group == group && hs@[j].element == element),
        decreases hs.len() - i,
    {
        if hs[i].group == group && hs[i].element == element {
            return true;
        }
        i = i + 1;
    }
    false
}

fn required_u16(obj: &InMemDicomObject, hs: &Vec<ElementHeader>, tag: (u16, u16)) -> (r: Result<u16, DicomError>)
    requires
        hs@ == dataset_headers(*obj),
    ensures
        r == u16_attribute(dataset_headers(*obj), dataset_texts(*obj), tag),
{
    if !contains_tag(hs, tag.0, tag.1) {
        return Err(DicomError::MissingAttribute { group: tag.0, element: tag.1 });
    }
    match element_text(obj, tag.0, tag.1) {
        Some(t) => match parse_u16(t.as_str()) {
            Some(v) => Ok(v),
            None => Err(DicomError::InvalidAttribute { group: tag.0, element: tag.1 }),
        },
        None => Err(DicomError::InvalidAttribute { group: tag.0, element: tag.1 }),
    }
}

/// Reads the attributes that describe the pixel samples of a data set.
pub fn pixel_attributes(obj: &InMemDicomObject) -> (r: Result<PixelAttributes, DicomError>)
    ensures
        match pixel_attributes_of(dataset_headers(*obj), dataset_texts(*obj)) {
            Ok(v) => r is Ok && r->Ok_0.view() == v,
            Err(e) => r is Err && r->Err_0 == e,
        },
{
    let hs = element_headers(obj);
    let bits_allocated = required_u16(obj, &hs, BITS_ALLOCATED)?;
    let bits_stored = required_u16(obj, &hs, BITS_STORED)?;
    let pixel_representation = required_u16(obj, &hs, PIXEL_REPRESENTATION)?;
    if !contains_tag(&hs, PHOTOMETRIC_INTERPRETATION.0, PHOTOMETRIC_INTERPRETATION.1) {
        return Err(
            DicomError::MissingAttribute {
                group: PHOTOMETRIC_INTERPRETATION.0,
                element: PHOTOMETRIC_INTERPRETATION.1,
            },
        );
    }
    let photometric_interpretation = match element_text(
        obj,
        PHOTOMETRIC_INTERPRETATION.0,
        PHOTOMETRIC_INTERPRETATION.1,
    ) {
        Some(t) => t,
        None => String::from_str(DEFAULT_PHOTOMETRIC),
    };
    let samples_per_pixel = required_u16(obj, &hs, SAMPLES_PER_PIXEL)?;
    Ok(
        PixelAttributes {
            bits_allocated,
            bits_stored,
            pixel_representation,
            photometric_interpretation,
            samples_per_pixel,
        },
    )
}


/// The primitive elements' headers of the file that `b` holds.
pub open spec fn file_primitives(b: Seq<u8>) -> Seq<ElementHeader> {
    primitive_headers(file_headers(b))
}

/// `b` holds a DICOM file whose every primitive element has a text form.
pub open spec fn file_renders(b: Seq<u8>) -> bool {
    dicom_parses(b) && all_render(file_texts(b), file_primitives(b))
}

/// `els` is the uniform form of the primitive elements of the file `b` holds.
pub open spec fn file_elements(els: Seq<DicomElement>, b: Seq<u8>) -> bool {
    elements_of(els, file_texts(b), file_primitives(b))
}

/// `m` is the metadata record of the file that `b` holds.
pub open spec fn file_metadata(m: DicomMetadata, b: Seq<u8>) -> bool {
    exists|els: Seq<DicomElement>| #[trigger] file_elements(els, b) && metadata_matches(m, els)
}

/// The pixel attributes of the file that `b` holds.
pub open spec fn file_pixel_attributes(b: Seq<u8>) -> Result<(u16, u16, u16, Seq<char>, u16), DicomError> {
    pixel_attributes_of(file_headers(b), file_texts(b))
}

proof fn lemma_file_metadata(ds: InMemDicomObject, b: Seq<u8>, m: DicomMetadata)
    requires
        dicom_parses(b),
        dataset_is(ds, file_content(b)->0),
        exists|els: Seq<DicomElement>|
            #[trigger] elements_of(els, dataset_texts(ds), primitive_headers(dataset_headers(ds)))
                && metadata_matches(m, els),
    ensures
        file_metadata(m, b),
{
    let els = choose|els: Seq<DicomElement>|
        #[trigger] elements_of(els, dataset_texts(ds), primitive_headers(dataset_headers(ds)))
            && metadata_matches(m, els);
    assert(file_elements(els, b));
}

/// `img` is the first frame of the file that `b` holds, with its attributes.
pub open spec fn image_from_file(img: DicomImage, b: Seq<u8>) -> bool {
    let f = first_frame_samples(b)->Ok_0;
    &&& img.width == f.columns
    &&& img.height == f.rows
    &&& img.pixel_data@ == f.samples
    &&& file_pixel_attributes(b) == Ok::<_, DicomError>(
        (
            img.bits_allocated,
            img.bits_stored,
            img.pixel_representation,
            img.photometric_interpretation@,
            img.samples_per_pixel,
        ),
    )
}

/// The first frame of `b` and its attributes all read.
pub open spec fn image_reads(b: Seq<u8>) -> bool {
    dicom_parses(b) && first_frame_samples(b) is Ok && file_pixel_attributes(b) is Ok
}

/// `e` is the error for a failed step of the pixel pipeline.
pub open spec fn stage_error(e: DicomError, s: PixelStage) -> bool {
    match s {
        PixelStage::Decode => e is Decode,
        PixelStage::Convert => e is Convert,
        PixelStage::Encode => e is Encode,
    }
}

/// Frames `0..n` of `b` encoded as PNG, if every one of them encodes.
pub open spec fn frames_png(b: Seq<u8>, n: nat) -> Option<Seq<Seq<u8>>>
    decreases n,
{
    if n == 0 {
        Some(Seq::empty())
    } else {
        match frames_png(b, (n - 1) as nat) {
            Some(p) => match frame_png(b, (n - 1) as u32) {
                Ok(x) => Some(p.push(x)),
                Err(_) => None,
            },
            None => None,
        }
    }
}

pub open spec fn png_views(v: Seq<Vec<u8>>) -> Seq<Seq<u8>> {
    v.map_values(|x: Vec<u8>| x@)
}

proof fn lemma_frames_png_fail(b: Seq<u8>, m: nat, n: nat)
    requires
        m <= n,
        frames_png(b, m) is None,
    ensures
        frames_png(b, n) is None,
    decreases n - m,
{
    if m < n {
        lemma_frames_png_fail(b, m + 1, n);
    }
}

fn pixel_error(e: PixelError) -> (r: DicomError)
    ensures
        stage_error(r, e.stage()),
{
    match e {
        PixelError::Decode(m) => DicomError::Decode(m),
        PixelError::Convert(m) => DicomError::Convert(m),
        PixelError::Encode(m) => DicomError::Encode(m),
    }
}

impl DicomHandler {
    pub fn new() -> (r: Self) {
        DicomHandler {  }
    }

    /// Whether the bytes read as a DICOM file (file meta group, then data set).
    pub fn is_dicom_file(&self, bytes: Vec<u8>) -> (r: bool)
        ensures
            r == dicom_parses(bytes@),
    {
        read_object(bytes.as_slice()).is_ok()
    }

    /// Loads the metadata of a file, without its pixels. It succeeds on
    /// every DICOM file whose primitive elements all have a text form.
    pub fn load_file(&self, bytes: Vec<u8>) -> (r: Result<DicomFile, DicomError>)
        ensures
            (r is Err && r->Err_0 is Open) <==> !dicom_parses(bytes@),
            dicom_parses(bytes@) ==> (r is Ok <==> file_renders(bytes@)),
            r is Err ==> r->Err_0 is Open || r->Err_0 is Unrenderable,
            r is Ok ==> r->Ok_0.is_valid && r->Ok_0.image is None && file_metadata(r->Ok_0.metadata, bytes@),
    {
        let parsed = match read_object(bytes.as_slice()) {
            Ok(o) => o,
            Err(e) => {
                return Err(DicomError::Open(e));
            },
        };
        let metadata = extract_metadata(&parsed.dataset)?;
        proof {
            lemma_file_metadata(parsed.dataset, bytes@, metadata);
        }
        Ok(DicomFile { metadata, image: None, is_valid: true })
    }

    /// Loads the metadata of a file and, where they read, its first frame
    /// and pixel attributes; a pixel failure leaves the image out.
    pub fn load_file_with_image(&self, bytes: Vec<u8>) -> (r: Result<DicomFile, DicomError>)
        ensures
            (r is Err && r->Err_0 is Open) <==> !dicom_parses(bytes@),
            dicom_parses(bytes@) ==> (r is Ok <==> file_renders(bytes@)),
            r is Err ==> r->Err_0 is Open || r->Err_0 is Unrenderable,
            r is Ok ==> r->Ok_0.is_valid && file_metadata(r->Ok_0.metadata, bytes@),
            r is Ok ==> (r->Ok_0.image is Some <==> image_reads(bytes@)),
            r is Ok && r->Ok_0.image is Some ==> image_from_file(r->Ok_0.image->0, bytes@),
    {
        let parsed = match read_object(bytes.as_slice()) {
            Ok(o) => o,
            Err(e) => {
                return Err(DicomError::Open(e));
            },
        };
        let metadata = extract_metadata(&parsed.dataset)?;
        proof {
            lemma_file_metadata(parsed.dataset, bytes@, metadata);
        }
        let image = match self.extract_pixel_data(bytes) {
            Ok(img) => Some(img),
            Err(_) => None,
        };
        Ok(DicomFile { metadata, image, is_valid: true })
    }

    /// Every primitive element of a file in uniform form, in tag order.
    pub fn get_all_tags(&self, bytes: Vec<u8>) -> (r: Result<Vec<DicomElement>, DicomError>)
        ensures
            (r is Err && r->Err_0 is Open) <==> !dicom_parses(bytes@),
            dicom_parses(bytes@) ==> (r is Ok <==> file_renders(bytes@)),
            r is Err ==> r->Err_0 is Open || r->Err_0 is Unrenderable,
            r is Ok ==> file_elements(r->Ok_0@, bytes@),
    {
        let parsed = match read_object(bytes.as_slice()) {
            Ok(o) => o,
            Err(e) => {
                return Err(DicomError::Open(e));
            },
        };
        extract_elements(&parsed.dataset)
    }

    /// The metadata record of a file.
    pub fn get_metadata(&self, bytes: Vec<u8>) -> (r: Result<DicomMetadata, DicomError>)
        ensures
            (r is Err && r->Err_0 is Open) <==> !dicom_parses(bytes@),
            dicom_parses(bytes@) ==> (r is Ok <==> file_renders(bytes@)),
            r is Err ==> r->Err_0 is Open || r->Err_0 is Unrenderable,
            r is Ok ==> file_metadata(r->Ok_0, bytes@),
    {
        let parsed = match read_object(bytes.as_slice()) {
            Ok(o) => o,
            Err(e) => {
                return Err(DicomError::Open(e));
            },
        };
        let metadata = extract_metadata(&parsed.dataset)?;
        proof {
            lemma_file_metadata(parsed.dataset, bytes@, metadata);
        }
        Ok(metadata)
    }

    /// The first frame of a file, encoded as PNG.
    pub fn get_image_bytes(&self, bytes: Vec<u8>) -> (r: Result<Vec<u8>, DicomError>)
        ensures
            (r is Err && r->Err_0 is Open) <==> !dicom_parses(bytes@),
            dicom_parses(bytes@) ==> (r is Ok <==> frame_png(bytes@, 0) is Ok),
            r is Ok ==> r->Ok_0@ == frame_png(bytes@, 0)->Ok_0,
            dicom_parses(bytes@) && r is Err ==> stage_error(r->Err_0, frame_png(bytes@, 0)->Err_0),
            r is Err ==> r->Err_0 is Open || r->Err_0 is Decode || r->Err_0 is Convert || r->Err_0 is Encode,
    {
        match read_object(bytes.as_slice()) {
            Ok(_) => {},
            Err(e) => {
                return Err(DicomError::Open(e));
            },
        }
        match png_frame(bytes.as_slice(), 0) {
            Ok(png) => Ok(png),
            Err(e) => Err(pixel_error(e)),
        }
    }

    /// Every frame of a file, each encoded as PNG: as many as its Number of
    /// Frames says when that is above one, else the single frame.
    pub fn get_frames(&self, bytes: Vec<u8>) -> (r: Result<Vec<Vec<u8>>, DicomError>)
        ensures
            (r is Err && r->Err_0 is Open) <==> !dicom_parses(bytes@),
            dicom_parses(bytes@) ==> (r is Ok <==> frames_png(bytes@, frame_count_of(file_texts(bytes@)) as nat) is Some),
            r is Ok ==> png_views(r->Ok_0@) == frames_png(bytes@, frame_count_of(file_texts(bytes@)) as nat)->0,
            r is Err ==> r->Err_0 is Open || r->Err_0 is Decode || r->Err_0 is Convert
                || r->Err_0 is Encode,
    {
        let parsed = match read_object(bytes.as_slice()) {
            Ok(o) => o,
            Err(e) => {
                return Err(DicomError::Open(e));
            },
        };
        let n = frame_count(&parsed.dataset);
        let mut frames: Vec<Vec<u8>> = Vec::new();
        let mut k: u32 = 0;
        while k < n
            invariant
                k <= n,
                n == frame_count_of(file_texts(bytes@)),
                dicom_parses(bytes@),
                frames_png(bytes@, k as nat) == Some(png_views(frames@)),
            decreases n - k,
        {
            match png_frame(bytes.as_slice(), k) {
                Ok(png) => {
                    let ghost before = frames@;
                    frames.push(png);
                    assert(png_views(frames@) =~= png_views(before).push(png@));
                },
                Err(e) => {
                    proof {
                        lemma_frames_png_fail(bytes@, (k + 1) as nat, n as nat);
                    }
                    return Err(pixel_error(e));
                },
            }
            k = k + 1;
        }
        Ok(frames)
    }

    /// The first frame of a file as raw samples, with the attributes that
    /// describe them. The steps come in order: decoding, then the
    /// attributes, then the conversion of the frame.
    pub fn extract_pixel_data(&self, bytes: Vec<u8>) -> (r: Result<DicomImage, DicomError>)
        ensures
            (r is Err && r->Err_0 is Open) <==> !dicom_parses(bytes@),
            dicom_parses(bytes@) ==> (r is Ok <==> image_reads(bytes@)),
            dicom_parses(bytes@) && first_frame_samples(bytes@) == Err::<FrameView, PixelStage>(PixelStage::Decode)
                ==> r is Err && r->Err_0 is Decode,
            dicom_parses(bytes@) && first_frame_samples(bytes@) != Err::<FrameView, PixelStage>(PixelStage::Decode)
                && file_pixel_attributes(bytes@) is Err ==> r is Err && r->Err_0 == file_pixel_attributes(
                bytes@,
            )->Err_0,
            dicom_parses(bytes@) && first_frame_samples(bytes@) is Err && first_frame_samples(bytes@) != Err::<
                FrameView,
                PixelStage,
            >(PixelStage::Decode) && file_pixel_attributes(bytes@) is Ok ==> r is Err && r->Err_0 is Convert,
            r is Ok ==> image_from_file(r->Ok_0, bytes@),
            r is Err ==> r->Err_0 is Open || r->Err_0 is Decode || r->Err_0 is MissingAttribute
                || r->Err_0 is InvalidAttribute || r->Err_0 is Convert,
    {
        let parsed = match read_object(bytes.as_slice()) {
            Ok(o) => o,
            Err(e) => {
                return Err(DicomError::Open(e));
            },
        };
        let raw = raw_frame(bytes.as_slice());
        match &raw {
            Err(PixelError::Decode(m)) => {
                return Err(DicomError::Decode(m.clone()));
            },
            _ => {},
        }
        let attrs = pixel_attributes(&parsed.dataset)?;
        let frame = match raw {
            Ok(f) => f,
            Err(PixelError::Decode(m)) => {
                return Err(DicomError::Decode(m));
            },
            Err(PixelError::Convert(m)) => {
                return Err(DicomError::Convert(m));
            },
            Err(PixelError::Encode(m)) => {
                return Err(DicomError::Convert(m));
            },
        };
        Ok(
            DicomImage {
                width: frame.columns,
                height: frame.rows,
                bits_allocated: attrs.bits_allocated,
                bits_stored: attrs.bits_stored,
                pixel_representation: attrs.pixel_representation,
                photometric_interpretation: attrs.photometric_interpretation,
                samples_per_pixel: attrs.samples_per_pixel,
                pixel_data: frame.samples,
            },
        )
    }
}

pub open spec fn opt_view(v: Option<String>) -> Option<Seq<char>> {
    match v {
        Some(s) => Some(s@),
        None => None,
    }
}

/// Two metadata records say the same of every attribute.
pub open spec fn same_metadata(a: DicomMetadata, b: DicomMetadata) -> bool {
    &&& opt_view(a.patient_name) == opt_view(b.patient_name)
    &&& opt_view(a.patient_id) == opt_view(b.patient_id)
    &&& opt_view(a.study_date) == opt_view(b.study_date)
    &&& opt_view(a.study_description) == opt_view(b.study_description)
    &&& opt_view(a.accession_number) == opt_view(b.accession_number)
    &&& opt_view(a.study_instance_uid) == opt_view(b.study_instance_uid)
    &&& opt_view(a.series_description) == opt_view(b.series_description)
    &&& opt_view(a.series_instance_uid) == opt_view(b.series_instance_uid)
    &&& opt_view(a.modality) == opt_view(b.modality)
    &&& opt_view(a.sop_instance_uid) == opt_view(b.sop_instance_uid)
    &&& a.series_number == b.series_number
    &&& a.instance_number == b.instance_number
    &&& a.slice_location == b.slice_location
    &&& a.slice_thickness == b.slice_thickness
    &&& a.spacing_between_slices == b.spacing_between_slices
    &&& decimals_view(a.image_position) == decimals_view(b.image_position)
    &&& decimals_view(a.image_orientation) == decimals_view(b.image_orientation)
    &&& decimals_view(a.pixel_spacing) == decimals_view(b.pixel_spacing)
}

proof fn lemma_value_for_same(e1: Seq<DicomElement>, e2: Seq<DicomElement>, t: Seq<char>)
    requires
        e1.len() == e2.len(),
        forall|i: int| 0 <= i < e1.len() ==> (#[trigger] e1[i]).tag@ == e2[i].tag@ && e1[i].value@ == e2[i].value@,
    ensures
        value_for(e1, t) == value_for(e2, t),
    decreases e1.len(),
{
    if e1.len() > 0 {
        assert forall|i: int| 0 <= i < e1.drop_first().len() implies (#[trigger] e1.drop_first()[i]).tag@
            == e2.drop_first()[i].tag@ && e1.drop_first()[i].value@ == e2.drop_first()[i].value@ by {
            assert(e1.drop_first()[i] == e1[i + 1] && e2.drop_first()[i] == e2[i + 1]);
        }
        lemma_value_for_same(e1.drop_first(), e2.drop_first(), t);
    }
}

/// The metadata of a file is fixed by its bytes: two records that are both
/// the metadata of the file that `b` holds say the same of every attribute.
pub proof fn law_metadata_determined_by_bytes(m1: DicomMetadata, m2: DicomMetadata, b: Seq<u8>)
    requires
        file_metadata(m1, b),
        file_metadata(m2, b),
    ensures
        same_metadata(m1, m2),
{
    let e1 = choose|els: Seq<DicomElement>| #[trigger] file_elements(els, b) && metadata_matches(m1, els);
    let e2 = choose|els: Seq<DicomElement>| #[trigger] file_elements(els, b) && metadata_matches(m2, els);
    assert forall|i: int| 0 <= i < e1.len() implies (#[trigger] e1[i]).tag@ == e2[i].tag@ && e1[i].value@ == e2[i].value@ by {
        assert(element_of(e1[i], file_texts(b), file_primitives(b)[i]));
        assert(element_of(e2[i], file_texts(b), file_primitives(b)[i]));
    }
    assert forall|t: Seq<char>| value_for(e1, t) == value_for(e2, t) by {
        lemma_value_for_same(e1, e2, t);
    }
}

} // verus!
