//! The ways in which the operations of this library fail.
use vstd::prelude::*;

verus! {

/// Why an operation failed.
#[derive(Clone, Debug, PartialEq, Eq)]
pub enum DicomError {
    /// The bytes do not read as a DICOM file; the reader's explanation.
    Open(String),
    /// The value of the element with this tag has no textual rendering.
    Unrenderable { group: u16, element: u16 },
    /// The pixel data could not be decoded; the decoder's explanation.
    Decode(String),
    /// A required attribute is absent from the data set.
    MissingAttribute { group: u16, element: u16 },
    /// A required attribute is present but its value does not read.
    InvalidAttribute { group: u16, element: u16 },
    /// A decoded frame could not be turned into an image; the explanation.
    Convert(String),
    /// An image could not be encoded; the encoder's explanation.
    Encode(String),
    /// A directory holds no valid DICOM file.
    NoValidFiles,
    /// Organizing the files gave no patient.
    NoPatients,
    /// The first patient has no study.
    NoStudies,
    /// A volume was asked of a directory without DICOM files.
    NoEntries,
    /// The first slice of a volume has no pixel spacing.
    MissingPixelSpacing,
    /// No slice spacing can be derived: no two positions, no two slice
    /// locations, no slice thickness.
    MissingSliceSpacing,
    /// The file is not a DICOMDIR catalog.
    NotCatalog,
    /// The catalog holds no directory record sequence.
    MissingRecordSequence,
    /// A path that an entry names is not among the given files.
    UnknownPath(String),
}

} // verus!
