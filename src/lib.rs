//! Structured access to DICOM files: element extraction, metadata mapping,
//! and the assembly of single-image files into ordered series, studies,
//! patients and volumes.
pub mod text;
pub mod decimal;
pub mod dataset;
pub mod error;
pub mod element;
pub mod metadata;
pub mod pixels;
pub mod handler;
pub mod sorting;
pub mod directory;
pub mod hierarchy;
pub mod spatial;
pub mod propagate;
pub mod catalog;
pub mod volume;
