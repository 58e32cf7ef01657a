//! The pixel pipeline of the dicom crates: decoding the pixel data of a
//! file, turning one frame into a displayable image, encoding PNG.
use vstd::prelude::*;
use dicom_pixeldata::image::ImageFormat;
use dicom_pixeldata::{BitDepthOption, ConvertOptions, PixelDecoder, VoiLutOption};
use crate::dataset::{dicom_parses, file_texts};
use crate::handler::frame_count_of;

verus! {

/// The step of the pixel pipeline that failed.
#[derive(Clone, Copy, Debug, PartialEq, Eq, Structural)]
pub enum PixelStage {
    Decode,
    Convert,
    Encode,
}

/// A failure of the pixel pipeline, with the explanation of the step.
#[derive(Clone, Debug)]
pub enum PixelError {
    Decode(String),
    Convert(String),
    Encode(String),
}

impl PixelError {
    pub open spec fn stage(self) -> PixelStage {
        match self {
            PixelError::Decode(_) => PixelStage::Decode,
            PixelError::Convert(_) => PixelStage::Convert,
            PixelError::Encode(_) => PixelStage::Encode,
        }
    }
}

/// One frame as displayable samples, row by row.
pub struct RawFrame {
    pub rows: u32,
    pub columns: u32,
    pub samples: Vec<u8>,
}

pub struct FrameView {
    pub rows: u32,
    pub columns: u32,
    pub samples: Seq<u8>,
}

/// The first frame of the file that `b` holds, decoded and converted to a
/// displayable image: its size and samples, or the step that failed.
pub uninterp spec fn first_frame_samples(b: Seq<u8>) -> Result<FrameView, PixelStage>;

/// Frame `frame` of the file that `b` holds, encoded as PNG, or the step
/// that failed.
pub uninterp spec fn frame_png(b: Seq<u8>, frame: u32) -> Result<Seq<u8>, PixelStage>;

/// Relies on `from_reader`, `PixelDecoder::decode_pixel_data`,
/// `DecodedPixelData::rows`/`columns`, `to_dynamic_image_with_options`
/// (the data set's own VOI LUT, automatic bit depth) and
/// `DynamicImage::as_bytes`, on frame 0, which every decoded data set has
/// room for: the result depends on the bytes alone.
#[verifier::external_body]
pub(crate) fn raw_frame(bytes: &[u8]) -> (r: Result<RawFrame, PixelError>)
    requires
        dicom_parses(bytes@),
    ensures
        r is Ok <==> first_frame_samples(bytes@) is Ok,
        r is Ok ==> first_frame_samples(bytes@)->Ok_0 == (FrameView {
            rows: r->Ok_0.rows,
            columns: r->Ok_0.columns,
            samples: r->Ok_0.samples@,
        }),
        r is Err ==> first_frame_samples(bytes@)->Err_0 == r->Err_0.stage(),
{
    let obj = dicom::object::from_reader(bytes).map_err(|e| PixelError::Decode(e.to_string()))?;
    let d = obj.decode_pixel_data().map_err(|e| PixelError::Decode(e.to_string()))?;
    let options = ConvertOptions::new().with_voi_lut(VoiLutOption::Default).with_bit_depth(BitDepthOption::Auto);
    let image = d.to_dynamic_image_with_options(0, &options).map_err(|e| PixelError::Convert(e.to_string()))?;
    Ok(RawFrame { rows: d.rows(), columns: d.columns(), samples: image.as_bytes().to_vec() })
}

/// Relies on `from_reader`, `PixelDecoder::decode_pixel_data`,
/// `to_dynamic_image_with_options` (as above) and `DynamicImage::write_to`
/// with the PNG format: the result depends on the arguments alone. Only
/// frames below the data set's frame count are asked for, each after the
/// one before it converted, so that the decoder's per-frame offsets and
/// per-frame tables stay within what it checks.
#[verifier::external_body]
pub(crate) fn png_frame(bytes: &[u8], frame: u32) -> (r: Result<Vec<u8>, PixelError>)
    requires
        dicom_parses(bytes@),
        frame < frame_count_of(file_texts(bytes@)),
        frame == 0 || frame_png(bytes@, (frame - 1) as u32) is Ok,
    ensures
        r is Ok <==> frame_png(bytes@, frame) is Ok,
        r is Ok ==> r->Ok_0@ == frame_png(bytes@, frame)->Ok_0,
        r is Err ==> frame_png(bytes@, frame)->Err_0 == r->Err_0.stage(),
{
    let obj = dicom::object::from_reader(bytes).map_err(|e| PixelError::Decode(e.to_string()))?;
    let d = obj.decode_pixel_data().map_err(|e| PixelError::Decode(e.to_string()))?;
    let options = ConvertOptions::new().with_voi_lut(VoiLutOption::Default).with_bit_depth(BitDepthOption::Auto);
    let image = d.to_dynamic_image_with_options(frame, &options).map_err(|e| PixelError::Convert(e.to_string()))?;
    let mut out: Vec<u8> = Vec::new();
    image.write_to(&mut std::io::Cursor::new(&mut out), ImageFormat::Png).map_err(|e| PixelError::Encode(e.to_string()))?;
    Ok(out)
}

} // verus!
