//! Telling the kind of an image file, and taking in decoded pixels.

use vstd::prelude::*;
use crate::raster::{Rgba, RgbaImage};
use crate::vert::MAX_SIDE;
use crate::PipelineError;

verus! {

/// An error of the `image` crate. Nothing is known of what it holds.
#[verifier::external_type_specification]
#[verifier::external_body]
pub struct ExImageError(image::ImageError);

/// The kinds of image file that are read.
#[derive(Clone, Copy, Debug, PartialEq, Eq, Structural)]
pub enum ImageKind {
    Png,
    Jpeg,
}

/// The bytes that open a PNG file.
pub open spec fn png_magic() -> Seq<u8> {
    seq![0x89u8, 0x50u8, 0x4eu8, 0x47u8, 0x0du8, 0x0au8, 0x1au8, 0x0au8]
}

/// The bytes that open a JPEG file.
pub open spec fn jpeg_magic() -> Seq<u8> {
    seq![0xffu8, 0xd8u8, 0xffu8]
}

/// The kind of a file by its first bytes; none for other bytes.
pub open spec fn spec_kind(bytes: Seq<u8>) -> Option<ImageKind> {
    if png_magic().is_prefix_of(bytes) {
        Some(ImageKind::Png)
    } else if jpeg_magic().is_prefix_of(bytes) {
        Some(ImageKind::Jpeg)
    } else {
        None
    }
}

/// Asks `image::guess_format` for the format of a file. It goes by the
/// first bytes: it answers PNG exactly for files that open with the PNG
/// signature, and JPEG exactly for files that open with `ff d8 ff`. Other
/// formats it may know, and files it knows no format for, are not told
/// apart here.
#[verifier::external_body]
fn guess_kind(bytes: &Vec<u8>) -> (r: Result<Option<ImageKind>, image::ImageError>)
    ensures
        (r matches Ok(Some(k)) && k == ImageKind::Png) == png_magic().is_prefix_of(bytes@),
        (r matches Ok(Some(k)) && k == ImageKind::Jpeg) == jpeg_magic().is_prefix_of(bytes@),
{
    match image::guess_format(bytes) {
        Ok(image::ImageFormat::Png) => Ok(Some(ImageKind::Png)),
        Ok(image::ImageFormat::Jpeg) => Ok(Some(ImageKind::Jpeg)),
        Ok(_) => Ok(None),
        Err(e) => Err(e),
    }
}

/// Tells the kind of an image file by its first bytes. Bytes that open
/// neither as a PNG nor as a JPEG file give `DecodeError`.
pub fn image_kind(bytes: &Vec<u8>) -> (r: Result<ImageKind, PipelineError>)
    ensures
        match r {
            Ok(kind) => spec_kind(bytes@) == Some(kind),
            Err(e) => e == PipelineError::DecodeError && spec_kind(bytes@) is None,
        },
{
    match guess_kind(bytes) {
        Ok(Some(kind)) => Ok(kind),
        _ => Err(PipelineError::DecodeError),
    }
}

/// The media type that a data URL gives for a kind of image.
pub fn format_to_dataurl_media_type(fmt: ImageKind) -> (s: String)
    ensures
        s@ == match fmt {
            ImageKind::Png => "image/png"@,
            ImageKind::Jpeg => "image/jpeg"@,
        },
{
    match fmt {
        ImageKind::Png => "image/png".to_owned(),
        ImageKind::Jpeg => "image/jpeg".to_owned(),
    }
}

/// The image of the given size whose pixels have the channels `raw`, four
/// bytes each in the order red, green, blue, alpha, row by row.
///
/// A side longer than `MAX_SIDE` gives `DimensionError`; bytes that are
/// not four for each pixel give `DecodeError`.
pub open spec fn spec_image_from_rgba8(width: u32, height: u32, raw: Seq<u8>) -> Result<
    Seq<Rgba>,
    PipelineError,
> {
    if width > MAX_SIDE || height > MAX_SIDE {
        Err(PipelineError::DimensionError)
    } else if raw.len() != 4 * (width * height) {
        Err(PipelineError::DecodeError)
    } else {
        Ok(
            Seq::new(
                (width * height) as nat,
                |k: int|
                    Rgba { r: raw[4 * k], g: raw[4 * k + 1], b: raw[4 * k + 2], a: raw[4 * k + 3] },
            ),
        )
    }
}

/// Makes an image of what a decoder hands out: a width, a height, and the
/// channels of all pixels as eight-bit RGBA.
pub fn image_from_rgba8(width: u32, height: u32, raw: &Vec<u8>) -> (r: Result<
    RgbaImage,
    PipelineError,
>)
    ensures
        match r {
            Ok(img) => img.wf() && img.width == width && img.height == height
                && spec_image_from_rgba8(width, height, raw@) == Ok::<Seq<Rgba>, PipelineError>(
                img.pixels@,
            ),
            Err(e) => spec_image_from_rgba8(width, height, raw@) == Err::<
                Seq<Rgba>,
                PipelineError,
            >(e),
        },
{
    if width > MAX_SIDE || height > MAX_SIDE {
        return Err(PipelineError::DimensionError);
    }
    match RgbaImage::from_raw(width, height, raw) {
        Some(img) => {
            assert(img.pixels@ =~= spec_image_from_rgba8(width, height, raw@)->Ok_0);
            Ok(img)
        },
        None => Err(PipelineError::DecodeError),
    }
}

/// The text that `base64::encode` makes of bytes: their base64 form in
/// the standard alphabet, with padding.
pub uninterp spec fn base64_text(bytes: Seq<u8>) -> Seq<char>;

/// Encodes bytes with `base64::encode`. The text depends on the bytes
/// alone.
#[verifier::external_body]
fn base64_encode(bytes: &Vec<u8>) -> (s: String)
    ensures
        s@ == base64_text(bytes@),
{
    base64::encode(bytes)
}

/// `String::push_str` appends a string slice to the end of a string.
pub assume_specification[ String::push_str ](s: &mut String, string: &str)
    ensures
        final(s)@ == old(s)@ + string@,
;

/// Packs a PNG or JPEG file into a data URL: the media type of its kind,
/// then the file in base64.
pub fn data_url_from_img_bytes(bytes: &Vec<u8>) -> (r: Result<String, PipelineError>)
    requires
        spec_kind(bytes@) is Some,
    ensures
        r matches Ok(url) && url@ == "data:"@ + (match spec_kind(bytes@) {
            Some(ImageKind::Jpeg) => "image/jpeg"@,
            _ => "image/png"@,
        }) + ";base64,"@ + base64_text(bytes@),
{
    let kind = match image_kind(bytes) {
        Ok(k) => k,
        Err(e) => {
            return Err(e);
        },
    };
    let mediatype = format_to_dataurl_media_type(kind);
    let b64 = base64_encode(bytes);
    let mut url = "data:".to_owned();
    url.push_str(mediatype.as_str());
    url.push_str(";base64,");
    url.push_str(b64.as_str());
    Ok(url)
}

} // verus!
