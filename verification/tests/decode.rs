use image::{DynamicImage, ImageOutputFormat};
use img2stl::components::constants::{DEFAULT_THRESHOLD_VALUE, IMAGE_WIDTH_PX, VIEW_WIDTH_PX};
use img2stl::components::decode::{
    data_url_from_img_bytes, format_to_dataurl_media_type, image_from_rgba8, image_kind, ImageKind,
};
use img2stl::raster::{Rgba, RgbaImage};
use img2stl::triangle::image_to_stl;
use img2stl::PipelineError;
use std::io::Cursor;

fn encode(width: u32, height: u32, raw: Vec<u8>, format: ImageOutputFormat) -> Vec<u8> {
    let img = DynamicImage::ImageRgba8(image::RgbaImage::from_raw(width, height, raw).unwrap());
    let mut out = Cursor::new(Vec::new());
    img.write_to(&mut out, format).unwrap();
    out.into_inner()
}

fn img_from_bytes(bytes: &Vec<u8>) -> Result<RgbaImage, PipelineError> {
    let format = match image_kind(bytes)? {
        ImageKind::Png => image::ImageFormat::Png,
        ImageKind::Jpeg => image::ImageFormat::Jpeg,
    };
    let decoded = image::load_from_memory_with_format(bytes, format)
        .map_err(|_| PipelineError::DecodeError)?;
    let rgba = decoded.into_rgba8();
    image_from_rgba8(rgba.width(), rgba.height(), &rgba.into_raw())
}

fn sample() -> Vec<u8> {
    vec![
        10, 20, 30, 255, 40, 50, 60, 128, //
        70, 80, 90, 0, 100, 110, 120, 255, //
        0, 0, 0, 255, 255, 255, 255, 255,
    ]
}

#[test]
fn png_bytes_are_decoded_to_pixels() {
    let bytes = encode(2, 3, sample(), ImageOutputFormat::Png);
    let img = img_from_bytes(&bytes).unwrap();
    assert_eq!((img.width, img.height), (2, 3));
    assert_eq!(img.pixels.len(), 6);
    assert_eq!(img.pixels[0], Rgba { r: 10, g: 20, b: 30, a: 255 });
    assert_eq!(img.pixels[1], Rgba { r: 40, g: 50, b: 60, a: 128 });
    assert_eq!(img.pixels[3], Rgba { r: 100, g: 110, b: 120, a: 255 });
    assert_eq!(img.into_raw(), sample());
}

#[test]
fn jpeg_bytes_are_decoded() {
    let raw: Vec<u8> = std::iter::repeat([200u8, 200, 200, 255]).take(64).flatten().collect();
    let bytes = encode(8, 8, raw, ImageOutputFormat::Jpeg(90));
    assert_eq!(&bytes[..3], &[0xff, 0xd8, 0xff]);
    let img = img_from_bytes(&bytes).unwrap();
    assert_eq!((img.width, img.height), (8, 8));
    for p in img.pixels.iter() {
        assert!(p.r > 190 && p.g > 190 && p.b > 190);
        assert_eq!(p.a, 255);
    }
}

#[test]
fn bytes_that_are_no_image_are_refused() {
    assert_eq!(img_from_bytes(&vec![]).err(), Some(PipelineError::DecodeError));
    assert_eq!(img_from_bytes(&b"hello world".to_vec()).err(), Some(PipelineError::DecodeError));
    // the signature of a PNG file with nothing behind it
    let cut = vec![0x89, 0x50, 0x4e, 0x47, 0x0d, 0x0a, 0x1a, 0x0a];
    assert_eq!(img_from_bytes(&cut).err(), Some(PipelineError::DecodeError));
    // a format that is known by its first bytes and not read
    assert_eq!(img_from_bytes(&b"GIF89a".to_vec()).err(), Some(PipelineError::DecodeError));
}

#[test]
fn kind_goes_by_the_first_bytes() {
    assert_eq!(image_kind(&vec![0x89, 0x50, 0x4e, 0x47, 0x0d, 0x0a, 0x1a, 0x0a]), Ok(ImageKind::Png));
    assert_eq!(image_kind(&vec![0xff, 0xd8, 0xff]), Ok(ImageKind::Jpeg));
    assert_eq!(image_kind(&vec![0xff, 0xd8, 0xff, 0xe0, 7]), Ok(ImageKind::Jpeg));
    assert_eq!(image_kind(&vec![0xff, 0xd8]), Err(PipelineError::DecodeError));
    assert_eq!(image_kind(&vec![0x89, 0x50, 0x4e, 0x47]), Err(PipelineError::DecodeError));
    assert_eq!(image_kind(&vec![]), Err(PipelineError::DecodeError));
    assert_eq!(image_kind(&b"GIF89a".to_vec()), Err(PipelineError::DecodeError));
    assert_eq!(image_kind(&b"BM".to_vec()), Err(PipelineError::DecodeError));
}

#[test]
fn decoded_channels_become_pixels() {
    let img = image_from_rgba8(2, 3, &sample()).unwrap();
    assert_eq!((img.width, img.height), (2, 3));
    assert_eq!(
        img.pixels,
        vec![
            Rgba { r: 10, g: 20, b: 30, a: 255 },
            Rgba { r: 40, g: 50, b: 60, a: 128 },
            Rgba { r: 70, g: 80, b: 90, a: 0 },
            Rgba { r: 100, g: 110, b: 120, a: 255 },
            Rgba { r: 0, g: 0, b: 0, a: 255 },
            Rgba { r: 255, g: 255, b: 255, a: 255 },
        ]
    );
    let none = image_from_rgba8(0, 5, &vec![]).unwrap();
    assert_eq!((none.width, none.height, none.pixels.len()), (0, 5, 0));
}

#[test]
fn channels_that_do_not_fit_the_size_are_refused() {
    assert_eq!(image_from_rgba8(3, 2, &sample()[..23].to_vec()).err(), Some(PipelineError::DecodeError));
    assert_eq!(image_from_rgba8(2, 2, &sample()).err(), Some(PipelineError::DecodeError));
    assert_eq!(image_from_rgba8(1, 1, &vec![]).err(), Some(PipelineError::DecodeError));
}

#[test]
fn a_side_beyond_the_lattice_is_refused() {
    let side: u32 = (1 << 28) + 1;
    assert_eq!(image_from_rgba8(side, 1, &vec![]).err(), Some(PipelineError::DimensionError));
    assert_eq!(image_from_rgba8(0, side, &vec![]).err(), Some(PipelineError::DimensionError));
    assert_eq!(image_from_rgba8(1 << 28, 0, &vec![]).map(|i| i.width), Ok(1 << 28));
}

#[test]
fn data_url_names_the_format_and_holds_the_file() {
    let bytes = encode(1, 1, vec![0, 0, 0, 255], ImageOutputFormat::Png);
    let url = data_url_from_img_bytes(&bytes).unwrap();
    assert!(url.starts_with("data:image/png;base64,iVBORw0KGgo"));
    assert_eq!(url.len(), "data:image/png;base64,".len() + (bytes.len() + 2) / 3 * 4);
    let jpeg = vec![0xff, 0xd8, 0xff, 0xe0];
    assert_eq!(data_url_from_img_bytes(&jpeg), Ok("data:image/jpeg;base64,/9j/4A==".to_string()));
    assert_eq!(format_to_dataurl_media_type(ImageKind::Png), "image/png");
    assert_eq!(format_to_dataurl_media_type(ImageKind::Jpeg), "image/jpeg");
}

#[test]
fn decoded_image_goes_through_the_pipeline() {
    // three by three, dark in the middle
    let mut raw = vec![255u8; 4 * 9];
    for c in 0..3 {
        raw[4 * 4 + c] = 0;
    }
    let bytes = encode(3, 3, raw, ImageOutputFormat::Png);
    let img = img_from_bytes(&bytes).unwrap();
    let tris = image_to_stl(img, DEFAULT_THRESHOLD_VALUE, 2).unwrap();
    assert_eq!(tris.len(), 9 * 12);
}

#[test]
fn defaults() {
    assert_eq!(DEFAULT_THRESHOLD_VALUE, 128);
    assert_eq!(VIEW_WIDTH_PX, 500);
    assert_eq!(IMAGE_WIDTH_PX, VIEW_WIDTH_PX / 2);
}
