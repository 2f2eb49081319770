//! Trusted declarations for the raster codec crate: the opaque image
//! and error types, and the wrappers around decoding-buffer access,
//! resizing and encoding that the library's logic calls.

use vstd::prelude::*;

use image::ImageFormat as NativeFormat;

verus! {

#[verifier::external_type_specification]
#[verifier::external_body]
pub struct ExDynamicImage(image::DynamicImage);

#[verifier::external_type_specification]
#[verifier::external_body]
pub struct ExNativeFormat(NativeFormat);

#[verifier::external_type_specification]
#[verifier::external_body]
pub struct ExImageError(image::ImageError);

/// Relies on image::ImageFormat::Jpeg: the JPEG member of the codec
/// crate's format enum.
#[verifier::external_body]
pub(crate) fn native_jpeg() -> NativeFormat {
    NativeFormat::Jpeg
}

/// Relies on image::ImageFormat::Png: the PNG member of the codec
/// crate's format enum.
#[verifier::external_body]
pub(crate) fn native_png() -> NativeFormat {
    NativeFormat::Png
}

/// Relies on image::ImageFormat::WebP: the WebP member of the codec
/// crate's format enum.
#[verifier::external_body]
pub(crate) fn native_webp() -> NativeFormat {
    NativeFormat::WebP
}

/// Relies on <DynamicImage as Clone>::clone: returns a copy of the image.
pub assume_specification[ <image::DynamicImage as Clone>::clone ](
    img: &image::DynamicImage,
) -> image::DynamicImage;

/// Relies on DynamicImage::resize_exact: returns the image scaled to
/// exactly the given width and height with the Lanczos3 filter.
#[verifier::external_body]
pub(crate) fn resize_exact(img: &image::DynamicImage, width: u32, height: u32) -> image::DynamicImage {
    img.resize_exact(width, height, image::imageops::FilterType::Lanczos3)
}

/// Relies on DynamicImage::write_to: encodes the image in the given
/// format into a fresh in-memory buffer; a failed encode is returned
/// as the error's text.
#[verifier::external_body]
pub(crate) fn encode_native(img: &image::DynamicImage, format: NativeFormat) -> Result<Vec<u8>, String> {
    let mut buffer: Vec<u8> = Vec::new();
    match img.write_to(&mut std::io::Cursor::new(&mut buffer), format) {
        Ok(()) => Ok(buffer),
        Err(e) => Err(e.to_string()),
    }
}

/// Relies on DynamicImage::as_rgba8: `Some` exactly when the image is an
/// eight-bit RGBA buffer; the raw bytes hold each pixel as R, G, B, A,
/// row by row.
#[verifier::external_body]
pub(crate) fn rgba8_bytes(img: &image::DynamicImage) -> Option<Vec<u8>> {
    img.as_rgba8().map(|p| p.as_raw().clone())
}

/// Relies on DynamicImage::as_rgb8: `Some` exactly when the image is an
/// eight-bit RGB buffer without alpha; the raw bytes hold each pixel as
/// R, G, B, row by row.
#[verifier::external_body]
pub(crate) fn rgb8_bytes(img: &image::DynamicImage) -> Option<Vec<u8>> {
    img.as_rgb8().map(|p| p.as_raw().clone())
}

impl crate::ImageFormat {
    /// The codec crate's own member for a native format; the next-gen
    /// formats have none and are an `UnsupportedFormat` error.
    pub fn to_native_format(self) -> (r: Result<NativeFormat, crate::Error>)
        ensures
            r is Ok <==> crate::spec_is_native(self),
            r is Err ==> r->Err_0 is UnsupportedFormat,
    {
        match self {
            crate::ImageFormat::Jpg => Ok(native_jpeg()),
            crate::ImageFormat::Png => Ok(native_png()),
            crate::ImageFormat::Webp => Ok(native_webp()),
            _ => Err(
                crate::Error::UnsupportedFormat(
                    "AVIF/HEIC/HEIF format not supported by image crate".to_owned(),
                ),
            ),
        }
    }
}

} // verus!
