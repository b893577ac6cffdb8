//! Raster image decode and PNG encode for Place and Export. Decoding and
//! encoding are the `image` crate's; this module checks buffers and shapes
//! the results.

use image::ImageEncoder;
use vstd::prelude::*;

verus! {

/// `image::ImageError`, carried through unchanged.
#[verifier::external_type_specification]
#[verifier::external_body]
pub struct ExImageError(image::ImageError);

/// Errors of decoding and encoding.
#[derive(Debug)]
pub enum ImageIoError {
    /// Unsupported or corrupt image data.
    Decode(image::ImageError),
    /// The RGBA buffer does not hold `width × height` pixels.
    Buffer(u32, u32),
}

/// A decoded image: `width × height` straight-alpha RGBA8, row-major.
#[derive(Debug, Clone, PartialEq, Eq)]
pub struct DecodedImage {
    pub width: u32,
    pub height: u32,
    pub rgba: Vec<u8>,
}

/// What `image` decodes `bytes` to, as width, height and RGBA8 pixels;
/// `None` when it cannot decode them.
pub uninterp spec fn decoded_rgba8(bytes: Seq<u8>) -> Option<(u32, u32, Seq<u8>)>;

/// The PNG bytes `image` writes for a `width × height` RGBA8 buffer; `None`
/// when the encoder reports an error.
pub uninterp spec fn png_encoded(width: u32, height: u32, rgba: Seq<u8>) -> Option<Seq<u8>>;

/// `image::load_from_memory` then `to_rgba8`: guesses the format from the
/// bytes, decodes, and converts to RGBA8. The result depends on the bytes
/// alone; the pixel buffer holds four bytes per pixel.
#[verifier::external_body]
fn load_rgba8(bytes: &[u8]) -> (r: Result<(u32, u32, Vec<u8>), image::ImageError>)
    ensures
        match r {
            Ok((w, h, px)) => decoded_rgba8(bytes@) == Some((w, h, px@)) && px@.len() == w * h * 4,
            Err(_) => decoded_rgba8(bytes@) is None,
        },
{
    match image::load_from_memory(bytes) {
        Ok(img) => {
            let img = img.to_rgba8();
            Ok((img.width(), img.height(), img.into_raw()))
        },
        Err(e) => Err(e),
    }
}

/// `PngEncoder::write_image` with `Rgba8` pixels into a fresh buffer. It
/// panics unless the buffer holds exactly `width × height` pixels.
#[verifier::external_body]
fn write_png(width: u32, height: u32, rgba: &[u8]) -> (r: Result<Vec<u8>, image::ImageError>)
    requires
        rgba@.len() == width * height * 4,
    ensures
        match r {
            Ok(out) => png_encoded(width, height, rgba@) == Some(out@),
            Err(_) => png_encoded(width, height, rgba@) is None,
        },
{
    let mut out = Vec::new();
    match image::codecs::png::PngEncoder::new(&mut out).write_image(rgba, width, height, image::ExtendedColorType::Rgba8) {
        Ok(()) => Ok(out),
        Err(e) => Err(e),
    }
}

/// Decode encoded image bytes (PNG, JPEG) to RGBA8.
pub fn decode_image(bytes: &[u8]) -> (r: Result<DecodedImage, ImageIoError>)
    ensures
        match r {
            Ok(img) => decoded_rgba8(bytes@) == Some((img.width, img.height, img.rgba@))
                && img.rgba@.len() == img.width * img.height * 4,
            Err(e) => e is Decode && decoded_rgba8(bytes@) is None,
        },
{
    match load_rgba8(bytes) {
        Ok((width, height, rgba)) => Ok(DecodedImage { width, height, rgba }),
        Err(e) => Err(ImageIoError::Decode(e)),
    }
}

/// Encode a straight-alpha RGBA8 buffer to PNG bytes; a buffer that does not
/// hold `width × height` pixels is refused.
pub fn encode_png(width: u32, height: u32, rgba: &[u8]) -> (r: Result<Vec<u8>, ImageIoError>)
    ensures
        rgba@.len() != width * height * 4 ==> (r matches Err(ImageIoError::Buffer(w, h)) && w == width && h == height),
        rgba@.len() == width * height * 4 ==> match r {
            Ok(out) => png_encoded(width, height, rgba@) == Some(out@),
            Err(e) => e is Decode && png_encoded(width, height, rgba@) is None,
        },
{
    proof {
        assert(width as int * height as int <= 0xffff_ffffint * 0xffff_ffffint) by (nonlinear_arith)
            requires
                width <= 0xffff_ffffu32,
                height <= 0xffff_ffffu32,
        ;
    }
    let px: u64 = (width as u64) * (height as u64);
    if px > (usize::MAX / 4) as u64 {
        assert(px as int == width as int * height as int);
        assert(px as int * 4 > usize::MAX) by (nonlinear_arith)
            requires
                px as int > (usize::MAX / 4) as int,
        ;
        let n = rgba.len();
        assert(n as int == rgba@.len());
        assert(width * height * 4 == px as int * 4);
        assert(rgba@.len() != width * height * 4);
        return Err(ImageIoError::Buffer(width, height));
    }
    if rgba.len() != (px as usize) * 4 {
        return Err(ImageIoError::Buffer(width, height));
    }
    match write_png(width, height, rgba) {
        Ok(out) => Ok(out),
        Err(e) => Err(ImageIoError::Decode(e)),
    }
}

} // verus!
