//! The window icon: a PNG file decoded to 8-bit RGBA pixels.
use vstd::prelude::*;

verus! {

/// Decoded pixels, four bytes (R, G, B, A) per pixel, row by row.
pub struct IconPixels {
    pub rgba: Vec<u8>,
    pub width: u32,
    pub height: u32,
}

/// What `image::load_from_memory_with_format` with the PNG format, followed
/// by the conversion to RGBA8, gives for `bytes`: the pixel bytes, the width
/// and the height; `None` when the bytes are not a PNG the crate can decode.
pub uninterp spec fn png_rgba8(bytes: Seq<u8>) -> Option<(Seq<u8>, u32, u32)>;

/// Calls `image::load_from_memory_with_format(bytes, ImageFormat::Png)`,
/// which decodes with the crate's own PNG decoder (no format guessing, so no
/// detection hooks registered elsewhere take part), and converts the result
/// to RGBA8 (`into_rgba8`, `dimensions`, `into_raw`). The contract only
/// names the result: PNG decoding is not restated here.
#[verifier::external_body]
fn decode_rgba8(bytes: &[u8]) -> (r: Option<IconPixels>)
    ensures
        match r {
            Some(px) => png_rgba8(bytes@) == Some((px.rgba@, px.width, px.height)),
            None => png_rgba8(bytes@) is None,
        },
{
    match image::load_from_memory_with_format(bytes, image::ImageFormat::Png) {
        Ok(img) => {
            let rgba = img.into_rgba8();
            let (width, height) = rgba.dimensions();
            Some(IconPixels { rgba: rgba.into_raw(), width, height })
        },
        Err(_) => None,
    }
}

/// The pixels of the PNG icon `png`, or `None` when it cannot be decoded.
pub fn load_icon(png: &[u8]) -> (r: Option<IconPixels>)
    ensures
        match r {
            Some(px) => png_rgba8(png@) == Some((px.rgba@, px.width, px.height)),
            None => png_rgba8(png@) is None,
        },
{
    decode_rgba8(png)
}

} // verus!
