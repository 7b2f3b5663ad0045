//! Packaging a finished grayscale raster as a PNG byte stream through the
//! `image` crate's encoder.

use vstd::prelude::*;

verus! {

#[verifier::external_type_specification]
#[verifier::external_body]
pub struct ExImageError(image::ImageError);

/// The PNG byte stream that the encoder produces for a grayscale raster:
/// a function of the raster bytes and the dimensions alone.
pub uninterp spec fn png_of(data: Seq<u8>, width: int, height: int) -> Seq<u8>;

/// Why packaging a raster as a PNG failed.
#[derive(Clone, Copy, Debug, PartialEq, Eq, Structural)]
pub enum PngError {
    /// The encoder rejected the raster or its dimensions.
    Encode,
}

/// Relies on image's `PngEncoder` through `ImageEncoder::write_image`
/// with 8-bit grayscale samples: the encoding is a function of the bytes
/// and dimensions alone. The length precondition is the encoder's own,
/// which it otherwise enforces with a panic. Success is owed whenever both
/// dimensions are positive: the underlying png writer rejects only a zero
/// width, a zero height, or a color/bit-depth pairing (grayscale
/// eight-bit is valid), and the sink here is an in-memory vector, whose
/// writes cannot fail.
#[verifier::external_body]
fn encode_png(pixels: &Vec<u8>, width: u32, height: u32) -> (r: Result<
    Vec<u8>,
    image::ImageError,
>)
    requires
        pixels@.len() == width * height,
    ensures
        r matches Ok(b) ==> b@ == png_of(pixels@, width as int, height as int),
        width >= 1 && height >= 1 ==> r is Ok,
{
    let mut out: Vec<u8> = Vec::new();
    let encoder = image::codecs::png::PngEncoder::new(&mut out);
    match image::ImageEncoder::write_image(
        encoder,
        pixels,
        width,
        height,
        image::ExtendedColorType::L8,
    ) {
        Ok(()) => Ok(out),
        Err(e) => Err(e),
    }
}

/// Packages a raster of `bounds.0 * bounds.1` grayscale bytes, row-major
/// with one byte per pixel, as a PNG byte stream. Succeeds on every raster
/// with positive dimensions; only a zero width or height is rejected.
pub fn gen_image(pixels: &Vec<u8>, bounds: (usize, usize)) -> (r: Result<Vec<u8>, PngError>)
    requires
        pixels@.len() == bounds.0 * bounds.1,
        bounds.0 <= u32::MAX,
        bounds.1 <= u32::MAX,
    ensures
        r matches Ok(b) ==> b@ == png_of(pixels@, bounds.0 as int, bounds.1 as int),
        bounds.0 >= 1 && bounds.1 >= 1 ==> r is Ok,
        r matches Err(e) ==> e == PngError::Encode,
{
    match encode_png(pixels, bounds.0 as u32, bounds.1 as u32) {
        Ok(b) => Ok(b),
        Err(_) => Err(PngError::Encode),
    }
}

} // verus!
