//! Encoding the finished pixel buffer as an 8-bit grayscale PNG stream.
//!
//! The compression itself is the PNG encoder's business; what this module
//! pins down is the frame around it: encoding succeeds only for a buffer
//! whose length matches the declared dimensions, the stream is a function of
//! the pixels and dimensions alone, and its header declares exactly the
//! dimensions that were supplied — which `png_dimensions` reads back out of
//! any byte stream by the fixed PNG layout.

use vstd::prelude::*;

verus! {

/// Why encoding produced no stream.
#[derive(Clone, Copy, Debug, PartialEq, Eq, Structural)]
pub enum EncodeError {
    /// The buffer length does not equal `width * height`.
    DimensionMismatch,
}

/// The grayscale PNG stream for these pixels and dimensions.
pub uninterp spec fn png_encoding_of(pixels: Seq<u8>, width: u32, height: u32) -> Seq<u8>;

/// Big-endian 32-bit value at offset `at`.
pub open spec fn be32(bytes: Seq<u8>, at: int) -> int {
    bytes[at] * 0x1000000 + bytes[at + 1] * 0x10000 + bytes[at + 2] * 0x100 + bytes[at + 3]
}

/// The dimensions a PNG stream declares: after the fixed eight-byte PNG
/// signature and the IHDR chunk length and tag, the header holds the width
/// and then the height, each big-endian.
pub open spec fn png_declared_dims(bytes: Seq<u8>) -> Option<(u32, u32)> {
    if bytes.len() >= 24 && bytes[0] == 137 && bytes[1] == 80 && bytes[2] == 78 && bytes[3] == 71
        && bytes[4] == 13 && bytes[5] == 10 && bytes[6] == 26 && bytes[7] == 10 && bytes[12] == 73
        && bytes[13] == 72 && bytes[14] == 68 && bytes[15] == 82 {
        Some(((be32(bytes, 16) as u32), (be32(bytes, 20) as u32)))
    } else {
        None
    }
}

/// Read the declared dimensions back out of a byte stream.
pub fn png_dimensions(bytes: &Vec<u8>) -> (r: Option<(u32, u32)>)
    ensures
        r == png_declared_dims(bytes@),
{
    if bytes.len() < 24 {
        return None;
    }
    if !(bytes[0] == 137 && bytes[1] == 80 && bytes[2] == 78 && bytes[3] == 71 && bytes[4] == 13
        && bytes[5] == 10 && bytes[6] == 26 && bytes[7] == 10 && bytes[12] == 73 && bytes[13] == 72
        && bytes[14] == 68 && bytes[15] == 82) {
        return None;
    }
    let width: u32 = (bytes[16] as u32) * 0x1000000 + (bytes[17] as u32) * 0x10000 + (
    bytes[18] as u32) * 0x100 + (bytes[19] as u32);
    let height: u32 = (bytes[20] as u32) * 0x1000000 + (bytes[21] as u32) * 0x10000 + (
    bytes[22] as u32) * 0x100 + (bytes[23] as u32);
    Some((width, height))
}

/// Relies on the `image` crate's PNG encoder (`PngEncoder` driven through
/// `ImageEncoder::write_image` with the 8-bit grayscale color type): it
/// writes the fixed PNG signature, then an IHDR chunk declaring exactly the
/// given width and height, then the compressed pixel rows, and its output
/// depends on the pixel bytes and dimensions alone. The encoder asserts that
/// the buffer length equals `width * height` and refuses a zero dimension,
/// so those inputs are excluded here; with them excluded every remaining
/// failure path is closed — the sink is a `Vec`, so no write can fail — and
/// the encoder always returns a stream.
#[verifier::external_body]
fn encode_gray_png(pixels: &Vec<u8>, width: u32, height: u32) -> (r: Option<Vec<u8>>)
    requires
        0 < width,
        0 < height,
        pixels@.len() == width * height,
    ensures
        r.is_some(),
        r.unwrap()@ == png_encoding_of(pixels@, width, height),
        png_declared_dims(r.unwrap()@) == Some((width, height)),
{
    let mut out: Vec<u8> = Vec::new();
    let encoder = image::codecs::png::PngEncoder::new(&mut out);
    match image::ImageEncoder::write_image(
        encoder,
        pixels,
        width,
        height,
        image::ExtendedColorType::L8,
    ) {
        Ok(()) => Some(out),
        Err(_) => None,
    }
}

/// Encode a grayscale pixel buffer with the dimensions it claims. It fails
/// exactly when the buffer's length is not `width * height`; a well-sized
/// buffer always encodes, and the stream declares exactly the given
/// dimensions.
pub fn encode_image(pixels: &Vec<u8>, width: u32, height: u32) -> (r: Result<Vec<u8>, EncodeError>)
    requires
        0 < width,
        0 < height,
    ensures
        r is Ok <==> pixels@.len() == width * height,
        match r {
            Ok(bytes) => bytes@ == png_encoding_of(pixels@, width, height) && png_declared_dims(
                bytes@,
            ) == Some((width, height)),
            Err(e) => e == EncodeError::DimensionMismatch,
        },
{
    proof {
        assert((width as int) * (height as int) < 0x10000000000000000i128) by (nonlinear_arith)
            requires
                width <= 0xFFFFFFFFu32,
                height <= 0xFFFFFFFFu32,
        ;
    }
    let expected: u64 = (width as u64) * (height as u64);
    if pixels.len() as u64 != expected {
        return Err(EncodeError::DimensionMismatch);
    }
    let bytes = encode_gray_png(pixels, width, height).unwrap();
    Ok(bytes)
}

} // verus!
