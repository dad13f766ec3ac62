use vstd::prelude::*;

verus! {

#[verifier::external_type_specification]
#[verifier::external_body]
pub struct ExImageError(image::ImageError);

/// Decodes `bytes` with `image::load_from_memory` (format guessed from the
/// data) and converts the image to 8-bit gray levels with `to_luma8`.
/// Trusted: the gray buffer of an image holds at least one byte per pixel.
/// Nothing is said of which outcome comes back: the crate guesses the format
/// and picks the decoder through process-wide hook tables that any code may
/// extend at run time, so the same bytes may decode in one call and not in
/// another (it also panics if the lock on those tables is poisoned).
#[verifier::external_body]
fn load_luma8(bytes: &[u8]) -> (r: Result<(u32, u32, Vec<u8>), image::ImageError>)
    ensures
        r matches Ok((w, h, pixels)) ==> pixels@.len() >= w * h,
{
    match image::load_from_memory(bytes) {
        Ok(img) => {
            let gray = img.to_luma8();
            let (w, h) = gray.dimensions();
            Ok((w, h, gray.into_raw()))
        },
        Err(e) => Err(e),
    }
}

/// Why an image could not be loaded.
#[derive(Clone, Copy, Debug, PartialEq, Eq, Structural)]
pub enum DecodeError {
    /// The bytes are not an image in a supported format.
    Unreadable,
}

/// An 8-bit gray image, row-major.
#[derive(Clone, Debug)]
pub struct GrayImage {
    pub width: usize,
    pub height: usize,
    pub pixels: Vec<u8>,
}

impl GrayImage {
    /// The pixel buffer holds one byte per pixel.
    pub open spec fn wf(&self) -> bool {
        self.pixels@.len() == self.width * self.height
    }
}

/// A `w × h` gray image made of the first `w × h` bytes of `raw`.
pub fn gray_from_raw(w: u32, h: u32, raw: Vec<u8>) -> (g: GrayImage)
    requires
        raw@.len() >= w * h,
    ensures
        g.wf(),
        g.width == w,
        g.height == h,
        g.pixels@ == raw@.subrange(0, w * h),
{
    let available = raw.len();
    assert(w * h <= available);
    let n = (w as usize) * (h as usize);
    let mut pixels: Vec<u8> = Vec::new();
    let mut i: usize = 0;
    while i < n
        invariant
            n == w * h,
            raw@.len() >= n,
            i <= n,
            pixels@ == raw@.subrange(0, i as int),
        decreases n - i,
    {
        pixels.push(raw[i]);
        i = i + 1;
    }
    GrayImage { width: w as usize, height: h as usize, pixels }
}

/// Decodes a PNG, JPEG or BMP image into gray levels: the first
/// `width × height` gray levels that the `image` crate decodes from the
/// bytes (see `gray_from_raw`), or `Unreadable` when it cannot decode them.
pub fn decode_gray(bytes: &[u8]) -> (r: Result<GrayImage, DecodeError>)
    ensures
        r matches Ok(g) ==> g.wf(),
        r matches Err(e) ==> e == DecodeError::Unreadable,
{
    match load_luma8(bytes) {
        Ok((w, h, raw)) => Ok(gray_from_raw(w, h, raw)),
        Err(_) => Err(DecodeError::Unreadable),
    }
}

} // verus!
