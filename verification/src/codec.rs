//! Image decoding and resizing, relied upon from the `image` crate.
//!
//! Decoding and resizing are pure functions of their byte inputs, so their
//! results are given names (`decoded_rgb`, `resized_rgb`) that the
//! preprocessing contracts are stated over; nothing else is assumed about
//! the pixel values.

use vstd::prelude::*;

verus! {

/// What `image::load_from_memory` followed by conversion to tightly packed
/// interleaved RGB yields for the given bytes: `None` when the bytes are
/// not a supported image, else the width, height and the `3 * w * h`
/// interleaved samples.
pub uninterp spec fn decoded_rgb(bytes: Seq<u8>) -> Option<(u32, u32, Seq<u8>)>;

/// What resampling a `sw` by `sh` interleaved RGB image to `tw` by `th`
/// with the Lanczos filter yields: `3 * tw * th` interleaved samples.
pub uninterp spec fn resized_rgb(pixels: Seq<u8>, sw: u32, sh: u32, tw: u32, th: u32) -> Seq<u8>;

/// Decode raw image bytes into interleaved RGB samples.
///
/// Relies on `image::load_from_memory` and `DynamicImage::to_rgb8`:
/// decoding is a pure function of the bytes, empty input is not a valid
/// image in any supported format, and an `RgbImage`'s raw buffer holds
/// exactly `3 * width * height` samples.
#[verifier::external_body]
pub(crate) fn decode_rgb(bytes: &[u8]) -> (r: Option<(u32, u32, Vec<u8>)>)
    ensures
        r is Some <==> decoded_rgb(bytes@) is Some,
        r matches Some(t) ==> decoded_rgb(bytes@) == Some((t.0, t.1, t.2@)),
        r matches Some(t) ==> t.2@.len() == 3 * (t.0 as int) * (t.1 as int),
        bytes@.len() == 0 ==> r is None,
{
    match image::load_from_memory(bytes) {
        Ok(img) => {
            let rgb = img.to_rgb8();
            let w = rgb.width();
            let h = rgb.height();
            Some((w, h, rgb.into_raw()))
        },
        Err(_) => None,
    }
}

/// Resample an interleaved RGB image to the target resolution.
///
/// Relies on `image::imageops::resize` with `FilterType::Lanczos3`: the
/// result is a pure function of the input samples and dimensions, and has
/// exactly `3 * tw * th` samples.  `RgbImage::from_raw` accepts the buffer
/// because its length matches the dimensions exactly.
#[verifier::external_body]
pub(crate) fn resize_rgb(pixels: Vec<u8>, sw: u32, sh: u32, tw: u32, th: u32) -> (r: Vec<u8>)
    requires
        pixels@.len() == 3 * (sw as int) * (sh as int),
        1 <= tw <= 8192,
        1 <= th <= 8192,
    ensures
        r@ == resized_rgb(pixels@, sw, sh, tw, th),
        r@.len() == 3 * (tw as int) * (th as int),
{
    let img = image::RgbImage::from_raw(sw, sh, pixels).unwrap();
    let out = image::imageops::resize(&img, tw, th, image::imageops::FilterType::Lanczos3);
    out.into_raw()
}

} // verus!
