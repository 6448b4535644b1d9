//! Image preprocessing: decode, resize to the model's fixed input
//! resolution, rearrange interleaved RGB into channel-major (planar)
//! layout, and cache the result keyed by a content digest of the raw
//! bytes.
//!
//! Samples are kept as raw bytes; a sample byte `b` stands for the
//! normalized value `b / 255`, so normalization is exact and the layout
//! transform is verified bit for bit.
//!
//! Resizing stretches the image to the fixed input resolution without
//! letterboxing; post-processing rescales coordinates back with the same
//! plain per-axis factors, so the two stay consistent.

use vstd::arithmetic::div_mod::lemma_fundamental_div_mod_converse;
use vstd::prelude::*;

use crate::codec::{decode_rgb, decoded_rgb, resize_rgb, resized_rgb};
use crate::digest::{compute, digest_spec, Digest};
use crate::errors::DecodeError;

verus! {

/// Default model input width, in pixels.
pub const DEFAULT_INPUT_WIDTH: u32 = 640;

/// Default model input height, in pixels.
pub const DEFAULT_INPUT_HEIGHT: u32 = 640;

/// A preprocessed image: `3 * width * height` samples in channel-major
/// (planar) order — all red samples row by row, then all green, then all
/// blue.  Sample byte `b` stands for the normalized value `b / 255`.
pub struct InputTensor {
    pub width: u32,
    pub height: u32,
    pub data: Vec<u8>,
}

impl InputTensor {
    /// The sample count matches the dimensions.
    pub open spec fn wf(self) -> bool {
        self.data@.len() == 3 * (self.width as int) * (self.height as int)
    }
}

impl Clone for InputTensor {
    fn clone(&self) -> (r: Self)
        ensures
            r.width == self.width,
            r.height == self.height,
            r.data@ == self.data@,
    {
        InputTensor { width: self.width, height: self.height, data: self.data.clone() }
    }
}

/// Interleaved RGB samples rearranged into channel-major order: planar
/// index `c * w * h + q` holds interleaved sample `3 * q + c`.
pub open spec fn chw_of(pixels: Seq<u8>, w: int, h: int) -> Seq<u8> {
    Seq::new((3 * w * h) as nat, |p: int| pixels[3 * (p % (w * h)) + p / (w * h)])
}

/// The tensor samples that preprocessing produces for decodable bytes:
/// decode, resize to `tw` by `th`, and rearrange into planar order.
pub open spec fn preprocess_samples_spec(bytes: Seq<u8>, tw: u32, th: u32) -> Seq<u8>
    recommends
        decoded_rgb(bytes) is Some,
{
    let d = decoded_rgb(bytes)->Some_0;
    chw_of(resized_rgb(d.2, d.0, d.1, tw, th), tw as int, th as int)
}

/// Rearrange tightly packed interleaved RGB samples into planar order,
/// verified against `chw_of`.
pub fn to_planar(pixels: &Vec<u8>, w: u32, h: u32) -> (r: Vec<u8>)
    requires
        pixels@.len() == 3 * (w as int) * (h as int),
    ensures
        r@ == chw_of(pixels@, w as int, h as int),
{
    let total = pixels.len();
    proof {
        assert((w as int) * (h as int) * 3 == 3 * (w as int) * (h as int)) by (nonlinear_arith);
    }
    let wh = total / 3;
    proof {
        lemma_fundamental_div_mod_converse(
            total as int,
            3,
            (w as int) * (h as int),
            0,
        );
        assert(wh == (w as int) * (h as int));
    }
    let mut out: Vec<u8> = Vec::new();
    let mut c: usize = 0;
    while c < 3
        invariant
            wh == (w as int) * (h as int),
            total == pixels@.len(),
            total == 3 * wh,
            c <= 3,
            out@.len() == c * wh,
            forall|p: int|
                0 <= p < out@.len() ==> #[trigger] out@[p] == pixels@[3 * (p % (wh as int)) + p
                    / (wh as int)],
        decreases 3 - c,
    {
        let mut q: usize = 0;
        while q < wh
            invariant
                wh == (w as int) * (h as int),
                total == pixels@.len(),
                total == 3 * wh,
                c < 3,
                q <= wh,
                out@.len() == c * wh + q,
                forall|p: int|
                    0 <= p < out@.len() ==> #[trigger] out@[p] == pixels@[3 * (p % (wh as int))
                        + p / (wh as int)],
            decreases wh - q,
        {
            proof {
                assert(3 * q + c < 3 * wh) by (nonlinear_arith)
                    requires
                        0 <= q < wh,
                        0 <= c < 3,
                ;
                assert(c * wh + q < 3 * wh) by (nonlinear_arith)
                    requires
                        0 <= q < wh,
                        0 <= c < 3,
                ;
            }
            let sample = pixels[3 * q + c];
            out.push(sample);
            proof {
                if wh > 0 {
                    lemma_fundamental_div_mod_converse(
                        (c * wh + q) as int,
                        wh as int,
                        c as int,
                        q as int,
                    );
                }
                assert(out@[out@.len() - 1] == pixels@[3 * (((c * wh + q) as int) % (wh as int))
                    + ((c * wh + q) as int) / (wh as int)]);
            }
            q += 1;
        }
        proof {
            assert(((c + 1) as int) * (wh as int) == (c as int) * (wh as int) + (wh as int))
                by (nonlinear_arith);
        }
        c += 1;
    }
    proof {
        assert(out@ =~= chw_of(pixels@, w as int, h as int));
    }
    out
}

/// The outcome of one preprocessing call: the tensor, the original image
/// dimensions (always freshly decoded), and whether the cache hit.
pub struct PreprocessOutcome {
    pub tensor: InputTensor,
    pub width: u32,
    pub height: u32,
    pub cache_hit: bool,
}

/// The preprocessor: a fixed input resolution and the single-slot cache
/// of the most recent tensor, keyed by the content digest of the raw
/// bytes that produced it.
pub struct Preprocessor {
    pub input_width: u32,
    pub input_height: u32,
    pub cache: Option<(Digest, InputTensor)>,
}

impl Preprocessor {
    /// Input resolution within the supported range and a well-formed
    /// cached digest and tensor.
    pub open spec fn wf(self) -> bool {
        &&& 1 <= self.input_width <= 8192
        &&& 1 <= self.input_height <= 8192
        &&& self.cache matches Some(c) ==> c.0.wf() && c.1.wf() && c.1.width == self.input_width
            && c.1.height == self.input_height
    }

    /// A fresh preprocessor with an empty cache.
    pub fn new(input_width: u32, input_height: u32) -> (r: Self)
        requires
            1 <= input_width <= 8192,
            1 <= input_height <= 8192,
        ensures
            r.wf(),
            r.input_width == input_width,
            r.input_height == input_height,
            r.cache is None,
    {
        Preprocessor { input_width, input_height, cache: None }
    }

    /// Whether the cache currently holds the tensor for `bytes`.
    pub open spec fn cache_matches(self, bytes: Seq<u8>) -> bool {
        self.cache matches Some(c) && c.0@ == digest_spec(bytes)
    }

    /// Preprocess raw image bytes into the model's input tensor and the
    /// freshly decoded original dimensions.
    ///
    /// Fails exactly when the bytes are not a decodable image, leaving the
    /// cache untouched.  On success the cache ends up holding the digest
    /// of `bytes` and the returned tensor, so a second call with the same
    /// bytes hits the cache and returns the identical tensor.
    pub fn preprocess(&mut self, bytes: &[u8]) -> (r: Result<PreprocessOutcome, DecodeError>)
        requires
            old(self).wf(),
        ensures
            final(self).wf(),
            final(self).input_width == old(self).input_width,
            final(self).input_height == old(self).input_height,
            r is Ok <==> decoded_rgb(bytes@) is Some,
            r is Err ==> *final(self) == *old(self),
            r matches Ok(o) ==> {
                &&& decoded_rgb(bytes@) matches Some(d) && o.width == d.0 && o.height == d.1
                &&& o.cache_hit == old(self).cache_matches(bytes@)
                &&& o.tensor.wf()
                &&& o.tensor.width == old(self).input_width
                &&& o.tensor.height == old(self).input_height
                &&& (o.cache_hit ==> o.tensor.data@ == old(self).cache->Some_0.1.data@
                    && final(self).cache == old(self).cache)
                &&& (!o.cache_hit ==> o.tensor.data@ == preprocess_samples_spec(
                    bytes@,
                    old(self).input_width,
                    old(self).input_height,
                ))
                &&& final(self).cache_matches(bytes@)
                &&& final(self).cache matches Some(c) && c.1.data@ == o.tensor.data@
            },
    {
        let key = compute(bytes);
        let decoded = decode_rgb(bytes);
        match decoded {
            None => Err(DecodeError),
            Some((ow, oh, pixels)) => {
                let mut hit = false;
                if let Some((cached_key, _)) = &self.cache {
                    if cached_key.equals(&key) {
                        hit = true;
                    }
                }
                if hit {
                    let tensor = match &self.cache {
                        Some((_, t)) => t.clone(),
                        None => InputTensor { width: 0, height: 0, data: Vec::new() },
                    };
                    Ok(PreprocessOutcome { tensor, width: ow, height: oh, cache_hit: true })
                } else {
                    let resized = resize_rgb(pixels, ow, oh, self.input_width, self.input_height);
                    let data = to_planar(&resized, self.input_width, self.input_height);
                    let tensor = InputTensor {
                        width: self.input_width,
                        height: self.input_height,
                        data,
                    };
                    self.cache = Some((key, tensor.clone()));
                    Ok(
                        PreprocessOutcome {
                            tensor,
                            width: ow,
                            height: oh,
                            cache_hit: false,
                        },
                    )
                }
            },
        }
    }

    /// Drop the cached tensor.
    pub fn clear_cache(&mut self)
        requires
            old(self).wf(),
        ensures
            final(self).wf(),
            final(self).cache is None,
            final(self).input_width == old(self).input_width,
            final(self).input_height == old(self).input_height,
    {
        self.cache = None;
    }
}

} // verus!
