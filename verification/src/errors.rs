//! The error taxonomy of the detection engine.  Every failure is returned
//! to the caller as a value; no partial result is ever surfaced as a
//! success.

use vstd::prelude::*;

verus! {

/// The input bytes are not a decodable image.  Always recoverable; the
/// engine's state is left untouched.
#[derive(Clone, Copy, PartialEq, Eq, Structural, Debug)]
pub struct DecodeError;

/// Loading a model failed; the engine keeps its previous state.
#[derive(PartialEq, Eq, Debug)]
pub enum ModelLoadError {
    /// The backend could not load the model; carries its message verbatim.
    Backend(String),
    /// The class catalog file held no class names.
    EmptyCatalog,
}

/// A detection call failed.
#[derive(PartialEq, Eq, Debug)]
pub enum DetectError {
    /// `detect_image` was called before a model was loaded.
    NotInitialized,
    /// The image bytes could not be decoded.
    Decode,
    /// The backend failed or returned a malformed tensor; carries the
    /// backend's message verbatim.
    Inference(String),
}

/// A threshold update named a class absent from the catalog; nothing was
/// changed.
#[derive(Clone, Copy, PartialEq, Eq, Structural, Debug)]
pub struct UnknownClassError;

impl DecodeError {
    /// A human-readable description.
    pub fn message(&self) -> (r: String)
        ensures
            r@ == "image bytes could not be decoded"@,
    {
        "image bytes could not be decoded".to_owned()
    }
}

impl UnknownClassError {
    /// A human-readable description.
    pub fn message(&self) -> (r: String)
        ensures
            r@ == "class name is not in the catalog"@,
    {
        "class name is not in the catalog".to_owned()
    }
}

} // verus!
