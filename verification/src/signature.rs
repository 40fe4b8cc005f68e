//! The visual signature of an entity: a small colour patch of fixed size.

use vstd::prelude::*;

verus! {

/// Width and height of a signature patch, in pixels.
pub const PATCH_SIDE: usize = 24;

/// Colour channels per pixel of a signature patch.
pub const PATCH_CHANNELS: usize = 3;

/// Bytes in a signature patch.
pub const PATCH_BYTES: usize = PATCH_SIDE * PATCH_SIDE * PATCH_CHANNELS;

/// A colour patch of `PATCH_SIDE` by `PATCH_SIDE` pixels, three bytes per
/// pixel, rows first. It is taken once, when an entity is created, and never
/// changes afterwards.
pub struct Signature {
    pixels: Vec<u8>,
}

impl View for Signature {
    type V = Seq<u8>;

    closed spec fn view(&self) -> Seq<u8> {
        self.pixels@
    }
}

impl Signature {
    #[verifier::type_invariant]
    spec fn sized(&self) -> bool {
        self.pixels@.len() == PATCH_BYTES
    }

    /// Wraps the bytes of a patch. Succeeds exactly when there are
    /// `PATCH_BYTES` of them.
    pub fn from_pixels(pixels: Vec<u8>) -> (signature: Option<Signature>)
        ensures
            signature is Some <==> pixels@.len() == PATCH_BYTES,
            signature matches Some(s) ==> s@ == pixels@,
    {
        if pixels.len() == PATCH_BYTES {
            Some(Signature { pixels })
        } else {
            None
        }
    }

    /// The bytes of the patch.
    pub fn pixels(&self) -> (pixels: &Vec<u8>)
        ensures
            pixels@ == self@,
            pixels@.len() == PATCH_BYTES,
    {
        proof {
            use_type_invariant(self);
        }
        &self.pixels
    }
}

} // verus!
