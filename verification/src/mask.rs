//! The colour filter: from a colour frame to the mask in which the blob
//! detector looks for enemy markers.

use vstd::prelude::*;

verus! {

/// A channel at or above this intensity counts as lit.
pub const CHANNEL_THRESHOLD: u8 = 120;

/// The value of a mask pixel that is set.
pub const MASK_SET: u8 = 255;

/// The mask of one channel: set where the channel is lit.
pub open spec fn channel_mask(value: u8) -> u8 {
    if value >= CHANNEL_THRESHOLD {
        MASK_SET
    } else {
        0
    }
}

/// The difference of two mask values, which stops at zero.
pub open spec fn without(a: u8, b: u8) -> u8 {
    if a >= b {
        (a - b) as u8
    } else {
        0
    }
}

/// The combined mask of a pixel: the mask of its red channel, less that of
/// its green channel, less that of its blue channel.
pub open spec fn marker_mask(red: u8, green: u8, blue: u8) -> u8 {
    without(without(channel_mask(red), channel_mask(green)), channel_mask(blue))
}

/// The combined mask of a frame given as bytes, three to a pixel in the
/// order red, green, blue. Bytes beyond the last whole pixel are left out.
pub open spec fn mask_of(rgb: Seq<u8>) -> Seq<u8> {
    Seq::new(
        (rgb.len() / 3) as nat,
        |i: int| marker_mask(rgb[3 * i], rgb[3 * i + 1], rgb[3 * i + 2]),
    )
}

/// A pixel is in the combined mask exactly when its red channel is lit and
/// neither its green nor its blue channel is.
pub proof fn lemma_marker_mask(red: u8, green: u8, blue: u8)
    ensures
        marker_mask(red, green, blue) == if red >= CHANNEL_THRESHOLD && green < CHANNEL_THRESHOLD
            && blue < CHANNEL_THRESHOLD {
            MASK_SET
        } else {
            0u8
        },
{
}

/// Computes the combined mask of one pixel.
pub fn mask_pixel(red: u8, green: u8, blue: u8) -> (mask: u8)
    ensures
        mask == marker_mask(red, green, blue),
{
    let lit_red: u8 = if red >= CHANNEL_THRESHOLD { MASK_SET } else { 0 };
    let lit_green: u8 = if green >= CHANNEL_THRESHOLD { MASK_SET } else { 0 };
    let lit_blue: u8 = if blue >= CHANNEL_THRESHOLD { MASK_SET } else { 0 };
    let first: u8 = if lit_red >= lit_green { lit_red - lit_green } else { 0 };
    if first >= lit_blue {
        first - lit_blue
    } else {
        0
    }
}

/// Computes the combined mask of a frame given as bytes, three to a pixel in
/// the order red, green, blue: one mask byte for each whole pixel.
pub fn color_filter(rgb: &Vec<u8>) -> (mask: Vec<u8>)
    ensures
        mask@ == mask_of(rgb@),
{
    let pixels = rgb.len() / 3;
    let mut mask: Vec<u8> = Vec::new();
    let mut i: usize = 0;
    while i < pixels
        invariant
            i <= pixels,
            pixels == rgb@.len() / 3,
            3 * pixels <= rgb@.len() <= usize::MAX,
            mask@.len() == i,
            forall|j: int| 0 <= j < i ==> mask@[j] == marker_mask(
                rgb@[3 * j],
                rgb@[3 * j + 1],
                rgb@[3 * j + 2],
            ),
        decreases pixels - i,
    {
        mask.push(mask_pixel(rgb[3 * i], rgb[3 * i + 1], rgb[3 * i + 2]));
        i += 1;
    }
    assert(mask@ =~= mask_of(rgb@));
    mask
}

} // verus!
