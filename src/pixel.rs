//! Pixels and the two-level-per-channel quantizer.
use vstd::prelude::*;

verus! {

/// Darkest channel level of the output palette.
pub const BLACK: u8 = 0;

/// Brightest channel level of the output palette.
pub const WHITE: u8 = 255;

/// Largest channel value that quantizes to `BLACK`.
pub const THRESHOLD: u8 = 127;

/// One RGB sample, 8 bits per channel.
#[derive(Clone, Copy, Debug, PartialEq, Eq, Structural)]
pub struct Pixel {
    pub r: u8,
    pub g: u8,
    pub b: u8,
}

impl Pixel {
    pub fn new(r: u8, g: u8, b: u8) -> (p: Pixel)
        ensures
            p == (Pixel { r, g, b }),
    {
        Pixel { r, g, b }
    }
}

/// The nearest palette level to one channel value.
pub open spec fn quantized_channel(x: u8) -> u8 {
    if x > THRESHOLD { WHITE } else { BLACK }
}

/// A channel value that is already a palette level.
pub open spec fn is_level(x: u8) -> bool {
    x == BLACK || x == WHITE
}

/// The nearest palette colour to `p`, chosen independently per channel.
pub open spec fn quantized(p: Pixel) -> Pixel {
    Pixel { r: quantized_channel(p.r), g: quantized_channel(p.g), b: quantized_channel(p.b) }
}

/// Every channel of `p` is a palette level.
pub open spec fn is_quantized(p: Pixel) -> bool {
    is_level(p.r) && is_level(p.g) && is_level(p.b)
}

fn closest(x: u8) -> (r: u8)
    ensures
        r == quantized_channel(x),
{
    if x > THRESHOLD {
        WHITE
    } else {
        BLACK
    }
}

/// Maps `pixel` to the nearest colour of the palette `{0, 255}` per channel.
pub fn find_closest_palette_color(pixel: &Pixel) -> (q: Pixel)
    ensures
        q == quantized(*pixel),
        is_quantized(q),
{
    Pixel { r: closest(pixel.r), g: closest(pixel.g), b: closest(pixel.b) }
}

/// Quantizing a pixel whose channels are all palette levels leaves it unchanged,
/// so quantizing twice is the same as quantizing once.
pub proof fn lemma_quantize_idempotent(p: Pixel)
    ensures
        is_quantized(p) ==> quantized(p) == p,
        quantized(quantized(p)) == quantized(p),
        is_quantized(quantized(p)),
{
}

} // verus!
