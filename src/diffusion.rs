//! The quantization error of one pixel and its weighted diffusion into a neighbour.
use vstd::prelude::*;
use crate::pixel::Pixel;

verus! {

/// Diffusion weights are counted in sixteenths.
pub const WEIGHT_DENOMINATOR: u8 = 16;

/// Per-channel signed difference `original - quantized`.
#[derive(Clone, Copy, Debug, PartialEq, Eq, Structural)]
pub struct QuantError {
    pub r: i16,
    pub g: i16,
    pub b: i16,
}

/// The error left when `original` is replaced by `quantized`.
pub open spec fn error_between(original: Pixel, quantized: Pixel) -> QuantError {
    QuantError {
        r: (original.r - quantized.r) as i16,
        g: (original.g - quantized.g) as i16,
        b: (original.b - quantized.b) as i16,
    }
}

/// A channel value `t` after adding `weight / 16` of the error `e`: the exact sum
/// `t + e * weight / 16` truncated toward zero, then saturated to `[0, 255]`.
pub open spec fn diffused_channel(t: u8, e: int, weight: int) -> u8 {
    let v = WEIGHT_DENOMINATOR * t + e * weight;
    if v <= 0 {
        0
    } else if v / (WEIGHT_DENOMINATOR as int) >= 255 {
        255
    } else {
        (v / (WEIGHT_DENOMINATOR as int)) as u8
    }
}

/// The pixel `p` after receiving `weight / 16` of the error `e` in each channel.
pub open spec fn diffused(p: Pixel, e: QuantError, weight: int) -> Pixel {
    Pixel {
        r: diffused_channel(p.r, e.r as int, weight),
        g: diffused_channel(p.g, e.g as int, weight),
        b: diffused_channel(p.b, e.b as int, weight),
    }
}

fn diff(x: u8, y: u8) -> (d: i16)
    ensures
        d == x - y,
{
    x as i16 - y as i16
}

/// The per-channel error `a - b`, each channel in `[-255, 255]`.
pub fn calculate_quant_error(a: &Pixel, b: &Pixel) -> (e: QuantError)
    ensures
        e == error_between(*a, *b),
        e.r == a.r - b.r,
        e.g == a.g - b.g,
        e.b == a.b - b.b,
{
    QuantError { r: diff(a.r, b.r), g: diff(a.g, b.g), b: diff(a.b, b.b) }
}

fn add_err(t: u8, e: i16, weight: u8) -> (r: u8)
    ensures
        r == diffused_channel(t, e as int, weight as int),
{
    assert(-8_388_608 <= (e as int) * (weight as int) <= 8_388_608) by (nonlinear_arith)
        requires
            -32768 <= e <= 32767,
            0 <= weight <= 255,
    ;
    let scaled: i32 = (t as i32) * 16;
    let share: i32 = (e as i32) * (weight as i32);
    let v: i32 = scaled + share;
    if v <= 0 {
        0
    } else if v / (WEIGHT_DENOMINATOR as i32) >= 255 {
        255
    } else {
        (v / (WEIGHT_DENOMINATOR as i32)) as u8
    }
}

/// Adds `weight / 16` of the error `err` to each channel of `to`, truncating the
/// exact sum toward zero and saturating it to `[0, 255]`.
pub fn add_quant_error(to: &mut Pixel, err: &QuantError, weight: u8)
    ensures
        *final(to) == diffused(*old(to), *err, weight as int),
{
    let r = add_err(to.r, err.r, weight);
    let g = add_err(to.g, err.g, weight);
    let b = add_err(to.b, err.b, weight);
    *to = Pixel { r, g, b };
}

} // verus!
