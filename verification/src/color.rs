//! RGB colors and the randomized per-channel perturbation applied when a
//! live cell hands its color down to a newly spread neighbor.

use vstd::prelude::*;

use crate::rng::{rand_below, rand_bool, rand_byte};

verus! {

/// An RGB triple. Every channel is an 8-bit value, so all channel
/// arithmetic saturates at 0 and 255 rather than wrapping.
#[derive(Clone, Copy, Debug, PartialEq, Eq, Structural)]
pub struct Color {
    pub red: u8,
    pub green: u8,
    pub blue: u8,
}

/// `v - m`, clamped at 0.
pub open spec fn sat_sub(v: u8, m: u8) -> u8 {
    if v >= m {
        (v - m) as u8
    } else {
        0
    }
}

/// `v + m`, clamped at 255.
pub open spec fn sat_add(v: u8, m: u8) -> u8 {
    if v + m <= 255 {
        (v + m) as u8
    } else {
        255
    }
}

/// What one randomized channel perturbation may produce: with a zero bound
/// the channel is untouched; otherwise some magnitude strictly below the
/// bound was either subtracted or added, saturating at the byte range.
pub open spec fn channel_shifted(v: u8, r: u8, shift_max: u8) -> bool {
    if shift_max == 0 {
        r == v
    } else {
        exists|m: u8| m < shift_max && (r == sat_sub(v, m) || r == sat_add(v, m))
    }
}

/// What one randomized color perturbation may produce: each channel is
/// perturbed independently under the same bound.
pub open spec fn color_shifted(c: Color, r: Color, shift_max: u8) -> bool {
    &&& channel_shifted(c.red, r.red, shift_max)
    &&& channel_shifted(c.green, r.green, shift_max)
    &&& channel_shifted(c.blue, r.blue, shift_max)
}

impl Color {
    /// The all-zero (black) color that dead cells hold.
    pub fn zero() -> (c: Color)
        ensures
            c == (Color { red: 0, green: 0, blue: 0 }),
    {
        Color { red: 0, green: 0, blue: 0 }
    }

    /// Draws three independent uniform random bytes. Any color may come
    /// back, so nothing more can be said of the result.
    pub fn random(rng: &mut rand::rngs::StdRng) -> (c: Color) {
        Color { red: rand_byte(rng), green: rand_byte(rng), blue: rand_byte(rng) }
    }
}

/// Randomly perturbs one channel value: draws a magnitude uniformly from
/// `[0, shift_max)` and a fair coin, then subtracts or adds the magnitude,
/// saturating at 0 and 255. A zero `shift_max` leaves an empty magnitude
/// range and is treated as no perturbation at all.
///
/// The result always stays inside the byte range, and with `shift_max == 0`
/// the value is returned unchanged.
pub fn shift_channel(value: u8, shift_max: u8, rng: &mut rand::rngs::StdRng) -> (r: u8)
    ensures
        channel_shifted(value, r, shift_max),
        shift_max == 0 ==> r == value,
        r <= 255,
{
    if shift_max == 0 {
        return value;
    }
    let m = rand_below(rng, shift_max as u64) as u8;
    let shifted: u8 = if rand_bool(rng) {
        if value >= m {
            value - m
        } else {
            0
        }
    } else {
        if m <= 255 - value {
            value + m
        } else {
            255
        }
    };
    assert(shifted == sat_sub(value, m) || shifted == sat_add(value, m));
    shifted
}

/// Applies `shift_channel` independently to each of the three channels,
/// with fresh random draws per channel.
pub fn shift_color(c: Color, shift_max: u8, rng: &mut rand::rngs::StdRng) -> (r: Color)
    ensures
        color_shifted(c, r, shift_max),
        shift_max == 0 ==> r == c,
{
    Color {
        red: shift_channel(c.red, shift_max, rng),
        green: shift_channel(c.green, shift_max, rng),
        blue: shift_channel(c.blue, shift_max, rng),
    }
}

} // verus!
