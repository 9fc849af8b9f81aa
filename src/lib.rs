//! Image-to-printer pipeline for thermal receipt printers: a packed 1-bit
//! canvas, Floyd–Steinberg dithering of a lightness buffer, the lightness
//! computation itself, and the framing of a canvas into raster commands that
//! fit the printer's buffer.
use vstd::prelude::*;

pub mod bitimage;
pub mod commands;
pub mod dither;
pub mod error;
pub mod render;
pub mod transmit;

verus! {

} // verus!
