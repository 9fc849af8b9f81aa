//! The ways a print job can fail.
use vstd::prelude::*;
use crate::bitimage::BoundsError;

verus! {

/// Every failure aborts the current print job.
#[derive(Debug, Clone, Copy, PartialEq, Eq, Structural)]
pub enum PrintError {
    /// The source image could not be read or decoded.
    Decode,
    /// A width or height of zero, one too large for the printer, or a
    /// buffer whose length does not match its dimensions.
    InvalidDimensions,
    /// A pixel was addressed outside its canvas.
    Bounds(BoundsError),
    /// Writing to or flushing the device failed.
    Io,
}

} // verus!
