//! Errors of the raw rANS primitives.
use vstd::prelude::*;

verus! {

/// Errors that can occur during checked raw rANS operations.
#[derive(Debug, Clone, Copy, PartialEq, Eq, Structural)]
pub enum RawRansError {
    /// `scale_bits` lies outside `[2, max_safe]` for the variant
    /// (RansByte: `[2, 30]`; Rans64: `[2, 31]`, since `scale_bits == 32`
    /// would shift a 32-bit value by its full width).
    InvalidScaleBits {
        /// The provided scale_bits value.
        provided: u32,
        /// The largest accepted value for this variant.
        max_safe: u32,
    },
    /// Frequency or start values are out of range.
    InvalidParameters,
}

} // verus!
