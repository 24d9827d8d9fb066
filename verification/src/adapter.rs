//! The test-only oracle adapter's vocabulary: which variant the oracle
//! codes, and what it answered.
use vstd::prelude::*;

verus! {

/// Oracle variant selection.
pub enum OracleVariant {
    /// The byte-renormalising variant.
    RansByte,
    /// The 64-bit state variant.
    Rans64,
}

/// An oracle answer: its status and output bytes.
pub struct OracleResult {
    /// `Ok` or the oracle's error message.
    pub status: Result<(), String>,
    /// The output bitstream.
    pub output: Vec<u8>,
}

} // verus!
