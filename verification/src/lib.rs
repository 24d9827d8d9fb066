//! Verified rANS entropy coder: raw rANS primitives (byte and 64-bit
//! variants), PMF/CDF entropy layer with bypass coding, persistent
//! multipart streams and the resizable output buffer.
use vstd::prelude::*;

pub mod adapter;
pub mod arithmetic;
pub mod bench;
pub mod buffer;
pub mod calendar;
pub mod casefile;
pub mod corpus;
pub mod decoder_cases;
pub mod court;
pub mod entropy;
pub mod error;
pub mod hardening_court;
pub mod hex;
pub mod message_bounds;
pub mod oracle;
pub mod pmf;
pub mod pmf_cases;
pub mod pmf_courts;
pub mod provenance;
pub mod raw_64;
pub mod raw_byte;
pub mod raw_cases;
pub mod raw_corpus;
pub mod roundtrip;
pub mod seal;
pub mod sink;
pub mod source;
pub mod stream;
pub mod stream_cases;
pub mod stream_court;
pub mod text;
pub mod variant;
pub mod verdict;
pub mod wire;

verus! {

/// Frequency type used throughout the coder (`rans_freq_t`).
pub type Freq = u32;

} // verus!

pub use raw_64::{Rans64DecSymbol, Rans64Decoder, Rans64EncSymbol, Rans64Encoder};
pub use raw_byte::{RansByteDecSymbol, RansByteDecoder, RansByteEncSymbol, RansByteEncoder};
pub use variant::RansVariant;
