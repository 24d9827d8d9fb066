//! The two rANS variants: `RansByte` (32-bit state, 8-bit units) and
//! `Rans64` (64-bit state, 32-bit units).
use vstd::prelude::*;

verus! {

/// rANS variant for runtime dispatch.
#[derive(Debug, Clone, Copy, PartialEq, Eq, Structural)]
pub enum RansVariant {
    /// 32-bit state with 8-bit units.
    RansByte,
    /// 64-bit state with 32-bit units.
    Rans64,
}

impl RansVariant {
    /// Size of the state type in bytes.
    pub fn state_size(&self) -> (n: usize)
        ensures
            n == (match *self {
                RansVariant::RansByte => 4usize,
                RansVariant::Rans64 => 8usize,
            }),
    {
        match self {
            RansVariant::RansByte => 4,
            RansVariant::Rans64 => 8,
        }
    }

    /// Size of the unit type in bytes.
    pub fn unit_size(&self) -> (n: usize)
        ensures
            n == (match *self {
                RansVariant::RansByte => 1usize,
                RansVariant::Rans64 => 4usize,
            }),
    {
        match self {
            RansVariant::RansByte => 1,
            RansVariant::Rans64 => 4,
        }
    }

    /// The variant's integer code: `Rans64 = 0`, `RansByte = 1`.
    pub fn as_int(&self) -> (v: i32)
        ensures
            v == (match *self {
                RansVariant::RansByte => 1i32,
                RansVariant::Rans64 => 0i32,
            }),
    {
        match self {
            RansVariant::RansByte => 1,
            RansVariant::Rans64 => 0,
        }
    }

    /// The variant of an integer code; `None` for any code but 0 and 1.
    pub fn from_int(v: i32) -> (r: Option<Self>)
        ensures
            v == 1 ==> r == Some(RansVariant::RansByte),
            v == 0 ==> r == Some(RansVariant::Rans64),
            v != 0 && v != 1 ==> r is None,
    {
        match v {
            1 => Some(RansVariant::RansByte),
            0 => Some(RansVariant::Rans64),
            _ => None,
        }
    }
}

/// Type-level rANS parameters: which variant a marker type stands for.
pub trait RansParams {
    /// The variant this marker stands for.
    spec fn spec_variant() -> RansVariant;

    /// The variant this marker stands for.
    fn variant() -> (v: RansVariant)
        ensures
            v == Self::spec_variant(),
    ;
}

/// RansByte variant marker: u32 state, u8 unit.
#[derive(Debug, Clone, Copy, PartialEq, Eq, Structural)]
pub struct RansByte;

impl RansParams for RansByte {
    open spec fn spec_variant() -> RansVariant {
        RansVariant::RansByte
    }

    fn variant() -> (v: RansVariant) {
        RansVariant::RansByte
    }
}

/// Rans64 variant marker: u64 state, u32 unit.
#[derive(Debug, Clone, Copy, PartialEq, Eq, Structural)]
pub struct Rans64;

impl RansParams for Rans64 {
    open spec fn spec_variant() -> RansVariant {
        RansVariant::Rans64
    }

    fn variant() -> (v: RansVariant) {
        RansVariant::Rans64
    }
}

} // verus!
