//! Configuration of the matched native and oracle benchmark harness.
use vstd::prelude::*;

verus! {

/// A benchmark configuration.
pub struct BenchConfig {
    /// Variant name.
    pub variant: &'static str,
    /// Symbols per batch.
    pub symbol_count: usize,
    /// Number of distributions.
    pub distribution_count: usize,
    /// Iterations.
    pub iterations: usize,
}

} // verus!
