//! Casefile and residual record formats of the differential courts, and
//! the SHA-256 hex digests that identify their inputs and outputs.
use crate::hex::{encode, hex_chars};
use sha2::Digest;
use vstd::prelude::*;

verus! {

/// Supported residual classifications.
#[derive(Debug, Clone, Copy, PartialEq, Eq, Structural)]
pub enum ResidualClassification {
    /// Bug in the native implementation.
    NativeBug,
    /// Bug in the reference oracle.
    OracleBug,
    /// Oracle depends on undefined behaviour or debug assertions only.
    OracleUndefinedOrAssertOnly,
    /// Different invalid-input handling policies.
    InvalidInputPolicy,
    /// Platform or endianness divergence.
    PlatformOrEndianDivergence,
    /// Python API behavioural divergence.
    PythonApiDivergence,
    /// Performance residual (not a correctness issue).
    PerformanceResidual,
    /// Intentional safety divergence (the native side rejects undefined behaviour).
    IntentionalSafetyDivergence,
    /// Environment-related divergence.
    Environmental,
    /// Classification not yet determined.
    Unclassified,
}

/// Resolution states of a residual.
#[derive(Debug, Clone, Copy, PartialEq, Eq, Structural)]
pub enum ResolutionState {
    /// Newly discovered, not yet investigated.
    Open,
    /// Successfully reproduced.
    Reproduced,
    /// Minimised to the smallest reproducer.
    Minimized,
    /// Root cause identified and explained.
    Explained,
    /// Corrective action applied.
    Fixed,
    /// Proved and permanently recorded.
    Sealed,
}

/// Court receipt.
#[derive(Debug, Clone)]
pub struct CourtReceipt {
    /// Schema version.
    pub schema_version: u32,
    /// Court identifier.
    pub court_id: String,
    /// Case count.
    pub case_count: u64,
    /// Pass count.
    pub pass_count: u64,
    /// Residual count.
    pub residual_count: u64,
    /// Skipped count.
    pub skipped_count: u64,
    /// Skip reasons.
    pub skip_reasons: Option<Vec<String>>,
    /// Timestamp.
    pub timestamp: String,
    /// Native commit.
    pub rust_commit: String,
    /// Oracle commit.
    pub oracle_commit: String,
    /// Environment fingerprint.
    pub environment_sha256: String,
    /// Transcript hash.
    pub transcript_hash: String,
    /// Docker provenance.
    pub docker: Option<DockerProvenance>,
}

/// Docker provenance of a court receipt.
#[derive(Debug, Clone)]
pub struct DockerProvenance {
    /// Docker project name.
    pub project_name: String,
    /// Run identifier.
    pub run_id: String,
    /// Container ID.
    pub container_id: String,
    /// Container name.
    pub container_name: String,
    /// Image ID.
    pub image_id: String,
    /// Image digest.
    pub image_digest: String,
    /// Platform.
    pub platform: String,
    /// Distribution.
    pub distribution: String,
    /// Distribution version.
    pub distribution_version: String,
    /// Network mode.
    pub network_mode: String,
    /// Whether privileged.
    pub privileged: bool,
    /// Storage root.
    pub storage_root: String,
}

/// A single differential comparison result.
#[derive(Debug, Clone)]
pub struct DifferentialResult {
    /// Schema version.
    pub schema_version: u32,
    /// Court ID.
    pub court_id: String,
    /// Case ID (content hash).
    pub case_id: String,
    /// Oracle commit.
    pub oracle_commit: String,
    /// Native commit.
    pub rust_commit: String,
    /// Random seed.
    pub seed: u64,
    /// Variant.
    pub variant: String,
    /// Input hashes.
    pub input_hashes: InputHashes,
    /// Oracle result.
    pub oracle: OracleResult,
    /// Native implementation result.
    pub native: NativeResult,
    /// Comparison.
    pub comparison: Comparison,
    /// Classification.
    pub classification: ResidualClassification,
    /// Resolution state.
    pub resolution: ResolutionState,
    /// Path to the minimised casefile.
    pub minimized_casefile: Option<String>,
    /// Environment hash.
    pub environment_sha256: String,
}

/// Input hashes of a casefile.
#[derive(Debug, Clone)]
pub struct InputHashes {
    /// PMF lengths hash.
    pub pmf_lengths_sha256: String,
    /// PMF offsets hash.
    pub pmf_offsets_sha256: String,
    /// PMF table hash.
    pub pmf_table_sha256: String,
    /// Indices hash.
    pub indices_sha256: String,
    /// Values hash.
    pub values_sha256: String,
}

/// Oracle test result.
#[derive(Debug, Clone)]
pub struct OracleResult {
    /// Status.
    pub status: String,
    /// Output hash.
    pub output_sha256: String,
    /// Output length.
    pub length: u64,
}

/// Native implementation test result.
#[derive(Debug, Clone)]
pub struct NativeResult {
    /// Status.
    pub status: String,
    /// Output hash.
    pub output_sha256: String,
    /// Output length.
    pub length: u64,
}

/// Comparison between oracle and native outputs.
#[derive(Debug, Clone, Copy, PartialEq, Eq, Structural)]
pub struct Comparison {
    /// Whether outputs are exactly equal.
    pub exact: bool,
    /// First differing byte offset (`None` on an exact match).
    pub first_differing_offset: Option<u64>,
    /// Number of differing bytes (`None` on an exact match).
    pub differing_bytes: Option<u64>,
}

/// The SHA-256 digest of a byte string.
pub uninterp spec fn sha256_digest(data: Seq<u8>) -> Seq<u8>;

/// The SHA-256 digest of `data`, computed by `sha2::Sha256::digest`:
/// the digest function of the bytes, 32 bytes long.
#[verifier::external_body]
fn sha256_bytes(data: &[u8]) -> (d: Vec<u8>)
    ensures
        d@ == sha256_digest(data@),
        d@.len() == 32,
{
    sha2::Sha256::digest(data).to_vec()
}

/// The lower-case hex SHA-256 of a byte string.
pub open spec fn sha_hex(data: Seq<u8>) -> Seq<char> {
    hex_chars(sha256_digest(data))
}

/// Lower-case hex SHA-256 of a byte string (64 characters).
pub fn sha256(data: &[u8]) -> (s: String)
    ensures
        s@ == sha_hex(data@),
{
    let digest: Vec<u8> = sha256_bytes(data);
    encode(digest.as_slice())
}

} // verus!
