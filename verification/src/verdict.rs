//! Records of the differential courts: how a case's outcome becomes a
//! `DifferentialResult`, and how a residual that could not be persisted is
//! recorded instead.
use crate::casefile::{
    Comparison, DifferentialResult, InputHashes, NativeResult, OracleResult, ResidualClassification,
    ResolutionState,
};
use crate::oracle::{ORACLE_COMMIT, SCHEMA_VERSION};
use crate::text::join;
use vstd::prelude::*;
use vstd::string::*;

verus! {

/// The name of a variant code: `1` is RansByte, every other code Rans64.
pub open spec fn variant_label(variant: u32) -> Seq<char> {
    if variant == 1 {
        "RansByte"@
    } else {
        "Rans64"@
    }
}

/// The name of a variant code (see `variant_label`).
pub fn variant_name(variant: u32) -> (s: String)
    ensures
        s@ == variant_label(variant),
{
    if variant == 1 {
        String::from_str("RansByte")
    } else {
        String::from_str("Rans64")
    }
}

/// The comparison recorded when no outputs could be compared.
pub open spec fn no_comparison() -> Comparison {
    Comparison { exact: false, first_differing_offset: None, differing_bytes: None }
}

/// The comparison of two equal outputs.
pub open spec fn exact_comparison() -> Comparison {
    Comparison { exact: true, first_differing_offset: None, differing_bytes: None }
}

/// `r` is the record of a court run with the given parts, stamped with the
/// schema version and the oracle commit.
pub open spec fn is_record(
    r: DifferentialResult,
    court_id: Seq<char>,
    case_id: Seq<char>,
    seed: u64,
    variant: u32,
    comparison: Comparison,
    classification: ResidualClassification,
    resolution: ResolutionState,
    rust_commit: Seq<char>,
    environment: Seq<char>,
) -> bool {
    &&& r.schema_version == SCHEMA_VERSION
    &&& r.court_id@ == court_id
    &&& r.case_id@ == case_id
    &&& r.oracle_commit@ == ORACLE_COMMIT@
    &&& r.rust_commit@ == rust_commit
    &&& r.seed == seed
    &&& r.variant@ == variant_label(variant)
    &&& r.comparison == comparison
    &&& r.classification == classification
    &&& r.resolution == resolution
    &&& r.minimized_casefile is None
    &&& r.environment_sha256@ == environment
}

/// The five input hashes are the given texts.
pub open spec fn hashes_are(
    h: InputHashes,
    a: Seq<char>,
    b: Seq<char>,
    c: Seq<char>,
    d: Seq<char>,
    e: Seq<char>,
) -> bool {
    &&& h.pmf_lengths_sha256@ == a
    &&& h.pmf_offsets_sha256@ == b
    &&& h.pmf_table_sha256@ == c
    &&& h.indices_sha256@ == d
    &&& h.values_sha256@ == e
}

/// The oracle side of a record.
pub open spec fn oracle_is(o: OracleResult, status: Seq<char>, sha: Seq<char>, length: int) -> bool {
    &&& o.status@ == status
    &&& o.output_sha256@ == sha
    &&& o.length == length
}

/// The native side of a record.
pub open spec fn native_is(n: NativeResult, status: Seq<char>, sha: Seq<char>, length: int) -> bool {
    &&& n.status@ == status
    &&& n.output_sha256@ == sha
    &&& n.length == length
}

/// Assemble the record of one case.
pub fn court_record(
    court_id: &str,
    case_id: String,
    seed: u64,
    variant: u32,
    input_hashes: InputHashes,
    oracle: OracleResult,
    native: NativeResult,
    comparison: Comparison,
    classification: ResidualClassification,
    resolution: ResolutionState,
    rust_commit: &str,
    environment_sha256: &str,
) -> (r: DifferentialResult)
    ensures
        is_record(
            r,
            court_id@,
            case_id@,
            seed,
            variant,
            comparison,
            classification,
            resolution,
            rust_commit@,
            environment_sha256@,
        ),
        r.input_hashes == input_hashes,
        r.oracle == oracle,
        r.native == native,
{
    DifferentialResult {
        schema_version: SCHEMA_VERSION,
        court_id: String::from_str(court_id),
        case_id,
        oracle_commit: String::from_str(ORACLE_COMMIT),
        rust_commit: String::from_str(rust_commit),
        seed,
        variant: variant_name(variant),
        input_hashes,
        oracle,
        native,
        comparison,
        classification,
        resolution,
        minimized_casefile: None,
        environment_sha256: String::from_str(environment_sha256),
    }
}

/// The record that stands for a residual whose file could not be written:
/// the same record under the case id `residual_persistence_failure:<id>`,
/// classified as environmental, with no comparison.
pub fn persistence_failure(result: DifferentialResult) -> (r: DifferentialResult)
    ensures
        r.case_id@ == "residual_persistence_failure:"@ + result.case_id@,
        r.classification == ResidualClassification::Environmental,
        r.comparison == no_comparison(),
        r.schema_version == result.schema_version,
        r.court_id == result.court_id,
        r.oracle_commit == result.oracle_commit,
        r.rust_commit == result.rust_commit,
        r.seed == result.seed,
        r.variant == result.variant,
        r.input_hashes == result.input_hashes,
        r.oracle == result.oracle,
        r.native == result.native,
        r.resolution == result.resolution,
        r.minimized_casefile == result.minimized_casefile,
        r.environment_sha256 == result.environment_sha256,
{
    let case_id: String = join("residual_persistence_failure:", result.case_id.as_str());
    DifferentialResult {
        schema_version: result.schema_version,
        court_id: result.court_id,
        case_id,
        oracle_commit: result.oracle_commit,
        rust_commit: result.rust_commit,
        seed: result.seed,
        variant: result.variant,
        input_hashes: result.input_hashes,
        oracle: result.oracle,
        native: result.native,
        comparison: Comparison { exact: false, first_differing_offset: None, differing_bytes: None },
        classification: ResidualClassification::Environmental,
        resolution: result.resolution,
        minimized_casefile: result.minimized_casefile,
        environment_sha256: result.environment_sha256,
    }
}

/// The content-addressed case id `sha256:<hex>`.
pub fn sha_case_id(prefix: &str, hex: &str) -> (s: String)
    ensures
        s@ == prefix@ + "sha256:"@ + hex@,
{
    let mut s: String = String::from_str(prefix);
    s.append("sha256:");
    s.append(hex);
    s
}

} // verus!
