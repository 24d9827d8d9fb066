//! The raw differential and entropy differential courts: their corpora and
//! how each case's outcome becomes a record.
use crate::casefile::{
    sha256, sha_hex, Comparison, DifferentialResult, InputHashes, NativeResult, OracleResult,
    ResidualClassification, ResolutionState,
};
use crate::oracle::{
    classify_error, classify_error_spec, compare_bytes, compare_spec, first_diff_from, i32s_le_bytes, str_contains, str_has,
    OracleResponse,
};
use crate::pmf::len_sum;
use crate::pmf_cases::{
    differential_case_wire, differential_encodable, differential_encode_spec, entropy_case_wire,
    entropy_encode_spec, entropy_partial_encodable, entropy_partial_spec, plan_safe, ucum, DifferentialCase, EntropyCase,
};
use crate::raw_cases::{output_of, raw_native_status};
use crate::text::join;
use crate::verdict::{court_record, exact_comparison, hashes_are, is_record, native_is, oracle_is};
use vstd::arithmetic::power2::*;
use vstd::prelude::*;
use vstd::string::*;

verus! {

/// The reference PMF batch (two distributions, one bypass outlier).
pub open spec fn reference_batch() -> (Seq<i32>, Seq<i32>, Seq<i32>, Seq<i32>, Seq<i32>) {
    (
        seq![4i32, 6],
        seq![1i32, 2],
        seq![1i32, 3, 1, 1, 1, 3, 5, 3, 1, 1],
        seq![0i32, 1, 0, 1],
        seq![-2i32, 1, 0, 1],
    )
}

/// The single-distribution PMF batch.
pub open spec fn single_batch() -> (Seq<i32>, Seq<i32>, Seq<i32>, Seq<i32>, Seq<i32>) {
    (seq![5i32], seq![1i32], seq![1i32, 3, 3, 1, 1], seq![0i32, 0, 0], seq![-2i32, 1, 2])
}

/// The uniform-distribution PMF batch.
pub open spec fn uniform_batch() -> (Seq<i32>, Seq<i32>, Seq<i32>, Seq<i32>, Seq<i32>) {
    (seq![4i32], seq![0i32], seq![8192i32, 8192, 8192, 8192], seq![0i32, 0, 0], seq![0i32, 1, 2])
}

/// A raw differential case holds a batch.
pub open spec fn differential_case_is(
    c: DifferentialCase,
    seed: u64,
    variant: u32,
    b: (Seq<i32>, Seq<i32>, Seq<i32>, Seq<i32>, Seq<i32>),
) -> bool {
    &&& c.seed == seed
    &&& c.variant == variant
    &&& c.symbol_bits == 16
    &&& c.bypass_bits == 4
    &&& c.pmf_lengths@ == b.0
    &&& c.pmf_offsets@ == b.1
    &&& c.pmf_table@ == b.2
    &&& c.indices@ == b.3
    &&& c.values@ == b.4
}

/// An entropy case holds a batch.
pub open spec fn entropy_case_is(
    c: EntropyCase,
    seed: u64,
    variant: u32,
    b: (Seq<i32>, Seq<i32>, Seq<i32>, Seq<i32>, Seq<i32>),
) -> bool {
    &&& c.seed == seed
    &&& c.variant == variant
    &&& c.symbol_bits == 16
    &&& c.bypass_bits == 4
    &&& c.pmf_lengths@ == b.0
    &&& c.pmf_offsets@ == b.1
    &&& c.pmf_table@ == b.2
    &&& c.indices@ == b.3
    &&& c.values@ == b.4
}

/// The batch of raw differential case `j`.
pub open spec fn differential_batch(j: int) -> (Seq<i32>, Seq<i32>, Seq<i32>, Seq<i32>, Seq<i32>) {
    if j < 2 {
        reference_batch()
    } else if j < 4 {
        single_batch()
    } else {
        uniform_batch()
    }
}

proof fn lemma_batches_safe(fault: bool)
    ensures
        ({
            let (l, o, t, ix, v) = reference_batch();
            &&& plan_safe(l, o, t, ix, v, 16, 30, 4, fault)
            &&& plan_safe(l, o, t, ix, v, 16, 31, 4, fault)
        }),
        ({
            let (l, o, t, ix, v) = single_batch();
            &&& plan_safe(l, o, t, ix, v, 16, 30, 3, fault)
            &&& plan_safe(l, o, t, ix, v, 16, 31, 3, fault)
        }),
        ({
            let (l, o, t, ix, v) = uniform_batch();
            &&& plan_safe(l, o, t, ix, v, 16, 30, 3, fault)
            &&& plan_safe(l, o, t, ix, v, 16, 31, 3, fault)
        }),
{
    lemma2_to64();
    reveal_with_fuel(plan_safe, 5);
    reveal_with_fuel(len_sum, 3);
    reveal_with_fuel(ucum, 6);
}

fn batch_case(
    seed: u64,
    variant: u32,
    lengths: Vec<i32>,
    offsets: Vec<i32>,
    table: Vec<i32>,
    indices: Vec<i32>,
    values: Vec<i32>,
) -> (c: DifferentialCase)
    ensures
        c.seed == seed,
        c.variant == variant,
        c.symbol_bits == 16,
        c.bypass_bits == 4,
        c.pmf_lengths == lengths,
        c.pmf_offsets == offsets,
        c.pmf_table == table,
        c.indices == indices,
        c.values == values,
{
    DifferentialCase {
        seed,
        variant,
        symbol_bits: 16,
        bypass_bits: 4,
        pmf_lengths: lengths,
        pmf_offsets: offsets,
        pmf_table: table,
        indices,
        values,
    }
}

/// Generate the raw differential corpus: the reference, single-distribution
/// and uniform batches, each with RansByte then Rans64; every case can be
/// coded natively.
pub fn generate_cases() -> (cases: Vec<DifferentialCase>)
    ensures
        cases@.len() == 6,
        forall|j: int|
            #![trigger cases@[j]]
            0 <= j < 6 ==> differential_case_is(
                cases@[j],
                j as u64,
                if j % 2 == 0 {
                    1
                } else {
                    0
                },
                differential_batch(j),
            ) && differential_encodable(cases@[j]),
{
    let mut cases: Vec<DifferentialCase> = Vec::new();
    let mut seed: u64 = 0;
    while seed < 6
        invariant
            seed <= 6,
            cases@.len() == seed,
            forall|j: int|
                #![trigger cases@[j]]
                0 <= j < seed ==> differential_case_is(
                    cases@[j],
                    j as u64,
                    if j % 2 == 0 {
                        1
                    } else {
                        0
                    },
                    differential_batch(j),
                ) && differential_encodable(cases@[j]),
        decreases 6 - seed,
    {
        let variant: u32 = if seed % 2 == 0 {
            1
        } else {
            0
        };
        let c: DifferentialCase = if seed < 2 {
            batch_case(
                seed,
                variant,
                vec![4, 6],
                vec![1, 2],
                vec![1, 3, 1, 1, 1, 3, 5, 3, 1, 1],
                vec![0, 1, 0, 1],
                vec![-2, 1, 0, 1],
            )
        } else if seed < 4 {
            batch_case(seed, variant, vec![5], vec![1], vec![1, 3, 3, 1, 1], vec![0, 0, 0], vec![-2, 1, 2])
        } else {
            batch_case(seed, variant, vec![4], vec![0], vec![8192, 8192, 8192, 8192], vec![0, 0, 0], vec![0, 1, 2])
        };
        proof {
            lemma_batches_safe(false);
            let b = differential_batch(seed as int);
            assert(c.pmf_lengths@ =~= b.0);
            assert(c.pmf_offsets@ =~= b.1);
            assert(c.pmf_table@ =~= b.2);
            assert(c.indices@ =~= b.3);
            assert(c.values@ =~= b.4);
        }
        cases.push(c);
        seed += 1;
    }
    cases
}

/// Generate the entropy differential corpus: the reference batch with
/// RansByte, then Rans64; the partial native encoder can run both.
pub fn generate_entropy_cases() -> (cases: Vec<EntropyCase>)
    ensures
        cases@.len() == 2,
        entropy_case_is(cases@[0], 0, 1, reference_batch()),
        entropy_case_is(cases@[1], 1, 0, reference_batch()),
        entropy_partial_encodable(cases@[0]),
        entropy_partial_encodable(cases@[1]),
{
    let mut cases: Vec<EntropyCase> = Vec::new();
    let mut seed: u64 = 0;
    while seed < 2
        invariant
            seed <= 2,
            cases@.len() == seed,
            forall|j: int|
                #![trigger cases@[j]]
                0 <= j < seed ==> entropy_case_is(
                    cases@[j],
                    j as u64,
                    if j == 0 {
                        1
                    } else {
                        0
                    },
                    reference_batch(),
                ) && entropy_partial_encodable(cases@[j]),
        decreases 2 - seed,
    {
        let c = EntropyCase {
            seed,
            variant: if seed == 0 {
                1
            } else {
                0
            },
            symbol_bits: 16,
            bypass_bits: 4,
            pmf_lengths: vec![4, 6],
            pmf_offsets: vec![1, 2],
            pmf_table: vec![1, 3, 1, 1, 1, 3, 5, 3, 1, 1],
            indices: vec![0, 1, 0, 1],
            values: vec![-2, 1, 0, 1],
        };
        proof {
            lemma_batches_safe(true);
            let b = reference_batch();
            assert(c.pmf_lengths@ =~= b.0);
            assert(c.pmf_offsets@ =~= b.1);
            assert(c.pmf_table@ =~= b.2);
            assert(c.indices@ =~= b.3);
            assert(c.values@ =~= b.4);
        }
        cases.push(c);
        seed += 1;
    }
    cases
}

} // verus!

verus! {

/// The comparison of the raw differential court: exact on a match; else
/// the first differing offset within the common length (if any) and the
/// longer length as the count.
pub open spec fn zip_comparison(exact: bool, n: Seq<u8>, o: Seq<u8>) -> Comparison {
    if exact {
        exact_comparison()
    } else {
        let m = if n.len() <= o.len() {
            n.len()
        } else {
            o.len()
        };
        let f = first_diff_from(n, o, 0, m as int);
        Comparison {
            exact: false,
            first_differing_offset: if f < m {
                Some(f as u64)
            } else {
                None
            },
            differing_bytes: Some(
                if n.len() <= o.len() {
                    o.len() as u64
                } else {
                    n.len() as u64
                },
            ),
        }
    }
}

/// `first_diff_from` stays within `[i, n]`.
proof fn lemma_first_diff_range(a: Seq<u8>, b: Seq<u8>, i: int, n: int)
    requires
        i <= n,
    ensures
        i <= first_diff_from(a, b, i, n) <= n,
    decreases n - i,
{
    if i < n && a[i] == b[i] {
        lemma_first_diff_range(a, b, i + 1, n);
    }
}

/// The status of one run of the oracle CLI, from the last line it wrote to
/// its error stream and whether it exited successfully.
pub open spec fn run_status_text(last_line: &str, success: bool) -> Seq<char> {
    if str_contains(last_line, "\"status\":\"ok\"") {
        "ok"@
    } else if str_contains(last_line, "\"status\":\"error\"") {
        "oracle_error"@
    } else if !success {
        "oracle_crash"@
    } else {
        "unknown"@
    }
}

/// The status of one run of the oracle CLI (see `run_status_text`).
pub fn run_status(last_line: &str, success: bool) -> (s: String)
    ensures
        s@ == run_status_text(last_line, success),
{
    if str_has(last_line, "\"status\":\"ok\"") {
        String::from_str("ok")
    } else if str_has(last_line, "\"status\":\"error\"") {
        String::from_str("oracle_error")
    } else if !success {
        String::from_str("oracle_crash")
    } else {
        String::from_str("unknown")
    }
}

/// The raw differential court (`MSRTC.DIFFERENTIAL`): PMF batches coded by
/// the native prepared-symbol path and by the oracle CLI, compared byte for
/// byte.
pub struct DifferentialCourt;

impl DifferentialCourt {
    /// The court identifier.
    pub fn id(&self) -> (s: &'static str)
        ensures
            s@ == "MSRTC.DIFFERENTIAL"@,
    {
        "MSRTC.DIFFERENTIAL"
    }

    /// The record of one case, given the oracle's status and output: the
    /// case matches when the statuses and outputs agree. The input hashes
    /// are those of the field names and the environment hash that of no
    /// bytes.
    pub fn judge(
        &self,
        case: &DifferentialCase,
        oracle_status: &str,
        oracle_output: &[u8],
        rust_commit: &str,
    ) -> (r: DifferentialResult)
        requires
            differential_encodable(*case),
        ensures
            ({
                let native = differential_encode_spec(*case);
                let n_out = output_of(native);
                let n_status = raw_native_status(native);
                let exact = n_status == oracle_status@ && n_out == oracle_output@;
                &&& is_record(
                    r,
                    "MSRTC.DIFFERENTIAL"@,
                    "sha256:"@ + sha_hex(differential_case_wire(*case)),
                    case.seed,
                    case.variant,
                    zip_comparison(exact, n_out, oracle_output@),
                    if exact {
                        ResidualClassification::Unclassified
                    } else {
                        ResidualClassification::NativeBug
                    },
                    if exact {
                        ResolutionState::Fixed
                    } else {
                        ResolutionState::Open
                    },
                    rust_commit@,
                    sha_hex(Seq::empty()),
                )
                &&& hashes_are(
                    r.input_hashes,
                    sha_hex("pmf_lengths".spec_bytes()),
                    sha_hex("pmf_offsets".spec_bytes()),
                    sha_hex("pmf_table".spec_bytes()),
                    sha_hex("indices".spec_bytes()),
                    sha_hex("values".spec_bytes()),
                )
                &&& oracle_is(r.oracle, oracle_status@, sha_hex(oracle_output@), oracle_output@.len() as int)
                &&& native_is(r.native, n_status, sha_hex(n_out), n_out.len() as int)
            }),
    {
        let case_binary: Vec<u8> = case.to_binary();
        let all_input_sha: String = sha256(case_binary.as_slice());
        let input_hashes = InputHashes {
            pmf_lengths_sha256: sha256("pmf_lengths".as_bytes()),
            pmf_offsets_sha256: sha256("pmf_offsets".as_bytes()),
            pmf_table_sha256: sha256("pmf_table".as_bytes()),
            indices_sha256: sha256("indices".as_bytes()),
            values_sha256: sha256("values".as_bytes()),
        };
        let (native_status, native_output): (String, Vec<u8>) = match case.rust_encode() {
            Ok(out) => (String::from_str("ok"), out),
            Err(e) => (join("native_error: ", e.describe().as_str()), Vec::new()),
        };
        let oracle_text: String = String::from_str(oracle_status);
        let same_bytes: Comparison = compare_bytes(native_output.as_slice(), oracle_output);
        let exact: bool = native_status == oracle_text && same_bytes.exact;
        let comparison: Comparison = if exact {
            Comparison { exact: true, first_differing_offset: None, differing_bytes: None }
        } else {
            let n: usize = native_output.len();
            let o: usize = oracle_output.len();
            let m: usize = if n <= o {
                n
            } else {
                o
            };
            let mut first: usize = 0;
            while first < m && native_output[first] == oracle_output[first]
                invariant
                    m <= native_output@.len(),
                    m <= oracle_output@.len(),
                    first <= m,
                    first_diff_from(native_output@, oracle_output@, 0, m as int) == first_diff_from(
                        native_output@,
                        oracle_output@,
                        first as int,
                        m as int,
                    ),
                decreases m - first,
            {
                first += 1;
            }
            Comparison {
                exact: false,
                first_differing_offset: if first < m {
                    Some(first as u64)
                } else {
                    None
                },
                differing_bytes: Some(
                    if n <= o {
                        o as u64
                    } else {
                        n as u64
                    },
                ),
            }
        };
        let no_bytes: Vec<u8> = Vec::new();
        let environment: String = sha256(no_bytes.as_slice());
        proof {
            assert(no_bytes@ =~= Seq::<u8>::empty());
        }
        court_record(
            self.id(),
            join("sha256:", all_input_sha.as_str()),
            case.seed,
            case.variant,
            input_hashes,
            OracleResult {
                status: oracle_text,
                output_sha256: sha256(oracle_output),
                length: oracle_output.len() as u64,
            },
            NativeResult {
                status: native_status,
                output_sha256: sha256(native_output.as_slice()),
                length: native_output.len() as u64,
            },
            comparison,
            if exact {
                ResidualClassification::Unclassified
            } else {
                ResidualClassification::NativeBug
            },
            if exact {
                ResolutionState::Fixed
            } else {
                ResolutionState::Open
            },
            rust_commit,
            environment.as_str(),
        )
    }
}

/// The entropy differential court (`MSRTC.ENTROPY.DIFFERENTIAL`): PMF
/// batches coded by the partial native encoder and by the oracle CLI.
pub struct EntropyDifferentialCourt;

/// The reported SHA-256 of an oracle reply (empty on an error).
pub open spec fn reported_sha(o: Result<OracleResponse, String>) -> Seq<char> {
    match o {
        Ok(resp) => resp.sha256@,
        Err(_) => Seq::empty(),
    }
}

/// The reported length of an oracle reply (0 on an error).
pub open spec fn reported_length(o: Result<OracleResponse, String>) -> int {
    match o {
        Ok(resp) => resp.length as int,
        Err(_) => 0,
    }
}

impl EntropyDifferentialCourt {
    /// The court identifier.
    pub fn id(&self) -> (s: &'static str)
        ensures
            s@ == "MSRTC.ENTROPY.DIFFERENTIAL"@,
    {
        "MSRTC.ENTROPY.DIFFERENTIAL"
    }

    /// The record of one case, given the oracle's reply to its casefile:
    /// the native entropy encoder (bypass payloads included) and the oracle
    /// match when both succeed with the same bytes; a mismatch with a
    /// working oracle is a native bug.
    pub fn judge(
        &self,
        case: &EntropyCase,
        oracle: &Result<OracleResponse, String>,
        rust_commit: &str,
        environment_sha256: &str,
    ) -> (r: DifferentialResult)
        ensures
            ({
                let (n_status, n_out) = entropy_encode_spec(*case);
                let o_out = match *oracle {
                    Ok(resp) => resp.raw_output@,
                    Err(_) => Seq::<u8>::empty(),
                };
                let exact = n_status == "ok"@ && oracle is Ok && n_out == o_out;
                &&& is_record(
                    r,
                    "MSRTC.ENTROPY.DIFFERENTIAL"@,
                    "sha256:"@ + sha_hex(entropy_case_wire(*case)),
                    case.seed,
                    case.variant,
                    compare_spec(n_out, o_out),
                    match *oracle {
                        Ok(_) => if exact {
                            ResidualClassification::Unclassified
                        } else {
                            ResidualClassification::NativeBug
                        },
                        Err(e) => classify_error_spec(e@),
                    },
                    ResolutionState::Open,
                    rust_commit@,
                    environment_sha256@,
                )
                &&& hashes_are(
                    r.input_hashes,
                    sha_hex(i32s_le_bytes(case.pmf_lengths@)),
                    sha_hex(i32s_le_bytes(case.pmf_offsets@)),
                    sha_hex(i32s_le_bytes(case.pmf_table@)),
                    sha_hex(i32s_le_bytes(case.indices@)),
                    sha_hex(i32s_le_bytes(case.values@)),
                )
                &&& oracle_is(
                    r.oracle,
                    if oracle is Ok {
                        "ok"@
                    } else {
                        "oracle_error"@
                    },
                    reported_sha(*oracle),
                    reported_length(*oracle),
                )
                &&& native_is(r.native, n_status, sha_hex(n_out), n_out.len() as int)
            }),
    {
        let all_input_sha: String = case.input_hash();
        let input_hashes: InputHashes = case.input_hashes();
        let (native_status, native_output) = case.rust_encode();
        let native_len: u64 = native_output.len() as u64;
        let native_sha: String = sha256(native_output.as_slice());
        let empty: Vec<u8> = Vec::new();
        let (oracle_ok, oracle_output): (bool, &[u8]) = match oracle {
            Ok(resp) => (true, resp.raw_output.as_slice()),
            Err(_) => (false, empty.as_slice()),
        };
        let native_is_ok: bool = native_status == String::from_str("ok");
        let comparison: Comparison = compare_bytes(native_output.as_slice(), oracle_output);
        let exact: bool = native_is_ok && oracle_ok && comparison.exact;
        let classification: ResidualClassification = match oracle {
            Ok(_) => if exact {
                ResidualClassification::Unclassified
            } else {
                ResidualClassification::NativeBug
            },
            Err(e) => classify_error(e.as_str()),
        };
        let (oracle_sha, oracle_len): (String, u64) = match oracle {
            Ok(resp) => (resp.sha256.clone(), resp.length as u64),
            Err(_) => (String::new(), 0),
        };
        court_record(
            self.id(),
            join("sha256:", all_input_sha.as_str()),
            case.seed,
            case.variant,
            input_hashes,
            OracleResult {
                status: if oracle_ok {
                    String::from_str("ok")
                } else {
                    String::from_str("oracle_error")
                },
                output_sha256: oracle_sha,
                length: oracle_len,
            },
            NativeResult { status: native_status, output_sha256: native_sha, length: native_len },
            comparison,
            classification,
            ResolutionState::Open,
            rust_commit,
            environment_sha256,
        )
    }
}

} // verus!
