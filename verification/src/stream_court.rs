//! The multipart stream differential court: wire parity of the flushed
//! stream, and decoding of each side's stream by the other side.
use crate::casefile::{
    sha256, sha_hex, Comparison, DifferentialResult, InputHashes, NativeResult, OracleResult,
    ResidualClassification, ResolutionState,
};
use crate::oracle::{classify_error, classify_error_spec, compare_bytes, compare_spec, OracleResponse};
use crate::pmf_courts::{reported_length, reported_sha};
use crate::stream_cases::{
    batch_mismatches, case_expected, count_mismatches, expected_values, field_wire, min_len,
    prefix_mismatches, rust_stream_decode, rust_stream_encode, stream_case_wire, stream_decode_case_spec,
    stream_encode_spec, views, StreamCase,
};
use crate::text::join;
use crate::verdict::{
    court_record, exact_comparison, hashes_are, is_record, native_is, no_comparison, oracle_is,
};
use vstd::prelude::*;
use vstd::string::*;

verus! {

/// The number of values of a case's batches.
pub open spec fn total_values(c: StreamCase) -> int {
    sum_lengths(case_expected(c), case_expected(c).len() as int)
}

/// The summed lengths of the first `n` lists.
pub open spec fn sum_lengths(s: Seq<Seq<i32>>, n: int) -> int
    decreases n,
{
    if n <= 0 {
        0
    } else {
        sum_lengths(s, n - 1) + s[n - 1].len()
    }
}

/// Whether the case's values can be counted in a `usize` (see
/// `total_values`), as the judges that decode a stream need.
pub fn values_countable(case: &StreamCase) -> (b: bool)
    ensures
        b == (total_values(*case) <= usize::MAX),
{
    let ghost ex = case_expected(*case);
    let n: usize = case.batches.len();
    let mut total: usize = 0;
    let mut i: usize = 0;
    while i < n
        invariant
            n == case.batches@.len(),
            ex == case_expected(*case),
            ex.len() == n,
            i <= n,
            total == sum_lengths(ex, i as int),
        decreases n - i,
    {
        let len: usize = case.batches[n - 1 - i].values.len();
        assert(ex[i as int].len() == len);
        match total.checked_add(len) {
            Some(t) => {
                total = t;
            },
            None => {
                proof {
                    lemma_sum_lengths_grow(ex, i as int + 1, n as int);
                }
                return false;
            },
        }
        i += 1;
    }
    true
}

/// The comparison of decoded values with the expected ones: exact when
/// equal; else offset 0 and the number of differing values.
pub open spec fn values_comparison(vs: Seq<Seq<i32>>, expected: Seq<Seq<i32>>) -> Comparison {
    if vs == expected {
        exact_comparison()
    } else {
        Comparison {
            exact: false,
            first_differing_offset: Some(0),
            differing_bytes: Some(batch_mismatches(vs, expected, min_len(vs.len(), expected.len())) as u64),
        }
    }
}

proof fn lemma_mismatches_bounded(a: Seq<Seq<i32>>, b: Seq<Seq<i32>>, n: int)
    requires
        0 <= n <= a.len(),
        n <= b.len(),
    ensures
        0 <= batch_mismatches(a, b, n) <= sum_lengths(b, n),
    decreases n,
{
    if n > 0 {
        lemma_mismatches_bounded(a, b, n - 1);
        lemma_prefix_bounded(a[n - 1], b[n - 1], min_len(a[n - 1].len(), b[n - 1].len()));
    }
}

proof fn lemma_prefix_bounded(a: Seq<i32>, b: Seq<i32>, n: int)
    requires
        n >= 0,
    ensures
        0 <= prefix_mismatches(a, b, n) <= n,
    decreases n,
{
    if n > 0 {
        lemma_prefix_bounded(a, b, n - 1);
    }
}

proof fn lemma_sum_lengths_grow(s: Seq<Seq<i32>>, i: int, n: int)
    requires
        0 <= i <= n,
    ensures
        0 <= sum_lengths(s, i) <= sum_lengths(s, n),
    decreases n,
{
    if n > 0 {
        if i < n {
            lemma_sum_lengths_grow(s, i, n - 1);
        } else {
            lemma_sum_lengths_grow(s, 0, n - 1);
        }
    }
}

/// Compare decoded values with the expected ones (see
/// `values_comparison`).
fn compare_values(vs: &Vec<Vec<i32>>, case: &StreamCase) -> (c: Comparison)
    requires
        total_values(*case) <= usize::MAX,
    ensures
        c == values_comparison(views(vs@), case_expected(*case)),
{
    let expected: Vec<Vec<i32>> = expected_values(case);
    let ghost a = views(vs@);
    let ghost b = views(expected@);
    let n: usize = if vs.len() <= expected.len() {
        vs.len()
    } else {
        expected.len()
    };
    let mut same: bool = vs.len() == expected.len();
    let mut i: usize = 0;
    while i < n
        invariant
            a == views(vs@),
            b == views(expected@),
            n == min_len(vs@.len(), expected@.len()),
            i <= n,
            same == (vs@.len() == expected@.len() && forall|k: int| 0 <= k < i ==> a[k] == b[k]),
        decreases n - i,
    {
        let x: &Vec<i32> = &vs[i];
        let y: &Vec<i32> = &expected[i];
        proof {
            assert(a[i as int] == x@);
            assert(b[i as int] == y@);
        }
        let mut eq: bool = x.len() == y.len();
        let mut j: usize = 0;
        while eq && j < x.len()
            invariant
                j <= x@.len(),
                eq ==> x@.len() == y@.len(),
                eq == (x@.len() == y@.len() && forall|k: int| 0 <= k < j ==> x@[k] == y@[k]),
            decreases x@.len() - j,
        {
            if x[j] != y[j] {
                eq = false;
            }
            j += 1;
        }
        proof {
            if eq {
                assert(x@ =~= y@);
            } else if x@.len() == y@.len() {
                assert(x@ != y@) by {
                    let k = choose|k: int| 0 <= k < j && x@[k] != y@[k];
                    assert(x@[k] != y@[k]);
                }
            }
        }
        same = same && eq;
        i += 1;
    }
    proof {
        if same {
            assert(a =~= b);
        } else if a.len() == b.len() {
            let k = choose|k: int| 0 <= k < n && a[k] != b[k];
            assert(a[k] != b[k]);
        }
    }
    if same {
        Comparison { exact: true, first_differing_offset: None, differing_bytes: None }
    } else {
        proof {
            lemma_mismatches_bounded(a, b, n as int);
            lemma_sum_lengths_grow(b, n as int, b.len() as int);
        }
        let count: usize = count_mismatches(vs.as_slice(), expected.as_slice());
        Comparison { exact: false, first_differing_offset: Some(0), differing_bytes: Some(count as u64) }
    }
}

/// The multipart stream differential court (`MSRTC.STREAM.DIFFERENTIAL`).
pub struct StreamDifferentialCourt;

/// The status of a native stream encode for wire parity.
pub open spec fn wire_native_status(r: Result<Seq<u8>, Seq<char>>) -> Seq<char> {
    match r {
        Ok(_) => "ok"@,
        Err(e) => "native_error: "@ + e,
    }
}

/// The stream bytes of a native encode (empty on an error).
pub open spec fn stream_bytes(r: Result<Seq<u8>, Seq<char>>) -> Seq<u8> {
    match r {
        Ok(b) => b,
        Err(_) => Seq::empty(),
    }
}

/// The status of an oracle reply in the stream court.
pub open spec fn stream_oracle_status<T>(o: Result<T, String>) -> Seq<char> {
    match o {
        Ok(_) => "ok"@,
        Err(e) => "oracle_error: "@ + e@,
    }
}

impl StreamDifferentialCourt {
    /// The court identifier.
    pub fn id(&self) -> (s: &'static str)
        ensures
            s@ == "MSRTC.STREAM.DIFFERENTIAL"@,
    {
        "MSRTC.STREAM.DIFFERENTIAL"
    }

    /// Wire parity: the native stream bytes against the oracle's stream
    /// bytes (`wire:` case).
    pub fn judge_wire_parity(
        &self,
        case: &StreamCase,
        oracle: &Result<OracleResponse, String>,
        rust_commit: &str,
        environment_sha256: &str,
    ) -> (r: DifferentialResult)
        ensures
            ({
                let native = stream_encode_spec(*case);
                let n_out = stream_bytes(native);
                let o_out = match *oracle {
                    Ok(resp) => resp.raw_output@,
                    Err(_) => Seq::<u8>::empty(),
                };
                let exact = native is Ok && oracle is Ok && n_out == o_out;
                &&& is_record(
                    r,
                    "MSRTC.STREAM.DIFFERENTIAL"@,
                    "wire:sha256:"@ + sha_hex(stream_case_wire(*case)),
                    case.seed,
                    case.variant,
                    compare_spec(n_out, o_out),
                    match *oracle {
                        Ok(_) => if exact {
                            ResidualClassification::Unclassified
                        } else {
                            ResidualClassification::NativeBug
                        },
                        Err(e) => classify_error_spec(e@),
                    },
                    ResolutionState::Open,
                    rust_commit@,
                    environment_sha256@,
                )
                &&& hashes_are(
                    r.input_hashes,
                    sha_hex(field_wire(case.batches@, 0)),
                    sha_hex(field_wire(case.batches@, 1)),
                    sha_hex(field_wire(case.batches@, 2)),
                    sha_hex(field_wire(case.batches@, 3)),
                    sha_hex(field_wire(case.batches@, 4)),
                )
                &&& oracle_is(r.oracle, stream_oracle_status(*oracle), reported_sha(*oracle), reported_length(*oracle))
                &&& native_is(r.native, wire_native_status(native), sha_hex(n_out), n_out.len() as int)
            }),
    {
        let all_input_sha: String = case.input_hash();
        let input_hashes: InputHashes = case.input_hashes();
        let (native_ok, native_status, native_output): (bool, String, Vec<u8>) = match rust_stream_encode(case) {
            Ok(bytes) => (true, String::from_str("ok"), bytes),
            Err(e) => (false, join("native_error: ", e.as_str()), Vec::new()),
        };
        let native_len: u64 = native_output.len() as u64;
        let native_sha: String = sha256(native_output.as_slice());
        let empty: Vec<u8> = Vec::new();
        let (oracle_ok, oracle_status, oracle_output): (bool, String, &[u8]) = match oracle {
            Ok(resp) => (true, String::from_str("ok"), resp.raw_output.as_slice()),
            Err(e) => (false, join("oracle_error: ", e.as_str()), empty.as_slice()),
        };
        let comparison: Comparison = compare_bytes(native_output.as_slice(), oracle_output);
        let exact: bool = native_ok && oracle_ok && comparison.exact;
        let classification: ResidualClassification = match oracle {
            Ok(_) => if exact {
                ResidualClassification::Unclassified
            } else {
                ResidualClassification::NativeBug
            },
            Err(e) => classify_error(e.as_str()),
        };
        let (oracle_sha, oracle_len): (String, u64) = match oracle {
            Ok(resp) => (resp.sha256.clone(), resp.length as u64),
            Err(_) => (String::new(), 0),
        };
        court_record(
            self.id(),
            join("wire:sha256:", all_input_sha.as_str()),
            case.seed,
            case.variant,
            input_hashes,
            OracleResult { status: oracle_status, output_sha256: oracle_sha, length: oracle_len },
            NativeResult { status: native_status, output_sha256: native_sha, length: native_len },
            comparison,
            classification,
            ResolutionState::Open,
            rust_commit,
            environment_sha256,
        )
    }

    /// The oracle's stream decoded natively (`cpp_stream_rust_dec:` case):
    /// the values decoded against the expected ones.
    pub fn judge_cpp_stream_rust_decode(
        &self,
        case: &StreamCase,
        oracle: &Result<OracleResponse, String>,
        rust_commit: &str,
        environment_sha256: &str,
    ) -> (r: DifferentialResult)
        requires
            total_values(*case) <= usize::MAX,
        ensures
            hashes_are(
                r.input_hashes,
                sha_hex(field_wire(case.batches@, 0)),
                sha_hex(field_wire(case.batches@, 1)),
                sha_hex(field_wire(case.batches@, 2)),
                sha_hex(field_wire(case.batches@, 3)),
                sha_hex(field_wire(case.batches@, 4)),
            ),
            ({
                let id = "cpp_stream_rust_dec:sha256:"@ + sha_hex(stream_case_wire(*case));
                match *oracle {
                    Err(e) => {
                        &&& is_record(
                            r,
                            "MSRTC.STREAM.DIFFERENTIAL"@,
                            id,
                            case.seed,
                            case.variant,
                            no_comparison(),
                            classify_error_spec("oracle_error: "@ + e@),
                            ResolutionState::Open,
                            rust_commit@,
                            environment_sha256@,
                        )
                        &&& oracle_is(r.oracle, "oracle_error: "@ + e@, Seq::empty(), 0)
                        &&& native_is(r.native, Seq::empty(), Seq::empty(), 0)
                    },
                    Ok(resp) => {
                        let bits = resp.raw_output@;
                        match stream_decode_case_spec(*case, bits) {
                            Err(e) => {
                                &&& is_record(
                                    r,
                                    "MSRTC.STREAM.DIFFERENTIAL"@,
                                    id,
                                    case.seed,
                                    case.variant,
                                    no_comparison(),
                                    ResidualClassification::NativeBug,
                                    ResolutionState::Open,
                                    rust_commit@,
                                    environment_sha256@,
                                )
                                &&& oracle_is(r.oracle, "ok"@, resp.sha256@, resp.length as int)
                                &&& native_is(r.native, "decode_error: "@ + e, sha_hex(bits), bits.len() as int)
                            },
                            Ok(vs) => {
                                let comparison = values_comparison(vs, case_expected(*case));
                                &&& is_record(
                                    r,
                                    "MSRTC.STREAM.DIFFERENTIAL"@,
                                    id,
                                    case.seed,
                                    case.variant,
                                    comparison,
                                    if comparison.exact {
                                        ResidualClassification::Unclassified
                                    } else {
                                        ResidualClassification::NativeBug
                                    },
                                    ResolutionState::Open,
                                    rust_commit@,
                                    environment_sha256@,
                                )
                                &&& oracle_is(r.oracle, "ok"@, resp.sha256@, resp.length as int)
                                &&& native_is(r.native, "ok"@, sha_hex(bits), bits.len() as int)
                            },
                        }
                    },
                }
            }),
    {
        let all_input_sha: String = case.input_hash();
        let input_hashes: InputHashes = case.input_hashes();
        let case_id: String = join("cpp_stream_rust_dec:sha256:", all_input_sha.as_str());
        match oracle {
            Err(e) => {
                let oracle_status: String = join("oracle_error: ", e.as_str());
                let classification: ResidualClassification = classify_error(oracle_status.as_str());
                court_record(
                    self.id(),
                    case_id,
                    case.seed,
                    case.variant,
                    input_hashes,
                    OracleResult { status: oracle_status, output_sha256: String::new(), length: 0 },
                    NativeResult { status: String::new(), output_sha256: String::new(), length: 0 },
                    Comparison { exact: false, first_differing_offset: None, differing_bytes: None },
                    classification,
                    ResolutionState::Open,
                    rust_commit,
                    environment_sha256,
                )
            },
            Ok(resp) => {
                let bits: &[u8] = resp.raw_output.as_slice();
                match rust_stream_decode(case, bits) {
                    Err(e) => court_record(
                        self.id(),
                        case_id,
                        case.seed,
                        case.variant,
                        input_hashes,
                        OracleResult {
                            status: String::from_str("ok"),
                            output_sha256: resp.sha256.clone(),
                            length: resp.length as u64,
                        },
                        NativeResult {
                            status: join("decode_error: ", e.as_str()),
                            output_sha256: sha256(bits),
                            length: bits.len() as u64,
                        },
                        Comparison { exact: false, first_differing_offset: None, differing_bytes: None },
                        ResidualClassification::NativeBug,
                        ResolutionState::Open,
                        rust_commit,
                        environment_sha256,
                    ),
                    Ok(decoded) => {
                        let comparison: Comparison = compare_values(&decoded, case);
                        court_record(
                            self.id(),
                            case_id,
                            case.seed,
                            case.variant,
                            input_hashes,
                            OracleResult {
                                status: String::from_str("ok"),
                                output_sha256: resp.sha256.clone(),
                                length: resp.length as u64,
                            },
                            NativeResult {
                                status: String::from_str("ok"),
                                output_sha256: sha256(bits),
                                length: bits.len() as u64,
                            },
                            comparison,
                            if comparison.exact {
                                ResidualClassification::Unclassified
                            } else {
                                ResidualClassification::NativeBug
                            },
                            ResolutionState::Open,
                            rust_commit,
                            environment_sha256,
                        )
                    },
                }
            },
        }
    }

    /// The native stream decoded by the oracle (`rust_stream_cpp_dec:`
    /// case), given the oracle's decoded values and their hash.
    pub fn judge_rust_stream_cpp_decode(
        &self,
        case: &StreamCase,
        oracle: &Result<(Vec<Vec<i32>>, String), String>,
        rust_commit: &str,
        environment_sha256: &str,
    ) -> (r: DifferentialResult)
        requires
            total_values(*case) <= usize::MAX,
        ensures
            hashes_are(
                r.input_hashes,
                sha_hex(field_wire(case.batches@, 0)),
                sha_hex(field_wire(case.batches@, 1)),
                sha_hex(field_wire(case.batches@, 2)),
                sha_hex(field_wire(case.batches@, 3)),
                sha_hex(field_wire(case.batches@, 4)),
            ),
            ({
                let id = "rust_stream_cpp_dec:sha256:"@ + sha_hex(stream_case_wire(*case));
                match stream_encode_spec(*case) {
                    Err(e) => {
                        &&& is_record(
                            r,
                            "MSRTC.STREAM.DIFFERENTIAL"@,
                            id,
                            case.seed,
                            case.variant,
                            no_comparison(),
                            ResidualClassification::NativeBug,
                            ResolutionState::Open,
                            rust_commit@,
                            environment_sha256@,
                        )
                        &&& oracle_is(r.oracle, Seq::empty(), Seq::empty(), 0)
                        &&& native_is(r.native, "encode_error: "@ + e, Seq::empty(), 0)
                    },
                    Ok(bytes) => match *oracle {
                        Err(e) => {
                            &&& is_record(
                                r,
                                "MSRTC.STREAM.DIFFERENTIAL"@,
                                id,
                                case.seed,
                                case.variant,
                                no_comparison(),
                                classify_error_spec("oracle_error: "@ + e@),
                                ResolutionState::Open,
                                rust_commit@,
                                environment_sha256@,
                            )
                            &&& oracle_is(r.oracle, "oracle_error: "@ + e@, Seq::empty(), 0)
                            &&& native_is(r.native, "ok"@, sha_hex(bytes), bytes.len() as int)
                        },
                        Ok((values, values_sha)) => {
                            let comparison = values_comparison(views(values@), case_expected(*case));
                            &&& is_record(
                                r,
                                "MSRTC.STREAM.DIFFERENTIAL"@,
                                id,
                                case.seed,
                                case.variant,
                                comparison,
                                if comparison.exact {
                                    ResidualClassification::Unclassified
                                } else {
                                    ResidualClassification::NativeBug
                                },
                                ResolutionState::Open,
                                rust_commit@,
                                environment_sha256@,
                            )
                            &&& oracle_is(r.oracle, "ok"@, values_sha@, 0)
                            &&& native_is(r.native, "ok"@, sha_hex(bytes), bytes.len() as int)
                        },
                    },
                }
            }),
    {
        let all_input_sha: String = case.input_hash();
        let input_hashes: InputHashes = case.input_hashes();
        let case_id: String = join("rust_stream_cpp_dec:sha256:", all_input_sha.as_str());
        let native_bytes: Vec<u8> = match rust_stream_encode(case) {
            Ok(bytes) => bytes,
            Err(e) => {
                return court_record(
                    self.id(),
                    case_id,
                    case.seed,
                    case.variant,
                    input_hashes,
                    OracleResult { status: String::new(), output_sha256: String::new(), length: 0 },
                    NativeResult {
                        status: join("encode_error: ", e.as_str()),
                        output_sha256: String::new(),
                        length: 0,
                    },
                    Comparison { exact: false, first_differing_offset: None, differing_bytes: None },
                    ResidualClassification::NativeBug,
                    ResolutionState::Open,
                    rust_commit,
                    environment_sha256,
                );
            },
        };
        match oracle {
            Err(e) => {
                let oracle_status: String = join("oracle_error: ", e.as_str());
                let classification: ResidualClassification = classify_error(oracle_status.as_str());
                court_record(
                    self.id(),
                    case_id,
                    case.seed,
                    case.variant,
                    input_hashes,
                    OracleResult { status: oracle_status, output_sha256: String::new(), length: 0 },
                    NativeResult {
                        status: String::from_str("ok"),
                        output_sha256: sha256(native_bytes.as_slice()),
                        length: native_bytes.len() as u64,
                    },
                    Comparison { exact: false, first_differing_offset: None, differing_bytes: None },
                    classification,
                    ResolutionState::Open,
                    rust_commit,
                    environment_sha256,
                )
            },
            Ok((values, values_sha)) => {
                let comparison: Comparison = compare_values(values, case);
                court_record(
                    self.id(),
                    case_id,
                    case.seed,
                    case.variant,
                    input_hashes,
                    OracleResult { status: String::from_str("ok"), output_sha256: values_sha.clone(), length: 0 },
                    NativeResult {
                        status: String::from_str("ok"),
                        output_sha256: sha256(native_bytes.as_slice()),
                        length: native_bytes.len() as u64,
                    },
                    comparison,
                    if comparison.exact {
                        ResidualClassification::Unclassified
                    } else {
                        ResidualClassification::NativeBug
                    },
                    ResolutionState::Open,
                    rust_commit,
                    environment_sha256,
                )
            },
        }
    }
}

} // verus!
