use msrtc_rans::arithmetic::{
    compute_reciprocal_u32, compute_reciprocal_u64, fast_quotient_u32, fast_quotient_u64,
    freq_one_reciprocal_u64, reciprocal_shift,
};
use msrtc_rans::casefile::DifferentialResult;
use msrtc_rans::court::{BypassCourt, Court, CourtResult, CourtStatus};
use msrtc_rans::decoder_cases::{generate_decoder_cases, DecoderCase, RawDecoderDifferentialCourt};
use msrtc_rans::oracle::OracleResponse;
use msrtc_rans::pmf_cases::{DifferentialCase, EntropyCase};
use msrtc_rans::pmf_courts::{
    generate_cases, generate_entropy_cases, DifferentialCourt, EntropyDifferentialCourt,
};
use msrtc_rans::raw_cases::{RawCase, RawEncoderDifferentialCourt};
use msrtc_rans::raw_corpus::generate_raw_cases;
use msrtc_rans::sink::{Sink, VecSink};
use msrtc_rans::source::SliceSource;
use msrtc_rans::stream_cases::{
    batch_pmf1, batch_pmf2, expected_values, generate_stream_cases, rust_stream_decode,
    rust_stream_encode, StreamCase,
};
use msrtc_rans::stream_court::StreamDifferentialCourt;
use msrtc_rans::{Freq, Rans64Encoder, RansByteDecoder, RansByteEncSymbol, RansByteEncoder};

const NO_DOCKER: &str = "docker_spawn: No such file or directory (os error 2)";

fn unavailable() -> Result<OracleResponse, String> {
    Err(NO_DOCKER.to_string())
}

// ---- court lib ----

#[test]
fn test_court_ids_are_stable() {
    let ids = [
        "MSRTC.RAW.RANSBYTE",
        "MSRTC.RAW.RANS64",
        "MSRTC.RECIPROCAL",
        "MSRTC.PMF",
        "MSRTC.BYPASS",
    ];
    for id in ids {
        assert!(
            id.starts_with("MSRTC."),
            "Court ID must start with MSRTC.: {}",
            id
        );
    }
}

#[test]
fn test_scaffold_is_not_sealable() {
    let r = CourtResult::scaffold("MSRTC.TEST");
    assert!(!r.is_sealable());
}

#[test]
fn test_zero_case_is_not_sealable() {
    let r = CourtResult {
        court_id: "MSRTC.TEST".into(),
        status: CourtStatus::Passed,
        case_count: 0,
        pass_count: 0,
        residual_count: 0,
        skipped_count: 0,
        results: vec![],
    };
    assert!(!r.is_sealable());
}

#[test]
fn test_passing_court_is_sealable() {
    let r = CourtResult {
        court_id: "MSRTC.TEST".into(),
        status: CourtStatus::Passed,
        case_count: 10,
        pass_count: 10,
        residual_count: 0,
        skipped_count: 0,
        results: vec![],
    };
    assert!(r.is_sealable());
}

#[test]
fn test_failing_court_is_not_sealable() {
    let r = CourtResult {
        court_id: "MSRTC.TEST".into(),
        status: CourtStatus::Failed,
        case_count: 10,
        pass_count: 8,
        residual_count: 2,
        skipped_count: 0,
        results: vec![],
    };
    assert!(!r.is_sealable());
}

#[test]
fn test_bypass_court_is_scaffold() {
    let court = BypassCourt;
    let r = court.run();
    assert!(!r.is_sealable());
}

// ---- raw rans64 / ransbyte courts ----

#[test]
fn test_rans64_encoder_creation() {
    let sink = VecSink::<u32>::new(64);
    let encoder = Rans64Encoder::new(sink);
    assert_eq!(encoder.state(), 1u64 << 31);
}

#[test]
fn test_ransbyte_raw_roundtrip_self_consistent() {
    let sink = VecSink::<u8>::new(64);
    let mut encoder = RansByteEncoder::new(sink);

    encoder.put_raw(0, 128, 8);
    encoder.flush();
    let encoded = encoder.into_sink().encoded().to_vec();

    let source = SliceSource::new(&encoded[..]);
    let mut decoder = RansByteDecoder::new(source);
    assert!(decoder.init(), "decoder must init successfully");
    assert!(decoder.advance(0, 128, 8), "advance must succeed");
    assert!(decoder.check_eof(), "must be at EOF");
}

#[test]
fn test_ransbyte_prepared_raw_match() {
    let sink1 = VecSink::<u8>::new(64);
    let mut enc1 = RansByteEncoder::new(sink1);
    enc1.put_raw(0, 128, 8);
    enc1.flush();
    let out1 = enc1.into_sink().encoded().to_vec();

    let sink2 = VecSink::<u8>::new(64);
    let mut enc2 = RansByteEncoder::new(sink2);
    let sym = RansByteEncSymbol::new(0, 128, 8);
    enc2.put(&sym);
    enc2.flush();
    let out2 = enc2.into_sink().encoded().to_vec();

    assert_eq!(out1, out2, "Prepared symbol must match raw division path");
}

#[test]
fn test_ransbyte_init_rejects_truncated_3_bytes() {
    let data = [0x00u8, 0x00, 0x00];
    let source = SliceSource::new(&data[..]);
    let mut decoder = RansByteDecoder::new(source);
    assert!(!decoder.init(), "init with 3 bytes must fail");
    assert_eq!(
        decoder.state(),
        1u32 << 23,
        "state must remain at LowerBound after failed init"
    );
}

#[test]
fn test_ransbyte_init_rejects_truncated_2_bytes() {
    let data = [0x00u8, 0x00];
    let source = SliceSource::new(&data[..]);
    let mut decoder = RansByteDecoder::new(source);
    assert!(!decoder.init());
    assert_eq!(decoder.state(), 1u32 << 23);
}

#[test]
fn test_ransbyte_init_rejects_truncated_1_byte() {
    let data = [0x00u8];
    let source = SliceSource::new(&data[..]);
    let mut decoder = RansByteDecoder::new(source);
    assert!(!decoder.init());
    assert_eq!(decoder.state(), 1u32 << 23);
}

#[test]
fn test_ransbyte_init_rejects_empty() {
    let data: [u8; 0] = [];
    let source = SliceSource::new(&data[..]);
    let mut decoder = RansByteDecoder::new(source);
    assert!(!decoder.init());
    assert_eq!(decoder.state(), 1u32 << 23);
}

#[test]
fn test_ransbyte_init_rejects_below_lower_bound() {
    let data = [0x00u8, 0x00, 0x00, 0x00];
    let source = SliceSource::new(&data[..]);
    let mut decoder = RansByteDecoder::new(source);
    assert!(!decoder.init(), "state below LowerBound must be rejected");
}

#[test]
fn test_ransbyte_advance_transactional_on_truncated_renormalization() {
    let sink = VecSink::<u8>::new(64);
    let mut encoder = RansByteEncoder::new(sink);
    encoder.put_raw(0, 1, 8);
    encoder.flush();
    let encoded = encoder.into_sink().encoded().to_vec();
    assert!(encoded.len() > 4, "freq=1 should produce more than 4 bytes");

    let truncated = &encoded[..4];
    let source = SliceSource::new(truncated);
    let mut decoder = RansByteDecoder::new(source);
    assert!(decoder.init(), "4 bytes should be enough for init");

    let state_before = decoder.state();
    assert!(
        !decoder.advance(0, 1, 8),
        "advance with truncated stream must fail"
    );
    assert_eq!(
        decoder.state(),
        state_before,
        "state must not change on failed advance"
    );
}

#[test]
fn test_ransbyte_advance_succeeds_with_full_stream() {
    let sink = VecSink::<u8>::new(64);
    let mut encoder = RansByteEncoder::new(sink);
    encoder.put_raw(0, 1, 8);
    encoder.flush();
    let encoded = encoder.into_sink().encoded().to_vec();

    let source = SliceSource::new(&encoded[..]);
    let mut decoder = RansByteDecoder::new(source);
    assert!(decoder.init());
    assert!(
        decoder.advance(0, 1, 8),
        "advance with full stream must succeed"
    );
}

#[test]
fn test_encoder_growth_preserves_all_data_65_writes() {
    let mut sink = VecSink::<u8>::with_exact_capacity(64);
    for i in 0..65u16 {
        sink.write((i % 256) as u8);
    }
    let encoded = sink.encoded();
    assert_eq!(encoded.len(), 65, "all 65 writes must be present");
    for i in 0..65u16 {
        assert_eq!(encoded[(64 - i) as usize], (i % 256) as u8, "mismatch at {}", i);
    }
}

#[test]
fn test_encoder_growth_preserves_all_data_321_writes() {
    let mut sink = VecSink::<u8>::with_exact_capacity(320);
    for i in 0..321u16 {
        sink.write((i % 256) as u8);
    }
    let encoded = sink.encoded();
    assert_eq!(encoded.len(), 321, "all 321 writes must be present");
    for i in 0..321u16 {
        assert_eq!(encoded[(320 - i) as usize], (i % 256) as u8, "mismatch at {}", i);
    }
}

#[test]
fn test_encoder_growth_preserves_all_data_1000_writes() {
    let mut sink = VecSink::<u8>::with_exact_capacity(64);
    for i in 0..1000u16 {
        sink.write((i % 256) as u8);
    }
    let encoded = sink.encoded();
    assert_eq!(encoded.len(), 1000, "all 1000 writes must be present");
    for i in 0..1000u16 {
        assert_eq!(encoded[(999 - i) as usize], (i % 256) as u8, "mismatch at {}", i);
    }
}

// ---- reciprocal court ----

#[test]
fn test_u64_reciprocal_3() {
    let freq: u32 = 3;
    let rcp = compute_reciprocal_u64(freq);
    let shift = reciprocal_shift(freq) - 1;

    for x in [1u64, 10, 100, 1u64 << 20, 1u64 << 30] {
        let fast = fast_quotient_u64(x, rcp, shift);
        let exact = x / freq as u64;
        assert_eq!(fast, exact, "freq={} x={}", freq, x);
    }
}

#[test]
fn test_u32_reciprocal_3() {
    let freq: u32 = 3;
    let rcp = compute_reciprocal_u32(freq);
    let rcp_shift = reciprocal_shift(freq) - 1 + 32;

    for x in [1u32, 10, 100, 1u32 << 20, 1u32 << 30] {
        let fast = fast_quotient_u32(x, rcp, rcp_shift);
        let exact = x / freq;
        assert_eq!(fast, exact, "freq={} x={}", freq, x);
    }
}

#[test]
fn test_freq_one_special_case() {
    let (rcp, shift) = freq_one_reciprocal_u64();
    assert_eq!(rcp, !0u64);
    assert_eq!(shift, 0);

    let x: u64 = 100;
    let q = fast_quotient_u64(x, rcp, shift);
    assert_eq!(q, x - 1);
}

// ---- raw encoder differential court ----

fn run_raw_encoder_court_offline() -> CourtResult {
    let court = RawEncoderDifferentialCourt;
    let results: Vec<DifferentialResult> = generate_raw_cases()
        .iter()
        .map(|case| court.judge(case, &unavailable(), "test-commit", "test-env"))
        .collect();
    CourtResult::tally(court.id(), results)
}

#[test]
fn test_raw_case_serialization() {
    let c = RawCase {
        seed: 0,
        variant: 1,
        mode: 0,
        scale_bits: 8,
        symbols: vec![(0, 128), (64, 64)],
    };
    let bin = c.to_binary();
    assert_eq!(bin.len(), 4 + 4 + 4 + 4 + 2 * 8);
    assert_eq!(&bin[..4], &[1u8, 0, 0, 0]);
    assert_eq!(&bin[4..8], &[0u8, 0, 0, 0]);
    assert_eq!(&bin[8..12], &[8u8, 0, 0, 0]);
    assert_eq!(&bin[12..16], &[2u8, 0, 0, 0]);
}

#[test]
fn test_raw_rust_encodes_byte_single() {
    let c = RawCase {
        seed: 0,
        variant: 1,
        mode: 0,
        scale_bits: 8,
        symbols: vec![(0, 128)],
    };
    let out = c.rust_encode().expect("encode");
    assert!(!out.is_empty());
}

#[test]
fn test_raw_rust_prepared_matches_raw_byte() {
    let c_raw = RawCase {
        seed: 0,
        variant: 1,
        mode: 0,
        scale_bits: 8,
        symbols: vec![(0, 128), (64, 64)],
    };
    let c_prep = RawCase {
        seed: 0,
        variant: 1,
        mode: 1,
        scale_bits: 8,
        symbols: vec![(0, 128), (64, 64)],
    };
    let out_raw = c_raw.rust_encode().expect("raw");
    let out_prep = c_prep.rust_encode().expect("prepared");
    assert_eq!(out_raw, out_prep, "prepared must match raw path");
}

#[test]
fn test_raw_rust_prepared_matches_raw_64() {
    let c_raw = RawCase {
        seed: 0,
        variant: 0,
        mode: 0,
        scale_bits: 16,
        symbols: vec![(0, 32768), (16384, 16384)],
    };
    let c_prep = RawCase {
        seed: 0,
        variant: 0,
        mode: 1,
        scale_bits: 16,
        symbols: vec![(0, 32768), (16384, 16384)],
    };
    let out_raw = c_raw.rust_encode().expect("raw");
    let out_prep = c_prep.rust_encode().expect("prepared");
    assert_eq!(out_raw, out_prep, "prepared must match raw path (Rans64)");
}

#[test]
fn test_raw_court_generates_cases() {
    let result = run_raw_encoder_court_offline();
    assert!(result.case_count > 0, "court must generate cases");
}

// ---- raw decoder differential court ----

#[test]
fn test_decoder_rust_roundtrip_byte() {
    let case = DecoderCase {
        seed: 0,
        variant: 1,
        scale_bits: 8,
        symbols: vec![(0, 128)],
    };
    let bitstream = case.rust_encode().expect("encode");
    let (get_values, eof) = case.rust_decode(&bitstream).expect("decode");
    assert_eq!(get_values, vec![0], "Get() value must be 0 for single symbol");
    assert!(eof, "EOF must be true after consuming all symbols");
}

#[test]
fn test_decoder_rust_roundtrip_byte_multiple() {
    let case = DecoderCase {
        seed: 1,
        variant: 1,
        scale_bits: 8,
        symbols: vec![(0, 128), (64, 64), (128, 32)],
    };
    let bitstream = case.rust_encode().expect("encode");
    let (get_values, eof) = case.rust_decode(&bitstream).expect("decode");
    assert_eq!(get_values.len(), 3, "must produce 3 Get() values");
    assert!(eof, "EOF must be true");
    for &v in &get_values {
        assert!(v < (1u32 << 8), "Get() value {} must be < {}", v, 1u32 << 8);
    }
}

#[test]
fn test_decoder_rust_roundtrip_64() {
    let case = DecoderCase {
        seed: 4,
        variant: 0,
        scale_bits: 16,
        symbols: vec![(0, 32768)],
    };
    let bitstream = case.rust_encode().expect("encode");
    let (get_values, eof) = case.rust_decode(&bitstream).expect("decode");
    assert_eq!(get_values, vec![0], "Get() value must be 0 for single symbol");
    assert!(eof, "EOF must be true");
}

#[test]
fn test_decoder_rust_roundtrip_64_multiple() {
    let case = DecoderCase {
        seed: 5,
        variant: 0,
        scale_bits: 16,
        symbols: vec![(0, 32768), (16384, 16384)],
    };
    let bitstream = case.rust_encode().expect("encode");
    let (get_values, eof) = case.rust_decode(&bitstream).expect("decode");
    assert_eq!(get_values.len(), 2, "must produce 2 Get() values");
    assert!(eof, "EOF must be true");
    for &v in &get_values {
        assert!(v < (1u32 << 16), "Get() value {} must be < {}", v, 1u32 << 16);
    }
}

#[test]
fn test_decoder_rust_self_consistency() {
    let cases = generate_decoder_cases();
    for case in &cases {
        let bitstream = case.rust_encode().expect("encode");
        let (get_values, eof) = case.rust_decode(&bitstream).expect("decode");

        assert_eq!(
            get_values.len(),
            case.symbols.len(),
            "case seed {}: get_values count mismatch",
            case.seed
        );
        assert!(eof, "case seed {}: EOF must be true", case.seed);

        let scale = 1u32 << case.scale_bits;
        for (i, &v) in get_values.iter().enumerate() {
            assert!(
                v < scale,
                "case seed {}, symbol {}: Get() value {} must be < scale {}",
                case.seed,
                i,
                v,
                scale
            );
        }
    }
}

#[test]
fn test_decoder_court_generates_cases() {
    let court = RawDecoderDifferentialCourt;
    let mut results = Vec::new();
    for case in &generate_decoder_cases() {
        for direction in ["rust_enc_cpp_dec", "cpp_enc_rust_dec"] {
            let error = format!("run_decoder_oracle: {}", NO_DOCKER);
            results.push(court.infrastructure_failure(case, direction, &error, "c", "e"));
        }
    }
    let result = CourtResult::tally(court.id(), results);
    assert!(result.case_count > 0, "court must generate cases");
}

// ---- raw differential court ----

fn reference_differential_case() -> DifferentialCase {
    DifferentialCase {
        seed: 0,
        variant: 1,
        symbol_bits: 16,
        bypass_bits: 4,
        pmf_lengths: vec![4, 6],
        pmf_offsets: vec![1, 2],
        pmf_table: vec![1, 3, 1, 1, 1, 3, 5, 3, 1, 1],
        indices: vec![0, 1, 0, 1],
        values: vec![-2, 1, 0, 1],
    }
}

#[test]
fn test_differential_case_serialization() {
    let c = reference_differential_case();
    let binary = c.to_binary();
    assert!(!binary.is_empty());
    assert_eq!(&binary[..4], &[1u8, 0, 0, 0]);
    assert_eq!(&binary[4..8], &[16u8, 0, 0, 0]);
    assert_eq!(&binary[8..12], &[4u8, 0, 0, 0]);
}

#[test]
fn test_differential_court_is_sealable_with_zero_cases() {
    let court = DifferentialCourt;
    let results: Vec<DifferentialResult> = generate_cases()
        .iter()
        .map(|case| court.judge(case, "docker_spawn_error: unavailable", &[], "0.3.0"))
        .collect();
    let result = CourtResult::tally(court.id(), results);
    assert!(result.case_count > 0, "court must generate cases");
}

#[test]
fn test_rust_encode_reference_case_byte() {
    let case = reference_differential_case();
    let encoded = case.rust_encode().expect("Rust encode must succeed");
    assert!(!encoded.is_empty(), "encoded output must not be empty");
    assert!(
        encoded.len() >= 4,
        "encoded output must be at least 4 bytes for RansByte state"
    );
}

#[test]
fn test_rust_self_roundtrip() {
    let case = reference_differential_case();
    let encoded = case.rust_encode().expect("encode");
    let mut decoder = RansByteDecoder::new(SliceSource::new(&encoded));
    assert!(decoder.init(), "decoder init");

    for i in 0..case.indices.len() {
        let idx = case.indices[i];
        if idx < 0 {
            continue;
        }
        let dist_idx = idx.min(case.pmf_lengths.len() as i32 - 1) as usize;
        let length = case.pmf_lengths[dist_idx] as usize;
        let offset = case.pmf_offsets[dist_idx];
        let value = case.values[i] + offset;
        let sym_idx = if value < 0 || value as usize >= length - 1 {
            length - 1
        } else {
            value as usize
        };

        let sym_start: usize = case.pmf_lengths[..dist_idx]
            .iter()
            .map(|&l| l as usize)
            .sum();
        let mut start: Freq = 0;
        for j in sym_start..(sym_start + sym_idx) {
            start += case.pmf_table[j] as Freq;
        }
        let freq = case.pmf_table[sym_start + sym_idx] as Freq;

        let _cum_freq = decoder.get(case.symbol_bits);
        assert!(decoder.advance(start, freq, case.symbol_bits), "advance");
    }
    assert!(decoder.check_eof(), "must be at EOF");
}

// ---- entropy differential court ----

#[test]
fn test_entropy_case_serialization() {
    let c = EntropyCase {
        seed: 0,
        variant: 1,
        symbol_bits: 16,
        bypass_bits: 4,
        pmf_lengths: vec![4, 6],
        pmf_offsets: vec![1, 2],
        pmf_table: vec![1, 3, 1, 1, 1, 3, 5, 3, 1, 1],
        indices: vec![0, 1, 0, 1],
        values: vec![-2, 1, 0, 1],
    };
    let bin = c.to_binary();
    assert!(!bin.is_empty());
    assert_eq!(&bin[..4], &[1u8, 0, 0, 0]);
}

#[test]
fn test_entropy_court_generates_cases() {
    let court = EntropyDifferentialCourt;
    let results: Vec<DifferentialResult> = generate_entropy_cases()
        .iter()
        .map(|case| court.judge(case, &unavailable(), "c", "e"))
        .collect();
    let result = CourtResult::tally(court.id(), results);
    assert!(result.case_count > 0);
}

// ---- stream differential court ----

fn two_batch_case() -> StreamCase {
    StreamCase {
        seed: 0,
        variant: 1,
        symbol_bits: 16,
        bypass_bits: 4,
        batches: vec![batch_pmf2(), batch_pmf1()],
    }
}

#[test]
fn test_stream_case_serialization() {
    let c = two_batch_case();
    let bin = c.to_binary();
    assert!(!bin.is_empty());
    assert_eq!(&bin[..4], &[1u8, 0, 0, 0]);
    assert_eq!(&bin[12..16], &[2u8, 0, 0, 0]);
}

#[test]
fn test_stream_input_hashes() {
    let c = two_batch_case();
    let h = c.input_hashes();
    assert!(!h.pmf_lengths_sha256.is_empty());
    assert!(!h.indices_sha256.is_empty());
    let c2 = StreamCase {
        seed: 0,
        variant: 1,
        symbol_bits: 16,
        bypass_bits: 4,
        batches: vec![batch_pmf1()],
    };
    let h2 = c2.input_hashes();
    assert_ne!(h.pmf_table_sha256, h2.pmf_table_sha256);
}

#[test]
fn test_rust_stream_roundtrip() {
    for case in generate_stream_cases() {
        let bytes = rust_stream_encode(&case).expect("encode");
        assert!(!bytes.is_empty());
        let decoded = rust_stream_decode(&case, &bytes).expect("decode");
        assert_eq!(decoded, expected_values(&case), "seed {}", case.seed);
    }
}

#[test]
fn test_stream_court_generates_cases() {
    let court = StreamDifferentialCourt;
    let mut results = Vec::new();
    for case in &generate_stream_cases() {
        results.push(court.judge_wire_parity(case, &unavailable(), "c", "e"));
        results.push(court.judge_cpp_stream_rust_decode(case, &unavailable(), "c", "e"));
        results.push(court.judge_rust_stream_cpp_decode(
            case,
            &Err(NO_DOCKER.to_string()),
            "c",
            "e",
        ));
    }
    let result = CourtResult::tally(court.id(), results);
    assert!(result.case_count > 0);
}
