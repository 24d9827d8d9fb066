use msrtc_rans::casefile::{sha256, ResidualClassification};
use msrtc_rans::court::CourtResult;
use msrtc_rans::error::RawRansError;
use msrtc_rans::entropy::EntropyError;
use msrtc_rans::hardening_court::hardening_result;
use msrtc_rans::hex::encode;
use msrtc_rans::provenance::{commit_label, environment_description, environment_fingerprint};
use msrtc_rans::seal::{
    aggregate_result, artefact_stem, build_manifest, build_transcript, case_summaries, format_timestamp, image_digest,
    seal_receipt, short_commit, short_commit_cuts, Receipt,
};
use msrtc_rans::text::{decimal, join};
use msrtc_rans::verdict::{persistence_failure, sha_case_id, variant_name};
use msrtc_rans::oracle::{accept_reply, residual_filename, underscored, OracleMeta, OracleResponse};
use msrtc_rans::pmf_courts::{generate_cases, generate_entropy_cases, run_status, EntropyDifferentialCourt};
use msrtc_rans::decoder_cases::generate_decoder_cases;
use msrtc_rans::raw_cases::{symbols_valid, RawCase};
use msrtc_rans::raw_corpus::generate_raw_cases;
use msrtc_rans::stream_cases::generate_stream_cases;
use msrtc_rans::stream_court::values_countable;

#[test]
fn test_decimal_renderings() {
    assert_eq!(decimal(0), "0");
    assert_eq!(decimal(7), "7");
    assert_eq!(decimal(10), "10");
    assert_eq!(decimal(218), "218");
    assert_eq!(decimal(u64::MAX), "18446744073709551615");
}

#[test]
fn test_error_descriptions() {
    assert_eq!(
        RawRansError::InvalidScaleBits { provided: 31, max_safe: 23 }.describe(),
        "InvalidScaleBits { provided: 31, max_safe: 23 }"
    );
    assert_eq!(
        EntropyError::RawRansError(RawRansError::InvalidParameters).describe(),
        "RawRansError(InvalidParameters)"
    );
    assert_eq!(RawRansError::InvalidParameters.describe(), "InvalidParameters");
    assert_eq!(EntropyError::InvalidPmf.describe(), "InvalidPmf");
    assert_eq!(EntropyError::InvalidParams.describe(), "InvalidParams");
}

#[test]
fn test_join_texts() {
    assert_eq!(join("ab", "cd"), "abcd");
    assert_eq!(join("", "x"), "x");
}

#[test]
fn test_format_timestamp_values() {
    assert_eq!(format_timestamp(0), "19700101T000000");
    assert_eq!(format_timestamp(1_700_000_000), "20231114T221320");
    assert_eq!(format_timestamp(951_782_400), "20000229T000000");
    assert_eq!(format_timestamp(86_399), "19700101T235959");
}

#[test]
fn test_short_commit_forms() {
    assert_eq!(short_commit("0123456789abcdef"), "0123456789ab");
    assert_eq!(short_commit("0123456789abcdef-dirty"), "0123456789ab");
    assert_eq!(short_commit("abc-dirty"), "abc");
    assert_eq!(short_commit("abc"), "abc");
    assert_eq!(short_commit("unknown"), "unknown");
    // The cut is by bytes: six two-byte characters fill twelve bytes.
    assert_eq!(short_commit("\u{e9}\u{e9}\u{e9}\u{e9}\u{e9}\u{e9}\u{e9}-dirty"), "\u{e9}\u{e9}\u{e9}\u{e9}\u{e9}\u{e9}");
    assert!(short_commit_cuts("0123456789abcdef"));
    assert!(!short_commit_cuts("a\u{e9}\u{e9}\u{e9}\u{e9}\u{e9}\u{e9}"));
}

#[test]
fn test_commit_label_dirty_and_clean() {
    assert_eq!(commit_label("abc", "true"), "abc-dirty");
    assert_eq!(commit_label("abc", "false"), "abc");
    assert_eq!(commit_label("abc", ""), "abc");
}

#[test]
fn test_environment_fingerprint_value() {
    let text = environment_description("1.80.0", "abc", "x86_64", "linux");
    assert_eq!(
        text,
        "oracle_image=msrtc-rans-rs-oracle:debian12\noracle_commit=0500356a8d6146dd8dc8911022cbeca19675614f\nrust_version=1.80.0\ngit_hash=abc\ntarget=x86_64-linux\n"
    );
    let fp = environment_fingerprint("1.80.0", "abc", "x86_64", "linux");
    assert_eq!(fp, "8e8d6ea4ef6002d5290ae1f68e5f13c9ea57c64fec119932eb28239c0830c0e6");
    assert_eq!(fp.len(), 64);
}

#[test]
fn test_sha256_and_hex_values() {
    assert_eq!(sha256(b"abc"), "ba7816bf8f01cfea414140de5dae2223b00361a396177a9cb410ff61f20015ad");
    assert_eq!(sha256(b""), "e3b0c44298fc1c149afbf4c8996fb92427ae41e4649b934ca495991b7852b855");
    assert_eq!(encode(&[0x00, 0x0f, 0xab, 0xff]), "000fabff");
    assert_eq!(encode(&[]), "");
}

#[test]
fn test_variant_names_and_case_ids() {
    assert_eq!(variant_name(0), "Rans64");
    assert_eq!(variant_name(1), "RansByte");
    assert_eq!(sha_case_id("raw:", "00ff"), "raw:sha256:00ff");
}

#[test]
fn test_persistence_failure_record() {
    let r = hardening_result("raw_sweeps", false, 3, "abc", "env");
    let f = persistence_failure(r);
    assert_eq!(f.case_id, "residual_persistence_failure:raw_sweeps:sub_checks=3");
    assert_eq!(f.classification, ResidualClassification::Environmental);
    assert!(!f.comparison.exact);
    assert_eq!(f.comparison.first_differing_offset, None);
    assert_eq!(f.comparison.differing_bytes, None);
    assert_eq!(f.rust_commit, "abc");
    assert_eq!(f.native.length, 3);
}

#[test]
fn test_aggregate_result_texts() {
    let pass = CourtResult::tally("C", vec![hardening_result("a", true, 1, "c", "e")]);
    assert_eq!(aggregate_result(&pass), "PASS");
    let fail = CourtResult::tally(
        "C",
        vec![hardening_result("a", true, 1, "c", "e"), hardening_result("b", false, 1, "c", "e")],
    );
    assert_eq!(aggregate_result(&fail), "FAIL: 1 pass, 1 residual, 0 skipped / 2 total");
    let none = CourtResult::tally("C", vec![]);
    assert_eq!(aggregate_result(&none), "FAIL: 0 pass, 0 residual, 0 skipped / 0 total");
}

#[test]
fn test_case_summaries_status() {
    let result = CourtResult::tally(
        "C",
        vec![hardening_result("a", true, 1, "c", "e"), hardening_result("b", false, 1, "c", "e")],
    );
    let s = case_summaries(&result);
    assert_eq!(s.len(), 2);
    assert_eq!(s[0].case_id, "a:sub_checks=1");
    assert_eq!(s[0].status, "n/a");
    assert_eq!(s[1].status, "failed / n/a");
    assert_eq!(s[1].native_sha256, sha256(b"b"));
}

#[test]
fn test_build_transcript_text() {
    let result = CourtResult::tally("C", vec![hardening_result("b", false, 2, "c", "e")]);
    let receipt = Receipt {
        court_id: "C".to_string(),
        run_id: "R".to_string(),
        timestamp: "T".to_string(),
        case_count: 1,
        pass_count: 0,
        residual_count: 1,
        skipped_count: 0,
        result: aggregate_result(&result),
        oracle_commit: "O".to_string(),
        rust_commit: "c".to_string(),
        docker_image_digest: "D".to_string(),
        environment_sha256: "e".to_string(),
        commands: vec![],
        cases: case_summaries(&result),
    };
    let t = build_transcript(&result, &receipt);
    let expected = format!(
        "MSRTC Court Transcript\n=====================\n\nCourt:       C\nRun ID:      R\nTimestamp:   T\nRust Commit: c\nOracle Cmt:  O\nEnvironment: e\n\nCases: 1 total, 0 pass, 1 residual, 0 skipped\nResult: FAIL: 0 pass, 1 residual, 0 skipped / 1 total\n\n--- Case 1 ---\nID:     b:sub_checks=2\nStatus: FAIL\nOracle: n/a (sha256: )\nNative: failed (sha256: {})\nSeed:   0\nVariant: n/a\n\n",
        sha256(b"b")
    );
    assert_eq!(t, expected);
}

#[test]
fn test_error_messages() {
    assert_eq!(
        RawRansError::InvalidScaleBits { provided: 31, max_safe: 30 }.to_string(),
        "invalid scale_bits 31: must be in [2, 30]"
    );
    assert_eq!(RawRansError::InvalidParameters.to_string(), "invalid rANS parameters");
    assert_eq!(EntropyError::InvalidPmf.to_string(), "invalid PMF data");
    assert_eq!(EntropyError::InvalidParams.to_string(), "invalid parameter value");
    assert_eq!(EntropyError::InvalidState.to_string(), "invalid state (not initialized)");
    assert_eq!(EntropyError::InvalidStream.to_string(), "invalid stream");
    assert_eq!(
        EntropyError::RawRansError(RawRansError::InvalidParameters).to_string(),
        "raw rANS error: invalid rANS parameters"
    );
}

fn meta(status: Option<&str>, sha: Option<&str>, length: Option<u64>) -> OracleMeta {
    OracleMeta {
        status: status.map(String::from),
        message: None,
        hex: Some("010203".to_string()),
        sha256: sha.map(String::from),
        length,
    }
}

#[test]
fn test_accept_reply_ok_and_refusals() {
    let sha = "039058c6f2c0cb492c533b0a4d14ef77cc0f78abccced5287d84a1a2011cfb81";
    let ok = accept_reply(meta(Some("ok"), Some(sha), Some(3)), vec![1, 2, 3], false).unwrap();
    assert_eq!(ok.status, "ok");
    assert_eq!(ok.hex, "010203");
    assert_eq!(ok.sha256, sha);
    assert_eq!(ok.length, 3);
    assert_eq!(ok.raw_output, vec![1, 2, 3]);

    let err = accept_reply(meta(Some("error"), Some(sha), Some(3)), vec![1, 2, 3], false).unwrap_err();
    assert_eq!(err, "oracle_error: unknown error");
    let err = accept_reply(meta(None, Some(sha), Some(3)), vec![1, 2, 3], true).unwrap_err();
    assert_eq!(err, "raw_oracle_error: unknown error");
    let err = accept_reply(meta(Some("ok"), Some(sha), Some(4)), vec![1, 2, 3], false).unwrap_err();
    assert_eq!(err, "oracle_length_mismatch: reported 4 but stdout has 3 bytes");
    let err = accept_reply(meta(Some("ok"), Some(sha), None), vec![1, 2, 3], true).unwrap_err();
    assert_eq!(err, "raw_oracle_length_mismatch: reported 0 but stdout has 3");
    let err = accept_reply(meta(Some("ok"), Some("00"), Some(3)), vec![1, 2, 3], false).unwrap_err();
    assert_eq!(err, format!("oracle_sha256_mismatch: reported 00 but computed {}", sha));
    // The raw oracle's digest is not checked.
    assert!(accept_reply(meta(Some("ok"), Some("00"), Some(3)), vec![1, 2, 3], true).is_ok());
}

#[test]
fn test_residual_filename_and_stem() {
    let r = hardening_result("raw_sweeps", false, 218, "abc", "env");
    assert_eq!(residual_filename(&r), "MSRTC_HARDENING_raw_sweepssub_checks218_native_bug.json");
    let mut long = r.clone();
    long.case_id = "sha256:0123456789abcdef0123456789abcdef0123456789abcdef".to_string();
    long.classification = ResidualClassification::Environmental;
    assert_eq!(
        residual_filename(&long),
        "MSRTC_HARDENING_sha2560123456789abcdef0123456789abcdef01_environmental.json"
    );
    assert_eq!(underscored("MSRTC.RAW.ENCODER"), "MSRTC_RAW_ENCODER");
    assert_eq!(artefact_stem("MSRTC.HARDENING", "R1"), "MSRTC_MSRTC_HARDENING_R1");
}

#[test]
fn test_oracle_run_status() {
    assert_eq!(run_status("{\"status\":\"ok\",\"length\":3}", true), "ok");
    assert_eq!(run_status("{\"status\":\"error\"}", false), "oracle_error");
    assert_eq!(run_status("segfault", false), "oracle_crash");
    assert_eq!(run_status("", true), "unknown");
}

#[test]
fn test_seal_receipt_and_manifest() {
    let result = CourtResult::tally("MSRTC.HARDENING", vec![hardening_result("a", true, 1, "c", "e")]);
    let receipt = seal_receipt(&result, 1_700_000_000, "0123456789abcdef-dirty", image_digest(None), "env");
    assert_eq!(receipt.run_id, "20231114T221320_0123456789ab");
    assert_eq!(receipt.timestamp, "20231114T221320");
    assert_eq!(receipt.result, "PASS");
    assert_eq!(receipt.rust_commit, "0123456789abcdef-dirty");
    assert_eq!(
        receipt.docker_image_digest,
        "sha256:6474361f20c2dcae4f30ae3ddc7495b529c672dab77583e5f8d9ced524e5dfc8"
    );
    assert_eq!(
        receipt.commands,
        vec![
            "cargo run --bin MSRTC.HARDENING -- court".to_string(),
            "docker run -i --rm msrtc-rans-rs-oracle:debian12".to_string()
        ]
    );
    assert_eq!(receipt.cases.len(), 1);
    assert_eq!(receipt.cases[0].status, "n/a");
    assert_eq!(image_digest(Some("sha256:ff".to_string())), "sha256:ff");
    let manifest = build_manifest(&result, &receipt);
    assert_eq!(manifest.schema_version, 1);
    assert_eq!(manifest.run_id, receipt.run_id);
    assert_eq!(manifest.case_count, 1);
    assert_eq!(manifest.result, "PASS");
}

#[test]
fn test_generated_cases_are_encodable() {
    assert!(generate_raw_cases().iter().all(|c| c.is_encodable()));
    assert!(generate_decoder_cases().iter().all(|c| c.symbols_are_valid()));
    assert!(generate_cases().iter().all(|c| c.is_encodable()));
    assert!(generate_entropy_cases().iter().all(|c| c.is_encodable()));
    assert!(generate_stream_cases().iter().all(|c| values_countable(c)));
}

#[test]
fn test_unencodable_cases_are_detected() {
    let bad = RawCase { seed: 1, variant: 1, mode: 0, scale_bits: 8, symbols: vec![(10, 0)] };
    assert!(!bad.is_encodable());
    let prepared = RawCase { seed: 1, variant: 1, mode: 1, scale_bits: 8, symbols: vec![(10, 0)] };
    assert!(prepared.is_encodable());
    let wide = RawCase { seed: 1, variant: 0, mode: 0, scale_bits: 31, symbols: vec![(0, 1)] };
    assert!(wide.is_encodable());
    let too_wide = RawCase { seed: 1, variant: 1, mode: 0, scale_bits: 31, symbols: vec![(0, 1)] };
    assert!(!too_wide.is_encodable());
    assert!(symbols_valid(&[(0, 256)], 8, 30));
    assert!(!symbols_valid(&[(1, 256)], 8, 30));
    assert!(symbols_valid(&[], 40, 30));
}

fn unhex(h: &str) -> Vec<u8> {
    (0..h.len()).step_by(2).map(|i| u8::from_str_radix(&h[i..i + 2], 16).unwrap()).collect()
}

#[test]
fn test_entropy_court_uses_full_encoder() {
    let cases = generate_entropy_cases();
    let byte = cases[0].rust_encode();
    assert_eq!(byte.0, "ok");
    assert_eq!(byte.1, unhex("0500bd040001a10003000b00"));
    let wide = cases[1].rust_encode();
    assert_eq!(wide.0, "ok");
    assert_eq!(wide.1, unhex("0500a1bd04000000110a002f03000300"));
    // An oracle that answers the reference bitstreams makes every case pass.
    let court = EntropyDifferentialCourt;
    let results: Vec<_> = cases
        .iter()
        .zip([byte.1.clone(), wide.1.clone()])
        .map(|(c, out)| {
            let resp = OracleResponse {
                status: "ok".to_string(),
                hex: String::new(),
                sha256: sha256(&out),
                length: out.len(),
                raw_output: out,
            };
            court.judge(c, &Ok(resp), "c", "e")
        })
        .collect();
    assert!(results.iter().all(|r| r.comparison.exact));
    assert!(results.iter().all(|r| r.classification == ResidualClassification::Unclassified));
    let tally = CourtResult::tally(court.id(), results);
    assert!(tally.is_sealable());
    // A case whose PMF initialisation fails reports the error.
    let mut bad = cases[0].clone();
    bad.symbol_bits = 1;
    let r = bad.rust_encode();
    assert_eq!(r.0, "native_error: InvalidParams");
    assert!(r.1.is_empty());
}
