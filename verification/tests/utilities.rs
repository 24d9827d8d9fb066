use msrtc_rans::arithmetic::freq_one_reciprocal_u32;
use msrtc_rans::buffer::unit_byte_size;
use msrtc_rans::casefile::ResidualClassification;
use msrtc_rans::corpus::{gen_values, Lcg};
use msrtc_rans::decoder_cases::compare_gets;
use msrtc_rans::entropy::{EntropyDecoder, EntropyEncoder};
use msrtc_rans::oracle::{classify_error, classify_mismatch, compare_bytes, hash_i32_array, hash_u32_array, OracleResponse};
use msrtc_rans::stream::{RansDecoderStream, RansEncoderStream};
use msrtc_rans::stream_cases::count_mismatches;
use msrtc_rans::variant::RansByte;
use msrtc_rans::RansVariant;

#[test]
fn test_variant_sizes() {
    assert_eq!(RansVariant::RansByte.state_size(), 4);
    assert_eq!(RansVariant::Rans64.state_size(), 8);
    assert_eq!(RansVariant::RansByte.unit_size(), 1);
    assert_eq!(RansVariant::Rans64.unit_size(), 4);
    assert_eq!(unit_byte_size::<u8>(), 1);
    assert_eq!(unit_byte_size::<u32>(), 4);
}

#[test]
fn test_freq_one_reciprocal_u32_value() {
    assert_eq!(freq_one_reciprocal_u32(), (u32::MAX, 0));
}

#[test]
fn test_array_hashes_are_little_endian() {
    assert_eq!(
        hash_u32_array(&[1, 2]),
        "34fb5c825de7ca4aea6e712f19d439c1da0c92c37b423936c5f618545ca4fa1f"
    );
    assert_eq!(
        hash_i32_array(&[-1]),
        "ad95131bc0b799c0b1af477fb14fcf26a6a9f76079e48bf090acb7e8367bfd0e"
    );
}

#[test]
fn test_compare_bytes_reports_first_difference() {
    let same = compare_bytes(&[1, 2, 3], &[1, 2, 3]);
    assert!(same.exact);
    assert_eq!(same.first_differing_offset, None);
    let diff = compare_bytes(&[1, 2, 3], &[1, 9, 3, 4]);
    assert!(!diff.exact);
    assert_eq!(diff.first_differing_offset, Some(1));
    assert_eq!(diff.differing_bytes, Some(2));
    let prefix = compare_bytes(&[1, 2], &[1, 2, 3]);
    assert_eq!(prefix.first_differing_offset, Some(2));
    assert_eq!(prefix.differing_bytes, Some(1));
}

#[test]
fn test_compare_gets_offsets_are_in_bytes() {
    assert!(compare_gets(&[5, 6], true, &[5, 6], true).exact);
    let c = compare_gets(&[5, 6, 7], true, &[5, 8, 7], true);
    assert_eq!(c.first_differing_offset, Some(4));
    assert_eq!(c.differing_bytes, Some(1));
    let eof = compare_gets(&[5], true, &[5], false);
    assert!(!eof.exact);
    assert_eq!(eof.first_differing_offset, None);
    assert_eq!(eof.differing_bytes, Some(1));
}

#[test]
fn test_count_mismatches_over_common_values() {
    let decoded = vec![vec![1, 2, 3], vec![4]];
    let expected = vec![vec![1, 0, 3], vec![5, 6]];
    assert_eq!(count_mismatches(&decoded, &expected), 2);
    assert_eq!(count_mismatches(&expected, &expected), 0);
}

#[test]
fn test_classifications() {
    let resp = OracleResponse {
        status: "ok".to_string(),
        hex: String::new(),
        sha256: String::new(),
        length: 0,
        raw_output: vec![],
    };
    assert_eq!(classify_mismatch("ok", Ok(&resp)), ResidualClassification::Unclassified);
    assert_eq!(classify_mismatch("native_error", Ok(&resp)), ResidualClassification::NativeBug);
    assert_eq!(classify_mismatch("ok", Err("docker_spawn: no")), ResidualClassification::Environmental);
    assert_eq!(classify_mismatch("ok", Err("oracle_exit_1: x")), ResidualClassification::OracleBug);
    assert_eq!(classify_error("docker_wait: x"), ResidualClassification::Environmental);
    assert_eq!(classify_error("spawn failed"), ResidualClassification::Environmental);
    assert_eq!(classify_error("raw_oracle_exit_2: y"), ResidualClassification::OracleBug);
    assert_eq!(classify_error("oracle_json_parse: z"), ResidualClassification::OracleBug);
    assert_eq!(classify_error("oracle_error: w"), ResidualClassification::Unclassified);
}

#[test]
fn test_gen_values_indices_cycle() {
    let mut rng = Lcg::new(7);
    let (values, indices) = gen_values(&mut rng, 3, 6, 10);
    assert_eq!(values.len(), 10);
    assert_eq!(indices, vec![0, 1, 2, 0, 1, 2, 0, 1, 2, 0]);
    let mut again = Lcg::new(7);
    let (values2, _) = gen_values(&mut again, 3, 6, 10);
    assert_eq!(values, values2);
}

#[test]
fn test_stream_bytes_consumed() {
    let lengths = vec![4];
    let offsets = vec![1];
    let table = vec![1, 3, 1, 1];
    let mut enc: EntropyEncoder<RansByte> = EntropyEncoder::new();
    enc.initialize(&lengths, &offsets, &table, 4, 2).unwrap();
    let mut stream = RansEncoderStream::<RansByte>::new();
    stream.push(&enc, &[0, 0], &[0, 1]).unwrap();
    let data = stream.flush().unwrap();
    let mut dec: EntropyDecoder<RansByte> = EntropyDecoder::new();
    dec.initialize(&lengths, &offsets, &table, 4, 2).unwrap();
    let mut ds = RansDecoderStream::<RansByte>::open_on(&data);
    assert_eq!(ds.bytes_consumed(), 0);
    let mut out = vec![0i32; 2];
    ds.decode(&dec, &mut out, &[0, 0]).unwrap();
    assert_eq!(out, vec![0, 1]);
    assert_eq!(ds.bytes_consumed(), data.len());
    assert!(ds.decode_eof().is_ok());
}
