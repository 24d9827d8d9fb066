use msrtc_rans::entropy::{EntropyDecoder, EntropyEncoder, EntropyError};
use msrtc_rans::variant::{Rans64, RansByte};


// Reference test case from test_msrtc_rans.py:
//   PMF_LENGTHS = [4, 6]
//   PMF_OFFSETS = [1, 2]
//   PMF_TABLE   = [1, 3, 1, 1, 1, 3, 5, 3, 1, 1]
//   INDICES     = [0, 1, 0, 1]
//   VALUES      = [-2, 1, 0, 1]
//   SYMBOL_BITS = 16
//   BYPASS_BITS = 4
//
// Reference bitstreams from upstream oracle (EntropyCoder.cpp):
//   RansByte: hex = "0500bd040001a10003000b00"
//   Rans64:   hex = "0500a1bd04000000110a002f03000300"

const PMF_LENGTHS: [i32; 2] = [4, 6];
const PMF_OFFSETS: [i32; 2] = [1, 2];
const PMF_TABLE: [i32; 10] = [1, 3, 1, 1, 1, 3, 5, 3, 1, 1];
const INDICES: [i32; 4] = [0, 1, 0, 1];
const VALUES: [i32; 4] = [-2, 1, 0, 1];
const SYMBOL_BITS: u32 = 16;
const BYPASS_BITS: u32 = 4;

const REF_HEX_BYTE: &str = "0500bd040001a10003000b00";
const REF_HEX_64: &str = "0500a1bd04000000110a002f03000300";

fn hex_decode(hex: &str) -> Vec<u8> {
    (0..hex.len())
        .step_by(2)
        .map(|i| u8::from_str_radix(&hex[i..i + 2], 16).unwrap())
        .collect()
}

#[test]
fn test_encoder_byte_initialize() {
    let mut enc: EntropyEncoder<RansByte> = EntropyEncoder::new();
    assert!(
        enc.initialize(
            &PMF_LENGTHS,
            &PMF_OFFSETS,
            &PMF_TABLE,
            SYMBOL_BITS,
            BYPASS_BITS
        )
        .is_ok()
    );
}

#[test]
fn test_encoder_64_initialize() {
    let mut enc: EntropyEncoder<Rans64> = EntropyEncoder::new();
    assert!(
        enc.initialize(
            &PMF_LENGTHS,
            &PMF_OFFSETS,
            &PMF_TABLE,
            SYMBOL_BITS,
            BYPASS_BITS
        )
        .is_ok()
    );
}

#[test]
fn test_encoder_rejects_invalid_pmf() {
    let mut enc: EntropyEncoder<RansByte> = EntropyEncoder::new();
    // Mismatched lengths/offsets
    assert_eq!(
        enc.initialize(&[4], &[1, 2], &PMF_TABLE, SYMBOL_BITS, BYPASS_BITS),
        Err(EntropyError::InvalidPmf)
    );
}

#[test]
fn test_encoder_rejects_invalid_params() {
    let mut enc: EntropyEncoder<RansByte> = EntropyEncoder::new();
    // symbol_bits < 2
    assert_eq!(
        enc.initialize(&PMF_LENGTHS, &PMF_OFFSETS, &PMF_TABLE, 1, BYPASS_BITS),
        Err(EntropyError::InvalidParams)
    );
}

#[test]
fn test_encoder_byte_rejects_length_leq_one() {
    let mut enc: EntropyEncoder<RansByte> = EntropyEncoder::new();
    // Length <= 1 is invalid (need tail mass for bypass)
    assert_eq!(
        enc.initialize(&[1, 6], &[1, 2], &PMF_TABLE, SYMBOL_BITS, BYPASS_BITS),
        Err(EntropyError::InvalidPmf)
    );
}

#[test]
fn test_encode_byte_matches_reference() {
    // Encodes values=[-2, 1, 0, 1] with RansByte.
    // Value -2 (index 0, offset 1 => adjusted=-1) triggers bypass.
    let mut enc: EntropyEncoder<RansByte> = EntropyEncoder::new();
    enc.initialize(
        &PMF_LENGTHS,
        &PMF_OFFSETS,
        &PMF_TABLE,
        SYMBOL_BITS,
        BYPASS_BITS,
    )
    .unwrap();

    let mut buffer = Vec::new();
    enc.encode(&INDICES, &VALUES, &mut buffer).unwrap();

    let expected = hex_decode(REF_HEX_BYTE);
    assert_eq!(
        buffer, expected,
        "RansByte encode output does not match reference hex"
    );
}

#[test]
fn test_encode_64_matches_reference() {
    let mut enc: EntropyEncoder<Rans64> = EntropyEncoder::new();
    enc.initialize(
        &PMF_LENGTHS,
        &PMF_OFFSETS,
        &PMF_TABLE,
        SYMBOL_BITS,
        BYPASS_BITS,
    )
    .unwrap();

    let mut buffer = Vec::new();
    enc.encode(&INDICES, &VALUES, &mut buffer).unwrap();

    let expected = hex_decode(REF_HEX_64);
    assert_eq!(
        buffer, expected,
        "Rans64 encode output does not match reference hex"
    );
}

#[test]
fn test_encode_in_range_values_no_bypass() {
    // Values that are all in-range (no bypass):
    // Dist 0: offset=1, sentinel=3, valid adjusted: [0,2] => value: [-1, 1]
    // Dist 1: offset=2, sentinel=5, valid adjusted: [0,4] => value: [-2, 2]
    let in_range_values = [1i32, 1, 0, 1];
    let mut enc: EntropyEncoder<RansByte> = EntropyEncoder::new();
    enc.initialize(
        &PMF_LENGTHS,
        &PMF_OFFSETS,
        &PMF_TABLE,
        SYMBOL_BITS,
        BYPASS_BITS,
    )
    .unwrap();

    let mut buffer = Vec::new();
    let result = enc.encode(&INDICES, &in_range_values, &mut buffer);
    assert!(result.is_ok(), "encode should succeed: {:?}", result);
    assert!(!buffer.is_empty(), "encoded buffer should not be empty");
}

#[test]
fn test_decode_byte_roundtrip_in_range() {
    // Verify roundtrip encode-decode with in-range values (no bypass).
    let values = [1i32, 1, 0, 1];

    let mut enc: EntropyEncoder<RansByte> = EntropyEncoder::new();
    enc.initialize(
        &PMF_LENGTHS,
        &PMF_OFFSETS,
        &PMF_TABLE,
        SYMBOL_BITS,
        BYPASS_BITS,
    )
    .unwrap();

    let mut encoded = Vec::new();
    enc.encode(&INDICES, &values, &mut encoded).unwrap();

    let mut dec: EntropyDecoder<RansByte> = EntropyDecoder::new();
    dec.initialize(
        &PMF_LENGTHS,
        &PMF_OFFSETS,
        &PMF_TABLE,
        SYMBOL_BITS,
        BYPASS_BITS,
    )
    .unwrap();

    let mut decoded = vec![0i32; values.len()];
    dec.decode(&mut decoded, &INDICES, &encoded).unwrap();

    assert_eq!(
        decoded, values,
        "roundtrip decode should match original values"
    );
}

#[test]
fn test_decode_64_roundtrip_in_range() {
    let values = [1i32, 1, 0, 1];

    let mut enc: EntropyEncoder<Rans64> = EntropyEncoder::new();
    enc.initialize(
        &PMF_LENGTHS,
        &PMF_OFFSETS,
        &PMF_TABLE,
        SYMBOL_BITS,
        BYPASS_BITS,
    )
    .unwrap();

    let mut encoded = Vec::new();
    enc.encode(&INDICES, &values, &mut encoded).unwrap();

    let mut dec: EntropyDecoder<Rans64> = EntropyDecoder::new();
    dec.initialize(
        &PMF_LENGTHS,
        &PMF_OFFSETS,
        &PMF_TABLE,
        SYMBOL_BITS,
        BYPASS_BITS,
    )
    .unwrap();

    let mut decoded = vec![0i32; values.len()];
    dec.decode(&mut decoded, &INDICES, &encoded).unwrap();

    assert_eq!(
        decoded, values,
        "Rans64 roundtrip decode should match original values"
    );
}

#[test]
fn test_decode_byte_roundtrip_bypass() {
    // Roundtrip with values that require bypass (value=-2 is out-of-range).
    let values = [-2i32, 1, 0, 1];

    let mut enc: EntropyEncoder<RansByte> = EntropyEncoder::new();
    enc.initialize(
        &PMF_LENGTHS,
        &PMF_OFFSETS,
        &PMF_TABLE,
        SYMBOL_BITS,
        BYPASS_BITS,
    )
    .unwrap();

    let mut encoded = Vec::new();
    enc.encode(&INDICES, &values, &mut encoded).unwrap();

    let mut dec: EntropyDecoder<RansByte> = EntropyDecoder::new();
    dec.initialize(
        &PMF_LENGTHS,
        &PMF_OFFSETS,
        &PMF_TABLE,
        SYMBOL_BITS,
        BYPASS_BITS,
    )
    .unwrap();

    let mut decoded = vec![0i32; values.len()];
    dec.decode(&mut decoded, &INDICES, &encoded).unwrap();

    assert_eq!(
        decoded, values,
        "bypass roundtrip decode should match original values"
    );
}

#[test]
fn test_decode_64_roundtrip_bypass() {
    let values = [-2i32, 1, 0, 1];

    let mut enc: EntropyEncoder<Rans64> = EntropyEncoder::new();
    enc.initialize(
        &PMF_LENGTHS,
        &PMF_OFFSETS,
        &PMF_TABLE,
        SYMBOL_BITS,
        BYPASS_BITS,
    )
    .unwrap();

    let mut encoded = Vec::new();
    enc.encode(&INDICES, &values, &mut encoded).unwrap();

    let mut dec: EntropyDecoder<Rans64> = EntropyDecoder::new();
    dec.initialize(
        &PMF_LENGTHS,
        &PMF_OFFSETS,
        &PMF_TABLE,
        SYMBOL_BITS,
        BYPASS_BITS,
    )
    .unwrap();

    let mut decoded = vec![0i32; values.len()];
    dec.decode(&mut decoded, &INDICES, &encoded).unwrap();

    assert_eq!(
        decoded, values,
        "Rans64 bypass roundtrip decode should match original values"
    );
}

// -----------------------------------------------------------------------
// Issue 2d: scale-32 safe / reject tests
// -----------------------------------------------------------------------

#[test]
fn test_encoder_64_symbol_bits_31_accepted() {
    // Rans64 symbol_bits=31 is within max_safe_bits (31)
    let mut enc: EntropyEncoder<Rans64> = EntropyEncoder::new();
    assert!(
        enc.initialize(&PMF_LENGTHS, &PMF_OFFSETS, &PMF_TABLE, 31, BYPASS_BITS)
            .is_ok()
    );
}

#[test]
fn test_encoder_64_symbol_bits_32_rejected() {
    // Rans64 symbol_bits=32 exceeds max_safe_bits (31), must not panic
    let mut enc: EntropyEncoder<Rans64> = EntropyEncoder::new();
    assert_eq!(
        enc.initialize(&PMF_LENGTHS, &PMF_OFFSETS, &PMF_TABLE, 32, BYPASS_BITS),
        Err(EntropyError::InvalidParams)
    );
}

#[test]
fn test_encoder_64_bypass_bits_32_rejected() {
    // Rans64 bypass_bits=32 exceeds max_safe_bits (31), must not panic
    let mut enc: EntropyEncoder<Rans64> = EntropyEncoder::new();
    assert_eq!(
        enc.initialize(&PMF_LENGTHS, &PMF_OFFSETS, &PMF_TABLE, SYMBOL_BITS, 32),
        Err(EntropyError::InvalidParams)
    );
}

// -----------------------------------------------------------------------
// Issue 3: misaligned Rans64 streams rejected
// -----------------------------------------------------------------------

#[test]
fn test_decode_64_rejects_misaligned_1_extra_byte() {
    let mut enc: EntropyEncoder<Rans64> = EntropyEncoder::new();
    enc.initialize(
        &PMF_LENGTHS,
        &PMF_OFFSETS,
        &PMF_TABLE,
        SYMBOL_BITS,
        BYPASS_BITS,
    )
    .unwrap();
    let mut encoded = Vec::new();
    enc.encode(&INDICES, &[1i32, 1, 0, 1], &mut encoded)
        .unwrap();

    // Append 1 extra byte to make it misaligned
    let mut misaligned = encoded.clone();
    misaligned.push(0xAB);

    let mut dec: EntropyDecoder<Rans64> = EntropyDecoder::new();
    dec.initialize(
        &PMF_LENGTHS,
        &PMF_OFFSETS,
        &PMF_TABLE,
        SYMBOL_BITS,
        BYPASS_BITS,
    )
    .unwrap();
    let mut decoded = vec![0i32; 4];
    let result = dec.decode(&mut decoded, &INDICES, &misaligned);
    assert_eq!(result, Err(EntropyError::InvalidStream));
}

#[test]
fn test_decode_64_rejects_misaligned_2_extra_bytes() {
    let mut enc: EntropyEncoder<Rans64> = EntropyEncoder::new();
    enc.initialize(
        &PMF_LENGTHS,
        &PMF_OFFSETS,
        &PMF_TABLE,
        SYMBOL_BITS,
        BYPASS_BITS,
    )
    .unwrap();
    let mut encoded = Vec::new();
    enc.encode(&INDICES, &[1i32, 1, 0, 1], &mut encoded)
        .unwrap();

    let mut misaligned = encoded.clone();
    misaligned.extend_from_slice(&[0xAB, 0xCD]);

    let mut dec: EntropyDecoder<Rans64> = EntropyDecoder::new();
    dec.initialize(
        &PMF_LENGTHS,
        &PMF_OFFSETS,
        &PMF_TABLE,
        SYMBOL_BITS,
        BYPASS_BITS,
    )
    .unwrap();
    let mut decoded = vec![0i32; 4];
    let result = dec.decode(&mut decoded, &INDICES, &misaligned);
    assert_eq!(result, Err(EntropyError::InvalidStream));
}

#[test]
fn test_decode_64_rejects_misaligned_3_extra_bytes() {
    let mut enc: EntropyEncoder<Rans64> = EntropyEncoder::new();
    enc.initialize(
        &PMF_LENGTHS,
        &PMF_OFFSETS,
        &PMF_TABLE,
        SYMBOL_BITS,
        BYPASS_BITS,
    )
    .unwrap();
    let mut encoded = Vec::new();
    enc.encode(&INDICES, &[1i32, 1, 0, 1], &mut encoded)
        .unwrap();

    let mut misaligned = encoded.clone();
    misaligned.extend_from_slice(&[0xAB, 0xCD, 0xEF]);

    let mut dec: EntropyDecoder<Rans64> = EntropyDecoder::new();
    dec.initialize(
        &PMF_LENGTHS,
        &PMF_OFFSETS,
        &PMF_TABLE,
        SYMBOL_BITS,
        BYPASS_BITS,
    )
    .unwrap();
    let mut decoded = vec![0i32; 4];
    let result = dec.decode(&mut decoded, &INDICES, &misaligned);
    assert_eq!(result, Err(EntropyError::InvalidStream));
}

#[test]
fn test_decode_byte_accepts_extra_bytes() {
    // RansByte has byte-level alignment, extra bytes should not be rejected
    let mut enc: EntropyEncoder<RansByte> = EntropyEncoder::new();
    enc.initialize(
        &PMF_LENGTHS,
        &PMF_OFFSETS,
        &PMF_TABLE,
        SYMBOL_BITS,
        BYPASS_BITS,
    )
    .unwrap();
    let mut encoded = Vec::new();
    enc.encode(&INDICES, &[1i32, 1, 0, 1], &mut encoded)
        .unwrap();

    // Append extra bytes
    let mut extended = encoded.clone();
    extended.extend_from_slice(&[0xAB, 0xCD]);

    let mut dec: EntropyDecoder<RansByte> = EntropyDecoder::new();
    dec.initialize(
        &PMF_LENGTHS,
        &PMF_OFFSETS,
        &PMF_TABLE,
        SYMBOL_BITS,
        BYPASS_BITS,
    )
    .unwrap();
    let mut decoded = vec![0i32; 4];
    // This may fail because the decoder checks EOF, but it should NOT
    // be rejected for misalignment
    let _ = dec.decode(&mut decoded, &INDICES, &extended);
    // We don't assert success or failure — we just assert no panic
}

// -----------------------------------------------------------------------
// Issue 4: Expanded bypass coverage
// -----------------------------------------------------------------------

#[test]
fn test_encode_bypass_positive_outlier() {
    // Value > sentinel (positive outlier): dist 0 sentinel=3, offset=1,
    // value=10 => adjusted=11 > 3 => bypass (8/2=4 above sentinel => value 4+3=7-1=6...
    // actually: adjusted=11, sentinel=3, bypass_value = 2*(11-3) = 16
    // decode: 16>>1=8, 8+3=11-1=10 ✓
    let values = [10i32, 1, 0, 1];
    let mut enc: EntropyEncoder<RansByte> = EntropyEncoder::new();
    enc.initialize(
        &PMF_LENGTHS,
        &PMF_OFFSETS,
        &PMF_TABLE,
        SYMBOL_BITS,
        BYPASS_BITS,
    )
    .unwrap();
    let mut encoded = Vec::new();
    enc.encode(&INDICES, &values, &mut encoded).unwrap();

    let mut dec: EntropyDecoder<RansByte> = EntropyDecoder::new();
    dec.initialize(
        &PMF_LENGTHS,
        &PMF_OFFSETS,
        &PMF_TABLE,
        SYMBOL_BITS,
        BYPASS_BITS,
    )
    .unwrap();
    let mut decoded = vec![0i32; 4];
    dec.decode(&mut decoded, &INDICES, &encoded).unwrap();
    assert_eq!(decoded, values);
}

#[test]
fn test_encode_bypass_multi_digit_value() {
    // Value requiring multiple bypassBits-sized chunks (bypass_bits=4)
    // Large bypass value: dist 0 sentinel=3, offset=1, value=200 => adjusted=201
    // bypass_value = 2*(201-3) = 396 = 0x18C, needs multiple 4-bit chunks
    let values = [200i32, 1, 0, 1];
    let mut enc: EntropyEncoder<RansByte> = EntropyEncoder::new();
    enc.initialize(
        &PMF_LENGTHS,
        &PMF_OFFSETS,
        &PMF_TABLE,
        SYMBOL_BITS,
        BYPASS_BITS,
    )
    .unwrap();
    let mut encoded = Vec::new();
    enc.encode(&INDICES, &values, &mut encoded).unwrap();

    let mut dec: EntropyDecoder<RansByte> = EntropyDecoder::new();
    dec.initialize(
        &PMF_LENGTHS,
        &PMF_OFFSETS,
        &PMF_TABLE,
        SYMBOL_BITS,
        BYPASS_BITS,
    )
    .unwrap();
    let mut decoded = vec![0i32; 4];
    dec.decode(&mut decoded, &INDICES, &encoded).unwrap();
    assert_eq!(decoded, values);
}

#[test]
fn test_encode_bypass_bits_2() {
    // Minimum bypass_bits = 2
    let mut enc: EntropyEncoder<RansByte> = EntropyEncoder::new();
    enc.initialize(&PMF_LENGTHS, &PMF_OFFSETS, &PMF_TABLE, SYMBOL_BITS, 2)
        .unwrap();
    let values = [10i32, 1, 0, 1]; // value 10 => bypass
    let mut encoded = Vec::new();
    enc.encode(&INDICES, &values, &mut encoded).unwrap();

    let mut dec: EntropyDecoder<RansByte> = EntropyDecoder::new();
    dec.initialize(&PMF_LENGTHS, &PMF_OFFSETS, &PMF_TABLE, SYMBOL_BITS, 2)
        .unwrap();
    let mut decoded = vec![0i32; 4];
    dec.decode(&mut decoded, &INDICES, &encoded).unwrap();
    assert_eq!(decoded, values);
}

#[test]
fn test_encode_bypass_bits_3() {
    // Odd bypass_bits = 3
    let mut enc: EntropyEncoder<RansByte> = EntropyEncoder::new();
    enc.initialize(&PMF_LENGTHS, &PMF_OFFSETS, &PMF_TABLE, SYMBOL_BITS, 3)
        .unwrap();
    let values = [10i32, 1, 0, 1];
    let mut encoded = Vec::new();
    enc.encode(&INDICES, &values, &mut encoded).unwrap();

    let mut dec: EntropyDecoder<RansByte> = EntropyDecoder::new();
    dec.initialize(&PMF_LENGTHS, &PMF_OFFSETS, &PMF_TABLE, SYMBOL_BITS, 3)
        .unwrap();
    let mut decoded = vec![0i32; 4];
    dec.decode(&mut decoded, &INDICES, &encoded).unwrap();
    assert_eq!(decoded, values);
}

#[test]
fn test_encode_bypass_bits_8() {
    // Larger bypass_bits = 8
    let mut enc: EntropyEncoder<RansByte> = EntropyEncoder::new();
    enc.initialize(&PMF_LENGTHS, &PMF_OFFSETS, &PMF_TABLE, SYMBOL_BITS, 8)
        .unwrap();
    let values = [10i32, 1, 0, 1];
    let mut encoded = Vec::new();
    enc.encode(&INDICES, &values, &mut encoded).unwrap();

    let mut dec: EntropyDecoder<RansByte> = EntropyDecoder::new();
    dec.initialize(&PMF_LENGTHS, &PMF_OFFSETS, &PMF_TABLE, SYMBOL_BITS, 8)
        .unwrap();
    let mut decoded = vec![0i32; 4];
    dec.decode(&mut decoded, &INDICES, &encoded).unwrap();
    assert_eq!(decoded, values);
}

#[test]
fn test_encode_bypass_multiple_bypasses() {
    // Multiple bypass values in one stream: both -2 and 10 need bypass
    // dist 0: offset=1 sentinel=3, dist 1: offset=2 sentinel=5
    // value -2 (dist 0) => adjusted=-1 => bypass (negative)
    // value 10 (dist 1) => adjusted=12 => bypass (positive)
    let values = [-2i32, 10, 0, 1];
    let mut enc: EntropyEncoder<RansByte> = EntropyEncoder::new();
    enc.initialize(
        &PMF_LENGTHS,
        &PMF_OFFSETS,
        &PMF_TABLE,
        SYMBOL_BITS,
        BYPASS_BITS,
    )
    .unwrap();
    let mut encoded = Vec::new();
    enc.encode(&INDICES, &values, &mut encoded).unwrap();

    let mut dec: EntropyDecoder<RansByte> = EntropyDecoder::new();
    dec.initialize(
        &PMF_LENGTHS,
        &PMF_OFFSETS,
        &PMF_TABLE,
        SYMBOL_BITS,
        BYPASS_BITS,
    )
    .unwrap();
    let mut decoded = vec![0i32; 4];
    dec.decode(&mut decoded, &INDICES, &encoded).unwrap();
    assert_eq!(decoded, values);
}

#[test]
fn test_encode_bypass_mixed_in_range_and_bypass() {
    // Mix of in-range and bypass values
    // dist 0: offset=1 sentinel=3, valid adjusted [0,2] => values [-1, 1]
    // dist 1: offset=2 sentinel=5, valid adjusted [0,4] => values [-2, 2]
    // value 0 in dist 0 => in-range, value 1 in dist 0 => in-range
    // value 5 in dist 1 => bypass (adjusted=7 > 4), value -3 in dist 1 => bypass (adjusted=-1 < 0)
    let values = [0i32, 5, 1, -3];
    let mut enc: EntropyEncoder<RansByte> = EntropyEncoder::new();
    enc.initialize(
        &PMF_LENGTHS,
        &PMF_OFFSETS,
        &PMF_TABLE,
        SYMBOL_BITS,
        BYPASS_BITS,
    )
    .unwrap();
    let mut encoded = Vec::new();
    enc.encode(&INDICES, &values, &mut encoded).unwrap();

    let mut dec: EntropyDecoder<RansByte> = EntropyDecoder::new();
    dec.initialize(
        &PMF_LENGTHS,
        &PMF_OFFSETS,
        &PMF_TABLE,
        SYMBOL_BITS,
        BYPASS_BITS,
    )
    .unwrap();
    let mut decoded = vec![0i32; 4];
    dec.decode(&mut decoded, &INDICES, &encoded).unwrap();
    assert_eq!(decoded, values);
}

#[test]
fn test_encode_bypass_negative_outlier_at_boundary() {
    // Negative outlier at boundary: -1 - sentinel (very negative)
    // dist 0: offset=1, sentinel=3, value=-10 => adjusted=-9 => bypass
    // (-9 < 0) => bypass_value = 2*9-1 = 17, decode: 17>>1=8, -(8+1) = -9, -9+1 = -8... wait
    // decode bypass: negative flag set, half=8, symbol = -(8+1) = -9, -9 = -9+1 = -8...
    // Actually: symbol = -9, values[i] = symbol - offset = (-9) - 1 = -10 ✓
    let values = [-10i32, 1, 0, 1];
    let mut enc: EntropyEncoder<RansByte> = EntropyEncoder::new();
    enc.initialize(
        &PMF_LENGTHS,
        &PMF_OFFSETS,
        &PMF_TABLE,
        SYMBOL_BITS,
        BYPASS_BITS,
    )
    .unwrap();
    let mut encoded = Vec::new();
    enc.encode(&INDICES, &values, &mut encoded).unwrap();

    let mut dec: EntropyDecoder<RansByte> = EntropyDecoder::new();
    dec.initialize(
        &PMF_LENGTHS,
        &PMF_OFFSETS,
        &PMF_TABLE,
        SYMBOL_BITS,
        BYPASS_BITS,
    )
    .unwrap();
    let mut decoded = vec![0i32; 4];
    dec.decode(&mut decoded, &INDICES, &encoded).unwrap();
    assert_eq!(decoded, values);
}

#[test]
fn test_encode_bypass_large_positive_outlier() {
    // Large positive outlier
    let values = [10000i32, 1, 0, 1];
    let mut enc: EntropyEncoder<RansByte> = EntropyEncoder::new();
    enc.initialize(
        &PMF_LENGTHS,
        &PMF_OFFSETS,
        &PMF_TABLE,
        SYMBOL_BITS,
        BYPASS_BITS,
    )
    .unwrap();
    let mut encoded = Vec::new();
    enc.encode(&INDICES, &values, &mut encoded).unwrap();

    let mut dec: EntropyDecoder<RansByte> = EntropyDecoder::new();
    dec.initialize(
        &PMF_LENGTHS,
        &PMF_OFFSETS,
        &PMF_TABLE,
        SYMBOL_BITS,
        BYPASS_BITS,
    )
    .unwrap();
    let mut decoded = vec![0i32; 4];
    dec.decode(&mut decoded, &INDICES, &encoded).unwrap();
    assert_eq!(decoded, values);
}

// -----------------------------------------------------------------------
// Issue 5: extreme value overflow protection
// -----------------------------------------------------------------------

#[test]
fn test_encode_bypass_extreme_negative_i32_min_plus_one() {
    // i32::MIN + 1 with offset 1 gives adjusted = i32::MIN + 2 = -2147483646
    // checked_neg of that gives 2147483646, no overflow.
    // This should succeed (no overflow).
    let values = [i32::MIN + 1, 1, 0, 1];
    let mut enc: EntropyEncoder<RansByte> = EntropyEncoder::new();
    enc.initialize(
        &PMF_LENGTHS,
        &PMF_OFFSETS,
        &PMF_TABLE,
        SYMBOL_BITS,
        BYPASS_BITS,
    )
    .unwrap();
    let mut encoded = Vec::new();
    let result = enc.encode(&INDICES, &values, &mut encoded);
    // Must not panic — should succeed or return InvalidParams gracefully
    assert!(result.is_ok() || result == Err(EntropyError::InvalidParams));
}

#[test]
fn test_encode_bypass_extreme_positive_i32_max() {
    // i32::MAX with offset could cause overflow in checked_add -> InvalidParams
    let values = [i32::MAX, 1, 0, 1];
    let mut enc: EntropyEncoder<RansByte> = EntropyEncoder::new();
    enc.initialize(
        &PMF_LENGTHS,
        &PMF_OFFSETS,
        &PMF_TABLE,
        SYMBOL_BITS,
        BYPASS_BITS,
    )
    .unwrap();
    let mut encoded = Vec::new();
    let result = enc.encode(&INDICES, &values, &mut encoded);
    assert_eq!(result, Err(EntropyError::InvalidParams));
}

#[test]
fn test_encode_clamps_indices_and_skips_negative() {
    // Indices past the last distribution use the last one; elements with a
    // negative index encode nothing.
    let mut enc: EntropyEncoder<RansByte> = EntropyEncoder::new();
    enc.initialize(&PMF_LENGTHS, &PMF_OFFSETS, &PMF_TABLE, SYMBOL_BITS, BYPASS_BITS)
        .unwrap();
    let mut wide = Vec::new();
    enc.encode(&[0, 7, -3, 0, 2], &[-2, 1, 9, 0, 1], &mut wide).unwrap();
    let mut clamped = Vec::new();
    enc.encode(&[0, 1, -3, 0, 1], &[-2, 1, 9, 0, 1], &mut clamped).unwrap();
    let mut kept = Vec::new();
    enc.encode(&INDICES, &VALUES, &mut kept).unwrap();
    assert_eq!(wide, clamped);
    assert_eq!(wide, kept);
    assert_eq!(wide, hex_decode(REF_HEX_BYTE));

    let mut enc64: EntropyEncoder<Rans64> = EntropyEncoder::new();
    enc64
        .initialize(&PMF_LENGTHS, &PMF_OFFSETS, &PMF_TABLE, SYMBOL_BITS, BYPASS_BITS)
        .unwrap();
    let mut wide64 = Vec::new();
    enc64.encode(&[-1, 0, 9, 0, 1], &[4, -2, 1, 0, 1], &mut wide64).unwrap();
    assert_eq!(wide64, hex_decode(REF_HEX_64));
}

#[test]
fn test_strict_prefix_never_decodes() {
    let mut enc: EntropyEncoder<RansByte> = EntropyEncoder::new();
    enc.initialize(&PMF_LENGTHS, &PMF_OFFSETS, &PMF_TABLE, SYMBOL_BITS, BYPASS_BITS)
        .unwrap();
    let mut dec: EntropyDecoder<RansByte> = EntropyDecoder::new();
    dec.initialize(&PMF_LENGTHS, &PMF_OFFSETS, &PMF_TABLE, SYMBOL_BITS, BYPASS_BITS)
        .unwrap();
    let mut msg = Vec::new();
    enc.encode(&INDICES, &VALUES, &mut msg).unwrap();
    for cut in 0..msg.len() {
        let mut out = [0i32; 4];
        assert_eq!(
            dec.decode(&mut out, &INDICES, &msg[..cut]),
            Err(EntropyError::InvalidStream),
            "prefix of length {} decoded",
            cut
        );
    }

    let mut enc64: EntropyEncoder<Rans64> = EntropyEncoder::new();
    enc64
        .initialize(&PMF_LENGTHS, &PMF_OFFSETS, &PMF_TABLE, SYMBOL_BITS, BYPASS_BITS)
        .unwrap();
    let mut dec64: EntropyDecoder<Rans64> = EntropyDecoder::new();
    dec64
        .initialize(&PMF_LENGTHS, &PMF_OFFSETS, &PMF_TABLE, SYMBOL_BITS, BYPASS_BITS)
        .unwrap();
    let mut msg64 = Vec::new();
    enc64.encode(&INDICES, &VALUES, &mut msg64).unwrap();
    for cut in 0..msg64.len() {
        let mut out = [0i32; 4];
        assert_eq!(
            dec64.decode(&mut out, &INDICES, &msg64[..cut]),
            Err(EntropyError::InvalidStream)
        );
    }
}

#[test]
fn test_decode_partial_leaves_trailing_data() {
    let mut enc: EntropyEncoder<RansByte> = EntropyEncoder::new();
    enc.initialize(&PMF_LENGTHS, &PMF_OFFSETS, &PMF_TABLE, SYMBOL_BITS, BYPASS_BITS)
        .unwrap();
    let mut dec: EntropyDecoder<RansByte> = EntropyDecoder::new();
    dec.initialize(&PMF_LENGTHS, &PMF_OFFSETS, &PMF_TABLE, SYMBOL_BITS, BYPASS_BITS)
        .unwrap();
    let mut data = Vec::new();
    enc.encode(&INDICES, &VALUES, &mut data).unwrap();
    let len = data.len();
    data.extend_from_slice(&[0xAA, 0x01, 0xFF]);
    let mut out = [7i32; 4];
    assert_eq!(dec.decode_partial(&mut out, &INDICES, &data), Ok(len));
    assert_eq!(out, VALUES);
    let mut out2 = [0i32; 4];
    assert_eq!(
        dec.decode(&mut out2, &INDICES, &data),
        Err(EntropyError::InvalidStream)
    );

    let mut enc64: EntropyEncoder<Rans64> = EntropyEncoder::new();
    enc64
        .initialize(&PMF_LENGTHS, &PMF_OFFSETS, &PMF_TABLE, SYMBOL_BITS, BYPASS_BITS)
        .unwrap();
    let mut dec64: EntropyDecoder<Rans64> = EntropyDecoder::new();
    dec64
        .initialize(&PMF_LENGTHS, &PMF_OFFSETS, &PMF_TABLE, SYMBOL_BITS, BYPASS_BITS)
        .unwrap();
    let mut data64 = Vec::new();
    enc64.encode(&INDICES, &VALUES, &mut data64).unwrap();
    let len64 = data64.len();
    data64.extend_from_slice(&[1, 2, 3, 4, 5, 6, 7, 8]);
    let mut out64 = [7i32; 4];
    assert_eq!(dec64.decode_partial(&mut out64, &INDICES, &data64), Ok(len64));
    assert_eq!(out64, VALUES);
    assert_eq!(
        dec64.decode(&mut out64, &INDICES, &data64),
        Err(EntropyError::InvalidStream)
    );
}

#[test]
fn test_empty_layout_rejected() {
    // A layout needs at least one distribution.
    let mut enc: EntropyEncoder<RansByte> = EntropyEncoder::new();
    assert_eq!(
        enc.initialize(&[], &[], &[], SYMBOL_BITS, BYPASS_BITS),
        Err(EntropyError::InvalidPmf)
    );
    let mut buf = Vec::new();
    assert_eq!(enc.encode(&[-1], &[0], &mut buf), Err(EntropyError::InvalidState));
    let mut dec: EntropyDecoder<Rans64> = EntropyDecoder::new();
    assert_eq!(
        dec.initialize(&[], &[], &[], SYMBOL_BITS, BYPASS_BITS),
        Err(EntropyError::InvalidPmf)
    );
}

#[test]
fn test_failed_initialize_keeps_encoder() {
    let mut enc: EntropyEncoder<RansByte> = EntropyEncoder::new();
    let mut before = Vec::new();
    assert_eq!(enc.encode(&INDICES, &VALUES, &mut before), Err(EntropyError::InvalidState));
    assert_eq!(enc.initialize(&[4], &[1, 2], &PMF_TABLE, SYMBOL_BITS, BYPASS_BITS), Err(EntropyError::InvalidPmf));
    assert_eq!(enc.encode(&INDICES, &VALUES, &mut before), Err(EntropyError::InvalidState));
    enc.initialize(&PMF_LENGTHS, &PMF_OFFSETS, &PMF_TABLE, SYMBOL_BITS, BYPASS_BITS).unwrap();
    assert_eq!(enc.initialize(&PMF_LENGTHS, &PMF_OFFSETS, &PMF_TABLE, 1, BYPASS_BITS), Err(EntropyError::InvalidParams));
    let mut after = Vec::new();
    enc.encode(&INDICES, &VALUES, &mut after).unwrap();
    assert_eq!(after, hex_decode(REF_HEX_BYTE));
}
