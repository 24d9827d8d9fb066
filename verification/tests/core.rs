use msrtc_rans::arithmetic::{
    compute_reciprocal_u64, fast_quotient_u64, freq_one_reciprocal_u64, mul_hi_u64,
    reciprocal_shift,
};
use msrtc_rans::error::RawRansError;
use msrtc_rans::sink::{Sink, SliceSink, VecSink};
use msrtc_rans::source::{SliceSource, Source};
use msrtc_rans::{
    Rans64Decoder, Rans64EncSymbol, Rans64Encoder, RansByteDecoder, RansByteEncSymbol,
    RansByteEncoder,
};
use msrtc_rans::Freq;

// ---- arithmetic.rs ----


#[test]
fn test_mul_hi_u64() {
    // 3 * 5 = 15, high part of small numbers is 0
    assert_eq!(mul_hi_u64(3, 5), 0);
    // !0u64 * 1 = 2^64-1, high part is 0
    assert_eq!(mul_hi_u64(!0u64, 1u64), 0);
    // 2^63 * 2^63 = 2^126, high 64 bits = 2^62
    let a: u64 = 1u64 << 63;
    assert_eq!(mul_hi_u64(a, a), 1u64 << 62);
    // !0u64 * !0u64 = (2^64-1)^2 = 2^128 - 2*2^64 + 1
    // high bits: 2^64 - 2
    assert_eq!(mul_hi_u64(!0u64, !0u64), !0u64 - 1);
}

#[test]
fn test_reciprocal_shift() {
    // C++: shift=1; while (freq > (1<<shift)) shift++;
    assert_eq!(reciprocal_shift(1), 1);
    assert_eq!(reciprocal_shift(2), 1); // 2 > 2? no
    assert_eq!(reciprocal_shift(3), 2); // 3 > 2? yes; 3 > 4? no
    assert_eq!(reciprocal_shift(4), 2); // 4 > 2? yes; 4 > 4? no
    assert_eq!(reciprocal_shift(5), 3); // 5 > 2? yes; 5 > 4? yes; 5 > 8? no
    assert_eq!(reciprocal_shift(8), 3); // 8 > 2? yes; 8 > 4? yes; 8 > 8? no
    assert_eq!(reciprocal_shift(9), 4);
}

#[test]
fn test_compute_reciprocal_u64() {
    let rcp = compute_reciprocal_u64(3);
    assert!(rcp > 0);
    // With freq=3, x=LowerBound (1<<31), quotient should be ~715827882
    let x: u64 = 1u64 << 31;
    let q = fast_quotient_u64(x, rcp, reciprocal_shift(3) - 1);
    // q should be floor(x/freq) = floor(2^31/3) = 715827882
    assert_eq!(q, (1u64 << 31) / 3);
}

#[test]
fn test_fast_division_matches_exact() {
    // Verify that fast division matches exact division for a range of values
    // Note: freq=1 uses a special fast path, not compute_reciprocal_u64
    let freqs = [2u32, 3, 5, 10, 100, 1000, 0x7FFF];
    for freq in freqs {
        let shift = reciprocal_shift(freq) - 1;
        let rcp = compute_reciprocal_u64(freq);

        for x in [1u64, 100, 1u64 << 20, 1u64 << 31, 1u64 << 40, 1u64 << 50] {
            let fast = fast_quotient_u64(x, rcp, shift);
            let exact = x / freq as u64;
            assert_eq!(fast, exact, "freq={} x={}", freq, x);
        }
    }
}

#[test]
fn test_freq_one_special_case_division() {
    // For freq=1: q = mul_hi(x, !0) >> 0 = x - 1 (for x > 0)
    let (rcp, shift) = freq_one_reciprocal_u64();
    assert_eq!(rcp, !0u64);
    assert_eq!(shift, 0);

    let x: u64 = 100;
    let q = fast_quotient_u64(x, rcp, shift);
    assert_eq!(q, x - 1);
}

// ---- sink.rs ----


#[test]
fn test_vec_sink_basic() {
    let mut sink = VecSink::<u8>::new(64);
    assert!(sink.is_empty());

    sink.write(0xAB);
    sink.write(0xCD);
    assert_eq!(sink.len(), 2);
    // Data written end-to-start: first write goes to end of encoded output
    assert_eq!(sink.encoded(), &[0xCD, 0xAB]);
}

#[test]
fn test_vec_sink_growth_at_64_boundary() {
    // Exact 64 capacity: write 64 items then 65th triggers growth
    let mut sink = VecSink::<u8>::with_exact_capacity(64);
    for i in 0..65u8 {
        sink.write(i);
    }
    assert_eq!(sink.len(), 65);
    // Verify every unit is present and correct (reversed)
    for i in 0..65u8 {
        assert_eq!(
            sink.encoded()[(64 - i) as usize],
            i,
            "mismatch at position {}",
            i
        );
    }
}

#[test]
fn test_vec_sink_growth_at_65_boundary() {
    // Write exactly to first-growth boundary and one past
    let mut sink = VecSink::<u8>::with_exact_capacity(65);
    for i in 0..66u8 {
        sink.write(i);
    }
    assert_eq!(sink.len(), 66);
    for i in 0..66u8 {
        assert_eq!(
            sink.encoded()[(65 - i) as usize],
            i,
            "mismatch at position {}",
            i
        );
    }
}

#[test]
fn test_vec_sink_growth_at_320_boundary() {
    // Growth step is min(old_len, 256) when old_len=320: step=256, new=576
    let mut sink = VecSink::<u8>::with_exact_capacity(320);
    for i in 0..321u16 {
        sink.write(i as u8);
    }
    assert_eq!(sink.len(), 321);
    for i in 0..321u16 {
        assert_eq!(
            sink.encoded()[(320 - i) as usize],
            i as u8,
            "mismatch at {}",
            i
        );
    }
}

#[test]
fn test_vec_sink_multiple_growths() {
    // Force several growth cycles: 64 → 320 → 576 → ...
    let mut sink = VecSink::<u8>::with_exact_capacity(64);
    for i in 0..1000u16 {
        sink.write(i as u8);
    }
    assert_eq!(sink.len(), 1000);
    for i in 0..1000u16 {
        assert_eq!(
            sink.encoded()[(999 - i) as usize],
            i as u8,
            "mismatch at {}",
            i
        );
    }
}

#[test]
fn test_slice_sink_basic() {
    let mut buf = [0u8; 16];
    let mut sink = SliceSink::new(&mut buf[..]);
    sink.write(0xAB);
    sink.write(0xCD);
    assert_eq!(sink.len(), 2);
    assert_eq!(sink.encoded(), &[0xCD, 0xAB]);
}

// ---- source.rs ----


#[test]
fn test_slice_source_basic() {
    let data = [1u8, 2, 3, 4];
    let mut source = SliceSource::new(&data);

    let mut unit = 0u8;
    assert!(source.read(&mut unit));
    assert_eq!(unit, 1);
    assert!(source.read(&mut unit));
    assert_eq!(unit, 2);
    assert!(source.read(&mut unit));
    assert_eq!(unit, 3);
    assert!(source.read(&mut unit));
    assert_eq!(unit, 4);

    assert!(!source.read(&mut unit));
    assert!(source.is_exhausted());
}

#[test]
fn test_empty_source() {
    let data: [u8; 0] = [];
    let mut source = SliceSource::new(&data);
    let mut unit = 0u8;
    assert!(!source.read(&mut unit));
    assert!(source.is_exhausted());
}

// ---- raw.rs ----


// ---- RansByte tests ----

#[test]
fn test_ransbyte_initial_state() {
    let sink = VecSink::<u8>::new(64);
    let encoder = RansByteEncoder::new(sink);
    assert_eq!(encoder.state(), 1u32 << 23);
}

#[test]
fn test_ransbyte_raw_roundtrip() {
    let sink = VecSink::<u8>::new(64);
    let mut encoder = RansByteEncoder::new(sink);
    encoder.put_raw(0, 128, 8);
    encoder.flush();
    let encoded = encoder.into_sink().encoded().to_vec();
    assert!(!encoded.is_empty());

    let source = SliceSource::new(&encoded[..]);
    let mut decoder = RansByteDecoder::new(source);
    assert!(decoder.init());

    let freq_val = decoder.get(8);
    assert_eq!(freq_val, 0);
    assert!(decoder.advance(0, 128, 8));
    assert!(decoder.check_eof());
}

#[test]
fn test_ransbyte_prepared_symbol_matches_raw() {
    let sink1 = VecSink::<u8>::new(64);
    let mut enc1 = RansByteEncoder::new(sink1);
    enc1.put_raw(0, 128, 8);
    enc1.flush();
    let out1 = enc1.into_sink().encoded().to_vec();

    let sink2 = VecSink::<u8>::new(64);
    let mut enc2 = RansByteEncoder::new(sink2);
    let sym = RansByteEncSymbol::new(0, 128, 8);
    enc2.put(&sym);
    enc2.flush();
    let out2 = enc2.into_sink().encoded().to_vec();

    assert_eq!(out1, out2);
}

#[test]
fn test_ransbyte_decoder_rejects_empty() {
    let data: [u8; 0] = [];
    let source = SliceSource::new(&data[..]);
    let mut decoder = RansByteDecoder::new(source);
    assert!(!decoder.init());
}

#[test]
fn test_ransbyte_encoder_reset() {
    let sink = VecSink::<u8>::new(64);
    let mut encoder = RansByteEncoder::new(sink);
    encoder.put_raw(0, 128, 8);
    encoder.reset();
    assert_eq!(encoder.state(), 1u32 << 23);
}

// ---- Rans64 tests ----

#[test]
fn test_rans64_initial_state() {
    let sink = VecSink::<u32>::new(64);
    let encoder = Rans64Encoder::new(sink);
    assert_eq!(encoder.state(), 1u64 << 31);
}

#[test]
fn test_rans64_raw_roundtrip() {
    let sink = VecSink::<u32>::new(64);
    let mut encoder = Rans64Encoder::new(sink);
    encoder.put_raw(0, 128, 8);
    encoder.flush();
    let encoded = encoder.into_sink().encoded().to_vec();
    assert!(!encoded.is_empty());

    let source = SliceSource::new(&encoded[..]);
    let mut decoder = Rans64Decoder::new(source);
    assert!(decoder.init());
    assert!(decoder.advance(0, 128, 8));
    assert!(decoder.check_eof());
}

#[test]
fn test_rans64_prepared_symbol_matches_raw() {
    let sink1 = VecSink::<u32>::new(64);
    let mut enc1 = Rans64Encoder::new(sink1);
    enc1.put_raw(0, 128, 8);
    enc1.flush();
    let out1 = enc1.into_sink().encoded().to_vec();

    let sink2 = VecSink::<u32>::new(64);
    let mut enc2 = Rans64Encoder::new(sink2);
    let sym = Rans64EncSymbol::new(0, 128, 8);
    enc2.put(&sym);
    enc2.flush();
    let out2 = enc2.into_sink().encoded().to_vec();

    assert_eq!(out1, out2);
}

#[test]
fn test_rans64_encoder_reset() {
    let sink = VecSink::<u32>::new(64);
    let mut encoder = Rans64Encoder::new(sink);
    encoder.put_raw(0, 128, 8);
    encoder.reset();
    assert_eq!(encoder.state(), 1u64 << 31);
}
