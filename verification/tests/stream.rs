use msrtc_rans::entropy::{EncoderVariantForS, EntropyDecoder, EntropyEncoder};
use msrtc_rans::stream::{RansDecoderStream, RansEncoderStream, RansVariant};
use msrtc_rans::variant::{Rans64, RansByte};


#[test]
fn test_variant_values() {
    assert_eq!(RansVariant::RansByte.as_int(), 1);
    assert_eq!(RansVariant::Rans64.as_int(), 0);
    assert_eq!(RansVariant::from_int(1), Some(RansVariant::RansByte));
    assert_eq!(RansVariant::from_int(0), Some(RansVariant::Rans64));
    assert_eq!(RansVariant::from_int(2), None);
}

#[test]
fn test_encoder_stream_multipart() {
    // Matches test_encode_decode_multi_part_0 from upstream
    let pmf_lengths1 = vec![4, 6];
    let pmf_offsets1 = vec![1, 2];
    let pmf_table1 = vec![1, 3, 1, 1, 1, 3, 5, 3, 1, 1];
    let values1 = vec![-2, 1, 0, 1];
    let indices1 = vec![0, 1, 0, 1];

    let pmf_lengths2 = vec![5];
    let pmf_offsets2 = vec![1];
    let pmf_table2 = vec![1, 3, 3, 1, 1];
    let values2 = vec![-2, 1, 2];
    let indices2 = vec![0, 0, 0];

    let mut encoder1 = EntropyEncoder::<RansByte>::new();
    encoder1
        .initialize(&pmf_lengths1, &pmf_offsets1, &pmf_table1, 16, 4)
        .expect("init1");
    let mut encoder2 = EntropyEncoder::<RansByte>::new();
    encoder2
        .initialize(&pmf_lengths2, &pmf_offsets2, &pmf_table2, 16, 4)
        .expect("init2");

    let mut stream = RansEncoderStream::<RansByte>::new();
    stream.push(&encoder2, &indices2, &values2).expect("push2");
    stream.push(&encoder1, &indices1, &values1).expect("push1");
    let data = stream.flush().expect("flush");
    assert!(!data.is_empty());

    // Decode
    let mut decoder1 = EntropyDecoder::<RansByte>::new();
    decoder1
        .initialize(&pmf_lengths1, &pmf_offsets1, &pmf_table1, 16, 4)
        .expect("dec1 init");
    let mut decoder2 = EntropyDecoder::<RansByte>::new();
    decoder2
        .initialize(&pmf_lengths2, &pmf_offsets2, &pmf_table2, 16, 4)
        .expect("dec2 init");

    let mut dstream = RansDecoderStream::<RansByte>::open_on(&data);

    let mut decoded1 = vec![0i32; values1.len()];
    dstream
        .decode(&decoder1, &mut decoded1, &indices1)
        .expect("decode1");
    assert_eq!(decoded1, values1);

    let mut decoded2 = vec![0i32; values2.len()];
    dstream
        .decode(&decoder2, &mut decoded2, &indices2)
        .expect("decode2");
    assert_eq!(decoded2, values2);

    dstream.decode_eof().expect("eof");
}

#[test]
fn test_encoder_stream_multipart_64() {
    // Same multipart test with Rans64
    let pmf_lengths1 = vec![4, 6];
    let pmf_offsets1 = vec![1, 2];
    let pmf_table1 = vec![1, 3, 1, 1, 1, 3, 5, 3, 1, 1];
    let values1 = vec![-2, 1, 0, 1];
    let indices1 = vec![0, 1, 0, 1];

    let pmf_lengths2 = vec![5];
    let pmf_offsets2 = vec![1];
    let pmf_table2 = vec![1, 3, 3, 1, 1];
    let values2 = vec![-2, 1, 2];
    let indices2 = vec![0, 0, 0];

    let mut encoder1 = EntropyEncoder::<Rans64>::new();
    encoder1
        .initialize(&pmf_lengths1, &pmf_offsets1, &pmf_table1, 16, 4)
        .expect("init1");
    let mut encoder2 = EntropyEncoder::<Rans64>::new();
    encoder2
        .initialize(&pmf_lengths2, &pmf_offsets2, &pmf_table2, 16, 4)
        .expect("init2");

    let mut stream = RansEncoderStream::<Rans64>::new();
    stream.push(&encoder2, &indices2, &values2).expect("push2");
    stream.push(&encoder1, &indices1, &values1).expect("push1");
    let data = stream.flush().expect("flush");
    assert!(!data.is_empty());
    assert_eq!(data.len() % 4, 0, "Rans64 stream must be 4-byte aligned");

    let mut decoder1 = EntropyDecoder::<Rans64>::new();
    decoder1
        .initialize(&pmf_lengths1, &pmf_offsets1, &pmf_table1, 16, 4)
        .expect("dec1 init");
    let mut decoder2 = EntropyDecoder::<Rans64>::new();
    decoder2
        .initialize(&pmf_lengths2, &pmf_offsets2, &pmf_table2, 16, 4)
        .expect("dec2 init");

    let mut dstream = RansDecoderStream::<Rans64>::open_on(&data);

    let mut decoded1 = vec![0i32; values1.len()];
    dstream
        .decode(&decoder1, &mut decoded1, &indices1)
        .expect("decode1");
    assert_eq!(decoded1, values1);

    let mut decoded2 = vec![0i32; values2.len()];
    dstream
        .decode(&decoder2, &mut decoded2, &indices2)
        .expect("decode2");
    assert_eq!(decoded2, values2);

    dstream.decode_eof().expect("eof");
}

#[test]
fn test_encoder_stream_reuse_after_flush() {
    let pmf_lengths = vec![4, 6];
    let pmf_offsets = vec![1, 2];
    let pmf_table = vec![1, 3, 1, 1, 1, 3, 5, 3, 1, 1];
    let values = vec![-2, 1, 0, 1];
    let indices = vec![0, 1, 0, 1];

    let mut encoder = EntropyEncoder::<RansByte>::new();
    encoder
        .initialize(&pmf_lengths, &pmf_offsets, &pmf_table, 16, 4)
        .expect("init");

    let mut stream = RansEncoderStream::<RansByte>::new();
    stream.push(&encoder, &indices, &values).expect("push1");
    let data1 = stream.flush().expect("flush1");

    // Reuse the stream for a second message
    stream.push(&encoder, &indices, &values).expect("push2");
    let data2 = stream.flush().expect("flush2");

    let mut decoder = EntropyDecoder::<RansByte>::new();
    decoder
        .initialize(&pmf_lengths, &pmf_offsets, &pmf_table, 16, 4)
        .expect("dec init");

    for data in [&data1, &data2] {
        let mut decoded = vec![0i32; values.len()];
        decoder
            .decode(&mut decoded, &indices, data)
            .expect("decode");
        assert_eq!(decoded, values);
    }
}

#[test]
fn test_encoder_stream_reset_aborts() {
    let pmf_lengths = vec![4, 6];
    let pmf_offsets = vec![1, 2];
    let pmf_table = vec![1, 3, 1, 1, 1, 3, 5, 3, 1, 1];
    let values = vec![-2, 1, 0, 1];
    let indices = vec![0, 1, 0, 1];

    let mut encoder = EntropyEncoder::<RansByte>::new();
    encoder
        .initialize(&pmf_lengths, &pmf_offsets, &pmf_table, 16, 4)
        .expect("init");

    let mut stream = RansEncoderStream::<RansByte>::new();
    stream.push(&encoder, &indices, &values).expect("push");
    stream.reset();
    assert!(!stream.is_initialized(), "reset must clear state");
    // flush after reset → no data → error
    assert!(stream.flush().is_err());
}

#[test]
fn test_decoder_stream_lifecycle() {
    let mut stream = RansDecoderStream::<RansByte>::new();
    assert!(!stream.is_open());
    stream.open(&[1, 2, 3, 4, 5]);
    assert!(stream.is_open());
    assert!(!stream.check_eof());
    stream.close();
    assert!(!stream.is_open());
    assert!(stream.check_eof());
}

#[test]
fn test_units_to_le_bytes() {
    let units = [0x01020304u32, 0x05060708];
    let bytes = <Rans64 as EncoderVariantForS>::units_to_bytes(units.to_vec());
    assert_eq!(bytes, vec![4, 3, 2, 1, 8, 7, 6, 5]);
}
