use timeseries_db::{
    compress_samples, decompress_samples, GorillaBitReader, GorillaBitWriter, GorillaCompressor,
    GorillaDecompressor,
};

fn round_trip(samples: Vec<(u64, f64)>) -> Vec<(u64, f64)> {
    let words: Vec<(u64, u64)> = samples.iter().map(|s| (s.0, s.1.to_bits())).collect();
    let decoded = decompress_samples(compress_samples(&words));
    decoded.iter().map(|s| (s.0, f64::from_bits(s.1))).collect()
}

#[test]
fn test_gorilla_compression() {
    let mut compressor = GorillaCompressor::new();

    compressor.compress_datapoint(1609459200, 23.5f64.to_bits());
    compressor.compress_datapoint(1609459260, 23.6f64.to_bits());
    compressor.compress_datapoint(1609459320, 23.4f64.to_bits());
    compressor.compress_datapoint(1609459380, 23.5f64.to_bits());

    let compressed = compressor.finish();
    println!("raw size: 32 bytes (4 samples of 8 bytes)");
    println!("compressed size: {} bytes", compressed.len());

    let decompressor = GorillaDecompressor::new(compressed);
    let decompressed: Vec<(u64, f64)> = decompressor
        .decompress_all()
        .iter()
        .map(|s| (s.0, f64::from_bits(s.1)))
        .collect();

    assert_eq!(decompressed.len(), 4);
    assert_eq!(decompressed[0], (1609459200, 23.5));
    assert_eq!(decompressed[1], (1609459260, 23.6));
    assert_eq!(decompressed[2], (1609459320, 23.4));
    assert_eq!(decompressed[3], (1609459380, 23.5));
}

#[test]
fn writer_packs_bits_most_significant_first() {
    let mut writer = GorillaBitWriter::new();
    writer.write_bits(0b101, 3);
    writer.write_bits(0xFF, 8);
    assert_eq!(writer.get_bytes(), &[0xBFu8, 0xE0u8][..]);
}

#[test]
fn writer_writes_only_the_low_bits() {
    let mut writer = GorillaBitWriter::new();
    writer.write_bits(0xFFFF_FFFF_FFFF_FF02, 4);
    assert_eq!(writer.get_bytes(), &[0x20u8][..]);
}

#[test]
fn writer_ignores_widths_out_of_range() {
    let mut writer = GorillaBitWriter::new();
    writer.write_bits(0xFF, 0);
    writer.write_bits(0xFF, 65);
    assert_eq!(writer.get_bytes().len(), 0);
    writer.write_bits(u64::MAX, 64);
    assert_eq!(writer.get_bytes(), &[0xFFu8; 8][..]);
}

#[test]
fn default_writer_is_empty() {
    let writer = GorillaBitWriter::default();
    assert_eq!(writer.get_bytes().len(), 0);
}

#[test]
fn reader_reads_what_the_writer_wrote() {
    let widths: [usize; 7] = [1, 7, 64, 3, 12, 14, 33];
    let values: [u64; 7] = [1, 0x55, 0xDEAD_BEEF_0123_4567, 5, 0xABC, 0x1FFF, 0x1_2345_6789];
    let mut writer = GorillaBitWriter::new();
    for i in 0..widths.len() {
        writer.write_bits(values[i], widths[i]);
    }
    let mut reader = GorillaBitReader::new(writer.get_bytes().to_vec());
    for i in 0..widths.len() {
        assert_eq!(reader.read_bits(widths[i]), Some(values[i]));
    }
}

#[test]
fn reader_fails_when_too_few_bits_remain() {
    let mut reader = GorillaBitReader::new(vec![0xBF, 0xE0]);
    assert_eq!(reader.read_bits(3), Some(5));
    assert_eq!(reader.peek_bits(8), Some(255));
    assert_eq!(reader.read_bits(8), Some(255));
    assert!(reader.has_more_data());
    assert_eq!(reader.read_bits(6), None);
    assert_eq!(reader.read_bits(5), Some(0));
    assert!(!reader.has_more_data());
    assert_eq!(reader.read_bits(1), None);
}

#[test]
fn reader_returns_zero_for_widths_out_of_range() {
    let mut reader = GorillaBitReader::new(vec![0xFF]);
    assert_eq!(reader.read_bits(0), Some(0));
    assert_eq!(reader.read_bits(65), Some(0));
    assert_eq!(reader.read_bits(8), Some(255));
}

#[test]
fn one_sample_is_stored_verbatim() {
    let bytes = compress_samples(&vec![(1, 2)]);
    assert_eq!(bytes, vec![0, 0, 0, 0, 0, 0, 0, 1, 0, 0, 0, 0, 0, 0, 0, 2, 0xFF]);
}

#[test]
fn second_sample_is_a_delta_and_an_xor() {
    let bytes = compress_samples(&vec![(16, 0), (76, 0)]);
    assert_eq!(bytes.len(), 20);
    assert_eq!(&bytes[16..], &[0x80u8, 0x3C, 0x7F, 0x80][..]);
}

#[test]
fn regular_interval_costs_two_bits() {
    // After the first delta, an unchanged delta and an unchanged value take
    // one bit each.
    let bytes = compress_samples(&vec![(16, 0), (76, 0), (136, 0)]);
    // 128 + 16 bits, `0` for the second value, `0` and `0` for the third
    // sample, eight ones and five bits of padding.
    assert_eq!(&bytes[16..], &[0x80u8, 0x3C, 0x1F, 0xE0][..]);
}

#[test]
fn empty_stream_is_the_end_marker() {
    let bytes = compress_samples(&Vec::new());
    assert_eq!(bytes, vec![0xFF]);
    assert_eq!(decompress_samples(bytes), Vec::new());
}

#[test]
fn default_compressor_is_empty() {
    assert_eq!(GorillaCompressor::default().finish(), vec![0xFF]);
}

#[test]
fn round_trip_of_irregular_timestamps_and_values() {
    let samples = vec![
        (1_700_000_000, 1.0),
        (1_700_000_060, 1.5),
        (1_700_000_121, 1.5),
        (1_700_000_100, 1024.25),
        (1_700_002_000, 3.0e-7),
        (1_700_002_001, 0.0),
        (1_700_002_002, 7.0e12),
    ];
    assert_eq!(round_trip(samples.clone()), samples);
}

#[test]
fn round_trip_with_negative_first_delta() {
    let samples = vec![(20_000, 1.0), (11_809, 2.0), (5_000, 2.0)];
    assert_eq!(round_trip(samples.clone()), samples);
}

#[test]
fn round_trip_of_negative_values() {
    let samples = vec![(1, -1.0), (2, -2.0), (3, -1.0e300)];
    assert_eq!(round_trip(samples.clone()), samples);
}

#[test]
fn decoder_yields_samples_one_by_one() {
    let bytes = compress_samples(&vec![(5, 7), (6, 7)]);
    let mut decoder = GorillaDecompressor::new(bytes);
    assert_eq!(decoder.decompress_next(), Some((5, 7)));
    assert_eq!(decoder.decompress_next(), Some((6, 7)));
    assert_eq!(decoder.decompress_next(), None);
    assert_eq!(decoder.decompress_next(), None);
}

#[test]
fn decoder_stops_on_truncated_input() {
    let mut bytes = compress_samples(&vec![(5, 7), (6, 9)]);
    bytes.truncate(16);
    assert_eq!(decompress_samples(bytes), vec![(5, 7)]);
    assert_eq!(decompress_samples(vec![1, 2, 3]), Vec::new());
}

#[test]
fn first_delta_beyond_fourteen_bits_is_clamped() {
    // The stored delta is clamped to 8191, so the decoder sees another
    // timestamp.
    let decoded = decompress_samples(compress_samples(&vec![(0, 0), (10_000, 0)]));
    assert_eq!(decoded, vec![(0, 0), (8191, 0)]);
}

#[test]
fn delta_of_delta_of_64_is_read_back() {
    // 64 is the one value of the seven-bit field above 63 that is not
    // negative.
    let samples = vec![(1000, 0), (1010, 0), (1084, 0)];
    assert_eq!(decompress_samples(compress_samples(&samples)), samples);
    let more = vec![(0, 1.0f64.to_bits()), (100, 1.0f64.to_bits()), (264, 1.0f64.to_bits())];
    assert_eq!(decompress_samples(compress_samples(&more)), more);
}

#[test]
fn delta_of_delta_of_minus_63_is_read_back() {
    let samples = vec![(1000, 0), (1100, 0), (1137, 0), (1174, 0)];
    assert_eq!(decompress_samples(compress_samples(&samples)), samples);
}

#[test]
fn delta_of_delta_of_minus_64_looks_like_the_end_marker() {
    let decoded = decompress_samples(compress_samples(&vec![(1000, 0), (1100, 0), (1136, 0)]));
    assert_eq!(decoded, vec![(1000, 0), (1100, 0)]);
}

#[test]
fn delta_of_delta_beyond_twelve_bits_wraps() {
    let decoded = decompress_samples(compress_samples(&vec![(0, 0), (10, 0), (5000, 0)]));
    // 4980 is stored modulo 4096, as 884.
    assert_eq!(decoded, vec![(0, 0), (10, 0), (904, 0)]);
}

#[test]
fn xor_that_spans_all_bits_is_restored() {
    // The length 64 does not fit its six bits and is stored as 0.
    let samples = vec![(1, 1u64), (2, 0x8000_0000_0000_0000u64), (3, 0x8000_0000_0000_0000u64)];
    assert_eq!(decompress_samples(compress_samples(&samples)), samples);
    let floats = vec![(0, 0.0f64.to_bits()), (60, 0x8000_0000_0000_0001u64), (120, u64::MAX)];
    assert_eq!(decompress_samples(compress_samples(&floats)), floats);
}

#[test]
fn encoding_of_four_regular_samples_is_byte_exact() {
    let samples: Vec<(u64, u64)> = vec![
        (1609459200, 23.5f64.to_bits()),
        (1609459260, 23.6f64.to_bits()),
        (1609459320, 23.4f64.to_bits()),
        (1609459380, 23.5f64.to_bits()),
    ];
    let expected: Vec<u8> = vec![
        0x00, 0x00, 0x00, 0x00, 0x5F, 0xEE, 0x66, 0x00, 0x40, 0x37, 0x80, 0x00, 0x00, 0x00, 0x00,
        0x00, 0x80, 0x3C, 0xA7, 0x66, 0x66, 0x66, 0x66, 0x66, 0x66, 0xA8, 0x5D, 0xFF, 0xFF, 0xFF,
        0xFF, 0xFF, 0xFA, 0x85, 0xFC, 0xCC, 0xCC, 0xCC, 0xCC, 0xCC, 0xFF, 0xC0,
    ];
    assert_eq!(compress_samples(&samples), expected);
}

#[test]
fn encoding_of_irregular_samples_is_byte_exact() {
    let samples: Vec<(u64, u64)> = vec![
        (1_700_000_000, 1.0f64.to_bits()),
        (1_700_000_060, 1.5f64.to_bits()),
        (1_700_000_121, 1.5f64.to_bits()),
        (1_700_000_100, 1024.25f64.to_bits()),
        (1_700_002_000, 3.0e-7f64.to_bits()),
        (1_700_002_001, 0.0f64.to_bits()),
        (1_700_002_002, 7.0e12f64.to_bits()),
    ];
    let expected: Vec<u8> = vec![
        0x00, 0x00, 0x00, 0x00, 0x65, 0x53, 0xF1, 0x00, 0x3F, 0xF0, 0x00, 0x00, 0x00, 0x00, 0x00,
        0x00, 0x80, 0x3C, 0x98, 0x0E, 0x02, 0xFE, 0xBA, 0x0A, 0xFF, 0xDA, 0x00, 0x77, 0x81, 0x83,
        0xF7, 0xE0, 0x42, 0x0F, 0x5F, 0x40, 0xD8, 0x37, 0x7C, 0x4A, 0xC2, 0xF7, 0xE9, 0x42, 0x1F,
        0x5F, 0x40, 0xD8, 0x37, 0x68, 0x34, 0xC2, 0x99, 0x77, 0x42, 0x0D, 0xFF, 0xC0,
    ];
    assert_eq!(compress_samples(&samples), expected);
}
