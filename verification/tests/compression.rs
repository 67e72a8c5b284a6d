use gorilla_tsdb::bitstream::{BitReader, BitWriter};
use gorilla_tsdb::timestamp::{
    compress_timestamp, encode_timestamp_delta, TimestampCompressor, TimestampDecompressor,
};
use gorilla_tsdb::value::{compress_value_xor, encode_value_xor, ValueCompressor, ValueDecompressor};

#[test]
fn test_bit_writer_reader() {
    let mut writer = BitWriter::new();

    // Write some bits
    writer.write_bit(true);
    writer.write_bit(false);
    writer.write_bit(true);
    writer.write_bits(0b1010, 4);

    let buffer = writer.finish();
    let mut reader = BitReader::new(buffer);

    assert_eq!(reader.read_bit(), Some(true));
    assert_eq!(reader.read_bit(), Some(false));
    assert_eq!(reader.read_bit(), Some(true));
    assert_eq!(reader.read_bits(4), Some(0b1010));
}

#[test]
fn test_regular_intervals() {
    // Simulating data arriving every 60 seconds
    let timestamps = vec![1000u64, 1060, 1120, 1180, 1240];

    let mut writer = BitWriter::new();
    let mut compressor = TimestampCompressor::new(timestamps[0]);

    let mut total_bits: usize = 64; // First timestamp stored in full

    for &ts in &timestamps[1..] {
        let bits = compressor.add_timestamp(&mut writer, ts);
        total_bits += bits;

        // After first timestamp, all deltas are 0, so only 1 bit each!
        if ts != timestamps[1] {
            assert_eq!(bits, 1, "Regular intervals should compress to 1 bit");
        }
    }

    println!(
        "Regular intervals: {} timestamps in {} bits",
        timestamps.len(),
        total_bits
    );
    println!(
        "Average: {:.1} bits per timestamp",
        total_bits as f64 / timestamps.len() as f64
    );
}

#[test]
fn test_irregular_intervals() {
    // Simulating slightly irregular data (59, 61, 60 second intervals)
    let timestamps = vec![1000u64, 1059, 1120, 1180];

    let mut writer = BitWriter::new();
    let mut compressor = TimestampCompressor::new(timestamps[0]);

    for &ts in &timestamps[1..] {
        compressor.add_timestamp(&mut writer, ts);
    }

    // Small variations still compress well (9 bits)
    println!("Irregular but close: compressed successfully");
}

#[test]
fn test_identical_values() {
    // Identical values compress to just 1 bit each
    let values = vec![42.0f64, 42.0, 42.0, 42.0];

    let mut writer = BitWriter::new();
    let mut compressor = ValueCompressor::new(values[0].to_bits());

    let mut total_bits: usize = 64; // First value stored in full

    for &val in &values[1..] {
        let bits = compressor.add_value(&mut writer, val.to_bits());
        total_bits += bits;
        assert_eq!(bits, 1, "Identical values should be 1 bit");
    }

    println!(
        "Identical values: {} values in {} bits",
        values.len(),
        total_bits
    );
}

#[test]
fn test_similar_values() {
    // Similar values compress well
    let values = vec![100.0f64, 100.5, 100.2, 100.8];

    let mut writer = BitWriter::new();
    let mut compressor = ValueCompressor::new(values[0].to_bits());

    let mut total_bits: usize = 64;

    for &val in &values[1..] {
        let bits = compressor.add_value(&mut writer, val.to_bits());
        total_bits += bits;
        println!("Value {}: {} bits", val, bits);
    }

    println!(
        "Similar values: {} values in {} bits",
        values.len(),
        total_bits
    );
    println!(
        "Average: {:.1} bits per value",
        total_bits as f64 / values.len() as f64
    );
}

#[test]
fn test_integer_values() {
    // Integer values stored as floats compress extremely well
    // because only the mantissa changes in predictable patterns
    let values = vec![8192.0f64, 8192.0, 8192.0, 8193.0, 8192.0];

    let mut writer = BitWriter::new();
    let mut compressor = ValueCompressor::new(values[0].to_bits());

    let mut total_bits: usize = 64;

    for &val in &values[1..] {
        let bits = compressor.add_value(&mut writer, val.to_bits());
        total_bits += bits;
    }

    println!(
        "Integer-like values: {} values in {} bits",
        values.len(),
        total_bits
    );
    println!(
        "Average: {:.1} bits per value",
        total_bits as f64 / values.len() as f64
    );
}

#[test]
fn test_compress_timestamp_buckets() {
    assert_eq!(compress_timestamp(0), 1);
    assert_eq!(compress_timestamp(-63), 9);
    assert_eq!(compress_timestamp(64), 9);
    assert_eq!(compress_timestamp(-255), 12);
    assert_eq!(compress_timestamp(256), 12);
    assert_eq!(compress_timestamp(-2047), 16);
    assert_eq!(compress_timestamp(2048), 16);
    assert_eq!(compress_timestamp(2049), 36);
    assert_eq!(compress_timestamp(-1_000_000), 36);
}

#[test]
fn test_compress_value_xor_sizes() {
    assert_eq!(compress_value_xor(0), 1);
    // 0x0010000000000000: 11 leading zeros, 52 trailing zeros -> optimistic reuse
    assert_eq!(compress_value_xor(0x0010_0000_0000_0000), 14);
    // 1: 63 leading zeros, 0 trailing -> 13 + 1 meaningful bit
    assert_eq!(compress_value_xor(1), 14);
    // all ones: no leading or trailing zeros -> 13 + 64
    assert_eq!(compress_value_xor(u64::MAX), 77);
}

#[test]
fn test_timestamp_codec_round_trip() {
    let timestamps = vec![5000u64, 5060, 5119, 5500, 4000, 1_000_000];

    let mut writer = BitWriter::new();
    let mut compressor = TimestampCompressor::new(timestamps[0]);
    for &ts in &timestamps[1..] {
        compressor.add_timestamp(&mut writer, ts);
    }
    let buffer = writer.finish();

    let mut reader = BitReader::new(buffer);
    let mut decompressor = TimestampDecompressor::new(timestamps[0]);
    for &ts in &timestamps[1..] {
        assert_eq!(decompressor.next_timestamp(&mut reader), Some(ts));
    }
}

#[test]
fn test_value_codec_round_trip() {
    let values: Vec<u64> = vec![
        42.0f64.to_bits(),
        42.5f64.to_bits(),
        (-0.0f64).to_bits(),
        f64::NAN.to_bits(),
        f64::MIN_POSITIVE.to_bits() >> 2, // a subnormal pattern
        0,
    ];

    let mut writer = BitWriter::new();
    let mut compressor = ValueCompressor::new(values[0]);
    for &v in &values[1..] {
        compressor.add_value(&mut writer, v);
    }
    let buffer = writer.finish();

    let mut reader = BitReader::new(buffer);
    let mut decompressor = ValueDecompressor::new(values[0]);
    for &v in &values[1..] {
        assert_eq!(decompressor.next_value(&mut reader), Some(v));
    }
}

#[test]
fn test_encode_value_new_window_branch() {
    // With a nonzero previous window that the new XOR does not fit, the
    // encoder stores a fresh window: 2 control bits + 5 + 6 + meaningful.
    let mut writer = BitWriter::new();
    let mut prev_leading: u32 = 20;
    let mut prev_trailing: u32 = 20;
    // XOR = 1: leading 63 (> 31, truncated in the 5-bit field), trailing 0.
    // trailing 0 < 20, so the reuse test fails and a new window is written.
    let bits = encode_value_xor(&mut writer, 1, 0, &mut prev_leading, &mut prev_trailing);
    assert_eq!(bits, 2 + 5 + 6 + 1);
    assert_eq!(prev_leading, 63);
    assert_eq!(prev_trailing, 0);
}

#[test]
fn test_value_decoder_new_window_stream() {
    // Hand-build a new-window field: '1' (changed), '1' (new window),
    // leading = 8 in 5 bits, width = 4 in 6 bits, payload 0b1011.
    let mut writer = BitWriter::new();
    writer.write_bit(true);
    writer.write_bit(true);
    writer.write_bits(8, 5);
    writer.write_bits(4, 6);
    writer.write_bits(0b1011, 4);
    let buffer = writer.finish();

    let prev = 0u64;
    let mut reader = BitReader::new(buffer);
    let mut decompressor = ValueDecompressor::new(prev);
    let expected_xor = 0b1011u64 << 52; // trailing = 64 - 8 - 4 = 52
    assert_eq!(decompressor.next_value(&mut reader), Some(prev ^ expected_xor));
}

#[test]
fn test_bit_reader_end_of_stream() {
    let mut writer = BitWriter::new();
    writer.write_bits(0xAB, 8);
    let buffer = writer.finish();

    let mut reader = BitReader::new(buffer);
    assert_eq!(reader.read_bits(8), Some(0xAB));
    // Exhaustion is a distinct signal, never a decoded zero bit.
    assert_eq!(reader.read_bit(), None);
    assert_eq!(reader.read_bits(4), None);

    let mut short_reader = BitReader::new(vec![0xFF]);
    // Asking for more bits than remain also fails.
    assert_eq!(short_reader.read_bits(9), None);
}

#[test]
fn test_dod_bucket_boundaries() {
    // Each bucket boundary, plus the 32-bit extremes, survives one
    // encode/decode step from a fresh codec state.
    let dods: Vec<i64> = vec![
        0, 1, -1, -63, 64, -64, 65, -255, 256, -256, 257, -2047, 2048, -2048, 2049,
        -0x8000_0000, 0x7FFF_FFFF,
    ];
    for &d in &dods {
        let mut writer = BitWriter::new();
        encode_timestamp_delta(&mut writer, d);
        let buffer = writer.finish();

        let mut reader = BitReader::new(buffer);
        let mut decompressor = TimestampDecompressor::new(5000);
        let expected = 5000u64.wrapping_add_signed(d);
        assert_eq!(decompressor.next_timestamp(&mut reader), Some(expected), "dod {}", d);
    }
}

#[test]
fn test_encode_timestamp_bucket_two_round_trip() {
    // A delta-of-delta of 100 takes the 12-bit bucket; decode recovers it.
    let mut writer = BitWriter::new();
    encode_timestamp_delta(&mut writer, 100);
    let buffer = writer.finish();

    let mut reader = BitReader::new(buffer);
    let mut decompressor = TimestampDecompressor::new(1000);
    // prev_delta = 0, so the decoded timestamp is 1000 + 0 + 100.
    assert_eq!(decompressor.next_timestamp(&mut reader), Some(1100));
}
