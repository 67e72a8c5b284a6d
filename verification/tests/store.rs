use gorilla_tsdb::block::{decode_block, DataPoint, TimeSeriesBlock};
use gorilla_tsdb::series::TimeSeries;
use gorilla_tsdb::tsdb::Gorilla;

fn ratio(original_size: usize, compressed_size: usize) -> f64 {
    if compressed_size == 0 {
        return 0.0;
    }
    original_size as f64 / compressed_size as f64
}

#[test]
fn test_all_methods_used() {
    let mut gorilla = Gorilla::new();
    let base_time = 1000u64;

    // Insert data
    gorilla.insert("test.metric", base_time, 100.0f64.to_bits());
    gorilla.insert("test.metric2", base_time, 200.0f64.to_bits());

    // Test scan
    let mut count = 0;
    for _entry in gorilla.scan() {
        count += 1;
    }
    assert!(count > 0);

    // Test delete
    gorilla.delete("test.metric");
    assert!(
        gorilla
            .query("test.metric", base_time, base_time + 100)
            .is_none()
    );

    // Test the correlation candidate selection
    let _correlations = gorilla.correlation_candidates("test.metric2", base_time, base_time + 100);
}

#[test]
fn test_basic_operations() {
    let mut gorilla = Gorilla::new();

    // A pinned time on a block boundary, so all three points share one block
    let base_time = 1_599_998_400u64;

    // Insert some data
    gorilla.insert("cpu.usage", base_time, 45.2f64.to_bits());
    gorilla.insert("cpu.usage", base_time + 60, 46.1f64.to_bits());
    gorilla.insert("cpu.usage", base_time + 120, 45.8f64.to_bits());

    // Query it back
    let results = gorilla
        .query("cpu.usage", base_time, base_time + 200)
        .unwrap();
    assert_eq!(results.len(), 3, "Expected 3 results, got {}", results.len());
    assert_eq!(f64::from_bits(results[0].1), 45.2);

    // Check compression
    let stats = gorilla.get_stats("cpu.usage");
    let compression_ratio = ratio(stats.original_size, stats.compressed_size);
    println!("Compression: {}x", compression_ratio);
    assert!(compression_ratio > 1.0);

    // Test that the key is visible in scan output
    for (key, _ts, _val) in gorilla.scan() {
        println!("Scanned series: {}", key);
    }
}

#[test]
fn test_compression_efficiency() {
    let mut gorilla = Gorilla::new();

    let base_time = 1_599_998_400u64;

    // Insert identical values (should compress to ~1 bit each)
    for i in 0..100u64 {
        gorilla.insert("memory.used", base_time + i * 60, 8192.0f64.to_bits());
    }

    let stats = gorilla.get_stats("memory.used");
    let compression_ratio = ratio(stats.original_size, stats.compressed_size);
    println!("100 identical values:");
    println!("  Original: {} bytes", stats.original_size);
    println!("  Compressed: {} bytes", stats.compressed_size);
    println!("  Ratio: {:.2}x", compression_ratio);

    // Should achieve very high compression
    assert!(compression_ratio > 10.0);
}

#[test]
fn test_block_round_trip() {
    // Encoding a block then decoding it reproduces every timestamp and every
    // raw value bit pattern, including NaN, negative zero and subnormals.
    let points = vec![
        (7200u64, 12.0f64.to_bits()),
        (7260, 12.0f64.to_bits()),
        (7319, f64::NAN.to_bits()),
        (7321, (-0.0f64).to_bits()),
        (7500, 0x0000_0000_0000_0001u64), // smallest subnormal pattern
        (7501, 24.5f64.to_bits()),
    ];

    let mut block = TimeSeriesBlock::new(7200);
    for &(ts, vb) in &points {
        block.add_point(ts, vb);
    }

    let decoded = block.decode(points.len()).expect("decode failed");
    assert_eq!(decoded.0, 7200);
    assert_eq!(decoded.1.len(), points.len());
    for (dp, &(ts, vb)) in decoded.1.iter().zip(points.iter()) {
        assert_eq!(dp.timestamp, ts);
        assert_eq!(dp.value_bits, vb);
    }
}

#[test]
fn test_block_round_trip_via_bytes() {
    let mut block = TimeSeriesBlock::new(0);
    block.add_point(100, 1.5f64.to_bits());
    block.add_point(160, 1.5f64.to_bits());
    block.add_point(220, 2.5f64.to_bits());

    let bytes = block.compressed_bytes();
    let decoded = decode_block(bytes, 3).expect("decode failed");
    assert_eq!(decoded.0, 0);
    assert_eq!(
        decoded.1,
        vec![
            DataPoint { timestamp: 100, value_bits: 1.5f64.to_bits() },
            DataPoint { timestamp: 160, value_bits: 1.5f64.to_bits() },
            DataPoint { timestamp: 220, value_bits: 2.5f64.to_bits() },
        ]
    );
}

#[test]
fn test_block_header_layout() {
    // start 0, first timestamp 5, value bits 0: the header is 64 zero bits,
    // the 14-bit offset 5, then 64 zero bits; 142 bits pad to 18 bytes.
    let mut block = TimeSeriesBlock::new(0);
    block.add_point(5, 0);
    let bytes = block.compressed_bytes();
    assert_eq!(bytes.len(), 18);
    for (i, &b) in bytes.iter().enumerate() {
        if i == 9 {
            // bits 72..79: the last 6 bits of the offset (000101) then two
            // zero bits of the value field
            assert_eq!(b, 0b0001_0100);
        } else {
            assert_eq!(b, 0);
        }
    }
}

#[test]
fn test_decode_truncated_block() {
    let mut block = TimeSeriesBlock::new(0);
    block.add_point(10, 3.25f64.to_bits());
    block.add_point(70, 3.5f64.to_bits());

    let mut bytes = block.compressed_bytes();
    bytes.truncate(10); // cut into the header/value area
    // Truncation surfaces as a decode failure, not as silently fewer points.
    assert!(decode_block(bytes, 2).is_none());
}

#[test]
fn test_rollover_query_order() {
    // Points spanning more than one block window come back in closed-block
    // order then open-block order, not globally time-sorted.
    let mut series = TimeSeries::new(String::from("m"), 100);
    series.insert(100, 1.0f64.to_bits());
    series.insert(7200, 2.0f64.to_bits()); // rolls the first block over
    series.insert(50, 3.0f64.to_bits()); // lands in the open block unsorted

    let results = series.query(0, 20000);
    let times: Vec<u64> = results.iter().map(|p| p.timestamp).collect();
    assert_eq!(times, vec![100, 7200, 50]);
}

#[test]
fn test_engine_rollover_order() {
    let mut gorilla = Gorilla::new();
    gorilla.insert("disk.io", 100, 1.0f64.to_bits());
    gorilla.insert("disk.io", 7200, 2.0f64.to_bits());
    gorilla.insert("disk.io", 50, 3.0f64.to_bits());

    let results = gorilla.query("disk.io", 0, 20000).unwrap();
    let times: Vec<u64> = results.iter().map(|p| p.0).collect();
    assert_eq!(times, vec![100, 7200, 50]);
}

#[test]
fn test_tombstone_and_reuse() {
    let mut gorilla = Gorilla::new();
    gorilla.insert("a", 1000, 1.0f64.to_bits());
    gorilla.insert("b", 1000, 2.0f64.to_bits());

    gorilla.delete("a");
    assert!(gorilla.query("a", 0, u64::MAX).is_none());

    // A new key may reuse the freed slot without corrupting other lookups.
    gorilla.insert("c", 1000, 3.0f64.to_bits());
    let b = gorilla.query("b", 0, u64::MAX).unwrap();
    assert_eq!(b.len(), 1);
    assert_eq!(f64::from_bits(b[0].1), 2.0);
    let c = gorilla.query("c", 0, u64::MAX).unwrap();
    assert_eq!(c.len(), 1);
    assert_eq!(f64::from_bits(c[0].1), 3.0);
    assert!(gorilla.query("a", 0, u64::MAX).is_none());

    // Double delete is a no-op.
    gorilla.delete("a");
    gorilla.delete("a");
    assert!(gorilla.query("b", 0, u64::MAX).is_some());
}

#[test]
fn test_correlation_exclusion() {
    let mut gorilla = Gorilla::new();
    let base = 1_599_998_400u64;
    for i in 0..5u64 {
        gorilla.insert("needle", base + i * 60, (i as f64).to_bits());
        gorilla.insert("same.count", base + i * 60, (2.0 * i as f64).to_bits());
    }
    // A candidate with a different point count in range must never appear.
    for i in 0..3u64 {
        gorilla.insert("short.series", base + i * 60, (i as f64).to_bits());
    }

    let candidates = gorilla.correlation_candidates("needle", base, base + 600);
    assert_eq!(candidates.len(), 1);
    assert_eq!(candidates[0].0, "same.count");
    assert_eq!(candidates[0].1.len(), 5);
    for (key, data) in &candidates {
        assert_ne!(key.as_str(), "needle");
        assert_eq!(data.len(), 5);
    }
}

#[test]
fn test_stats_unknown_key() {
    let gorilla = Gorilla::new();
    let stats = gorilla.get_stats("missing");
    assert_eq!(stats.original_size, 0);
    assert_eq!(stats.compressed_size, 0);
    // The compression ratio of an empty result is zero, not a fault.
    assert_eq!(ratio(stats.original_size, stats.compressed_size), 0.0);
}

#[test]
fn test_query_present_but_empty() {
    let mut gorilla = Gorilla::new();
    gorilla.insert("k", 10_000, 1.0f64.to_bits());
    // A known key with nothing in range is an empty result, not "absent".
    let r = gorilla.query("k", 0, 5);
    assert_eq!(r, Some(vec![]));
    assert!(gorilla.query("unknown", 0, 5).is_none());
}
