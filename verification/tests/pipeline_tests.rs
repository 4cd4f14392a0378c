//! End-to-end and per-stage tests of the capture-to-series pipeline.

use mid_series::decode::decode;
use mid_series::extract::extract;
use mid_series::mid::Mid;
use mid_series::price::{midpoint, parse_price, Price};
use mid_series::route::{classify, format_record, ingest_frame, Channel, InstrumentRouter};
use mid_series::series::{build_series, SeriesAggregator};

/// A routed payload with the family tag at offset 0, the given marker at
/// offset 17, the timestamp at [35, 47), and the two price fields at
/// [47, 56) and [56, 65).
fn payload_with_marker(marker: &str, ts: &str, pa: &str, pb: &str) -> Vec<u8> {
    assert_eq!(marker.len(), 6);
    assert_eq!(ts.len(), 12);
    assert_eq!(pa.len(), 9);
    assert_eq!(pb.len(), 9);
    let mut p: Vec<u8> = Vec::new();
    p.extend_from_slice(b"B606F");
    p.extend_from_slice(b"xxxxxxxxxxxx");
    p.extend_from_slice(marker.as_bytes());
    p.extend_from_slice(b"yyyyyyyyyyyy");
    p.extend_from_slice(ts.as_bytes());
    p.extend_from_slice(pa.as_bytes());
    p.extend_from_slice(pb.as_bytes());
    p
}

fn payload(ts: &str, pa: &str, pb: &str) -> Vec<u8> {
    payload_with_marker("KR4167", ts, pa, pb)
}

fn record_line(seq: u64, payload: &[u8]) -> Vec<u8> {
    let mut l = format!("{}: ", seq).into_bytes();
    l.extend_from_slice(payload);
    l
}

fn mid_as_f64(p: &Price) -> f64 {
    (p.mantissa as f64) / 10f64.powi(p.scale as i32)
}

#[test]
fn decode_strips_header_and_filters() {
    let mut frame: Vec<u8> = vec![0u8; 42];
    frame.extend_from_slice(b"AB");
    frame.push(7); // control byte, dropped
    frame.push(200); // high byte, dropped
    frame.extend_from_slice(b"CD");
    let p = decode(&frame, 42).unwrap();
    assert_eq!(p, b"ABCD".to_vec());
}

#[test]
fn decode_short_frame_yields_nothing() {
    let frame = vec![1u8; 41];
    assert!(decode(&frame, 42).is_none());
}

#[test]
fn classify_needs_family_tag() {
    let mut p = payload("090100000000", "  101.250", "  101.270");
    assert_eq!(classify(&p), Some(Channel::TenYear));
    // corrupt the tag: no longer part of the protocol family
    p[0] = b'X';
    assert_eq!(classify(&p), None);
}

#[test]
fn classify_short_payload_drops() {
    // the tag fits but the marker field does not
    assert_eq!(classify(b"B606Fxxxxxxxxxxxxxxxxx"), None);
}

#[test]
fn classify_markers_route_to_their_channels() {
    let p3 = payload_with_marker("KR4165", "090100000000", "  101.250", "  101.270");
    let p30 = payload_with_marker("KR4170", "090100000000", "  101.250", "  101.270");
    let pu = payload_with_marker("ZZ9999", "090100000000", "  101.250", "  101.270");
    assert_eq!(classify(&p3), Some(Channel::ThreeYear));
    assert_eq!(classify(&p30), Some(Channel::ThirtyYear));
    assert_eq!(classify(&pu), Some(Channel::Unmatched));
}

#[test]
fn routing_kr4167_gets_ten_year_sequence_from_zero() {
    let p = payload("090100000000", "  101.250", "  101.270");
    let mut router = InstrumentRouter::new();
    assert_eq!(router.route(&p), Some((Channel::TenYear, 0)));
    assert_eq!(router.route(&p), Some((Channel::TenYear, 1)));
    // other channels untouched
    let p3 = payload_with_marker("KR4165", "090100000000", "  101.250", "  101.270");
    assert_eq!(router.route(&p3), Some((Channel::ThreeYear, 0)));
}

#[test]
fn ingest_frame_decodes_routes_and_formats() {
    let mut frame = vec![0u8; 42];
    frame.extend_from_slice(&payload("090100000000", "  101.250", "  101.270"));
    let mut router = InstrumentRouter::new();
    let (c, n, line) = ingest_frame(&mut router, &frame, 42).unwrap();
    assert_eq!(c, Channel::TenYear);
    assert_eq!(n, 0);
    let expected = record_line(0, &payload("090100000000", "  101.250", "  101.270"));
    assert_eq!(line, expected);
    // a frame whose payload has no family tag changes nothing
    let noise = vec![0u8; 100];
    assert!(ingest_frame(&mut router, &noise, 42).is_none());
    assert_eq!(router.seq_ten, 1);
}

#[test]
fn format_record_writes_decimal_sequence() {
    assert_eq!(format_record(0, b"abc"), b"0: abc".to_vec());
    assert_eq!(format_record(90017, b"p"), b"90017: p".to_vec());
    assert_eq!(
        format_record(12345678901234567890, b""),
        b"12345678901234567890: ".to_vec()
    );
}

#[test]
fn extract_round_trips_a_formatted_record() {
    let p = payload("123456789012", "  101.250", "  101.270");
    let line = format_record(7, &p);
    let o = extract(&line).unwrap();
    assert_eq!(o.timestamp, b"123456789012".to_vec());
}

#[test]
fn midpoint_of_quoted_prices_is_exact() {
    // priceA = "101.250", priceB = "101.270": the midpoint is exactly 101.26
    let line = record_line(0, &payload("090100000000", "  101.250", "  101.270"));
    let o = extract(&line).unwrap();
    assert_eq!(o.midpoint, Price { mantissa: 1012600, scale: 4 });
    assert!((mid_as_f64(&o.midpoint) - 101.26).abs() < 1e-6);
}

#[test]
fn midpoint_aligns_different_scales() {
    let a = parse_price(b"1.5").unwrap();
    let b = parse_price(b"2").unwrap();
    let m = midpoint(&a, &b);
    assert!((mid_as_f64(&m) - 1.75).abs() < 1e-12);
}

#[test]
fn short_payload_is_dropped_not_fatal() {
    // payload of 40 bytes: no observation, no panic
    let line = record_line(0, &vec![b'a'; 40]);
    assert!(extract(&line).is_none());
}

#[test]
fn missing_separator_is_dropped() {
    assert!(extract(b"no separator here").is_none());
    assert!(extract(b"").is_none());
}

#[test]
fn timestamp_at_or_before_cutoff_is_dropped() {
    let at = record_line(0, &payload("090000000000", "  101.250", "  101.270"));
    let before = record_line(1, &payload("085959999999", "  101.250", "  101.270"));
    let after = record_line(2, &payload("090000000001", "  101.250", "  101.270"));
    assert!(extract(&at).is_none());
    assert!(extract(&before).is_none());
    assert!(extract(&after).is_some());
}

#[test]
fn non_digit_timestamp_is_dropped() {
    let line = record_line(0, &payload("09010000000Z", "  101.250", "  101.270"));
    assert!(extract(&line).is_none());
}

#[test]
fn malformed_price_is_dropped() {
    let bad_a = record_line(0, &payload("090100000000", "  10x.250", "  101.270"));
    let bad_b = record_line(0, &payload("090100000000", "  101.250", "  1.2.3  "));
    assert!(extract(&bad_a).is_none());
    assert!(extract(&bad_b).is_none());
}

#[test]
fn parse_price_reads_plain_decimals() {
    assert_eq!(parse_price(b"  101.250"), Some(Price { mantissa: 101250, scale: 3 }));
    assert_eq!(parse_price(b"101"), Some(Price { mantissa: 101, scale: 0 }));
    assert_eq!(parse_price(b".5"), Some(Price { mantissa: 5, scale: 1 }));
    assert_eq!(parse_price(b"1."), Some(Price { mantissa: 1, scale: 0 }));
    assert_eq!(parse_price(b"-2.50"), Some(Price { mantissa: -250, scale: 2 }));
    assert_eq!(parse_price(b"+3"), Some(Price { mantissa: 3, scale: 0 }));
    assert_eq!(parse_price(b"101250000"), Some(Price { mantissa: 101250000, scale: 0 }));
}

#[test]
fn parse_price_rejects_junk() {
    assert_eq!(parse_price(b""), None);
    assert_eq!(parse_price(b"   "), None);
    assert_eq!(parse_price(b"."), None);
    assert_eq!(parse_price(b"-"), None);
    assert_eq!(parse_price(b"1.2.3"), None);
    assert_eq!(parse_price(b"12a"), None);
    assert_eq!(parse_price(b"1 2"), None);
}

#[test]
fn series_is_sorted_unique_and_after_cutoff() {
    let lines = vec![
        record_line(0, &payload("100000000002", "  101.250", "  101.270")),
        record_line(1, &payload("100000000001", "  102.000", "  102.020")),
        record_line(2, &payload("090000000000", "  103.000", "  103.000")), // at cutoff: dropped
        record_line(3, &payload("100000000002", "  104.000", "  104.000")), // duplicate key
        record_line(4, &payload("100000000003", "  105.000", "  105.000")),
    ];
    let series = build_series(&lines);
    let keys: Vec<&Vec<u8>> = series.iter().map(|o| &o.timestamp).collect();
    assert_eq!(
        keys,
        vec![
            &b"100000000001".to_vec(),
            &b"100000000002".to_vec(),
            &b"100000000003".to_vec()
        ]
    );
    for o in &series {
        assert_eq!(o.timestamp.len(), 12);
        assert!(o.timestamp.iter().all(|b| b.is_ascii_digit()));
        assert!(o.timestamp.as_slice() > b"090000000000".as_slice());
    }
    for w in series.windows(2) {
        assert!(w[0].timestamp < w[1].timestamp);
    }
}

#[test]
fn duplicate_timestamp_last_write_wins() {
    let lines = vec![
        record_line(0, &payload("100000000001", "  101.000", "  101.000")),
        record_line(1, &payload("100000000001", "  109.000", "  109.000")),
    ];
    let series = build_series(&lines);
    assert_eq!(series.len(), 1);
    assert!((mid_as_f64(&series[0].midpoint) - 109.0).abs() < 1e-9);
}

#[test]
fn series_building_is_idempotent() {
    let lines = vec![
        record_line(0, &payload("100000000002", "  101.250", "  101.270")),
        record_line(1, &payload("100000000001", "  102.000", "  102.020")),
        record_line(2, &payload("100000000001", "  103.000", "  103.040")),
        b"garbage line without separator".to_vec(),
        record_line(3, &vec![b'a'; 40]),
    ];
    let first = build_series(&lines);
    let second = build_series(&lines);
    assert_eq!(first, second);
}

#[test]
fn end_to_end_two_records_one_survives() {
    // second record's timestamp lies at the cutoff boundary's other side
    let lines = vec![
        record_line(0, &payload("090100000000", "  101.250", "  101.270")),
        record_line(1, &payload("085959999999", "  101.000", "  101.000")),
    ];
    let series = build_series(&lines);
    assert_eq!(series.len(), 1);
    assert_eq!(series[0].timestamp, b"090100000000".to_vec());
    assert!((mid_as_f64(&series[0].midpoint) - 101.26).abs() < 1e-6);
}

#[test]
fn aggregator_insert_and_finalize() {
    let mut agg = SeriesAggregator::new();
    let o1 = extract(&record_line(
        0,
        &payload("100000000002", "  101.000", "  101.000"),
    ))
    .unwrap();
    let o2 = extract(&record_line(
        1,
        &payload("100000000001", "  102.000", "  102.000"),
    ))
    .unwrap();
    agg.insert(o1);
    agg.insert(o2);
    let entries = agg.finalize();
    assert_eq!(entries.len(), 2);
    assert_eq!(entries[0].timestamp, b"100000000001".to_vec());
    assert_eq!(entries[1].timestamp, b"100000000002".to_vec());
}

#[test]
fn mid_push_appends() {
    let mut mid = Mid { mid_price: Vec::new() };
    mid.push(Price { mantissa: 1012600, scale: 4 });
    mid.push(Price { mantissa: 1020100, scale: 4 });
    assert_eq!(mid.mid_price.len(), 2);
    assert_eq!(mid.mid_price[0], Price { mantissa: 1012600, scale: 4 });
    let copy = mid.clone();
    assert_eq!(mid, copy);
}
