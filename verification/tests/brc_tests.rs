use brc::memops::{memchr64_unchecked, memeq32_unchecked, memeq64_unchecked};
use brc::pipeline::temperature_reading_summaries;
use brc::records::{parse_temperature, parse_value};
use brc::station_map::{
    hash64, new_station_map, StationMapOptions, StationNameKey, StationNameKeyView,
};
use brc::temperature_summary::TemperatureSummary;

fn pad64(s: &str) -> String {
    if s.len() >= 64 {
        s.to_owned()
    } else {
        let mut res = [0u8; 64];
        (&mut res[..s.len()]).copy_from_slice(s.as_bytes());
        std::str::from_utf8(&res).unwrap().to_owned()
    }
}

fn safe_memeq32(a: &str, b: &str) -> bool {
    memeq32_unchecked(pad64(a).as_bytes(), pad64(b).as_bytes())
}

#[test]
fn test_memeq32() {
    assert!(safe_memeq32("abcd", "abcd"));
    assert!(!safe_memeq32("abcd", "abc"));
    assert!(!safe_memeq32("aaa", "bbb"));
    assert!(safe_memeq32(
        "aaaaaaaabbbbbbbbccccccccdddddddd_AAA",
        "aaaaaaaabbbbbbbbccccccccdddddddd_BBB"
    ));
}

fn safe_memchr64<const NEEDLE: u8>(haystack: &str) -> usize {
    memchr64_unchecked::<NEEDLE>(pad64(haystack).as_bytes())
}

#[test]
fn test_memchr64() {
    assert_eq!(safe_memchr64::<b'A'>("aaaAaaa"), 3);
    assert_eq!(safe_memchr64::<b'A'>("aaaAaaaAaaa"), 3);
}

#[test]
fn test_parse_float() {
    assert_eq!(parse_temperature("  ;-99.9".as_bytes()), -999);
    assert_eq!(parse_temperature("  ;99.9".as_bytes()), 999);
    assert_eq!(parse_temperature("  ;-9.9".as_bytes()), -99);
    assert_eq!(parse_temperature("  ;9.9".as_bytes()), 99);
}

#[test]
fn test_memeq64_long() {
    let a = pad64("aaaaaaaabbbbbbbbccccccccdddddddd_AAA");
    let b = pad64("aaaaaaaabbbbbbbbccccccccdddddddd_BBB");
    assert!(!memeq64_unchecked(a.as_bytes(), b.as_bytes()));
    assert!(memeq64_unchecked(a.as_bytes(), a.as_bytes()));
}

#[test]
fn test_parse_value_boundaries() {
    assert_eq!(parse_value("-99.9".as_bytes()), -999);
    assert_eq!(parse_value("-9.9".as_bytes()), -99);
    assert_eq!(parse_value("9.9".as_bytes()), 99);
    assert_eq!(parse_value("99.9".as_bytes()), 999);
    assert_eq!(parse_value("0.0".as_bytes()), 0);
    assert_eq!(parse_value("12.3".as_bytes()), 123);
    assert_eq!(parse_value("-3.2".as_bytes()), -32);
}

#[test]
fn test_single_record() {
    let out = temperature_reading_summaries(b"X;5.0\n").unwrap();
    assert_eq!(out.len(), 1);
    assert_eq!(out[0].name, b"X".to_vec());
    assert_eq!(out[0].summary.min(), 50);
    assert_eq!(out[0].summary.max(), 50);
    assert_eq!(out[0].summary.count, 1);
    assert_eq!(out[0].summary.total, 50);
    assert_eq!(out[0].summary.avg_tenths(), 50);
}

#[test]
fn test_three_records() {
    let out = temperature_reading_summaries(b"A;1.0\nB;2.0\nA;3.0\n").unwrap();
    assert_eq!(out.len(), 2);
    assert_eq!(out[0].name, b"A".to_vec());
    assert_eq!(out[0].summary.min(), 10);
    assert_eq!(out[0].summary.max(), 30);
    assert_eq!(out[0].summary.count, 2);
    assert_eq!(out[0].summary.total, 40);
    assert_eq!(out[0].summary.avg_tenths(), 20);
    assert_eq!(out[1].name, b"B".to_vec());
    assert_eq!(out[1].summary.min(), 20);
    assert_eq!(out[1].summary.max(), 20);
    assert_eq!(out[1].summary.count, 1);
    assert_eq!(out[1].summary.avg_tenths(), 20);
}

#[test]
fn test_output_sorted() {
    let out = temperature_reading_summaries(b"b;1.0\na;2.0\nc;0.5\nb;-1.0\n").unwrap();
    let names: Vec<&[u8]> = out.iter().map(|w| w.name.as_slice()).collect();
    assert_eq!(names, vec![b"a".as_slice(), b"b".as_slice(), b"c".as_slice()]);
    assert_eq!(out[1].summary.min(), -10);
    assert_eq!(out[1].summary.max(), 10);
    assert_eq!(out[1].summary.count, 2);
    assert_eq!(out[1].summary.total, 0);
}

#[test]
fn test_avg_rounding() {
    // -1.1 and -2.0 average to -1.55, which rounds to -1.5.
    let out = temperature_reading_summaries(b"K;-1.1\nK;-2.0\n").unwrap();
    assert_eq!(out[0].summary.total, -31);
    assert_eq!(out[0].summary.avg_tenths(), -15);
    // 1.1 and 2.0 average to 1.55, which rounds to 1.6.
    let out = temperature_reading_summaries(b"K;1.1\nK;2.0\n").unwrap();
    assert_eq!(out[0].summary.avg_tenths(), 16);
}

#[test]
fn test_average_is_lossy() {
    // Same rounded average from different counts and totals: the average
    // alone cannot reproduce the sum or the count.
    let one = temperature_reading_summaries(b"K;0.0\n").unwrap();
    let two = temperature_reading_summaries(b"K;0.0\nK;-0.1\n").unwrap();
    assert_eq!(one[0].summary.avg_tenths(), two[0].summary.avg_tenths());
    assert_ne!(one[0].summary.count, two[0].summary.count);
    assert_ne!(one[0].summary.total, two[0].summary.total);
}

#[test]
fn test_longest_record() {
    // 56 key bytes, the separator and a five-byte value: 62 bytes, the
    // longest record the grammar allows, still inside the 64-byte window.
    let mut input = vec![b'L'; 56];
    input.extend_from_slice(b";-99.9\n");
    let out = temperature_reading_summaries(&input).unwrap();
    assert_eq!(out.len(), 1);
    assert_eq!(out[0].summary.min(), -999);

    // A record whose newline lies beyond the window is rejected.
    let mut long = vec![b'L'; 80];
    long.extend_from_slice(b";1.0\n");
    assert!(temperature_reading_summaries(&long).is_err());
}

#[test]
fn test_empty_input() {
    let out = temperature_reading_summaries(b"").unwrap();
    assert_eq!(out.len(), 0);
}

#[test]
fn test_invalid_inputs() {
    // Two fractional digits break the value grammar.
    assert!(temperature_reading_summaries(b"X;5.00\n").is_err());
    // A record without a terminating newline is rejected.
    assert!(temperature_reading_summaries(b"X;5.0").is_err());
    // An empty key is rejected.
    assert!(temperature_reading_summaries(b";5.0\n").is_err());
    // No separator at all.
    assert!(temperature_reading_summaries(b"X5.0\n").is_err());
    // A key longer than the inline capacity of 56 bytes is rejected.
    let mut long = vec![b'k'; 57];
    long.extend_from_slice(b";5.0\n");
    assert!(temperature_reading_summaries(&long).is_err());
}

#[test]
fn test_max_length_key_round_trip() {
    let key = vec![b'S'; 56];
    let owned = StationNameKey::new(&key);
    let view = owned.view();
    let direct = StationNameKeyView::new(&key);
    assert!(view.equals(&direct));
    assert!(direct.equals(&view));
    assert_eq!(view.hash_u64(), direct.hash_u64());

    let mut input = key.clone();
    input.extend_from_slice(b";7.5\n");
    let out = temperature_reading_summaries(&input).unwrap();
    assert_eq!(out.len(), 1);
    assert_eq!(out[0].name, key);
    assert_eq!(out[0].summary.min(), 75);
}

#[test]
fn test_hash_is_content_based() {
    let a = b"Hamburg".to_vec();
    let b = b"Hamburg".to_vec();
    assert_eq!(hash64(&a), hash64(&b));
    // The hash samples bytes and mixes in the length, so these differ.
    assert_ne!(hash64(b"Hamburg"), hash64(b"Hamburgo"));
}

#[test]
fn test_table_growth_keeps_entries() {
    // Far more distinct keys than the initial capacity, so the backing
    // table must grow; every key must stay independently lookupable.
    let opts = StationMapOptions { request_hugepage: false, capacity: 4 };
    let mut table = new_station_map(&opts);
    for i in 0..100i32 {
        let key = format!("station-{i:03}").into_bytes();
        table.insert(key, TemperatureSummary::of(i));
    }
    for i in 0..100i32 {
        let key = format!("station-{i:03}").into_bytes();
        let cell = table.get_copied(&key).unwrap();
        assert_eq!(cell.min(), i);
        assert_eq!(cell.max(), i);
        assert_eq!(cell.count, 1);
    }
    assert!(table.get_copied(b"station-100").is_none());
}

#[test]
fn test_many_keys_through_pipeline() {
    let mut input = Vec::new();
    for i in 0..300i32 {
        input.extend_from_slice(format!("k{i:04}entry;{}.{}\n", i % 10, i % 10).as_bytes());
    }
    let out = temperature_reading_summaries(&input).unwrap();
    assert_eq!(out.len(), 300);
    for w in out.windows(2) {
        assert!(w[0].name < w[1].name);
    }
}

#[test]
fn test_counts_and_sums() {
    // One entry per distinct key; counts are occurrence counts and totals
    // are exact sums, in tenths.
    let input = b"p;1.5\nq;-0.5\np;2.5\np;-1.0\nq;0.5\n";
    let out = temperature_reading_summaries(input).unwrap();
    assert_eq!(out.len(), 2);
    assert_eq!(out[0].name, b"p".to_vec());
    assert_eq!(out[0].summary.count, 3);
    assert_eq!(out[0].summary.total, 30);
    assert_eq!(out[0].summary.min(), -10);
    assert_eq!(out[0].summary.max(), 25);
    assert_eq!(out[1].name, b"q".to_vec());
    assert_eq!(out[1].summary.count, 2);
    assert_eq!(out[1].summary.total, 0);
}
