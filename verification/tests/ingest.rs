use one_brc::format_labelled;
use one_brc::format_summary;
use one_brc::read_mmap;
use one_brc::read_mmap_unsafe;
use one_brc::Aggregator;
use one_brc::CityDetails;
use one_brc::IngestError;

fn plain(entries: &[(&[u8], CityDetails)]) -> Vec<(Vec<u8>, i16, i16, i64, u32)> {
    entries
        .iter()
        .map(|(key, d)| (key.to_vec(), d.min(), d.max(), d.sum(), d.count()))
        .collect()
}

fn lines(records: &[(&str, &str)]) -> Vec<u8> {
    let mut data = Vec::new();
    for (key, value) in records {
        data.extend_from_slice(key.as_bytes());
        data.push(b';');
        data.extend_from_slice(value.as_bytes());
        data.push(b'\n');
    }
    data
}

#[test]
fn empty_input_gives_empty_braces() {
    let entries = read_mmap(b"").unwrap();
    assert!(entries.is_empty());
    assert_eq!(format_summary(&entries), "{}");
    assert_eq!(format_summary(&read_mmap_unsafe(b"")), "{}");
    assert_eq!(format_labelled(&Vec::new()), "{}");
}

#[test]
fn hamburg_and_palermo() {
    let data = b"Hamburg;12.0\nHamburg;8.0\nPalermo;-1.5\n";
    let entries = read_mmap(data).unwrap();
    assert_eq!(entries.len(), 2);
    let (key, hamburg) = &entries[0];
    assert_eq!(*key, b"Hamburg");
    assert_eq!(hamburg.min(), 80);
    assert_eq!(hamburg.max(), 120);
    assert_eq!(hamburg.mean(), 100);
    assert_eq!(hamburg.count(), 2);
    let (key, palermo) = &entries[1];
    assert_eq!(*key, b"Palermo");
    assert_eq!(palermo.min(), -15);
    assert_eq!(palermo.max(), -15);
    assert_eq!(palermo.mean(), -15);
    assert_eq!(palermo.count(), 1);
    assert_eq!(format_summary(&entries), "{Hamburg=8.0/10.0/12.0, Palermo=-1.5/-1.5/-1.5}");
}

#[test]
fn trusted_pass_gives_what_the_checked_pass_gives() {
    let data = lines(&[
        ("Oslo", "-3.2"),
        ("Accra", "31.4"),
        ("Oslo", "4.0"),
        ("Lima", "18.9"),
        ("Accra", "29.0"),
        ("Oslo", "-10.5"),
    ]);
    let checked = read_mmap(&data).unwrap();
    let trusted = read_mmap_unsafe(&data);
    assert_eq!(plain(&checked), plain(&trusted));
    assert_eq!(format_summary(&checked), format_summary(&trusted));
    assert_eq!(
        format_summary(&trusted),
        "{Accra=29.0/30.2/31.4, Lima=18.9/18.9/18.9, Oslo=-10.5/-3.2/4.0}"
    );
}

#[test]
fn order_of_records_does_not_matter() {
    let records = [
        ("Oslo", "-3.2"),
        ("Accra", "31.4"),
        ("Oslo", "4.0"),
        ("Lima", "18.9"),
        ("Accra", "29.0"),
        ("Oslo", "-10.5"),
        ("Oslo", "4.0"),
    ];
    let expected = plain(&read_mmap(&lines(&records)).unwrap());
    let mut shuffled = records;
    for round in 0..records.len() {
        shuffled.rotate_left(1);
        shuffled.swap(0, round);
        let data = lines(&shuffled);
        assert_eq!(plain(&read_mmap(&data).unwrap()), expected);
    }
    shuffled.reverse();
    assert_eq!(plain(&read_mmap(&lines(&shuffled)).unwrap()), expected);
}

#[test]
fn keys_grow_strictly_byte_by_byte() {
    let data = lines(&[
        ("b", "1.0"),
        ("B", "1.0"),
        ("ab", "1.0"),
        ("a", "1.0"),
        ("", "1.0"),
        ("\u{e9}", "1.0"),
        ("z", "1.0"),
        ("a", "2.0"),
        ("aa", "1.0"),
        ("Z", "1.0"),
    ]);
    let entries = read_mmap(&data).unwrap();
    let keys: Vec<&[u8]> = entries.iter().map(|e| e.0).collect();
    let expected: Vec<&[u8]> =
        vec![b"", b"B", b"Z", b"a", b"aa", b"ab", b"b", b"z", "\u{e9}".as_bytes()];
    assert_eq!(keys, expected);
    for pair in keys.windows(2) {
        assert!(pair[0] < pair[1]);
    }
}

#[test]
fn two_passes_give_the_same_text() {
    let data = lines(&[("x", "1.0"), ("y", "-2.0"), ("a", "0.3"), ("x", "0.0"), ("m", "9.9")]);
    let first = format_summary(&read_mmap(&data).unwrap());
    let second = format_summary(&read_mmap(&data).unwrap());
    assert_eq!(first.as_bytes(), second.as_bytes());
    assert_eq!(first, "{a=0.3/0.3/0.3, m=9.9/9.9/9.9, x=0.0/0.5/1.0, y=-2.0/-2.0/-2.0}");
}

#[test]
fn every_observation_is_counted_once() {
    let mut data = Vec::new();
    for i in 0..5000u32 {
        let key = format!("k{}", i % 37);
        let value = format!("{}.{}", i % 100, i % 10);
        data.extend_from_slice(&lines(&[(key.as_str(), value.as_str())]));
    }
    let entries = read_mmap(&data).unwrap();
    assert_eq!(entries.len(), 37);
    let total: u32 = entries.iter().map(|e| e.1.count()).sum();
    assert_eq!(total, 5000);
    let sum: i64 = entries.iter().map(|e| e.1.sum()).sum();
    let expected: i64 = (0..5000i64).map(|i| (i % 100) * 10 + i % 10).sum();
    assert_eq!(sum, expected);
}

#[test]
fn pass_agrees_with_a_tally_kept_by_hand() {
    let mut by_hand: std::collections::BTreeMap<Vec<u8>, (i16, i16, i64, u32)> =
        std::collections::BTreeMap::new();
    let mut data = Vec::new();
    let mut seed: u32 = 12345;
    for _ in 0..20_000 {
        seed = seed.wrapping_mul(1_103_515_245).wrapping_add(12_345);
        let key = format!("station-{}", (seed >> 16) % 200);
        seed = seed.wrapping_mul(1_103_515_245).wrapping_add(12_345);
        let tenths = ((seed >> 16) % 2000) as i16 - 1000;
        let sign = if tenths < 0 { "-" } else { "" };
        let value = format!("{}{}.{}", sign, tenths.abs() / 10, tenths.abs() % 10);
        data.extend_from_slice(&lines(&[(key.as_str(), value.as_str())]));
        let slot = by_hand.entry(key.into_bytes()).or_insert((i16::MAX, i16::MIN, 0, 0));
        slot.0 = slot.0.min(tenths);
        slot.1 = slot.1.max(tenths);
        slot.2 += i64::from(tenths);
        slot.3 += 1;
    }
    let expected: Vec<(Vec<u8>, i16, i16, i64, u32)> =
        by_hand.into_iter().map(|(k, v)| (k, v.0, v.1, v.2, v.3)).collect();
    assert_eq!(plain(&read_mmap(&data).unwrap()), expected);
    assert_eq!(plain(&read_mmap_unsafe(&data)), expected);
}

#[test]
fn input_without_final_line_feed_is_refused() {
    assert_eq!(read_mmap(b"a;1.0\nb;2.0").unwrap_err(), IngestError::MissingLineDelimiter);
    assert_eq!(read_mmap(b"a;1.0").unwrap_err(), IngestError::MissingLineDelimiter);
}

#[test]
fn record_without_field_delimiter_is_refused() {
    assert_eq!(read_mmap(b"a;1.0\nb\n").unwrap_err(), IngestError::MissingFieldDelimiter);
    assert_eq!(read_mmap(b"\n").unwrap_err(), IngestError::MissingFieldDelimiter);
    assert_eq!(read_mmap(b"a").unwrap_err(), IngestError::MissingFieldDelimiter);
}

#[test]
fn value_that_is_no_measurement_is_refused() {
    assert_eq!(read_mmap(b"a;1.0\nb;x\n").unwrap_err(), IngestError::MalformedNumeric);
    assert_eq!(read_mmap(b"a;\n").unwrap_err(), IngestError::MalformedNumeric);
    assert_eq!(read_mmap(b"a;12\n").unwrap_err(), IngestError::MalformedNumeric);
    assert_eq!(read_mmap(b"a;1.0\r\n").unwrap_err(), IngestError::MalformedNumeric);
    assert_eq!(read_mmap(b"a;3276.8\n").unwrap_err(), IngestError::MalformedNumeric);
    assert_eq!(read_mmap(b"a;b;1.0\n").unwrap_err(), IngestError::MalformedNumeric);
}

#[test]
fn first_fault_in_the_input_is_the_one_reported() {
    assert_eq!(read_mmap(b"a;x\nb").unwrap_err(), IngestError::MalformedNumeric);
    assert_eq!(read_mmap(b"a;1.0\nb;2.0\nc;x\nd").unwrap_err(), IngestError::MalformedNumeric);
    assert_eq!(read_mmap(b"a;1.0\nb;2.0\nc\nd;x").unwrap_err(), IngestError::MissingLineDelimiter);
}

#[test]
fn key_with_a_line_feed_is_a_key() {
    let entries = read_mmap(b"first line\nb;2.0\n").unwrap();
    assert_eq!(entries.len(), 1);
    assert_eq!(entries[0].0, b"first line\nb");
}

#[test]
fn aggregator_keeps_one_record_per_key() {
    let mut agg = Aggregator::new();
    assert!(agg.observe(b"b", 10));
    assert!(agg.observe(b"a", -20));
    assert!(agg.observe(b"b", 30));
    let copy = b"b".to_vec();
    assert!(agg.observe(&copy, -5));
    let entries = agg.finish();
    assert_eq!(
        plain(&entries),
        vec![(b"a".to_vec(), -20, -20, -20, 1), (b"b".to_vec(), -5, 30, 35, 3)]
    );
}

#[test]
fn aggregator_without_observations_is_empty() {
    assert!(Aggregator::new().finish().is_empty());
}

#[test]
fn aggregator_sorts_many_keys() {
    let names: Vec<String> = (0..500u32).map(|i| format!("{}", (i * 7919) % 1000)).collect();
    let mut agg = Aggregator::new();
    for name in &names {
        assert!(agg.observe(name.as_bytes(), 1));
    }
    let entries = agg.finish();
    let mut expected: Vec<&[u8]> = names.iter().map(|n| n.as_bytes()).collect();
    expected.sort();
    expected.dedup();
    let keys: Vec<&[u8]> = entries.iter().map(|e| e.0).collect();
    assert_eq!(keys, expected);
}

#[test]
fn summary_shows_keys_as_text() {
    let data = "Z\u{fc}rich;1.0\nS\u{e3}o Paulo;2.0\n".as_bytes();
    let entries = read_mmap(data).unwrap();
    assert_eq!(
        format_summary(&entries),
        "{S\u{e3}o Paulo=2.0/2.0/2.0, Z\u{fc}rich=1.0/1.0/1.0}"
    );
}

#[test]
fn summary_replaces_what_is_not_text() {
    let entries = read_mmap(b"a\xffb;1.0\n").unwrap();
    assert_eq!(format_summary(&entries), "{a\u{fffd}b=1.0/1.0/1.0}");
}

#[test]
fn labelled_summary_separates_entries() {
    let mut one = CityDetails::default();
    one.update(15);
    let mut two = CityDetails::default();
    two.update(-15);
    two.update(40);
    let entries = vec![(String::from("one"), one)];
    assert_eq!(format_labelled(&entries), "{one=1.5/1.5/1.5}");
    let entries = vec![(String::from("one"), one), (String::from("two"), two), (String::new(), one)];
    assert_eq!(format_labelled(&entries), "{one=1.5/1.5/1.5, two=-1.5/1.3/4.0, =1.5/1.5/1.5}");
}
