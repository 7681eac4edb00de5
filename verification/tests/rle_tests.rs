use schnellwerke::pak::{decode_rle_payload, encode_rle_payload};
use schnellwerke::rle::{compress_data_impl, decompress_data_impl, Rledata};

fn sample() -> Vec<u8> {
    let mut d = vec![7u8; 20];
    d.extend_from_slice(&[1, 2, 3]);
    d.extend(std::iter::repeat(9u8).take(18));
    d.extend(std::iter::repeat(5u8).take(17));
    d
}

fn entry_tuple(e: &Rledata) -> (u8, u64, u64) {
    (e.data, e.location, e.length)
}

#[test]
fn compress_splits_long_runs() {
    let (entries, tail) = compress_data_impl(&sample());
    let got: Vec<(u8, u64, u64)> = entries.iter().map(entry_tuple).collect();
    assert_eq!(got, vec![(7, 0, 20), (9, 23, 18)]);
    let mut expected_tail = vec![1, 2, 3];
    expected_tail.extend(std::iter::repeat(5u8).take(17));
    assert_eq!(tail, expected_tail);
}

#[test]
fn compress_empty() {
    let (entries, tail) = compress_data_impl(&[]);
    assert!(entries.is_empty());
    assert!(tail.is_empty());
}

#[test]
fn run_of_exactly_seventeen_stays_in_tail() {
    let d = vec![4u8; 17];
    let (entries, tail) = compress_data_impl(&d);
    assert!(entries.is_empty());
    assert_eq!(tail, d);
}

#[test]
fn decompress_restores_data() {
    let d = sample();
    let (entries, tail) = compress_data_impl(&d);
    assert_eq!(decompress_data_impl(&entries, &tail, d.len()), d);
}

#[test]
fn decompress_sorts_entries_by_location() {
    let d = sample();
    let (mut entries, tail) = compress_data_impl(&d);
    entries.reverse();
    assert_eq!(decompress_data_impl(&entries, &tail, d.len()), d);
}

#[test]
fn decompress_fills_gaps_from_tail() {
    let entries = vec![Rledata { data: 8, location: 2, length: 3 }];
    assert_eq!(decompress_data_impl(&entries, &[1, 2, 3, 4], 7), vec![1, 2, 8, 8, 8, 3, 4]);
}

#[test]
fn decompress_with_no_entries_copies_tail() {
    assert_eq!(decompress_data_impl(&[], &[5, 6, 7], 3), vec![5, 6, 7]);
}

#[test]
fn payload_little_endian_layout() {
    let entries = vec![Rledata { data: 7, location: 0x0102, length: 20 }];
    let p = encode_rle_payload(&entries, &[1, 2], false);
    assert_eq!(
        p,
        vec![1, 0, 0, 0, 0, 0, 0, 0, 7, 2, 1, 0, 0, 0, 0, 0, 0, 20, 0, 0, 0, 0, 0, 0, 0, 1, 2]
    );
}

#[test]
fn payload_big_endian_layout() {
    let entries = vec![Rledata { data: 7, location: 0x0102, length: 20 }];
    let p = encode_rle_payload(&entries, &[1, 2], true);
    assert_eq!(
        p,
        vec![0, 0, 0, 0, 0, 0, 0, 1, 7, 0, 0, 0, 0, 0, 0, 1, 2, 0, 0, 0, 0, 0, 0, 0, 20, 1, 2]
    );
}

#[test]
fn payload_roundtrip() {
    let d = sample();
    let (entries, tail) = compress_data_impl(&d);
    for big in [false, true] {
        let p = encode_rle_payload(&entries, &tail, big);
        let (es, t) = decode_rle_payload(&p, big).unwrap();
        let got: Vec<(u8, u64, u64)> = es.iter().map(entry_tuple).collect();
        let want: Vec<(u8, u64, u64)> = entries.iter().map(entry_tuple).collect();
        assert_eq!(got, want);
        assert_eq!(t, tail);
        assert_eq!(decompress_data_impl(&es, &t, d.len()), d);
    }
}

#[test]
fn short_payload_is_none() {
    assert!(decode_rle_payload(&[1, 2, 3, 4, 5, 6, 7], false).is_none());
}

#[test]
fn payload_with_missing_entries_stops_early() {
    let mut p = vec![5, 0, 0, 0, 0, 0, 0, 0];
    p.extend_from_slice(&[3, 1, 0, 0, 0, 0, 0, 0, 0, 2, 0, 0, 0, 0, 0, 0, 0]);
    p.extend_from_slice(&[9, 9]);
    let (es, t) = decode_rle_payload(&p, false).unwrap();
    let got: Vec<(u8, u64, u64)> = es.iter().map(entry_tuple).collect();
    assert_eq!(got, vec![(3, 1, 2)]);
    assert_eq!(t, vec![9, 9]);
}
