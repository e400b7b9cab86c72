use matchx::segments::{
    is_segment_file, last_segment, list_segments, parse_segment_index, segment_name,
};

fn name(index: u64) -> String {
    String::from_utf8(segment_name(index)).unwrap()
}

#[test]
fn segment_names_have_eight_digits_or_more() {
    assert_eq!(name(1), "journal-00000001.wal");
    assert_eq!(name(0), "journal-00000000.wal");
    assert_eq!(name(99_999_999), "journal-99999999.wal");
    assert_eq!(name(100_000_000), "journal-100000000.wal");
    assert_eq!(name(u64::MAX), "journal-18446744073709551615.wal");
}

#[test]
fn segment_names_give_their_index_back() {
    for index in [0, 1, 9, 10, 12_345_678, 100_000_000, u64::MAX] {
        assert_eq!(parse_segment_index(&segment_name(index)), Some(index));
    }
}

#[test]
fn segment_names_sort_as_their_indices() {
    let indices = [0, 1, 2, 9, 10, 11, 99, 100, 99_999_999];
    for pair in indices.windows(2) {
        assert!(segment_name(pair[0]) < segment_name(pair[1]));
    }
    // Beyond eight digits names do not sort as indices do.
    assert!(segment_name(100_000_000) < segment_name(99_999_999));
}

#[test]
fn other_names_have_no_index() {
    assert_eq!(parse_segment_index(b"journal-1.wal"), Some(1));
    assert_eq!(parse_segment_index(b"journal-+12.wal"), Some(12));
    assert_eq!(parse_segment_index(b"journal-.wal"), None);
    assert_eq!(parse_segment_index(b"journal-+.wal"), None);
    assert_eq!(parse_segment_index(b"journal-1x.wal"), None);
    assert_eq!(parse_segment_index(b"journal--1.wal"), None);
    assert_eq!(parse_segment_index(b"journal-00000001.log"), None);
    assert_eq!(parse_segment_index(b"segment-00000001.wal"), None);
    assert_eq!(parse_segment_index(b""), None);
    assert_eq!(parse_segment_index(b"journal-18446744073709551615.wal"), Some(u64::MAX));
    assert_eq!(parse_segment_index(b"journal-18446744073709551616.wal"), None);
    assert_eq!(parse_segment_index(b"journal-99999999999999999999999.wal"), None);
}

#[test]
fn segment_files_are_told_by_prefix_and_suffix() {
    assert!(is_segment_file(b"journal-00000001.wal"));
    assert!(is_segment_file(b"journal-old.wal"));
    assert!(is_segment_file(b"journal-.wal"));
    assert!(!is_segment_file(b"journal-.wa"));
    assert!(!is_segment_file(b"journal.wal"));
    assert!(!is_segment_file(b".wal"));
    assert!(!is_segment_file(b"journal-"));
}

#[test]
fn segment_files_are_listed_in_order() {
    let names: Vec<Vec<u8>> = [
        "journal-00000010.wal",
        "README",
        "journal-00000002.wal",
        "journal-old.wal",
        "journal-00000002.wal.bak",
        "journal-.wal",
    ]
    .iter()
    .map(|n| n.as_bytes().to_vec())
    .collect();
    let list: Vec<String> = list_segments(names.clone())
        .into_iter()
        .map(|n| String::from_utf8(n).unwrap())
        .collect();
    assert_eq!(
        list,
        vec!["journal-.wal", "journal-00000002.wal", "journal-00000010.wal", "journal-old.wal"]
    );
    assert_eq!(last_segment(&names), Some((0, 10)));
    assert_eq!(last_segment(&Vec::new()), None);
    assert!(list_segments(Vec::new()).is_empty());
}
