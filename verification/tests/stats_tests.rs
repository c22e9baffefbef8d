use fcu::stats::{is_thumb_file, tally, transfer_files};

#[test]
fn thumb_files_hold_thumb_infix() {
    assert!(is_thumb_file("a_thumb_170.png"));
    assert!(!is_thumb_file("a_thumb.png"));
}

#[test]
fn tally_counts_and_sums() {
    let entries = vec![
        ("a_thumb_1.png".to_string(), Some(10)),
        ("a_1.png".to_string(), Some(100)),
        ("b_1.png".to_string(), None),
        ("b_thumb_1.png".to_string(), Some(u64::MAX)),
    ];
    let s = tally(&entries);
    assert_eq!(s.thumbs, 2);
    assert_eq!(s.fulls, 2);
    assert_eq!(s.thumbs_bytes, 10 + u64::MAX as u128);
    assert_eq!(s.fulls_bytes, 100);
}

#[test]
fn transfer_files_picks_kind() {
    let names = vec!["a_thumb_1.png".to_string(), "a_1.png".to_string()];
    assert_eq!(transfer_files(&names, true), vec![0]);
    assert_eq!(transfer_files(&names, false), vec![1]);
}
