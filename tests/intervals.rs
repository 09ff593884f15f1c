use faba::error::SiftError;
use faba::misc::{make_intervals, paste};

fn tiles(len: i64, bs: i64) {
    let iv = make_intervals(len, bs).unwrap();
    let expected = ((len as i128 + bs as i128 - 1) / bs as i128) as usize;
    assert_eq!(iv.len(), expected);
    let mut at = 0;
    for &(lb, ub) in &iv {
        assert_eq!(lb, at);
        assert!(lb < ub);
        assert!(ub - lb <= bs);
        at = ub;
    }
    assert_eq!(at, len);
}

#[test]
fn blocks_of_thirty_by_ten() {
    assert_eq!(make_intervals(30, 10).unwrap(), vec![(0, 10), (10, 20), (20, 30)]);
}

#[test]
fn last_block_is_shorter() {
    assert_eq!(make_intervals(25, 10).unwrap(), vec![(0, 10), (10, 20), (20, 25)]);
    assert_eq!(make_intervals(5, 10).unwrap(), vec![(0, 5)]);
}

#[test]
fn empty_sequence_has_no_blocks() {
    assert!(make_intervals(0, 10).unwrap().is_empty());
}

#[test]
fn blocks_tile_the_sequence() {
    for len in 0..40 {
        for bs in 1..12 {
            tiles(len, bs);
        }
    }
    tiles(1_000_003, 10_000);
    tiles(i64::MAX, i64::MAX);
    tiles(i64::MAX, i64::MAX / 2);
}

#[test]
fn paste_joins_selected_words() {
    let words = vec!["chr1".to_string(), "100".to_string(), "200".to_string()];
    assert_eq!(paste(&words, &vec![0, 2], "_"), "chr1_200");
    assert_eq!(paste(&words, &vec![2, 1, 0], ":"), "200:100:chr1");
    assert_eq!(paste(&words, &vec![1], "_"), "100");
    assert_eq!(paste(&words, &vec![], "_"), "");
}

#[test]
fn paste_skips_missing_words_but_keeps_separators() {
    let words = vec!["a".to_string(), "b".to_string()];
    assert_eq!(paste(&words, &vec![0, 5, 1], "-"), "a--b");
}

#[test]
fn negative_length_is_an_error() {
    assert!(matches!(make_intervals(-1, 10), Err(SiftError::Region)));
    assert!(matches!(make_intervals(i64::MIN, 1), Err(SiftError::Region)));
}
