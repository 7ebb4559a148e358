//! Tests of the normalizer, the distance function and the index sorting.

use psdm::distance::IGNORE;
use psdm::hamming_distance;
use psdm::transform::parse_ignored_chars;
use psdm::Transformer;
use std::collections::HashSet;

#[test]
fn parse_chars() {
    let s = "N-X";

    let actual = parse_ignored_chars(s);
    let expected: HashSet<u8> = HashSet::from_iter([b'N', b'-', b'X']);

    assert_eq!(actual, expected)
}

#[test]
fn argsort() {
    let v = vec![1, 7, 4, 2];
    let i = psdm::sort::argsort(&v);
    assert_eq!(i, &[0, 3, 2, 1]);
}

#[test]
fn argsort_with_str() {
    let v = vec!["a", "c", "B", "-"];
    let i = psdm::sort::argsort(&v);
    assert_eq!(i, &[3, 2, 0, 1]);
}

#[test]
fn argsort_on_empty() {
    let v: Vec<u8> = vec![];
    let i = psdm::sort::argsort(&v);
    assert!(i.is_empty());
}

#[test]
fn sort_by_index() {
    let mut i = vec![5, 3, 2, 1, 6, 4, 0];
    let mut v = vec!["a", "b", "c", "d", "e", "f", "g"];
    psdm::sort::sort_by_indices(&mut v, &mut i);

    assert_eq!(v, &["f", "d", "c", "b", "g", "e", "a"]);
}

#[test]
fn argsort_is_stable_on_equal_keys() {
    let v = vec![2, 1, 2, 1];
    let i = psdm::sort::argsort(&v);
    assert_eq!(i, &[1, 3, 0, 2]);
}

#[test]
fn transform_preserve_case() {
    let mut s = b"aC-t".to_vec();
    let expected = s.clone();
    let t: Transformer = Transformer { case_sensitive: true, ..Default::default() };

    t.transform(&mut s);

    assert_eq!(s, expected)
}

#[test]
fn transform_ignore_case() {
    let mut s = b"aC-t".to_vec();
    let t = Transformer { case_sensitive: false, ..Default::default() };

    t.transform(&mut s);
    let expected = b"AC-T".to_vec();

    assert_eq!(s, expected)
}

#[test]
fn transform_ignore_chars() {
    let ignore = HashSet::from_iter(b"N-x".to_vec());
    let t = Transformer { ignored_chars: ignore, case_sensitive: true, ..Default::default() };
    let mut s = b"AxC-GNt".to_vec();

    t.transform(&mut s);
    let expected = vec![b'A', IGNORE, b'C', IGNORE, b'G', IGNORE, b't'];

    assert_eq!(s, expected)
}

#[test]
fn transform_ignore_chars_case_sensitive() {
    let ignore = HashSet::from_iter(b"N".to_vec());
    let t = Transformer { ignored_chars: ignore, case_sensitive: true, ..Default::default() };
    let mut s = b"ACGnt".to_vec();

    t.transform(&mut s);
    let expected = vec![b'A', b'C', b'G', b'n', b't'];

    assert_eq!(s, expected)
}

#[test]
fn transform_ignore_chars_case_insensitive() {
    let ignore = HashSet::from_iter(b"N".to_vec());
    let t = Transformer { ignored_chars: ignore, case_sensitive: false, ..Default::default() };
    let mut s = b"ACGnt".to_vec();

    t.transform(&mut s);
    let expected = vec![b'A', b'C', b'G', IGNORE, b'T'];

    assert_eq!(s, expected)
}

#[test]
fn transform_is_idempotent() {
    let ignore = HashSet::from_iter(b"N-".to_vec());
    let t = Transformer { ignored_chars: ignore, case_sensitive: false, ..Default::default() };
    let mut once = b"acN-Tg".to_vec();
    t.transform(&mut once);
    let mut twice = once.clone();
    t.transform(&mut twice);

    assert_eq!(once, twice)
}

#[test]
fn test_hamming_distance() {
    let a = vec![b'A', IGNORE, b't', b'C', b'-'];
    let b = vec![b'A', b'T', b'T', b'C', b'G'];

    let actual = hamming_distance(&a, &b);
    let expected = 2;

    assert_eq!(actual, expected)
}

#[test]
fn hamming_distance_default_scenario() {
    // Two sequences under the default settings: case folding and the
    // ignored set change nothing here, and three positions mismatch.
    let a = b"ACGT".to_vec();
    let b = b"CCCC".to_vec();

    assert_eq!(hamming_distance(&a, &b), 3);
}

#[test]
fn hamming_distance_after_normalization() {
    // "A.tC-" normalized under the defaults (fold case, ignore N and -)
    // becomes "A.TC."; every position then matches "ATTCG" or is ignored.
    let t = Transformer {
        ignored_chars: HashSet::from_iter(b"N-".to_vec()),
        case_sensitive: false,
        ..Default::default()
    };
    let mut a = b"A.tC-".to_vec();
    t.transform(&mut a);
    assert_eq!(a, b"A.TC.".to_vec());

    let b = b"ATTCG".to_vec();
    assert_eq!(hamming_distance(&a, &b), 0);
}

#[test]
fn hamming_distance_is_symmetric() {
    let a = b"AC-T".to_vec();
    let b = b"GCAT".to_vec();

    assert_eq!(hamming_distance(&a, &b), hamming_distance(&b, &a));
}

#[test]
fn hamming_distance_to_self_is_zero() {
    let plain = b"ACGT".to_vec();
    assert_eq!(hamming_distance(&plain, &plain), 0);

    let with_ignored = vec![b'A', IGNORE, b'G', IGNORE];
    assert_eq!(hamming_distance(&with_ignored, &with_ignored), 0);
}

#[test]
fn dist_counts_sentinels_as_matches() {
    assert_eq!(psdm::distance::dist(b'A', b'C'), 1);
    assert_eq!(psdm::distance::dist(b'A', b'A'), 0);
    assert_eq!(psdm::distance::dist(IGNORE, b'C'), 0);
    assert_eq!(psdm::distance::dist(b'A', IGNORE), 0);
    assert_eq!(psdm::distance::dist(IGNORE, IGNORE), 0);
}
