//! Tests of alignment loading: parsing, the uniform-length rule, sorting.

use psdm::align::AlnError;
use psdm::Transformer;

#[test]
fn alignments_all_have_same_length() {
    let data = b">s1\nACGT\n>s0\nCCCC\n";
    let t: Transformer = Default::default();

    let actual = t.load_alignment(data, 0).unwrap();
    let expected = (
        vec![b"s1".to_vec(), b"s0".to_vec()],
        vec![b"ACGT".to_vec(), b"CCCC".to_vec()],
    );

    assert_eq!(actual, expected)
}

#[test]
fn alignments_do_not_all_have_same_length() {
    let data = b">s0\nACGT\n>s1\nCCCCC\n";
    let t: Transformer = Default::default();

    let actual = t.load_alignment(data, 0).unwrap_err();
    assert!(String::from_utf8_lossy(&actual.message()).contains("[id: s1]"))
}

#[test]
fn alignments_do_not_have_same_length_as_starting_seqlen() {
    let data = b">s0\nACGT\n>s1\nCCCC\n";
    let t: Transformer = Default::default();

    let actual = t.load_alignment(data, 1).unwrap_err();
    assert!(String::from_utf8_lossy(&actual.message()).contains("[id: s0]"))
}

#[test]
fn alignments_sorted_by_id() {
    let data = b">s10\nACGT\n>s51\nCCCC\n>s0\nGGCC\n";
    let t: Transformer = Transformer { sort: true, ..Default::default() };

    let actual = t.load_alignment(data, 0).unwrap();
    let expected = (
        vec![b"s0".to_vec(), b"s10".to_vec(), b"s51".to_vec()],
        vec![b"GGCC".to_vec(), b"ACGT".to_vec(), b"CCCC".to_vec()],
    );
    assert_eq!(actual, expected)
}

#[test]
fn alignment_that_is_not_fasta_fails_to_parse() {
    let data = b"this is not an alignment\n";
    let t: Transformer = Default::default();

    let actual = t.load_alignment(data, 0).unwrap_err();
    assert!(matches!(actual, AlnError::ParseFailure));
    assert_eq!(actual.message(), b"Failed to parse record".to_vec());
}

#[test]
fn empty_input_loads_as_empty_alignment() {
    let t: Transformer = Default::default();

    let actual = t.load_alignment(b"", 0).unwrap();
    assert!(actual.0.is_empty());
    assert!(actual.1.is_empty());
}

#[test]
fn loading_normalizes_sequences() {
    let data = b">s0\nacgn\n";
    let t = Transformer {
        ignored_chars: psdm::transform::parse_ignored_chars("N-"),
        case_sensitive: false,
        ..Default::default()
    };

    let (names, seqs) = t.load_alignment(data, 0).unwrap();
    assert_eq!(names, vec![b"s0".to_vec()]);
    assert_eq!(seqs, vec![b"ACG.".to_vec()]);
}

#[test]
fn sorting_keeps_duplicate_names_in_input_order() {
    let data = b">dup\nAAAA\n>aaa\nCCCC\n>dup\nGGGG\n";
    let t = Transformer { sort: true, ..Default::default() };

    let (names, seqs) = t.load_alignment(data, 0).unwrap();
    assert_eq!(names, vec![b"aaa".to_vec(), b"dup".to_vec(), b"dup".to_vec()]);
    assert_eq!(seqs, vec![b"CCCC".to_vec(), b"AAAA".to_vec(), b"GGGG".to_vec()]);
}

#[test]
fn mismatched_secondary_alignment_fails_before_comparison() {
    // A secondary alignment must match the primary alignment's sequence
    // length, handed in as the starting length; the failure names the
    // offending sequence.
    let t: Transformer = Default::default();
    let (_names, seqs) = t.load_alignment(b">a\nACGT\n", 0).unwrap();
    let primary_len = seqs[0].len();

    let actual = t.load_alignment(b">x\nAAAAA\n", primary_len).unwrap_err();
    assert!(String::from_utf8_lossy(&actual.message()).contains("[id: x]"));
}

#[test]
fn unequal_length_message_is_exact() {
    let t: Transformer = Default::default();
    let e = t.load_alignment(b">s0\nACGT\n>s1\nCCCCC\n", 0).unwrap_err();
    assert_eq!(
        e.message(),
        b"Alignment sequences must all be the same length [id: s1]".to_vec()
    );
}
