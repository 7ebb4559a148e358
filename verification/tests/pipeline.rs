//! End-to-end tests: planning, distance execution, matrix assembly and
//! table rendering.

use psdm::executor::{compute_distances, pair_distance};
use psdm::matrix::{distance_matrix, mat_get};
use psdm::plan::{cross_pairs, triangle_pairs};
use psdm::table::u64_to_decimal;
use psdm::ToTable;
use psdm::Transformer;

fn three_sequences() -> (Vec<Vec<u8>>, Vec<Vec<u8>>) {
    let t: Transformer = Default::default();
    t.load_alignment(b">s0\nACGT\n>s1\nAGGT\n>s2\nTCGT\n", 0).unwrap()
}

#[test]
fn triangle_pairs_enumerates_the_upper_triangle() {
    let pairs = triangle_pairs(3);
    assert_eq!(pairs, vec![(0, 0), (0, 1), (0, 2), (1, 1), (1, 2), (2, 2)]);
    assert!(triangle_pairs(0).is_empty());
}

#[test]
fn cross_pairs_enumerates_the_cross_product() {
    let pairs = cross_pairs(2, 3);
    assert_eq!(pairs, vec![(0, 0), (0, 1), (0, 2), (1, 0), (1, 1), (1, 2)]);
    assert!(cross_pairs(2, 0).is_empty());
    assert!(cross_pairs(0, 3).is_empty());
}

#[test]
fn distances_follow_work_item_order() {
    let (_names, seqs) = three_sequences();
    let pairs = triangle_pairs(seqs.len());
    let dists = compute_distances(&seqs, None, &pairs);
    assert_eq!(dists, vec![0, 1, 1, 0, 2, 0]);

    assert_eq!(pair_distance(&seqs, None, 1, 2), 2);
    assert_eq!(pair_distance(&seqs, None, 2, 2), 0);
}

#[test]
fn single_alignment_matrix_is_symmetric_with_zero_diagonal() {
    let (_names, seqs) = three_sequences();
    let m = distance_matrix(&seqs, None);

    let expected = [[0u64, 1, 1], [1, 0, 2], [1, 2, 0]];
    for i in 0..3 {
        for j in 0..3 {
            assert_eq!(mat_get(&m, i, j), expected[i][j]);
            assert_eq!(mat_get(&m, i, j), mat_get(&m, j, i));
        }
        assert_eq!(mat_get(&m, i, i), 0);
    }
}

#[test]
fn two_alignment_matrix_rows_follow_the_secondary() {
    let t: Transformer = Default::default();
    let (_n1, seqs1) = t.load_alignment(b">p0\nACGT\n>p1\nCCCC\n", 0).unwrap();
    let (_n2, seqs2) = t.load_alignment(b">x\nACCC\n", 4).unwrap();

    let m = distance_matrix(&seqs1, Some(&seqs2));
    assert_eq!(mat_get(&m, 0, 0), 2);
    assert_eq!(mat_get(&m, 0, 1), 1);
}

#[test]
fn three_sequence_wide_csv() {
    let (names, seqs) = three_sequences();
    let m = distance_matrix(&seqs, None);
    let out = m.to_csv(b',', &names, &names);

    let expected = ",s0,s1,s2\n\
                    s0,0,1,1\n\
                    s1,1,0,2\n\
                    s2,1,2,0\n";
    assert_eq!(String::from_utf8_lossy(&out), expected);
}

#[test]
fn three_sequence_long_form() {
    let (names, seqs) = three_sequences();
    let m = distance_matrix(&seqs, None);
    let out = m.to_long(b',', &names, &names);

    let expected = "s0,s0,0\ns0,s1,1\ns0,s2,1\n\
                    s1,s0,1\ns1,s1,0\ns1,s2,2\n\
                    s2,s0,1\ns2,s1,2\ns2,s2,0\n";
    assert_eq!(String::from_utf8_lossy(&out), expected);
    assert_eq!(out.iter().filter(|&&b| b == b'\n').count(), 9);
}

#[test]
fn two_alignment_wide_csv_with_tab() {
    let t: Transformer = Default::default();
    let (n1, seqs1) = t.load_alignment(b">p0\nACGT\n>p1\nCCCC\n", 0).unwrap();
    let (n2, seqs2) = t.load_alignment(b">x\nACCC\n", 4).unwrap();

    let m = distance_matrix(&seqs1, Some(&seqs2));
    let out = m.to_csv(b'\t', &n1, &n2);
    assert_eq!(String::from_utf8_lossy(&out), "\tp0\tp1\nx\t2\t1\n");
}

#[test]
fn empty_alignment_renders_a_bare_header() {
    let names: Vec<Vec<u8>> = vec![];
    let seqs: Vec<Vec<u8>> = vec![];
    let m = distance_matrix(&seqs, None);
    let out = m.to_csv(b',', &names, &names);
    assert_eq!(String::from_utf8_lossy(&out), ",\n");
    assert!(m.to_long(b',', &names, &names).is_empty());
}

#[test]
fn decimal_rendering_is_exact() {
    assert_eq!(u64_to_decimal(0), b"0".to_vec());
    assert_eq!(u64_to_decimal(7), b"7".to_vec());
    assert_eq!(u64_to_decimal(305), b"305".to_vec());
    assert_eq!(u64_to_decimal(u64::MAX), b"18446744073709551615".to_vec());
}

#[test]
fn sorted_two_alignment_long_form() {
    let t = Transformer { sort: true, ..Default::default() };
    let (n1, seqs1) = t.load_alignment(b">b\nACGT\n>a\nAGGT\n", 0).unwrap();
    assert_eq!(n1, vec![b"a".to_vec(), b"b".to_vec()]);
    let (n2, seqs2) = t.load_alignment(b">x\nACCC\n", 4).unwrap();

    let m = distance_matrix(&seqs1, Some(&seqs2));
    let out = m.to_long(b',', &n1, &n2);
    assert_eq!(String::from_utf8_lossy(&out), "a,x,3\nb,x,2\n");
}
