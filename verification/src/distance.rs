//! The pairwise distance function: Hamming distance over equal-length byte
//! sequences, where positions holding the [`IGNORE`] sentinel never count as
//! mismatches.

use vstd::prelude::*;

verus! {

/// Sentinel byte standing for a position excluded from mismatch counting:
/// an ASCII full stop.
pub const IGNORE: u8 = 46;

/// Distance contributed by one position: 1 only when the bytes differ and
/// neither side is the sentinel.
pub open spec fn spec_dist(a: u8, b: u8) -> u64 {
    if a != b && a != IGNORE && b != IGNORE {
        1
    } else {
        0
    }
}

/// Hamming distance of two byte sequences, summed position by position over
/// their common length, with sentinel positions counting as matches.
pub open spec fn spec_hamming(a: Seq<u8>, b: Seq<u8>) -> nat
    decreases a.len(),
{
    if a.len() == 0 || b.len() == 0 {
        0
    } else {
        spec_hamming(a.drop_last(), b.drop_last()) + spec_dist(a.last(), b.last()) as nat
    }
}

/// Distance between two bytes.
pub fn dist(a: u8, b: u8) -> (r: u64)
    ensures
        r == spec_dist(a, b),
{
    if a != b && a != IGNORE && b != IGNORE {
        1
    } else {
        0
    }
}

/// Hamming distance between two equal-length byte sequences. The caller must
/// guarantee equal lengths; this is enforced upstream by the alignment-length
/// invariant.
pub fn hamming_distance(a: &[u8], b: &[u8]) -> (r: u64)
    requires
        a@.len() == b@.len(),
    ensures
        r == spec_hamming(a@, b@),
{
    let mut total: u64 = 0;
    let mut i: usize = 0;
    while i < a.len()
        invariant
            a@.len() == b@.len(),
            i <= a@.len(),
            total <= i,
            total == spec_hamming(a@.take(i as int), b@.take(i as int)),
        decreases a@.len() - i,
    {
        let d = dist(*vstd::slice::slice_index_get(a, i), *vstd::slice::slice_index_get(b, i));
        proof {
            let j = i + 1;
            assert(a@.take(j as int).drop_last() =~= a@.take(i as int));
            assert(b@.take(j as int).drop_last() =~= b@.take(i as int));
            assert(a@.take(j as int).last() == a@[i as int]);
            assert(b@.take(j as int).last() == b@[i as int]);
        }
        total = total + d;
        i = i + 1;
    }
    proof {
        assert(a@.take(a@.len() as int) =~= a@);
        assert(b@.take(b@.len() as int) =~= b@);
    }
    total
}

/// Law: the distance function is symmetric in its two arguments.
pub proof fn lemma_hamming_symmetric(a: Seq<u8>, b: Seq<u8>)
    ensures
        spec_hamming(a, b) == spec_hamming(b, a),
    decreases a.len(),
{
    if a.len() == 0 || b.len() == 0 {
    } else {
        lemma_hamming_symmetric(a.drop_last(), b.drop_last());
    }
}

/// Law: a sequence is at distance 0 from itself, whether or not it holds
/// ignored positions (a sentinel never mismatches anything, itself included).
pub proof fn lemma_self_distance_zero(a: Seq<u8>)
    ensures
        spec_hamming(a, a) == 0,
    decreases a.len(),
{
    if a.len() == 0 {
    } else {
        lemma_self_distance_zero(a.drop_last());
    }
}

} // verus!
