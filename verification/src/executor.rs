//! Distance execution: mapping planned index pairs to distances, one result
//! per work item, addressable by the same position as its pair. The per-pair
//! function carries the whole contract, so a caller may also distribute the
//! pairs over worker threads and collect the results in pair order.

use crate::distance::{hamming_distance, spec_hamming};
use vstd::prelude::*;

verus! {

/// The sequence collection an optional secondary alignment contributes.
pub open spec fn opt_seqs_view(s: Option<&Vec<Vec<u8>>>) -> Option<Seq<Vec<u8>>> {
    match s {
        Some(v) => Some(v@),
        None => None,
    }
}

/// The distance owed to one work item: against the secondary alignment when
/// one is present, within the primary otherwise. A self-pair of the primary
/// alignment is 0 by definition and is never measured byte by byte.
pub open spec fn spec_pair_distance(
    seqs1: Seq<Vec<u8>>,
    seqs2: Option<Seq<Vec<u8>>>,
    i: int,
    j: int,
) -> nat {
    match seqs2 {
        Some(s2) => spec_hamming(seqs1[i]@, s2[j]@),
        None => if i == j {
            0
        } else {
            spec_hamming(seqs1[i]@, seqs1[j]@)
        },
    }
}

/// The work item (i, j) indexes into the alignments and compares sequences
/// of equal length.
pub open spec fn pair_in_range(
    seqs1: Seq<Vec<u8>>,
    seqs2: Option<Seq<Vec<u8>>>,
    p: (usize, usize),
) -> bool {
    match seqs2 {
        Some(s2) => p.0 < seqs1.len() && p.1 < s2.len() && seqs1[p.0 as int]@.len()
            == s2[p.1 as int]@.len(),
        None => p.0 < seqs1.len() && p.1 < seqs1.len() && seqs1[p.0 as int]@.len()
            == seqs1[p.1 as int]@.len(),
    }
}

/// Distance for one work item.
pub fn pair_distance(
    seqs1: &Vec<Vec<u8>>,
    seqs2: Option<&Vec<Vec<u8>>>,
    i: usize,
    j: usize,
) -> (r: u64)
    requires
        pair_in_range(seqs1@, opt_seqs_view(seqs2), (i, j)),
    ensures
        r == spec_pair_distance(seqs1@, opt_seqs_view(seqs2), i as int, j as int),
{
    match seqs2 {
        Some(s2) => hamming_distance(seqs1[i].as_slice(), s2[j].as_slice()),
        None => {
            if i == j {
                0
            } else {
                hamming_distance(seqs1[i].as_slice(), seqs1[j].as_slice())
            }
        },
    }
}

/// Distances for every work item, in work-item order: the result at position
/// k belongs to the pair at position k.
pub fn compute_distances(
    seqs1: &Vec<Vec<u8>>,
    seqs2: Option<&Vec<Vec<u8>>>,
    pairs: &Vec<(usize, usize)>,
) -> (r: Vec<u64>)
    requires
        forall|k: int|
            0 <= k < pairs@.len() ==> pair_in_range(seqs1@, opt_seqs_view(seqs2), #[trigger] pairs@[k]),
    ensures
        r@.len() == pairs@.len(),
        forall|k: int|
            0 <= k < pairs@.len() ==> r@[k] == spec_pair_distance(
                seqs1@,
                opt_seqs_view(seqs2),
                (#[trigger] pairs@[k]).0 as int,
                pairs@[k].1 as int,
            ),
{
    let mut r: Vec<u64> = Vec::new();
    let mut k: usize = 0;
    while k < pairs.len()
        invariant
            k <= pairs@.len(),
            r@.len() == k,
            forall|m: int|
                0 <= m < pairs@.len() ==> pair_in_range(
                    seqs1@,
                    opt_seqs_view(seqs2),
                    #[trigger] pairs@[m],
                ),
            forall|m: int|
                0 <= m < k ==> r@[m] == spec_pair_distance(
                    seqs1@,
                    opt_seqs_view(seqs2),
                    (#[trigger] pairs@[m]).0 as int,
                    pairs@[m].1 as int,
                ),
        decreases pairs@.len() - k,
    {
        let (i, j) = pairs[k];
        r.push(pair_distance(seqs1, seqs2, i, j));
        k = k + 1;
    }
    r
}

} // verus!
