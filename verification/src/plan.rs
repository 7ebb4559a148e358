//! Pairwise work planning: which (i, j) index pairs to compare. A single
//! alignment gets the triangle with its diagonal; a pair of alignments gets
//! the full cross product.

use vstd::prelude::*;

verus! {

/// Strict lexicographic order on index pairs.
pub open spec fn pair_lex_lt(a: (usize, usize), b: (usize, usize)) -> bool {
    a.0 < b.0 || (a.0 == b.0 && a.1 < b.1)
}

/// Work items for one alignment of `n` sequences: every pair (i, j) with
/// i <= j < n, exactly once, in ascending lexicographic order. The diagonal
/// pairs (i, i) are included so the matrix diagonal gets an entry; their
/// distance is fixed at zero without comparing bytes.
pub fn triangle_pairs(n: usize) -> (r: Vec<(usize, usize)>)
    ensures
        forall|k: int| 0 <= k < r@.len() ==> (#[trigger] r@[k]).0 <= r@[k].1 < n,
        forall|i: int, j: int| 0 <= i <= j < n ==> #[trigger] r@.contains((i as usize, j as usize)),
        forall|k: int, l: int| 0 <= k < l < r@.len() ==> pair_lex_lt(r@[k], r@[l]),
{
    let mut r: Vec<(usize, usize)> = Vec::new();
    let mut i: usize = 0;
    while i < n
        invariant
            i <= n,
            forall|k: int|
                0 <= k < r@.len() ==> (#[trigger] r@[k]).0 <= r@[k].1 < n && r@[k].0 < i,
            forall|p: int, q: int|
                0 <= p < i && p <= q < n ==> #[trigger] r@.contains((p as usize, q as usize)),
            forall|k: int, l: int| 0 <= k < l < r@.len() ==> pair_lex_lt(r@[k], r@[l]),
        decreases n - i,
    {
        let mut j: usize = i;
        while j < n
            invariant
                i < n,
                i <= j <= n,
                forall|k: int|
                    0 <= k < r@.len() ==> (#[trigger] r@[k]).0 <= r@[k].1 < n && (r@[k].0 < i || (
                    r@[k].0 == i && r@[k].1 < j)),
                forall|p: int, q: int|
                    0 <= p < i && p <= q < n ==> #[trigger] r@.contains((p as usize, q as usize)),
                forall|q: int| i <= q < j ==> #[trigger] r@.contains((i as usize, q as usize)),
                forall|k: int, l: int| 0 <= k < l < r@.len() ==> pair_lex_lt(r@[k], r@[l]),
            decreases n - j,
        {
            let ghost r0: Seq<(usize, usize)> = r@;
            r.push((i, j));
            proof {
                lemma_push_keeps_pairs(r0, (i, j));
            }
            j = j + 1;
        }
        i = i + 1;
    }
    r
}

/// Work items across two alignments of `n1` and `n2` sequences: the full
/// cross product in ascending lexicographic order, so the item at position k
/// is (k / n2, k % n2).
pub fn cross_pairs(n1: usize, n2: usize) -> (r: Vec<(usize, usize)>)
    ensures
        r@.len() == n1 * n2,
        forall|k: int| 0 <= k < r@.len() ==> (#[trigger] r@[k]).0 < n1 && r@[k].1 < n2,
        forall|k: int| 0 <= k < r@.len() ==> r@[k] == ((k / n2 as int) as usize, (k % n2 as int) as usize),
        forall|i: int, j: int|
            0 <= i < n1 && 0 <= j < n2 ==> #[trigger] r@.contains((i as usize, j as usize)),
        forall|k: int, l: int| 0 <= k < l < r@.len() ==> pair_lex_lt(r@[k], r@[l]),
{
    let mut r: Vec<(usize, usize)> = Vec::new();
    let mut i: usize = 0;
    while i < n1
        invariant
            i <= n1,
            r@.len() == i * n2,
            forall|k: int| 0 <= k < r@.len() ==> (#[trigger] r@[k]).0 < i && r@[k].1 < n2,
            forall|k: int|
                0 <= k < r@.len() ==> r@[k] == (
                    (k / n2 as int) as usize,
                    (k % n2 as int) as usize,
                ),
            forall|p: int, q: int|
                0 <= p < i && 0 <= q < n2 ==> #[trigger] r@.contains((p as usize, q as usize)),
            forall|k: int, l: int| 0 <= k < l < r@.len() ==> pair_lex_lt(r@[k], r@[l]),
        decreases n1 - i,
    {
        let mut j: usize = 0;
        while j < n2
            invariant
                i < n1,
                j <= n2,
                r@.len() == i * n2 + j,
                forall|k: int|
                    0 <= k < r@.len() ==> (#[trigger] r@[k]).0 < i || (r@[k].0 == i && r@[k].1 < j),
                forall|k: int| 0 <= k < r@.len() ==> (#[trigger] r@[k]).1 < n2,
                forall|k: int|
                    0 <= k < r@.len() ==> r@[k] == (
                        (k / n2 as int) as usize,
                        (k % n2 as int) as usize,
                    ),
                forall|p: int, q: int|
                    0 <= p < i && 0 <= q < n2 ==> #[trigger] r@.contains((p as usize, q as usize)),
                forall|q: int| 0 <= q < j ==> #[trigger] r@.contains((i as usize, q as usize)),
                forall|k: int, l: int| 0 <= k < l < r@.len() ==> pair_lex_lt(r@[k], r@[l]),
            decreases n2 - j,
        {
            let ghost r0: Seq<(usize, usize)> = r@;
            r.push((i, j));
            proof {
                lemma_push_keeps_pairs(r0, (i, j));
                assert((i * n2 + j) / n2 as int == i as int && (i * n2 + j) % n2 as int
                    == j as int) by (nonlinear_arith)
                    requires
                        0 <= j < n2,
                        0 <= i,
                ;
            }
            j = j + 1;
        }
        i = i + 1;
        proof {
            assert(i * n2 == (i - 1) * n2 + n2) by (nonlinear_arith);
        }
    }
    r
}

/// Pushing an element keeps every pair the sequence already contains.
proof fn lemma_push_keeps_pairs(s: Seq<(usize, usize)>, p: (usize, usize))
    ensures
        forall|x: (usize, usize)| s.contains(x) ==> #[trigger] s.push(p).contains(x),
        s.push(p).contains(p),
{
    assert forall|x: (usize, usize)| s.contains(x) implies #[trigger] s.push(p).contains(x) by {
        let m = choose|m: int| 0 <= m < s.len() && s[m] == x;
        assert(s.push(p)[m] == x);
    }
    assert(s.push(p)[s.len() as int] == p);
}

} // verus!
