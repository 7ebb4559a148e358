//! Dense distance matrices. The grid itself is ndarray's two-dimensional
//! array; everything the crate knows about a grid's contents is stated by
//! the trusted wrappers below over the names `mat_elems` (the rows) and
//! `mat_width` (the column count). The assemblers and the end-to-end
//! `distance_matrix` are verified against those contracts.

use crate::distance::{lemma_hamming_symmetric, lemma_self_distance_zero, spec_hamming};
use crate::executor::{compute_distances, opt_seqs_view, pair_in_range, spec_pair_distance};
use crate::plan::{cross_pairs, pair_lex_lt, triangle_pairs};
use vstd::prelude::*;

verus! {

/// A dense grid of distances, backed by ndarray's two-dimensional array.
/// Verus sees nothing inside a value of it: everything the crate knows about
/// a grid is what the trusted wrappers below state over `mat_elems` and
/// `mat_width`.
#[verifier::external_body]
pub struct Matrix {
    grid: ndarray::Array2<u64>,
}

/// The rows of a grid, top to bottom, each left to right.
pub uninterp spec fn mat_elems(m: Matrix) -> Seq<Seq<u64>>;

/// The column count of a grid; in particular the width a grid with no rows
/// was made with.
pub uninterp spec fn mat_width(m: Matrix) -> nat;

/// Every row is exactly as long as the grid is wide.
pub open spec fn mat_wf(m: Matrix) -> bool {
    forall|k: int| 0 <= k < mat_elems(m).len() ==> (#[trigger] mat_elems(m)[k]).len() == mat_width(
        m,
    )
}

/// Relies on ndarray::Array2::zeros: an all-zero array of the given shape.
/// ndarray panics when the element count overflows isize, so the byte size
/// is bounded by requires.
#[verifier::external_body]
pub fn mat_zeros(rows: usize, cols: usize) -> (m: Matrix)
    requires
        rows * cols * 8 <= isize::MAX,
    ensures
        mat_elems(m).len() == rows,
        mat_width(m) == cols,
        mat_wf(m),
        forall|a: int, b: int| 0 <= a < rows && 0 <= b < cols ==> mat_elems(m)[a][b] == 0,
{
    Matrix { grid: ndarray::Array2::zeros((rows, cols)) }
}

/// Relies on ndarray's indexing (`m[[i, j]]`): the element at row i,
/// column j.
#[verifier::external_body]
pub fn mat_get(m: &Matrix, i: usize, j: usize) -> (r: u64)
    requires
        i < mat_elems(*m).len(),
        j < mat_elems(*m)[i as int].len(),
    ensures
        r == mat_elems(*m)[i as int][j as int],
{
    m.grid[[i, j]]
}

/// Relies on ndarray's mutable indexing: writes the element at row i,
/// column j, leaving the rest of the array as it was.
#[verifier::external_body]
pub fn mat_set(m: &mut Matrix, i: usize, j: usize, v: u64)
    requires
        i < mat_elems(*old(m)).len(),
        j < mat_elems(*old(m))[i as int].len(),
    ensures
        mat_elems(*final(m)) == mat_elems(*old(m)).update(
            i as int,
            mat_elems(*old(m))[i as int].update(j as int, v),
        ),
        mat_width(*final(m)) == mat_width(*old(m)),
{
    m.grid[[i, j]] = v;
}

/// Relies on ndarray::Array2::from_shape_vec: a row-major reshape of a flat
/// vector whose length matches the shape, which its source then accepts.
#[verifier::external_body]
pub fn mat_from_row_major(rows: usize, cols: usize, v: Vec<u64>) -> (m: Matrix)
    requires
        v@.len() == rows * cols,
    ensures
        mat_elems(m).len() == rows,
        mat_width(m) == cols,
        mat_wf(m),
        forall|a: int, b: int|
            0 <= a < rows && 0 <= b < cols ==> mat_elems(m)[a][b] == v@[a * (cols as int) + b],
{
    match ndarray::Array2::from_shape_vec((rows, cols), v) {
        Ok(grid) => Matrix { grid },
        Err(_) => Matrix { grid: ndarray::Array2::zeros((0, 0)) },
    }
}

/// Relies on ndarray's t() view and to_owned: the transposed array, owned.
#[verifier::external_body]
pub fn mat_transposed(m: &Matrix) -> (r: Matrix)
    requires
        mat_wf(*m),
    ensures
        mat_elems(r).len() == mat_width(*m),
        mat_width(r) == mat_elems(*m).len(),
        mat_wf(r),
        forall|a: int, b: int|
            0 <= a < mat_width(*m) && 0 <= b < mat_elems(*m).len() ==> mat_elems(r)[a][b]
                == mat_elems(*m)[b][a],
{
    Matrix { grid: m.grid.t().to_owned() }
}

/// The work item `p` addresses the cell (a, b), directly or mirrored.
pub open spec fn covers(p: (usize, usize), a: int, b: int) -> bool {
    (p.0 == a && p.1 == b) || (p.0 == b && p.1 == a)
}

/// Place each distance at its work item's cell and at the mirrored cell: an
/// n-by-n grid holding `dists[k]` at both cells of `pairs[k]` and zero in
/// every cell no work item addresses.
pub fn assemble_symmetric(n: usize, pairs: &Vec<(usize, usize)>, dists: &Vec<u64>) -> (m:
    Matrix)
    requires
        n * n * 8 <= isize::MAX,
        dists@.len() == pairs@.len(),
        forall|k: int| 0 <= k < pairs@.len() ==> (#[trigger] pairs@[k]).0 <= pairs@[k].1 < n,
        forall|k: int, l: int| 0 <= k < l < pairs@.len() ==> pairs@[k] != pairs@[l],
    ensures
        mat_elems(m).len() == n,
        mat_width(m) == n,
        mat_wf(m),
        forall|k: int|
            0 <= k < pairs@.len() ==> {
                &&& mat_elems(m)[(#[trigger] pairs@[k]).0 as int][pairs@[k].1 as int] == dists@[k]
                &&& mat_elems(m)[pairs@[k].1 as int][pairs@[k].0 as int] == dists@[k]
            },
        forall|a: int, b: int|
            #![trigger mat_elems(m)[a][b]]
            0 <= a < n && 0 <= b < n && (forall|k: int|
                0 <= k < pairs@.len() ==> !covers(#[trigger] pairs@[k], a, b)) ==> mat_elems(
                m,
            )[a][b] == 0,
{
    let mut m = mat_zeros(n, n);
    let mut t: usize = 0;
    while t < pairs.len()
        invariant
            mat_elems(m).len() == n,
            mat_width(m) == n,
            mat_wf(m),
            t <= pairs@.len(),
            dists@.len() == pairs@.len(),
            forall|k: int| 0 <= k < pairs@.len() ==> (#[trigger] pairs@[k]).0 <= pairs@[k].1 < n,
            forall|k: int, l: int| 0 <= k < l < pairs@.len() ==> pairs@[k] != pairs@[l],
            forall|k: int|
                0 <= k < t ==> {
                    &&& mat_elems(m)[(#[trigger] pairs@[k]).0 as int][pairs@[k].1 as int]
                        == dists@[k]
                    &&& mat_elems(m)[pairs@[k].1 as int][pairs@[k].0 as int] == dists@[k]
                },
            forall|a: int, b: int|
                #![trigger mat_elems(m)[a][b]]
                0 <= a < n && 0 <= b < n && (forall|k: int|
                    0 <= k < t ==> !covers(#[trigger] pairs@[k], a, b)) ==> mat_elems(m)[a][b] == 0,
        decreases pairs@.len() - t,
    {
        let ghost m0 = mat_elems(m);
        let (i, j) = pairs[t];
        let d = dists[t];
        mat_set(&mut m, i, j, d);
        if i != j {
            mat_set(&mut m, j, i, d);
        }
        proof {
            let mn = mat_elems(m);
            assert forall|k: int| 0 <= k < t + 1 implies {
                &&& mn[(#[trigger] pairs@[k]).0 as int][pairs@[k].1 as int] == dists@[k]
                &&& mn[pairs@[k].1 as int][pairs@[k].0 as int] == dists@[k]
            } by {
                if k < t {
                    assert(pairs@[k] != pairs@[t as int]);
                    assert(m0[pairs@[k].0 as int][pairs@[k].1 as int] == dists@[k]);
                    assert(m0[pairs@[k].1 as int][pairs@[k].0 as int] == dists@[k]);
                }
            }
            assert forall|a: int, b: int|
                0 <= a < n && 0 <= b < n && (forall|k: int|
                    0 <= k < t + 1 ==> !covers(#[trigger] pairs@[k], a, b)) implies #[trigger] mat_elems(
                m,
            )[a][b] == 0 by {
                assert(!covers(pairs@[t as int], a, b));
                assert(forall|k: int| 0 <= k < t ==> !covers(#[trigger] pairs@[k], a, b));
                assert(m0[a][b] == 0);
            }
        }
        t = t + 1;
    }
    m
}

/// Reshape the flat cross-product distance list into an n1-by-n2 grid and
/// transpose it, so that rows follow the secondary alignment and columns the
/// primary one.
pub fn assemble_cross(n1: usize, n2: usize, dists: Vec<u64>) -> (m: Matrix)
    requires
        dists@.len() == n1 * n2,
    ensures
        mat_elems(m).len() == n2,
        mat_width(m) == n1,
        mat_wf(m),
        forall|a: int, b: int|
            0 <= a < n1 && 0 <= b < n2 ==> mat_elems(m)[b][a] == dists@[a * (n2 as int) + b],
{
    let ghost dv = dists@;
    let grid = mat_from_row_major(n1, n2, dists);
    let m = mat_transposed(&grid);
    proof {
        assert forall|a: int, b: int| 0 <= a < n1 && 0 <= b < n2 implies mat_elems(m)[b][a] == dv[a
            * (n2 as int) + b] by {
            assert(mat_elems(grid)[a][b] == dv[a * (n2 as int) + b]);
            assert(mat_elems(m)[b][a] == mat_elems(grid)[a][b]);
        }
    }
    m
}

/// Law: a grid of pairwise Hamming distances over one alignment is symmetric
/// and has a zero diagonal.
pub proof fn lemma_matrix_symmetric(m: Seq<Seq<u64>>, seqs: Seq<Vec<u8>>)
    requires
        m.len() == seqs.len(),
        forall|a: int, b: int|
            #![trigger m[a][b]]
            0 <= a < seqs.len() && 0 <= b < seqs.len() ==> m[a][b] == spec_hamming(
                seqs[a]@,
                seqs[b]@,
            ),
    ensures
        forall|a: int, b: int| #![trigger m[a][b]] 0 <= a < m.len() && 0 <= b < m.len() ==> m[a][b]
            == m[b][a],
        forall|a: int| 0 <= a < m.len() ==> #[trigger] m[a][a] == 0,
{
    assert forall|a: int, b: int| #![trigger m[a][b]] 0 <= a < m.len() && 0 <= b < m.len() implies
    m[a][b] == m[b][a] by {
        lemma_hamming_symmetric(seqs[a]@, seqs[b]@);
    }
    assert forall|a: int| 0 <= a < m.len() implies #[trigger] m[a][a] == 0 by {
        lemma_self_distance_zero(seqs[a]@);
    }
}

/// Every sequence of the primary alignment, of the secondary when one is
/// present, and across the two, has one and the same length.
pub open spec fn uniform_lengths(seqs1: Seq<Vec<u8>>, seqs2: Option<Seq<Vec<u8>>>) -> bool {
    &&& forall|k: int, l: int|
        #![trigger seqs1[k]@.len(), seqs1[l]@.len()]
        0 <= k < seqs1.len() && 0 <= l < seqs1.len() ==> seqs1[k]@.len() == seqs1[l]@.len()
    &&& match seqs2 {
        Some(s2) => {
            &&& forall|k: int, l: int|
                #![trigger s2[k]@.len(), s2[l]@.len()]
                0 <= k < s2.len() && 0 <= l < s2.len() ==> s2[k]@.len() == s2[l]@.len()
            &&& forall|k: int, l: int|
                #![trigger seqs1[k]@.len(), s2[l]@.len()]
                0 <= k < seqs1.len() && 0 <= l < s2.len() ==> seqs1[k]@.len() == s2[l]@.len()
        },
        None => true,
    }
}

/// The whole engine in one call: plan the work items for the mode, compute
/// every distance, and assemble the grid. With one alignment of n sequences
/// the result is the symmetric n-by-n matrix of pairwise distances; with a
/// secondary alignment of m sequences it is the m-by-n matrix whose rows
/// follow the secondary alignment and whose columns follow the primary one.
pub fn distance_matrix(seqs1: &Vec<Vec<u8>>, seqs2: Option<&Vec<Vec<u8>>>) -> (m:
    Matrix)
    requires
        uniform_lengths(seqs1@, opt_seqs_view(seqs2)),
        opt_seqs_view(seqs2) is None ==> seqs1@.len() * seqs1@.len() * 8 <= isize::MAX,
    ensures
        mat_wf(m),
        match opt_seqs_view(seqs2) {
            None => {
                &&& mat_elems(m).len() == seqs1@.len()
                &&& mat_width(m) == seqs1@.len()
                &&& forall|a: int, b: int|
                    #![trigger mat_elems(m)[a][b]]
                    0 <= a < seqs1@.len() && 0 <= b < seqs1@.len() ==> mat_elems(m)[a][b]
                        == spec_hamming(seqs1@[a]@, seqs1@[b]@)
            },
            Some(s2) => {
                &&& mat_elems(m).len() == s2.len()
                &&& mat_width(m) == seqs1@.len()
                &&& forall|a: int, b: int|
                    #![trigger mat_elems(m)[b][a]]
                    0 <= a < seqs1@.len() && 0 <= b < s2.len() ==> mat_elems(m)[b][a]
                        == spec_hamming(seqs1@[a]@, s2[b]@)
            },
        },
{
    match seqs2 {
        None => {
            let n = seqs1.len();
            let pairs = triangle_pairs(n);
            proof {
                assert forall|k: int|
                    0 <= k < pairs@.len() implies pair_in_range(
                    seqs1@,
                    opt_seqs_view(None),
                    #[trigger] pairs@[k],
                ) by {
                    assert(seqs1@[pairs@[k].0 as int]@.len() == seqs1@[pairs@[k].1 as int]@.len());
                }
                assert forall|k: int, l: int|
                    0 <= k < l < pairs@.len() implies pairs@[k] != pairs@[l] by {
                    assert(pair_lex_lt(pairs@[k], pairs@[l]));
                }
            }
            let dists = compute_distances(seqs1, None, &pairs);
            let m = assemble_symmetric(n, &pairs, &dists);
            proof {
                assert forall|a: int, b: int|
                    #![trigger mat_elems(m)[a][b]]
                    0 <= a < seqs1@.len() && 0 <= b < seqs1@.len() implies mat_elems(m)[a][b]
                    == spec_hamming(seqs1@[a]@, seqs1@[b]@) by {
                    let lo: int = if a <= b {
                        a
                    } else {
                        b
                    };
                    let hi: int = if a <= b {
                        b
                    } else {
                        a
                    };
                    assert(pairs@.contains((lo as usize, hi as usize)));
                    let k = choose|k: int|
                        0 <= k < pairs@.len() && pairs@[k] == (lo as usize, hi as usize);
                    assert(dists@[k] == spec_pair_distance(seqs1@, opt_seqs_view(None), lo, hi));
                    assert(mat_elems(m)[lo][hi] == dists@[k] && mat_elems(m)[hi][lo] == dists@[k]);
                    if lo == hi {
                        lemma_self_distance_zero(seqs1@[a]@);
                    } else if a > b {
                        lemma_hamming_symmetric(seqs1@[lo]@, seqs1@[hi]@);
                    }
                }
            }
            m
        },
        Some(s2) => {
            let n1 = seqs1.len();
            let n2 = s2.len();
            let pairs = cross_pairs(n1, n2);
            proof {
                assert(opt_seqs_view(seqs2) == Some(s2@));
                assert(uniform_lengths(seqs1@, Some(s2@)));
                assert forall|k: int|
                    0 <= k < pairs@.len() implies pair_in_range(
                    seqs1@,
                    opt_seqs_view(seqs2),
                    #[trigger] pairs@[k],
                ) by {
                    assert(seqs1@[pairs@[k].0 as int]@.len() == s2@[pairs@[k].1 as int]@.len());
                }
            }
            let dists = compute_distances(seqs1, seqs2, &pairs);
            let m = assemble_cross(n1, n2, dists);
            proof {
                let ghost pv = pairs@;
                assert forall|a: int, b: int|
                    #![trigger mat_elems(m)[b][a]]
                    0 <= a < seqs1@.len() && 0 <= b < s2@.len() implies mat_elems(m)[b][a]
                    == spec_hamming(seqs1@[a]@, s2@[b]@) by {
                    let k: int = a * (n2 as int) + b;
                    assert(0 <= k < pv.len() && k / (n2 as int) == a && k % (n2 as int) == b)
                        by (nonlinear_arith)
                        requires
                            0 <= a < n1,
                            0 <= b < n2,
                            pv.len() == n1 * n2,
                            k == a * (n2 as int) + b,
                    ;
                    assert(pv[k] == (a as usize, b as usize));
                    assert(mat_elems(m)[b][a] == dists@[k]);
                }
            }
            m
        },
    }
}

} // verus!
