//! Index sorting: a stable argsort over any ordered element type, and the
//! application of an index permutation to a vector. The permutation is
//! applied by gathering into a fresh vector rather than by in-place
//! cycle-following swaps.

use core::cmp::Ordering;
use vstd::laws_cmp::obeys_cmp;
use vstd::prelude::*;
use vstd::std_specs::cmp::OrdSpec;
use vstd::std_specs::cmp::PartialEqSpec;
use vstd::std_specs::cmp::PartialOrdSpec;

verus! {

/// Positions `a` and `b` of `s` stand in argsort order: the element at `a`
/// compares below the element at `b`, or the two compare equal and `a` comes
/// first (the tie-break that makes the sort stable).
pub open spec fn idx_ordered<T: Ord>(s: Seq<T>, a: int, b: int) -> bool {
    match s[a].cmp_spec(&s[b]) {
        Ordering::Less => true,
        Ordering::Equal => a < b,
        Ordering::Greater => false,
    }
}

/// `r` holds indices below `n`, each at most once, and holds `n` of them:
/// exactly the indices `0` to `n - 1` in some order.
pub open spec fn is_index_permutation(r: Seq<usize>, n: nat) -> bool {
    &&& r.len() == n
    &&& (forall|k: int| 0 <= k < r.len() ==> r[k] < n)
    &&& r.no_duplicates()
}

/// When the element type's comparison obeys its specification, argsort order
/// between two distinct positions runs in exactly one direction.
proof fn lemma_idx_ordered_antisymmetric<T: Ord>(s: Seq<T>, a: int, b: int)
    requires
        obeys_cmp::<T>(),
        0 <= a < s.len(),
        0 <= b < s.len(),
        a != b,
    ensures
        idx_ordered(s, a, b) <==> !idx_ordered(s, b, a),
{
    reveal(vstd::laws_cmp::obeys_cmp_ord);
    reveal(vstd::laws_cmp::obeys_cmp_partial_ord);
    reveal(vstd::laws_cmp::obeys_partial_cmp_spec_properties);
    reveal(vstd::laws_eq::obeys_eq_spec_properties);
    let ab = s[a].cmp_spec(&s[b]);
    let ba = s[b].cmp_spec(&s[a]);
    assert(s[a].partial_cmp_spec(&s[b]) == Some(ab));
    assert(s[b].partial_cmp_spec(&s[a]) == Some(ba));
    if ab == Ordering::Equal {
        assert(s[a].eq_spec(&s[b]));
        assert(s[b].eq_spec(&s[a]));
        assert(ba == Ordering::Equal);
    } else if ab == Ordering::Less {
        assert(ba == Ordering::Greater);
    } else {
        assert(ba == Ordering::Less);
    }
}

/// Whether positions `a` and `b` of `v` stand in argsort order.
fn key_ordered<T: Ord>(v: &Vec<T>, a: usize, b: usize) -> (r: bool)
    requires
        a < v@.len(),
        b < v@.len(),
    ensures
        obeys_cmp::<T>() ==> r == idx_ordered(v@, a as int, b as int),
{
    proof {
        reveal(vstd::laws_cmp::obeys_cmp_ord);
    }
    match v[a].cmp(&v[b]) {
        Ordering::Less => true,
        Ordering::Equal => a < b,
        Ordering::Greater => false,
    }
}

/// The indices `0` to `v.len() - 1` reordered so that they walk `v` in
/// ascending element order; equal elements keep their original relative
/// order. The ordering guarantee is stated under `obeys_cmp`, which holds of
/// the primitive integer types among others; the permutation guarantee holds
/// of every element type.
pub fn argsort<T: Ord>(v: &Vec<T>) -> (r: Vec<usize>)
    ensures
        is_index_permutation(r@, v@.len()),
        obeys_cmp::<T>() ==> forall|k: int|
            0 <= k < r@.len() - 1 ==> #[trigger] idx_ordered(v@, r@[k] as int, r@[k + 1] as int),
{
    let mut r: Vec<usize> = Vec::new();
    let mut i: usize = 0;
    while i < v.len()
        invariant
            i <= v@.len(),
            r@.len() == i,
            forall|k: int| 0 <= k < r@.len() ==> r@[k] < i,
            r@.no_duplicates(),
            obeys_cmp::<T>() ==> forall|k: int|
                0 <= k < r@.len() - 1 ==> #[trigger] idx_ordered(
                    v@,
                    r@[k] as int,
                    r@[k + 1] as int,
                ),
        decreases v@.len() - i,
    {
        let ghost r0: Seq<usize> = r@;
        let mut pos: usize = r.len();
        while pos > 0 && key_ordered(v, i, r[pos - 1])
            invariant
                pos <= r@.len(),
                r@ == r0,
                i < v@.len(),
                r@.len() == i,
                forall|k: int| 0 <= k < r@.len() ==> r@[k] < i,
                r@.no_duplicates(),
                obeys_cmp::<T>() ==> forall|k: int|
                    0 <= k < r@.len() - 1 ==> #[trigger] idx_ordered(
                        v@,
                        r@[k] as int,
                        r@[k + 1] as int,
                    ),
                obeys_cmp::<T>() && pos < r@.len() ==> idx_ordered(
                    v@,
                    i as int,
                    r@[pos as int] as int,
                ),
            decreases pos,
        {
            pos = pos - 1;
        }
        proof {
            if obeys_cmp::<T>() && pos > 0 {
                lemma_idx_ordered_antisymmetric(v@, i as int, r@[pos - 1] as int);
                assert(!idx_ordered(v@, i as int, r@[pos - 1] as int));
                assert(idx_ordered(v@, r@[pos - 1] as int, i as int));
            }
        }
        r.insert(pos, i);
        proof {
            let rn = r@;
            assert(rn =~= r0.insert(pos as int, i));
            assert(forall|k: int| 0 <= k < rn.len() ==> rn[k] < i + 1);
            assert(rn.no_duplicates());
            if obeys_cmp::<T>() {
                assert forall|k: int| 0 <= k < rn.len() - 1 implies #[trigger] idx_ordered(
                    v@,
                    rn[k] as int,
                    rn[k + 1] as int,
                ) by {
                    if k + 1 < pos {
                        assert(rn[k] == r0[k] && rn[k + 1] == r0[k + 1]);
                        assert(idx_ordered(v@, r0[k] as int, r0[k + 1] as int));
                    } else if k + 1 == pos {
                        assert(rn[k] == r0[k] && rn[k + 1] == i);
                        assert(idx_ordered(v@, r0[pos - 1] as int, i as int));
                    } else if k == pos {
                        assert(rn[k] == i && rn[k + 1] == r0[k]);
                        assert(idx_ordered(v@, i as int, r0[pos as int] as int));
                    } else {
                        let j = k - 1;
                        assert(rn[k] == r0[j] && rn[k + 1] == r0[j + 1]);
                        assert(idx_ordered(v@, r0[j] as int, r0[j + 1] as int));
                    }
                }
            }
        }
        i = i + 1;
    }
    r
}

/// Reorder `v` so that its `k`-th element becomes a clone of the element
/// that stood at `indices[k]`: an explicit, total application of an index
/// permutation. The index vector is left unchanged.
pub fn sort_by_indices<T: Clone>(v: &mut Vec<T>, indices: &mut Vec<usize>)
    requires
        old(indices)@.len() == old(v)@.len(),
        forall|k: int| 0 <= k < old(indices)@.len() ==> old(indices)@[k] < old(v)@.len(),
        old(indices)@.no_duplicates(),
    ensures
        final(v)@.len() == old(v)@.len(),
        forall|k: int|
            0 <= k < final(v)@.len() ==> cloned::<T>(
                old(v)@[old(indices)@[k] as int],
                final(v)@[k],
            ),
        final(indices)@ == old(indices)@,
{
    let ghost orig: Seq<T> = v@;
    let mut out: Vec<T> = Vec::new();
    let mut k: usize = 0;
    while k < indices.len()
        invariant
            k <= indices@.len(),
            indices@.len() == orig.len(),
            v@ == orig,
            forall|j: int| 0 <= j < indices@.len() ==> indices@[j] < orig.len(),
            out@.len() == k,
            forall|j: int| 0 <= j < k ==> cloned::<T>(orig[indices@[j] as int], out@[j]),
        decreases indices@.len() - k,
    {
        let idx = indices[k];
        out.push(v[idx].clone());
        k = k + 1;
    }
    *v = out;
}

/// Strict lexicographic order on byte sequences.
pub open spec fn lex_lt(a: Seq<u8>, b: Seq<u8>) -> bool
    decreases a.len(),
{
    if b.len() == 0 {
        false
    } else if a.len() == 0 {
        true
    } else if a[0] < b[0] {
        true
    } else if a[0] > b[0] {
        false
    } else {
        lex_lt(a.drop_first(), b.drop_first())
    }
}

/// Dropping an equal prefix from both sequences leaves their order as it
/// was.
proof fn lemma_lex_skip(a: Seq<u8>, b: Seq<u8>, i: int)
    requires
        0 <= i <= a.len(),
        i <= b.len(),
        forall|k: int| 0 <= k < i ==> a[k] == b[k],
    ensures
        lex_lt(a, b) == lex_lt(a.skip(i), b.skip(i)),
    decreases i,
{
    if i > 0 {
        assert(a.skip(0) =~= a);
        assert(b.skip(0) =~= b);
        assert(a.len() > 0 && b.len() > 0 && a[0] == b[0]);
        assert(lex_lt(a, b) == lex_lt(a.drop_first(), b.drop_first()));
        assert(a.drop_first() =~= a.skip(1));
        assert(b.drop_first() =~= b.skip(1));
        lemma_lex_skip(a.skip(1), b.skip(1), i - 1);
        assert(a.skip(1).skip(i - 1) =~= a.skip(i));
        assert(b.skip(1).skip(i - 1) =~= b.skip(i));
    } else {
        assert(a.skip(0) =~= a);
        assert(b.skip(0) =~= b);
    }
}

/// Two byte sequences that neither order strictly are equal.
proof fn lemma_lex_connected(a: Seq<u8>, b: Seq<u8>)
    requires
        !lex_lt(a, b),
        !lex_lt(b, a),
    ensures
        a == b,
    decreases a.len(),
{
    if a.len() == 0 || b.len() == 0 {
        if a.len() == 0 && b.len() > 0 {
            assert(lex_lt(a, b));
        }
        if b.len() == 0 && a.len() > 0 {
            assert(lex_lt(b, a));
        }
        assert(a =~= b);
    } else {
        assert(a[0] == b[0]);
        lemma_lex_connected(a.drop_first(), b.drop_first());
        assert forall|k: int| 0 <= k < a.len() implies a[k] == b[k] by {
            if k > 0 {
                assert(a.drop_first()[k - 1] == b.drop_first()[k - 1]);
            }
        }
        assert(a =~= b);
    }
}

/// Whether `a` comes strictly before `b` in lexicographic byte order.
pub fn lex_less(a: &Vec<u8>, b: &Vec<u8>) -> (r: bool)
    ensures
        r == lex_lt(a@, b@),
{
    let mut i: usize = 0;
    while i < a.len() && i < b.len()
        invariant
            i <= a@.len(),
            i <= b@.len(),
            forall|k: int| 0 <= k < i ==> a@[k] == b@[k],
        decreases a@.len() - i,
    {
        let x = a[i];
        let y = b[i];
        if x < y {
            proof {
                lemma_lex_skip(a@, b@, i as int);
            }
            return true;
        }
        if x > y {
            proof {
                lemma_lex_skip(a@, b@, i as int);
            }
            return false;
        }
        i = i + 1;
    }
    proof {
        lemma_lex_skip(a@, b@, i as int);
    }
    a.len() < b.len()
}

/// Positions `a` and `b` of `names` stand in sorted order: the name at `a`
/// is lexicographically below the name at `b`, or the two names are equal
/// and `a` comes first.
pub open spec fn name_ordered(names: Seq<Vec<u8>>, a: int, b: int) -> bool {
    lex_lt(names[a]@, names[b]@) || (names[a]@ == names[b]@ && a < b)
}


/// Lexicographic order on byte sequences is transitive.
proof fn lemma_lex_transitive(a: Seq<u8>, b: Seq<u8>, c: Seq<u8>)
    requires
        lex_lt(a, b),
        lex_lt(b, c),
    ensures
        lex_lt(a, c),
    decreases a.len(),
{
    if a.len() == 0 {
    } else {
        assert(b.len() > 0 && c.len() > 0);
        if a[0] == b[0] && b[0] == c[0] {
            lemma_lex_transitive(a.drop_first(), b.drop_first(), c.drop_first());
        }
    }
}

/// Sorted order between name positions is transitive.
proof fn lemma_name_ordered_transitive(names: Seq<Vec<u8>>, a: int, b: int, c: int)
    requires
        0 <= a < names.len(),
        0 <= b < names.len(),
        0 <= c < names.len(),
        name_ordered(names, a, b),
        name_ordered(names, b, c),
    ensures
        name_ordered(names, a, c),
{
    if lex_lt(names[a]@, names[b]@) && lex_lt(names[b]@, names[c]@) {
        lemma_lex_transitive(names[a]@, names[b]@, names[c]@);
    }
}

/// A chain of adjacent sorted positions orders every pair of positions.
proof fn lemma_name_ordered_chain(names: Seq<Vec<u8>>, r: Seq<usize>, k: int, l: int)
    requires
        forall|x: int| 0 <= x < r.len() ==> r[x] < names.len(),
        forall|x: int|
            0 <= x < r.len() - 1 ==> #[trigger] name_ordered(names, r[x] as int, r[x + 1] as int),
        0 <= k < l < r.len(),
    ensures
        name_ordered(names, r[k] as int, r[l] as int),
    decreases l - k,
{
    if k + 1 == l {
        assert(name_ordered(names, r[k] as int, r[k + 1] as int));
    } else {
        lemma_name_ordered_chain(names, r, k, l - 1);
        let j = l - 1;
        assert(name_ordered(names, r[j] as int, r[j + 1] as int));
        lemma_name_ordered_transitive(names, r[k] as int, r[l - 1] as int, r[l] as int);
    }
}

/// The indices `0` to `names.len() - 1` reordered so that they walk the
/// names in ascending lexicographic order; equal names keep their original
/// relative order.
pub fn lex_argsort(names: &Vec<Vec<u8>>) -> (r: Vec<usize>)
    ensures
        is_index_permutation(r@, names@.len()),
        forall|k: int, l: int|
            0 <= k < l < r@.len() ==> #[trigger] name_ordered(names@, r@[k] as int, r@[l] as int),
{
    let mut r: Vec<usize> = Vec::new();
    let mut i: usize = 0;
    while i < names.len()
        invariant
            i <= names@.len(),
            r@.len() == i,
            forall|k: int| 0 <= k < r@.len() ==> r@[k] < i,
            r@.no_duplicates(),
            forall|k: int|
                0 <= k < r@.len() - 1 ==> #[trigger] name_ordered(
                    names@,
                    r@[k] as int,
                    r@[k + 1] as int,
                ),
        decreases names@.len() - i,
    {
        let ghost r0: Seq<usize> = r@;
        let mut pos: usize = r.len();
        while pos > 0 && lex_less(&names[i], &names[r[pos - 1]])
            invariant
                pos <= r@.len(),
                r@ == r0,
                i < names@.len(),
                r@.len() == i,
                forall|k: int| 0 <= k < r@.len() ==> r@[k] < i,
                r@.no_duplicates(),
                forall|k: int|
                    0 <= k < r@.len() - 1 ==> #[trigger] name_ordered(
                        names@,
                        r@[k] as int,
                        r@[k + 1] as int,
                    ),
                pos < r@.len() ==> name_ordered(names@, i as int, r@[pos as int] as int),
            decreases pos,
        {
            pos = pos - 1;
        }
        proof {
            if pos > 0 {
                assert(!lex_lt(names@[i as int]@, names@[r@[pos - 1] as int]@));
                if !lex_lt(names@[r@[pos - 1] as int]@, names@[i as int]@) {
                    lemma_lex_connected(names@[r@[pos - 1] as int]@, names@[i as int]@);
                }
                assert(name_ordered(names@, r@[pos - 1] as int, i as int));
            }
        }
        r.insert(pos, i);
        proof {
            let rn = r@;
            assert(rn =~= r0.insert(pos as int, i));
            assert(forall|k: int| 0 <= k < rn.len() ==> rn[k] < i + 1);
            assert(rn.no_duplicates());
            assert forall|k: int| 0 <= k < rn.len() - 1 implies #[trigger] name_ordered(
                names@,
                rn[k] as int,
                rn[k + 1] as int,
            ) by {
                if k + 1 < pos {
                    assert(rn[k] == r0[k] && rn[k + 1] == r0[k + 1]);
                    assert(name_ordered(names@, r0[k] as int, r0[k + 1] as int));
                } else if k + 1 == pos {
                    assert(rn[k] == r0[k] && rn[k + 1] == i);
                    assert(name_ordered(names@, r0[pos - 1] as int, i as int));
                } else if k == pos {
                    assert(rn[k] == i && rn[k + 1] == r0[k]);
                    assert(name_ordered(names@, i as int, r0[pos as int] as int));
                } else {
                    let j = k - 1;
                    assert(rn[k] == r0[j] && rn[k + 1] == r0[j + 1]);
                    assert(name_ordered(names@, r0[j] as int, r0[j + 1] as int));
                }
            }
        }
        i = i + 1;
    }
    proof {
        assert forall|k: int, l: int| 0 <= k < l < r@.len() implies #[trigger] name_ordered(
            names@,
            r@[k] as int,
            r@[l] as int,
        ) by {
            lemma_name_ordered_chain(names@, r@, k, l);
        }
    }
    r
}

/// A byte-for-byte copy of a byte vector.
pub fn clone_bytes(v: &Vec<u8>) -> (r: Vec<u8>)
    ensures
        r@ == v@,
{
    let mut r: Vec<u8> = Vec::new();
    let mut i: usize = 0;
    while i < v.len()
        invariant
            i <= v@.len(),
            r@ == v@.take(i as int),
        decreases v@.len() - i,
    {
        r.push(v[i]);
        proof {
            assert(v@.take(i + 1 as int) =~= v@.take(i as int).push(v@[i as int]));
        }
        i = i + 1;
    }
    proof {
        assert(v@.take(v@.len() as int) =~= v@);
    }
    r
}

/// The byte vectors of `v` gathered in the order `idx` gives: position k of
/// the result copies `v[idx[k]]`.
pub fn apply_indices_bytes(v: &Vec<Vec<u8>>, idx: &Vec<usize>) -> (r: Vec<Vec<u8>>)
    requires
        forall|k: int| 0 <= k < idx@.len() ==> idx@[k] < v@.len(),
    ensures
        r@.len() == idx@.len(),
        forall|k: int| #![auto] 0 <= k < idx@.len() ==> r@[k]@ == v@[idx@[k] as int]@,
{
    let mut r: Vec<Vec<u8>> = Vec::new();
    let mut k: usize = 0;
    while k < idx.len()
        invariant
            k <= idx@.len(),
            forall|j: int| 0 <= j < idx@.len() ==> idx@[j] < v@.len(),
            r@.len() == k,
            forall|j: int| #![auto] 0 <= j < k ==> r@[j]@ == v@[idx@[j] as int]@,
        decreases idx@.len() - k,
    {
        r.push(clone_bytes(&v[idx[k]]));
        k = k + 1;
    }
    r
}

} // verus!
