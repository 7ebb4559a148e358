//! Sequence normalization: optional ASCII case folding followed by the
//! replacement of every ignored byte with the [`IGNORE`] sentinel.

use crate::distance::IGNORE;
use std::collections::HashSet;
use vstd::prelude::*;
use vstd::string::StringSliceAdditionalSpecFns;

verus! {

broadcast use vstd::std_specs::hash::group_hash_axioms;

/// ASCII uppercase folding of one byte when case is ignored; the identity
/// otherwise. 97 through 122 are the ASCII lowercase letters, 32 below their
/// uppercase forms.
pub open spec fn fold_byte(case_sensitive: bool, b: u8) -> u8 {
    if !case_sensitive && 97 <= b <= 122 {
        (b - 32) as u8
    } else {
        b
    }
}

/// Normalization of one byte: fold its case, then replace it with the
/// sentinel when the folded byte is in the ignored set.
pub open spec fn norm_byte(case_sensitive: bool, ignored: Set<u8>, b: u8) -> u8 {
    let c = fold_byte(case_sensitive, b);
    if ignored.contains(c) {
        IGNORE
    } else {
        c
    }
}

/// Normalization of a whole sequence, byte by byte.
pub open spec fn norm_seq(case_sensitive: bool, ignored: Set<u8>, s: Seq<u8>) -> Seq<u8> {
    s.map_values(|b: u8| norm_byte(case_sensitive, ignored, b))
}

/// Options governing how raw sequences are normalized before comparison.
pub struct Transformer {
    /// Case matters - i.e., dist(a, A) = 1.
    pub case_sensitive: bool,
    /// Sort the alignment(s) by ID.
    pub sort: bool,
    /// Bytes to ignore: each is replaced by the sentinel after case folding.
    pub ignored_chars: HashSet<u8>,
}

impl Default for Transformer {
    /// Case-insensitive, unsorted, with nothing ignored.
    fn default() -> (r: Self)
        ensures
            !r.case_sensitive,
            !r.sort,
            r.ignored_chars@ == Set::<u8>::empty(),
    {
        Transformer { case_sensitive: false, sort: false, ignored_chars: HashSet::new() }
    }
}

impl Transformer {
    /// The normalization this transformer applies to a sequence.
    pub open spec fn spec_norm_seq(&self, s: Seq<u8>) -> Seq<u8> {
        norm_seq(self.case_sensitive, self.ignored_chars@, s)
    }

    /// Normalize a sequence in place.
    pub fn transform(&self, s: &mut Vec<u8>)
        ensures
            final(s)@ == self.spec_norm_seq(old(s)@),
    {
        let ghost orig: Seq<u8> = s@;
        let mut i: usize = 0;
        while i < s.len()
            invariant
                i <= s@.len(),
                s@.len() == orig.len(),
                forall|k: int|
                    0 <= k < i ==> s@[k] == norm_byte(
                        self.case_sensitive,
                        self.ignored_chars@,
                        orig[k],
                    ),
                forall|k: int| i <= k < orig.len() ==> s@[k] == orig[k],
            decreases s@.len() - i,
        {
            let b = s[i];
            let c: u8 = if !self.case_sensitive && 97 <= b && b <= 122 {
                b - 32
            } else {
                b
            };
            let out: u8 = if self.ignored_chars.contains(&c) {
                IGNORE
            } else {
                c
            };
            s[i] = out;
            i = i + 1;
        }
        proof {
            assert(s@ =~= self.spec_norm_seq(orig));
        }
    }
}

/// Build the set of ignored bytes from the bytes of a string.
pub fn parse_ignored_chars(s: &str) -> (r: HashSet<u8>)
    ensures
        r@ == s.spec_bytes().to_set(),
{
    let bytes = s.as_bytes();
    let mut r: HashSet<u8> = HashSet::new();
    let mut i: usize = 0;
    while i < bytes.len()
        invariant
            i <= bytes@.len(),
            r@ == bytes@.take(i as int).to_set(),
        decreases bytes@.len() - i,
    {
        let b = *vstd::slice::slice_index_get(bytes, i);
        r.insert(b);
        proof {
            assert(bytes@.take(i + 1 as int) =~= bytes@.take(i as int).push(bytes@[i as int]));
            bytes@.take(i as int).lemma_push_to_set_commute(bytes@[i as int]);
        }
        i = i + 1;
    }
    proof {
        assert(bytes@.take(bytes@.len() as int) =~= bytes@);
    }
    r
}

/// Law: normalization is idempotent; a normalized sequence normalizes to
/// itself.
pub proof fn lemma_norm_seq_idempotent(case_sensitive: bool, ignored: Set<u8>, s: Seq<u8>)
    ensures
        norm_seq(case_sensitive, ignored, norm_seq(case_sensitive, ignored, s)) == norm_seq(
            case_sensitive,
            ignored,
            s,
        ),
{
    assert forall|b: u8| #[trigger]
        norm_byte(case_sensitive, ignored, norm_byte(case_sensitive, ignored, b)) == norm_byte(
            case_sensitive,
            ignored,
            b,
        ) by {
        let c = norm_byte(case_sensitive, ignored, b);
        assert(fold_byte(case_sensitive, c) == c);
    }
    assert(norm_seq(case_sensitive, ignored, norm_seq(case_sensitive, ignored, s)) =~= norm_seq(
        case_sensitive,
        ignored,
        s,
    ));
}

} // verus!
