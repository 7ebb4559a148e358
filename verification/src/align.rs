//! Alignment loading: FASTA records parsed from in-memory bytes, the
//! uniform-length rule enforced, names optionally sorted, and every
//! sequence normalized.

use crate::sort::{apply_indices_bytes, lex_argsort, lex_lt, name_ordered};
use crate::transform::Transformer;
use vstd::prelude::*;
use vstd::string::StrSliceExecFns;
use vstd::string::StringSliceAdditionalSpecFns;

verus! {

/// The names and the normalized sequences of one alignment, in matching
/// order.
pub type NamesAndSeqs = (Vec<Vec<u8>>, Vec<Vec<u8>>);

/// Why an alignment could not be loaded.
#[derive(Debug)]
pub enum AlnError {
    /// A record could not be parsed.
    ParseFailure,
    /// A sequence's length differs from the expected one; holds the
    /// sequence's name.
    UnequalLength { id: Vec<u8> },
}

impl AlnError {
    /// The bytes of this error's description.
    pub open spec fn spec_message(&self) -> Seq<u8> {
        match self {
            AlnError::ParseFailure => "Failed to parse record".spec_bytes(),
            AlnError::UnequalLength { id } => "Alignment sequences must all be the same length [id: ".spec_bytes()
                + id@ + "]".spec_bytes(),
        }
    }

    /// A human-readable description of the error.
    pub fn message(&self) -> (r: Vec<u8>)
        ensures
            r@ == self.spec_message(),
    {
        match self {
            AlnError::ParseFailure => "Failed to parse record".as_bytes_vec(),
            AlnError::UnequalLength { id } => {
                let ghost prefix: Seq<u8> =
                    "Alignment sequences must all be the same length [id: ".spec_bytes();
                let mut r = "Alignment sequences must all be the same length [id: ".as_bytes_vec();
                let mut k: usize = 0;
                while k < id.len()
                    invariant
                        k <= id@.len(),
                        r@ == prefix + id@.take(k as int),
                    decreases id@.len() - k,
                {
                    r.push(id[k]);
                    proof {
                        assert(prefix + id@.take(k + 1 as int) =~= (prefix + id@.take(
                            k as int,
                        )).push(id@[k as int]));
                    }
                    k = k + 1;
                }
                proof {
                    assert(id@.take(id@.len() as int) =~= id@);
                }
                let mut tail = "]".as_bytes_vec();
                r.append(&mut tail);
                r
            },
        }
    }
}

/// The (name, sequence) byte pairs of a record list.
pub open spec fn records_view(rs: Seq<(Vec<u8>, Vec<u8>)>) -> Seq<(Seq<u8>, Seq<u8>)> {
    rs.map_values(|r: (Vec<u8>, Vec<u8>)| (r.0@, r.1@))
}

/// What the FASTA parser yields on given bytes: the (name, sequence)
/// records in order, or nothing when the input is malformed. The result is
/// a function of the bytes alone.
pub uninterp spec fn fasta_records(data: Seq<u8>) -> Option<Seq<(Seq<u8>, Seq<u8>)>>;

/// Relies on noodles_fasta's Reader: parses the FASTA records out of
/// in-memory bytes, record by record, failing on the first malformed one.
#[verifier::external_body]
fn read_fasta_records(data: &[u8]) -> (r: Option<Vec<(Vec<u8>, Vec<u8>)>>)
    ensures
        match r {
            Some(rs) => fasta_records(data@) == Some(records_view(rs@)),
            None => fasta_records(data@) is None,
        },
{
    let mut reader = noodles_fasta::io::Reader::new(data);
    let mut out: Vec<(Vec<u8>, Vec<u8>)> = Vec::new();
    for item in reader.records() {
        match item {
            Ok(rec) => out.push((rec.name().to_vec(), rec.sequence().as_ref().to_vec())),
            Err(_) => return None,
        }
    }
    Some(out)
}

/// The length every sequence must have: the starting length when one is
/// given, else the first record's.
pub open spec fn expected_len(recs: Seq<(Seq<u8>, Seq<u8>)>, starting_seqlen: nat) -> nat {
    if starting_seqlen > 0 {
        starting_seqlen
    } else if recs.len() > 0 {
        recs[0].1.len()
    } else {
        0
    }
}

/// The record at `k` breaks the uniform-length rule.
pub open spec fn bad_at(recs: Seq<(Seq<u8>, Seq<u8>)>, starting_seqlen: nat, k: int) -> bool {
    recs[k].1.len() != expected_len(recs, starting_seqlen)
}

/// `out_names` and `out_seqs` are `names` and `seqs` reordered by `perm`:
/// a permutation of the positions that sorts the names in ascending
/// lexicographic order, original position breaking ties.
pub open spec fn reordered_sorted(
    names: Seq<Vec<u8>>,
    seqs: Seq<Vec<u8>>,
    out_names: Seq<Vec<u8>>,
    out_seqs: Seq<Vec<u8>>,
    perm: Seq<int>,
) -> bool {
    &&& perm.len() == names.len()
    &&& forall|k: int| 0 <= k < perm.len() ==> 0 <= #[trigger] perm[k] < names.len()
    &&& forall|k: int, l: int| 0 <= k < l < perm.len() ==> perm[k] != perm[l]
    &&& forall|k: int|
        #![trigger perm[k]]
        0 <= k < perm.len() ==> out_names[k]@ == names[perm[k]]@ && out_seqs[k]@ == seqs[perm[k]]@
    &&& forall|k: int, l: int|
        #![trigger perm[k], perm[l]]
        0 <= k < l < perm.len() ==> lex_lt(names[perm[k]]@, names[perm[l]]@) || (names[perm[k]]@
            == names[perm[l]]@ && perm[k] < perm[l])
}

impl Transformer {
    /// `out_names` and `out_seqs` are the records reordered by `perm`: a
    /// permutation of the record positions that sorts the names in
    /// ascending lexicographic order, original position breaking ties,
    /// with every sequence normalized by this transformer.
    pub open spec fn spec_sorted_by(
        &self,
        recs: Seq<(Seq<u8>, Seq<u8>)>,
        out_names: Seq<Vec<u8>>,
        out_seqs: Seq<Vec<u8>>,
        perm: Seq<int>,
    ) -> bool {
        &&& perm.len() == recs.len()
        &&& forall|k: int| 0 <= k < perm.len() ==> 0 <= #[trigger] perm[k] < recs.len()
        &&& forall|k: int, l: int| 0 <= k < l < perm.len() ==> perm[k] != perm[l]
        &&& forall|k: int|
            #![trigger perm[k]]
            0 <= k < recs.len() ==> out_names[k]@ == recs[perm[k]].0 && out_seqs[k]@
                == self.spec_norm_seq(recs[perm[k]].1)
        &&& forall|k: int, l: int|
            #![trigger perm[k], perm[l]]
            0 <= k < l < recs.len() ==> lex_lt(recs[perm[k]].0, recs[perm[l]].0) || (recs[
            perm[k]].0 == recs[perm[l]].0 && perm[k] < perm[l])
    }

    /// Walk the records in order, enforcing the uniform-length rule, and
    /// hand back the names and the normalized sequences; fails on the first
    /// record whose sequence length is wrong, naming it.
    fn collect_records(&self, recs: &Vec<(Vec<u8>, Vec<u8>)>, starting_seqlen: usize) -> (r:
        Result<NamesAndSeqs, AlnError>)
        ensures
            ({
                let rv = records_view(recs@);
                if exists|k: int|
                    0 <= k < rv.len() && #[trigger] bad_at(rv, starting_seqlen as nat, k) {
                    &&& r matches Err(AlnError::UnequalLength { id })
                    &&& exists|k: int|
                        {
                            &&& 0 <= k < rv.len()
                            &&& #[trigger] bad_at(rv, starting_seqlen as nat, k)
                            &&& forall|l: int|
                                0 <= l < k ==> !bad_at(rv, starting_seqlen as nat, l)
                            &&& id@ == rv[k].0
                        }
                } else {
                    &&& r matches Ok(out)
                    &&& out.0@.len() == rv.len()
                    &&& out.1@.len() == rv.len()
                    &&& forall|k: int|
                        #![auto]
                        0 <= k < rv.len() ==> out.0@[k]@ == rv[k].0 && out.1@[k]@
                            == self.spec_norm_seq(rv[k].1)
                    &&& forall|k: int|
                        0 <= k < rv.len() ==> (#[trigger] out.1@[k])@.len() == expected_len(
                            rv,
                            starting_seqlen as nat,
                        )
                }
            }),
    {
        let ghost rv: Seq<(Seq<u8>, Seq<u8>)> = records_view(recs@);
        let ghost start: nat = starting_seqlen as nat;
        let mut names: Vec<Vec<u8>> = Vec::new();
        let mut seqs: Vec<Vec<u8>> = Vec::new();
        let mut seqlen: usize = starting_seqlen;
        let mut k: usize = 0;
        while k < recs.len()
            invariant
                k <= recs@.len(),
                rv == records_view(recs@),
                rv.len() == recs@.len(),
                start == starting_seqlen as nat,
                names@.len() == k,
                seqs@.len() == k,
                forall|j: int|
                    #![auto]
                    0 <= j < k ==> names@[j]@ == rv[j].0 && seqs@[j]@ == self.spec_norm_seq(
                        rv[j].1,
                    ),
                forall|j: int| 0 <= j < k ==> !bad_at(rv, start, j),
                forall|j: int| 0 <= j < k ==> (#[trigger] seqs@[j])@.len() == expected_len(
                    rv,
                    start,
                ),
                k > 0 || start > 0 ==> seqlen as nat == expected_len(rv, start),
                start == 0 && k == 0 ==> seqlen == 0,
            decreases recs@.len() - k,
        {
            let name = crate::sort::clone_bytes(&recs[k].0);
            let mut sq = crate::sort::clone_bytes(&recs[k].1);
            proof {
                assert(rv[k as int] == (recs@[k as int].0@, recs@[k as int].1@));
            }
            if k == 0 && seqlen == 0 {
                seqlen = sq.len();
            } else if sq.len() != seqlen {
                proof {
                    let ghost kk = k as int;
                    assert(0 <= kk < rv.len() && bad_at(rv, start, kk) && (forall|l: int|
                        0 <= l < kk ==> !bad_at(rv, start, l)) && name@ == rv[kk].0);
                }
                return Err(AlnError::UnequalLength { id: name });
            }
            self.transform(&mut sq);
            names.push(name);
            seqs.push(sq);
            k = k + 1;
        }
        Ok((names, seqs))
    }

    /// Sort an alignment by name, reordering names and sequences together.
    fn sort_alignment(&self, names: Vec<Vec<u8>>, seqs: Vec<Vec<u8>>) -> (r: NamesAndSeqs)
        requires
            names@.len() == seqs@.len(),
        ensures
            r.0@.len() == names@.len(),
            r.1@.len() == names@.len(),
            exists|perm: Seq<int>| #[trigger] reordered_sorted(names@, seqs@, r.0@, r.1@, perm),
    {
        let perm = lex_argsort(&names);
        let sorted_names = apply_indices_bytes(&names, &perm);
        let sorted_seqs = apply_indices_bytes(&seqs, &perm);
        let ghost pv: Seq<int> = perm@.map_values(|u: usize| u as int);
        proof {
            assert forall|q: int|
                #![trigger pv[q]]
                0 <= q < pv.len() implies sorted_names@[q]@ == names@[pv[q]]@ && sorted_seqs@[q]@
                == seqs@[pv[q]]@ by {
                assert(sorted_names@[q]@ == names@[perm@[q] as int]@);
                assert(sorted_seqs@[q]@ == seqs@[perm@[q] as int]@);
            }
            assert forall|q: int, w: int|
                #![trigger pv[q], pv[w]]
                0 <= q < w < pv.len() implies lex_lt(names@[pv[q]]@, names@[pv[w]]@) || (
            names@[pv[q]]@ == names@[pv[w]]@ && pv[q] < pv[w]) by {
                assert(name_ordered(names@, perm@[q] as int, perm@[w] as int));
            }
        }
        let out = (sorted_names, sorted_seqs);
        proof {
            assert(reordered_sorted(names@, seqs@, out.0@, out.1@, pv));
        }
        out
    }

    /// What loading an alignment from `data` must return: the parse
    /// failure when the FASTA bytes are malformed; the first record whose
    /// sequence length breaks the uniform-length rule, by name; else the
    /// names and normalized sequences, sorted by name when asked.
    pub open spec fn spec_load_result(
        &self,
        data: Seq<u8>,
        starting_seqlen: nat,
        r: Result<NamesAndSeqs, AlnError>,
    ) -> bool {
        match fasta_records(data) {
            None => r == Err::<NamesAndSeqs, AlnError>(AlnError::ParseFailure),
            Some(recs) => {
                if exists|k: int| 0 <= k < recs.len() && #[trigger] bad_at(recs, starting_seqlen, k) {
                    &&& r matches Err(AlnError::UnequalLength { id })
                    &&& exists|k: int|
                        {
                            &&& 0 <= k < recs.len()
                            &&& #[trigger] bad_at(recs, starting_seqlen, k)
                            &&& forall|l: int| 0 <= l < k ==> !bad_at(recs, starting_seqlen, l)
                            &&& id@ == recs[k].0
                        }
                } else {
                    &&& r matches Ok(out)
                    &&& out.0@.len() == recs.len()
                    &&& out.1@.len() == recs.len()
                    &&& forall|k: int|
                        0 <= k < recs.len() ==> (#[trigger] out.1@[k])@.len() == expected_len(
                            recs,
                            starting_seqlen,
                        )
                    &&& if self.sort {
                        exists|perm: Seq<int>|
                            #[trigger] self.spec_sorted_by(recs, out.0@, out.1@, perm)
                    } else {
                        forall|k: int|
                            #![auto]
                            0 <= k < recs.len() ==> out.0@[k]@ == recs[k].0 && out.1@[k]@
                                == self.spec_norm_seq(recs[k].1)
                    }
                }
            },
        }
    }

    /// Load one alignment from FASTA bytes: parse the records, reject the
    /// first sequence whose length differs from `starting_seqlen` (or, when
    /// that is 0, from the first sequence's length), sort by name when this
    /// transformer asks for it, and normalize every sequence.
    #[verifier::rlimit(50)]
    pub fn load_alignment(&self, data: &[u8], starting_seqlen: usize) -> (r: Result<
        NamesAndSeqs,
        AlnError,
    >)
        ensures
            self.spec_load_result(data@, starting_seqlen as nat, r),
    {
        let recs = match read_fasta_records(data) {
            None => {
                let res: Result<NamesAndSeqs, AlnError> = Err(AlnError::ParseFailure);
                proof {
                    assert(self.spec_load_result(data@, starting_seqlen as nat, res));
                }
                return res;
            },
            Some(v) => v,
        };
        let ghost rv: Seq<(Seq<u8>, Seq<u8>)> = records_view(recs@);
        let collected = self.collect_records(&recs, starting_seqlen);
        match collected {
            Err(e) => {
                let res: Result<NamesAndSeqs, AlnError> = Err(e);
                proof {
                    assert(fasta_records(data@) == Some(rv));
                    assert(fasta_records(data@)->Some_0 == rv);
                    let ghost ss: nat = starting_seqlen as nat;
                    assert(exists|k: int| 0 <= k < rv.len() && #[trigger] bad_at(rv, ss, k));
                    let k0 = choose|k: int|
                        {
                            &&& 0 <= k < rv.len()
                            &&& #[trigger] bad_at(rv, ss, k)
                            &&& forall|l: int| 0 <= l < k ==> !bad_at(rv, ss, l)
                            &&& collected->Err_0->UnequalLength_id@ == rv[k].0
                        };
                    assert(res matches Err(AlnError::UnequalLength { id }) && id@ == rv[k0].0);
                    assert(self.spec_load_result(data@, starting_seqlen as nat, res));
                }
                res
            },
            Ok((names, seqs)) => {
                if self.sort {
                    let ghost ns: Seq<Vec<u8>> = names@;
                    let ghost ss: Seq<Vec<u8>> = seqs@;
                    let (sorted_names, sorted_seqs) = self.sort_alignment(names, seqs);
                    let res: Result<NamesAndSeqs, AlnError> = Ok((sorted_names, sorted_seqs));
                    proof {
                        let perm = choose|perm: Seq<int>| #[trigger] reordered_sorted(
                            ns,
                            ss,
                            res->Ok_0.0@,
                            res->Ok_0.1@,
                            perm,
                        );
                        assert(self.spec_sorted_by(rv, res->Ok_0.0@, res->Ok_0.1@, perm));
                        assert forall|k: int|
                            0 <= k < rv.len() implies (#[trigger] res->Ok_0.1@[k])@.len()
                            == expected_len(rv, starting_seqlen as nat) by {
                            assert(res->Ok_0.1@[k]@ == ss[perm[k]]@);
                            assert(ss[perm[k]]@.len() == expected_len(rv, starting_seqlen as nat));
                        }
                        assert(self.spec_load_result(data@, starting_seqlen as nat, res));
                    }
                    res
                } else {
                    let res: Result<NamesAndSeqs, AlnError> = Ok((names, seqs));
                    proof {
                        assert forall|k: int| #![auto] 0 <= k < rv.len() implies res->Ok_0.0@[k]@
                            == rv[k].0 && res->Ok_0.1@[k]@ == self.spec_norm_seq(rv[k].1) by {}
                        assert(self.spec_load_result(data@, starting_seqlen as nat, res));
                    }
                    res
                }
            },
        }
    }
}

} // verus!
