use vstd::prelude::*;

use crate::complex::{is_os_of, os_spec, Complex};
use crate::loader::{complexes_spec, ppi_spec, read_complexes, read_ppi_proteins, LoadError};
use crate::metrics::{
    count_matched_predicted, count_matched_reference, harmonic, index_spec, sum_column_maxima,
    sum_entries, sum_row_maxima, sum_sizes, IndexError, IndexResult,
};
use crate::ratio::Ratio;

verus! {

/// The sets of proteins of a list of complexes.
pub open spec fn views(v: Seq<Complex>) -> Seq<Set<Seq<char>>> {
    v.map_values(|c: Complex| c@)
}

/// The number of indices below `n` at which `f` holds.
pub open spec fn count_upto(n: int, f: spec_fn(int) -> bool) -> nat
    decreases n,
{
    if n <= 0 {
        0
    } else {
        count_upto(n - 1, f) + if f(n - 1) { 1nat } else { 0nat }
    }
}

/// The sum of `f` over the indices below `n`.
pub open spec fn sum_upto(n: int, f: spec_fn(int) -> int) -> int
    decreases n,
{
    if n <= 0 {
        0
    } else {
        sum_upto(n - 1, f) + f(n - 1)
    }
}

/// The largest value of `f` over the indices below `n`, and `0` for none.
pub open spec fn max_upto(n: int, f: spec_fn(int) -> int) -> int
    decreases n,
{
    if n <= 0 {
        0
    } else if f(n - 1) > max_upto(n - 1, f) {
        f(n - 1)
    } else {
        max_upto(n - 1, f)
    }
}

/// Score and overlap matrices of `pre` against `refs`: one row per predicted
/// complex, one column per reference complex, each cell the result of
/// matching the two.
pub open spec fn matrices_of(
    pre: Seq<Set<Seq<char>>>,
    refs: Seq<Set<Seq<char>>>,
    os: Seq<Vec<Ratio>>,
    ov: Seq<Vec<usize>>,
) -> bool {
    &&& os.len() == pre.len()
    &&& ov.len() == pre.len()
    &&& forall|i: int| 0 <= i < pre.len() ==> #[trigger] os[i]@.len() == refs.len()
    &&& forall|i: int| 0 <= i < pre.len() ==> #[trigger] ov[i]@.len() == refs.len()
    &&& forall|i: int, j: int|
        0 <= i < pre.len() && 0 <= j < refs.len() ==> is_os_of(
            (#[trigger] os[i]@[j], ov[i]@[j]),
            pre[i],
            refs[j],
        )
}

/// Matches every predicted complex against every reference complex.
///
/// The matrices are rectangular, `|pre|` rows by `|refs|` columns, and each
/// cell is written once, at `[predicted][reference]`.
pub fn calculate_all_os_overlap(pre_complex: &Vec<Complex>, ref_complex: &Vec<Complex>) -> (r: (
    Vec<Vec<Ratio>>,
    Vec<Vec<usize>>,
))
    ensures
        matrices_of(views(pre_complex@), views(ref_complex@), r.0@, r.1@),
{
    let ghost pv = views(pre_complex@);
    let ghost rv = views(ref_complex@);
    let mut os_matrix: Vec<Vec<Ratio>> = Vec::new();
    let mut overlap_matrix: Vec<Vec<usize>> = Vec::new();
    let mut i: usize = 0;
    while i < pre_complex.len()
        invariant
            i <= pre_complex@.len(),
            pv == views(pre_complex@),
            rv == views(ref_complex@),
            matrices_of(pv.take(i as int), rv, os_matrix@, overlap_matrix@),
        decreases pre_complex.len() - i,
    {
        let p = &pre_complex[i];
        let mut os_row: Vec<Ratio> = Vec::new();
        let mut overlap_row: Vec<usize> = Vec::new();
        let mut j: usize = 0;
        while j < ref_complex.len()
            invariant
                i < pre_complex@.len(),
                j <= ref_complex@.len(),
                p == pre_complex@[i as int],
                pv == views(pre_complex@),
                rv == views(ref_complex@),
                os_row@.len() == j,
                overlap_row@.len() == j,
                forall|k: int| 0 <= k < j ==> is_os_of((#[trigger] os_row@[k], overlap_row@[k]), pv[i as int], rv[k]),
            decreases ref_complex.len() - j,
        {
            let (score, shared) = p.os(&ref_complex[j]);
            os_row.push(score);
            overlap_row.push(shared);
            j = j + 1;
        }
        os_matrix.push(os_row);
        overlap_matrix.push(overlap_row);
        proof {
            assert(pv.take(i + 1) == pv.take(i as int).push(pv[i as int]));
        }
        i = i + 1;
    }
    assert(pv.take(pv.len() as int) == pv);
    (os_matrix, overlap_matrix)
}

/// Predicted and reference complexes with their score and overlap matrices.
pub struct Analysis {
    ref_complex: Vec<Complex>,
    pre_complex: Vec<Complex>,
    os_matrix: Vec<Vec<Ratio>>,
    overlap_matrix: Vec<Vec<usize>>,
}

impl Analysis {
    /// The matrices are those of the two lists of complexes.
    #[verifier::type_invariant]
    spec fn consistent(&self) -> bool {
        matrices_of(
            views(self.pre_complex@),
            views(self.ref_complex@),
            self.os_matrix@,
            self.overlap_matrix@,
        )
    }

    /// The predicted complexes.
    pub closed spec fn predicted(&self) -> Seq<Complex> {
        self.pre_complex@
    }

    /// The reference complexes.
    pub closed spec fn reference(&self) -> Seq<Complex> {
        self.ref_complex@
    }

    /// Builds the matrices of predicted against reference complexes.
    pub fn from_complexes(ref_complex: Vec<Complex>, pre_complex: Vec<Complex>) -> (a: Analysis)
        ensures
            a.reference() == ref_complex@,
            a.predicted() == pre_complex@,
    {
        let (os_matrix, overlap_matrix) = calculate_all_os_overlap(&pre_complex, &ref_complex);
        Analysis { ref_complex, pre_complex, os_matrix, overlap_matrix }
    }

    /// Reads the interaction, reference and predicted texts and builds the
    /// matrices. The members of a complex are its identifiers that some
    /// interaction line names; complexes of fewer than `min_size` members are
    /// dropped; a malformed interaction line is an error.
    pub fn new(ppi_text: &str, ref_text: &str, pre_text: &str, min_size: u32) -> (r: Result<
        Analysis,
        LoadError,
    >)
        ensures
            match r {
                Ok(a) => {
                    &&& ppi_spec(ppi_text@) is Ok
                    &&& views(a.reference()) == complexes_spec(
                        ref_text@,
                        (ppi_spec(ppi_text@)->Ok_0).to_set(),
                        min_size as nat,
                    )
                    &&& views(a.predicted()) == complexes_spec(
                        pre_text@,
                        (ppi_spec(ppi_text@)->Ok_0).to_set(),
                        min_size as nat,
                    )
                },
                Err(e) => ppi_spec(ppi_text@) == Err::<Seq<Seq<char>>, LoadError>(e),
            },
    {
        match read_ppi_proteins(ppi_text) {
            Err(e) => Err(e),
            Ok(proteins) => {
                let ref_complex = read_complexes(ref_text, &proteins, min_size);
                let pre_complex = read_complexes(pre_text, &proteins, min_size);
                Ok(Analysis::from_complexes(ref_complex, pre_complex))
            },
        }
    }

    /// The number of predicted complexes, the rows of the matrices.
    pub fn predicted_len(&self) -> (n: usize)
        ensures
            n == self.predicted().len(),
    {
        self.pre_complex.len()
    }

    /// The number of reference complexes, the columns of the matrices.
    pub fn reference_len(&self) -> (n: usize)
        ensures
            n == self.reference().len(),
    {
        self.ref_complex.len()
    }

    /// The overlap score of predicted complex `i` and reference complex `j`.
    pub fn os_at(&self, i: usize, j: usize) -> (s: Ratio)
        requires
            i < self.predicted().len(),
            j < self.reference().len(),
        ensures
            s.num == os_spec(self.predicted()[i as int]@, self.reference()[j as int]@).0,
            s.den == os_spec(self.predicted()[i as int]@, self.reference()[j as int]@).1,
    {
        proof {
            use_type_invariant(self);
            assert(is_os_of(
                (self.os_matrix@[i as int]@[j as int], self.overlap_matrix@[i as int]@[j as int]),
                views(self.pre_complex@)[i as int],
                views(self.ref_complex@)[j as int],
            ));
        }
        self.os_matrix[i][j]
    }

    /// The shared count of predicted complex `i` and reference complex `j`.
    pub fn overlap_at(&self, i: usize, j: usize) -> (c: usize)
        requires
            i < self.predicted().len(),
            j < self.reference().len(),
        ensures
            c == os_spec(self.predicted()[i as int]@, self.reference()[j as int]@).2,
    {
        proof {
            use_type_invariant(self);
            assert(is_os_of(
                (self.os_matrix@[i as int]@[j as int], self.overlap_matrix@[i as int]@[j as int]),
                views(self.pre_complex@)[i as int],
                views(self.ref_complex@)[j as int],
            ));
        }
        self.overlap_matrix[i][j]
    }

    /// The six quality metrics at `threshold`, or why they are undefined.
    pub fn calculate_index(&self, threshold: Ratio) -> (r: Result<IndexResult, IndexError>)
        requires
            threshold.valid(),
        ensures
            r == index_spec(views(self.predicted()), views(self.reference()), threshold),
    {
        proof {
            use_type_invariant(self);
        }
        let ghost p = views(self.pre_complex@);
        let ghost r = views(self.ref_complex@);
        let np = self.pre_complex.len();
        let nr = self.ref_complex.len();
        if np == 0 {
            return Err(IndexError::NoPredicted);
        }
        if nr == 0 {
            return Err(IndexError::NoReference);
        }
        let os = &self.os_matrix;
        let ov = &self.overlap_matrix;
        let mp = count_matched_predicted(os, ov, nr, &threshold, Ghost(p), Ghost(r));
        let mr = count_matched_reference(os, ov, nr, &threshold, Ghost(p), Ghost(r));
        let f_measure = if mp == 0 && mr == 0 {
            Some(None)
        } else {
            match harmonic(mp, np, mr, nr) {
                Some(f) => Some(Some(f)),
                None => None,
            }
        };
        let sn_num = sum_column_maxima(os, ov, nr, Ghost(p), Ghost(r));
        let sn_den = sum_sizes(&self.ref_complex);
        let ppv_num = sum_row_maxima(os, ov, nr, Ghost(p), Ghost(r));
        let ppv_den = sum_entries(os, ov, nr, Ghost(p), Ghost(r));
        match (sn_num, sn_den, ppv_num, ppv_den, f_measure) {
            (Some(a), Some(b), Some(c), Some(d), Some(f_measure)) => Ok(
                IndexResult {
                    precision: Ratio { num: mp as u128, den: np as u128 },
                    recall: Ratio { num: mr as u128, den: nr as u128 },
                    f_measure,
                    sn: if b == 0 {
                        None
                    } else {
                        Some(Ratio { num: a, den: b })
                    },
                    ppv: if d == 0 {
                        None
                    } else {
                        Some(Ratio { num: c, den: d })
                    },
                },
            ),
            _ => Err(IndexError::TooLarge),
        }
    }
}

/// The outcome of an evaluation: the metrics or why they are undefined, or
/// the interaction line that could not be read.
pub open spec fn evaluation(
    ppi_text: Seq<char>,
    ref_text: Seq<char>,
    pre_text: Seq<char>,
    min_size: nat,
    threshold: Ratio,
) -> Result<Result<IndexResult, IndexError>, LoadError> {
    match ppi_spec(ppi_text) {
        Err(e) => Err(e),
        Ok(ids) => Ok(
            index_spec(
                complexes_spec(pre_text, ids.to_set(), min_size),
                complexes_spec(ref_text, ids.to_set(), min_size),
                threshold,
            ),
        ),
    }
}

/// Evaluates predicted complexes against reference complexes, from the texts
/// of the three files to the metrics at `threshold`.
pub fn evaluate(ppi_text: &str, ref_text: &str, pre_text: &str, min_size: u32, threshold: Ratio) -> (r:
    Result<Result<IndexResult, IndexError>, LoadError>)
    requires
        threshold.valid(),
    ensures
        r == evaluation(ppi_text@, ref_text@, pre_text@, min_size as nat, threshold),
{
    match Analysis::new(ppi_text, ref_text, pre_text, min_size) {
        Err(e) => Err(e),
        Ok(a) => Ok(a.calculate_index(threshold)),
    }
}

/// An evaluation is a function of its inputs: running it again on the same
/// texts, minimum size and threshold gives the same outcome.
pub proof fn lemma_evaluation_repeatable(
    ppi1: Seq<char>,
    ref1: Seq<char>,
    pre1: Seq<char>,
    ppi2: Seq<char>,
    ref2: Seq<char>,
    pre2: Seq<char>,
    min_size: nat,
    threshold: Ratio,
)
    requires
        ppi1 == ppi2,
        ref1 == ref2,
        pre1 == pre2,
    ensures
        evaluation(ppi1, ref1, pre1, min_size, threshold) == evaluation(
            ppi2,
            ref2,
            pre2,
            min_size,
            threshold,
        ),
{
}

} // verus!
