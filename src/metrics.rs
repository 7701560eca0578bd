use vstd::prelude::*;

use crate::analysis::{count_upto, matrices_of, max_upto, sum_upto, views};
use crate::complex::{is_os_of, lemma_os_den_positive, lemma_os_set_bounded, os_spec, Complex};
use crate::ratio::Ratio;

verus! {

/// Why the metrics cannot be computed.
#[derive(Clone, Copy, Debug, PartialEq, Eq, Structural)]
pub enum IndexError {
    /// There is no predicted complex: precision is a division by zero.
    NoPredicted,
    /// There is no reference complex: recall is a division by zero.
    NoReference,
    /// A numerator or denominator does not fit 128 bits.
    TooLarge,
}

/// The six quality metrics, as exact fractions. The accuracy is the square
/// root of `sn * ppv` and is left to the caller, being irrational in general.
#[derive(Clone, Copy, Debug, PartialEq, Eq, Structural)]
pub struct IndexResult {
    pub precision: Ratio,
    pub recall: Ratio,
    /// `None` where precision and recall are both zero, and the F-measure
    /// `2 * precision * recall / (precision + recall)` is undefined.
    pub f_measure: Option<Ratio>,
    /// `None` where the reference complexes hold no protein, and the
    /// sensitivity is a division by zero.
    pub sn: Option<Ratio>,
    /// `None` where no predicted complex shares a protein with any reference
    /// complex, and the positive predictive value is a division by zero.
    pub ppv: Option<Ratio>,
}

/// Numerator of the F-measure over the four counts.
pub open spec fn f_num(mp: int, mr: int) -> int {
    2 * mp * mr
}

/// Denominator of the F-measure over the four counts.
pub open spec fn f_den(mp: int, np: int, mr: int, nr: int) -> int {
    mp * nr + mr * np
}

/// The metrics of predicted complexes `p` against reference complexes `r`
/// at threshold `t`, or the reason they cannot be computed.
pub open spec fn index_spec(p: Seq<Set<Seq<char>>>, r: Seq<Set<Seq<char>>>, t: Ratio) -> Result<
    IndexResult,
    IndexError,
> {
    let np = p.len() as int;
    let nr = r.len() as int;
    let mp = matched_predicted(p, r, t) as int;
    let mr = matched_reference(p, r, t) as int;
    let f_defined = mp + mr > 0;
    if np == 0 {
        Err(IndexError::NoPredicted)
    } else if nr == 0 {
        Err(IndexError::NoReference)
    } else if fit(sn_num(p, r)) is None || fit(sn_den(r)) is None || fit(ppv_num(p, r)) is None
        || fit(ppv_den(p, r)) is None || (f_defined && (fit(f_num(mp, mr)) is None || fit(
        f_den(mp, np, mr, nr),
    ) is None)) {
        Err(IndexError::TooLarge)
    } else {
        Ok(
            IndexResult {
                precision: Ratio { num: mp as u128, den: np as u128 },
                recall: Ratio { num: mr as u128, den: nr as u128 },
                f_measure: if f_defined {
                    Some(
                        Ratio {
                            num: f_num(mp, mr) as u128,
                            den: f_den(mp, np, mr, nr) as u128,
                        },
                    )
                } else {
                    None
                },
                sn: if sn_den(r) == 0 {
                    None
                } else {
                    Some(Ratio { num: sn_num(p, r) as u128, den: sn_den(r) as u128 })
                },
                ppv: if ppv_den(p, r) == 0 {
                    None
                } else {
                    Some(Ratio { num: ppv_num(p, r) as u128, den: ppv_den(p, r) as u128 })
                },
            },
        )
    }
}

/// Predicted complex `a` matches reference complex `b`: their overlap score
/// is strictly greater than the threshold `t`.
pub open spec fn beats(a: Set<Seq<char>>, b: Set<Seq<char>>, t: Ratio) -> bool {
    os_spec(a, b).0 * t.den > t.num * os_spec(a, b).1
}

/// Predicted complex `i` matches at least one reference complex.
pub open spec fn predicted_hit(p: Seq<Set<Seq<char>>>, r: Seq<Set<Seq<char>>>, t: Ratio, i: int) -> bool {
    exists|j: int| 0 <= j < r.len() && #[trigger] beats(p[i], r[j], t)
}

/// Reference complex `j` is matched by at least one predicted complex.
pub open spec fn reference_hit(p: Seq<Set<Seq<char>>>, r: Seq<Set<Seq<char>>>, t: Ratio, j: int) -> bool {
    exists|i: int| 0 <= i < p.len() && #[trigger] beats(p[i], r[j], t)
}

pub open spec fn predicted_hits(p: Seq<Set<Seq<char>>>, r: Seq<Set<Seq<char>>>, t: Ratio) -> spec_fn(int) -> bool {
    |i: int| predicted_hit(p, r, t, i)
}

pub open spec fn reference_hits(p: Seq<Set<Seq<char>>>, r: Seq<Set<Seq<char>>>, t: Ratio) -> spec_fn(int) -> bool {
    |j: int| reference_hit(p, r, t, j)
}

/// The number of predicted complexes that match some reference complex.
pub open spec fn matched_predicted(p: Seq<Set<Seq<char>>>, r: Seq<Set<Seq<char>>>, t: Ratio) -> nat {
    count_upto(p.len() as int, predicted_hits(p, r, t))
}

/// The number of reference complexes that some predicted complex matches.
pub open spec fn matched_reference(p: Seq<Set<Seq<char>>>, r: Seq<Set<Seq<char>>>, t: Ratio) -> nat {
    count_upto(r.len() as int, reference_hits(p, r, t))
}

/// The shared count of predicted complex `i` and reference complex `j`.
pub open spec fn shared_at(p: Seq<Set<Seq<char>>>, r: Seq<Set<Seq<char>>>, i: int, j: int) -> int {
    os_spec(p[i], r[j]).2 as int
}

/// Column `j` of the overlap matrix, as a function of the row.
pub open spec fn column(p: Seq<Set<Seq<char>>>, r: Seq<Set<Seq<char>>>, j: int) -> spec_fn(int) -> int {
    |i: int| shared_at(p, r, i, j)
}

/// Row `i` of the overlap matrix, as a function of the column.
pub open spec fn row(p: Seq<Set<Seq<char>>>, r: Seq<Set<Seq<char>>>, i: int) -> spec_fn(int) -> int {
    |j: int| shared_at(p, r, i, j)
}

pub open spec fn column_maxima(p: Seq<Set<Seq<char>>>, r: Seq<Set<Seq<char>>>) -> spec_fn(int) -> int {
    |j: int| max_upto(p.len() as int, column(p, r, j))
}

pub open spec fn row_maxima(p: Seq<Set<Seq<char>>>, r: Seq<Set<Seq<char>>>) -> spec_fn(int) -> int {
    |i: int| max_upto(r.len() as int, row(p, r, i))
}

pub open spec fn row_sums(p: Seq<Set<Seq<char>>>, r: Seq<Set<Seq<char>>>) -> spec_fn(int) -> int {
    |i: int| sum_upto(r.len() as int, row(p, r, i))
}

pub open spec fn sizes(r: Seq<Set<Seq<char>>>) -> spec_fn(int) -> int {
    |j: int| r[j].len() as int
}

/// Numerator of the sensitivity: for each reference complex, the largest
/// overlap any predicted complex reaches with it, summed.
pub open spec fn sn_num(p: Seq<Set<Seq<char>>>, r: Seq<Set<Seq<char>>>) -> int {
    sum_upto(r.len() as int, column_maxima(p, r))
}

/// Denominator of the sensitivity: the sizes of the reference complexes, summed.
pub open spec fn sn_den(r: Seq<Set<Seq<char>>>) -> int {
    sum_upto(r.len() as int, sizes(r))
}

/// Numerator of the positive predictive value: for each predicted complex,
/// the largest overlap it reaches with any reference complex, summed.
pub open spec fn ppv_num(p: Seq<Set<Seq<char>>>, r: Seq<Set<Seq<char>>>) -> int {
    sum_upto(p.len() as int, row_maxima(p, r))
}

/// Denominator of the positive predictive value: every entry of the overlap
/// matrix, summed.
pub open spec fn ppv_den(p: Seq<Set<Seq<char>>>, r: Seq<Set<Seq<char>>>) -> int {
    sum_upto(p.len() as int, row_sums(p, r))
}

/// Sums of non-negative terms grow with the number of terms.
pub proof fn lemma_sum_mono(n: int, k: int, f: spec_fn(int) -> int)
    requires
        0 <= k <= n,
        forall|i: int| 0 <= i < n ==> #[trigger] f(i) >= 0,
    ensures
        0 <= sum_upto(k, f) <= sum_upto(n, f),
    decreases n,
{
    if n > k {
        lemma_sum_mono(n - 1, k, f);
    } else if k > 0 {
        lemma_sum_mono(k - 1, k - 1, f);
    }
}

/// A sum is at most the sum of terms that are each at least as large.
pub proof fn lemma_sum_le(n: int, f: spec_fn(int) -> int, g: spec_fn(int) -> int)
    requires
        forall|i: int| 0 <= i < n ==> #[trigger] f(i) <= g(i),
    ensures
        sum_upto(n, f) <= sum_upto(n, g),
    decreases n,
{
    if n > 0 {
        lemma_sum_le(n - 1, f, g);
    }
}

/// The maximum of non-negative terms is non-negative, reached or zero, at
/// most any common bound and at most their sum.
pub proof fn lemma_max_bounds(n: int, f: spec_fn(int) -> int, b: int)
    requires
        forall|i: int| 0 <= i < n ==> 0 <= #[trigger] f(i) <= b,
    ensures
        0 <= max_upto(n, f) <= sum_upto(n, f),
        n <= 0 || max_upto(n, f) <= b,
    decreases n,
{
    if n > 0 {
        lemma_max_bounds(n - 1, f, b);
        lemma_sum_mono(n - 1, n - 1, f);
    }
}

/// At most `n` of `n` indices can be counted.
pub proof fn lemma_count_le(n: int, f: spec_fn(int) -> bool)
    requires
        n >= 0,
    ensures
        count_upto(n, f) <= n,
    decreases n,
{
    if n > 0 {
        lemma_count_le(n - 1, f);
    }
}

/// Every overlap count lies between zero and the size of the reference
/// complex.
pub proof fn lemma_shared_range(p: Seq<Set<Seq<char>>>, r: Seq<Set<Seq<char>>>, i: int, j: int)
    requires
        0 <= i < p.len(),
        0 <= j < r.len(),
        p[i].finite(),
        r[j].finite(),
    ensures
        0 <= shared_at(p, r, i, j) <= r[j].len(),
        shared_at(p, r, i, j) <= p[i].len(),
{
    lemma_os_set_bounded(p[i], r[j]);
}

/// The counts and sums that make up the metrics are bounded by their totals.
pub proof fn lemma_parts_bounded(p: Seq<Set<Seq<char>>>, r: Seq<Set<Seq<char>>>, t: Ratio)
    requires
        forall|i: int| 0 <= i < p.len() ==> #[trigger] p[i].finite(),
        forall|j: int| 0 <= j < r.len() ==> #[trigger] r[j].finite(),
    ensures
        matched_predicted(p, r, t) <= p.len(),
        matched_reference(p, r, t) <= r.len(),
        0 <= sn_num(p, r) <= sn_den(r),
        0 <= ppv_num(p, r) <= ppv_den(p, r),
{
    lemma_count_le(p.len() as int, predicted_hits(p, r, t));
    lemma_count_le(r.len() as int, reference_hits(p, r, t));
    assert forall|j: int| 0 <= j < r.len() implies 0 <= #[trigger] column_maxima(p, r)(j) <= sizes(r)(j) by {
        assert forall|i: int| 0 <= i < p.len() implies 0 <= #[trigger] column(p, r, j)(i) <= r[j].len() by {
            lemma_shared_range(p, r, i, j);
        }
        lemma_max_bounds(p.len() as int, column(p, r, j), r[j].len() as int);
    }
    lemma_sum_mono(r.len() as int, 0, column_maxima(p, r));
    lemma_sum_le(r.len() as int, column_maxima(p, r), sizes(r));
    assert forall|i: int| 0 <= i < p.len() implies 0 <= #[trigger] row_maxima(p, r)(i) <= row_sums(p, r)(i) by {
        assert forall|j: int| 0 <= j < r.len() implies 0 <= #[trigger] row(p, r, i)(j) <= p[i].len() by {
            lemma_shared_range(p, r, i, j);
        }
        lemma_max_bounds(r.len() as int, row(p, r, i), p[i].len() as int);
    }
    lemma_sum_mono(p.len() as int, 0, row_maxima(p, r));
    lemma_sum_le(p.len() as int, row_maxima(p, r), row_sums(p, r));
}

/// The maximum of any terms is non-negative.
pub proof fn lemma_max_nonneg(n: int, f: spec_fn(int) -> int)
    ensures
        max_upto(n, f) >= 0,
    decreases n,
{
    if n > 0 {
        lemma_max_nonneg(n - 1, f);
    }
}

/// A value that does not fit 128 bits: `None`, else the value itself.
pub open spec fn fit(x: int) -> Option<u128> {
    if 0 <= x <= u128::MAX {
        Some(x as u128)
    } else {
        None
    }
}

/// Counts the predicted complexes that match some reference complex.
pub(crate) fn count_matched_predicted(
    os: &Vec<Vec<Ratio>>,
    ov: &Vec<Vec<usize>>,
    nr: usize,
    t: &Ratio,
    Ghost(p): Ghost<Seq<Set<Seq<char>>>>,
    Ghost(r): Ghost<Seq<Set<Seq<char>>>>,
) -> (c: usize)
    requires
        matrices_of(p, r, os@, ov@),
        nr == r.len(),
        t.valid(),
    ensures
        c == matched_predicted(p, r, *t),
{
    let mut c: usize = 0;
    let mut i: usize = 0;
    while i < os.len()
        invariant
            i <= p.len(),
            matrices_of(p, r, os@, ov@),
            nr == r.len(),
            t.valid(),
            c <= i,
            c == count_upto(i as int, predicted_hits(p, r, *t)),
        decreases os.len() - i,
    {
        let scores = &os[i];
        let mut found = false;
        let mut j: usize = 0;
        while j < nr
            invariant
                i < p.len(),
                j <= nr,
                nr == r.len(),
                t.valid(),
                scores == os@[i as int],
                matrices_of(p, r, os@, ov@),
                found ==> predicted_hit(p, r, *t, i as int),
                !found ==> forall|k: int| 0 <= k < j ==> !#[trigger] beats(p[i as int], r[k], *t),
            decreases nr - j,
        {
            assert(is_os_of((os@[i as int]@[j as int], ov@[i as int]@[j as int]), p[i as int], r[j as int]));
            proof {
                lemma_os_den_positive(p[i as int], r[j as int]);
            }
            if scores[j].exceeds(t) {
                assert(beats(p[i as int], r[j as int], *t));
                found = true;
                j = nr;
            } else {
                j = j + 1;
            }
        }
        if found {
            c = c + 1;
        }
        i = i + 1;
    }
    c
}

/// Counts the reference complexes that some predicted complex matches.
pub(crate) fn count_matched_reference(
    os: &Vec<Vec<Ratio>>,
    ov: &Vec<Vec<usize>>,
    nr: usize,
    t: &Ratio,
    Ghost(p): Ghost<Seq<Set<Seq<char>>>>,
    Ghost(r): Ghost<Seq<Set<Seq<char>>>>,
) -> (c: usize)
    requires
        matrices_of(p, r, os@, ov@),
        nr == r.len(),
        t.valid(),
    ensures
        c == matched_reference(p, r, *t),
{
    let mut c: usize = 0;
    let mut j: usize = 0;
    while j < nr
        invariant
            j <= nr,
            nr == r.len(),
            matrices_of(p, r, os@, ov@),
            t.valid(),
            c <= j,
            c == count_upto(j as int, reference_hits(p, r, *t)),
        decreases nr - j,
    {
        let mut found = false;
        let mut i: usize = 0;
        while i < os.len()
            invariant
                j < nr,
                nr == r.len(),
                i <= p.len(),
                t.valid(),
                matrices_of(p, r, os@, ov@),
                found ==> reference_hit(p, r, *t, j as int),
                os@.len() == p.len(),
                !found ==> forall|k: int| 0 <= k < i ==> !#[trigger] beats(p[k], r[j as int], *t),
            decreases p.len() - i,
        {
            assert(is_os_of((os@[i as int]@[j as int], ov@[i as int]@[j as int]), p[i as int], r[j as int]));
            proof {
                lemma_os_den_positive(p[i as int], r[j as int]);
            }
            if os[i][j].exceeds(t) {
                assert(beats(p[i as int], r[j as int], *t));
                found = true;
                i = os.len();
            } else {
                i = i + 1;
            }
        }
        if found {
            c = c + 1;
        }
        j = j + 1;
    }
    c
}

/// The sizes of the reference complexes, summed, where the sum fits.
pub(crate) fn sum_sizes(refs: &Vec<Complex>) -> (s: Option<u128>)
    ensures
        s == fit(sn_den(views(refs@))),
{
    let ghost r = views(refs@);
    let mut acc: u128 = 0;
    let mut j: usize = 0;
    while j < refs.len()
        invariant
            j <= refs@.len(),
            r == views(refs@),
            acc == sum_upto(j as int, sizes(r)),
        decreases refs.len() - j,
    {
        let size = refs[j].size();
        match acc.checked_add(size as u128) {
            Some(v) => {
                acc = v;
            },
            None => {
                proof {
                    lemma_sum_mono(r.len() as int, j + 1, sizes(r));
                }
                return None;
            },
        }
        j = j + 1;
    }
    Some(acc)
}

/// The largest entry of column `j` of the overlap matrix.
fn column_max(
    os: &Vec<Vec<Ratio>>,
    ov: &Vec<Vec<usize>>,
    j: usize,
    Ghost(p): Ghost<Seq<Set<Seq<char>>>>,
    Ghost(r): Ghost<Seq<Set<Seq<char>>>>,
) -> (m: usize)
    requires
        matrices_of(p, r, os@, ov@),
        j < r.len(),
    ensures
        m == max_upto(p.len() as int, column(p, r, j as int)),
{
    let mut m: usize = 0;
    let mut i: usize = 0;
    while i < ov.len()
        invariant
            i <= p.len(),
            j < r.len(),
            matrices_of(p, r, os@, ov@),
            m == max_upto(i as int, column(p, r, j as int)),
        decreases p.len() - i,
    {
        assert(is_os_of((os@[i as int]@[j as int], ov@[i as int]@[j as int]), p[i as int], r[j as int]));
        if ov[i][j] > m {
            m = ov[i][j];
        }
        i = i + 1;
    }
    m
}

/// The largest entry of row `i` of the overlap matrix.
fn row_max(
    os: &Vec<Vec<Ratio>>,
    ov: &Vec<Vec<usize>>,
    i: usize,
    nr: usize,
    Ghost(p): Ghost<Seq<Set<Seq<char>>>>,
    Ghost(r): Ghost<Seq<Set<Seq<char>>>>,
) -> (m: usize)
    requires
        matrices_of(p, r, os@, ov@),
        i < p.len(),
        nr == r.len(),
    ensures
        m == max_upto(r.len() as int, row(p, r, i as int)),
{
    let mut m: usize = 0;
    let mut j: usize = 0;
    while j < nr
        invariant
            i < p.len(),
            j <= nr,
            nr == r.len(),
            matrices_of(p, r, os@, ov@),
            m == max_upto(j as int, row(p, r, i as int)),
        decreases nr - j,
    {
        assert(is_os_of((os@[i as int]@[j as int], ov@[i as int]@[j as int]), p[i as int], r[j as int]));
        if ov[i][j] > m {
            m = ov[i][j];
        }
        j = j + 1;
    }
    m
}

/// The entries of row `i` of the overlap matrix, summed.
fn row_sum(
    os: &Vec<Vec<Ratio>>,
    ov: &Vec<Vec<usize>>,
    i: usize,
    nr: usize,
    Ghost(p): Ghost<Seq<Set<Seq<char>>>>,
    Ghost(r): Ghost<Seq<Set<Seq<char>>>>,
) -> (s: Option<u128>)
    requires
        matrices_of(p, r, os@, ov@),
        i < p.len(),
        nr == r.len(),
    ensures
        s == fit(sum_upto(r.len() as int, row(p, r, i as int))),
{
    let mut acc: u128 = 0;
    let mut j: usize = 0;
    while j < nr
        invariant
            i < p.len(),
            j <= nr,
            nr == r.len(),
            matrices_of(p, r, os@, ov@),
            acc == sum_upto(j as int, row(p, r, i as int)),
        decreases nr - j,
    {
        assert(is_os_of((os@[i as int]@[j as int], ov@[i as int]@[j as int]), p[i as int], r[j as int]));
        match acc.checked_add(ov[i][j] as u128) {
            Some(v) => {
                acc = v;
            },
            None => {
                proof {
                    lemma_sum_mono(r.len() as int, j + 1, row(p, r, i as int));
                }
                return None;
            },
        }
        j = j + 1;
    }
    Some(acc)
}

/// Numerator of the sensitivity, where it fits.
pub(crate) fn sum_column_maxima(
    os: &Vec<Vec<Ratio>>,
    ov: &Vec<Vec<usize>>,
    nr: usize,
    Ghost(p): Ghost<Seq<Set<Seq<char>>>>,
    Ghost(r): Ghost<Seq<Set<Seq<char>>>>,
) -> (s: Option<u128>)
    requires
        matrices_of(p, r, os@, ov@),
        nr == r.len(),
    ensures
        s == fit(sn_num(p, r)),
{
    let mut acc: u128 = 0;
    let mut j: usize = 0;
    while j < nr
        invariant
            j <= nr,
            nr == r.len(),
            matrices_of(p, r, os@, ov@),
            acc == sum_upto(j as int, column_maxima(p, r)),
        decreases nr - j,
    {
        let m = column_max(os, ov, j, Ghost(p), Ghost(r));
        match acc.checked_add(m as u128) {
            Some(v) => {
                acc = v;
            },
            None => {
                proof {
                    assert forall|k: int| 0 <= k < r.len() implies #[trigger] column_maxima(p, r)(k) >= 0 by {
                        lemma_max_nonneg(p.len() as int, column(p, r, k));
                    }
                    lemma_sum_mono(r.len() as int, j + 1, column_maxima(p, r));
                }
                return None;
            },
        }
        j = j + 1;
    }
    Some(acc)
}

/// Numerator of the positive predictive value, where it fits.
pub(crate) fn sum_row_maxima(
    os: &Vec<Vec<Ratio>>,
    ov: &Vec<Vec<usize>>,
    nr: usize,
    Ghost(p): Ghost<Seq<Set<Seq<char>>>>,
    Ghost(r): Ghost<Seq<Set<Seq<char>>>>,
) -> (s: Option<u128>)
    requires
        matrices_of(p, r, os@, ov@),
        nr == r.len(),
    ensures
        s == fit(ppv_num(p, r)),
{
    let mut acc: u128 = 0;
    let mut i: usize = 0;
    while i < ov.len()
        invariant
            i <= p.len(),
            nr == r.len(),
            matrices_of(p, r, os@, ov@),
            acc == sum_upto(i as int, row_maxima(p, r)),
        decreases p.len() - i,
    {
        let m = row_max(os, ov, i, nr, Ghost(p), Ghost(r));
        match acc.checked_add(m as u128) {
            Some(v) => {
                acc = v;
            },
            None => {
                proof {
                    assert forall|k: int| 0 <= k < p.len() implies #[trigger] row_maxima(p, r)(k) >= 0 by {
                        lemma_max_nonneg(r.len() as int, row(p, r, k));
                    }
                    lemma_sum_mono(p.len() as int, i + 1, row_maxima(p, r));
                }
                return None;
            },
        }
        i = i + 1;
    }
    Some(acc)
}

/// Every entry of the overlap matrix, summed, where the sum fits.
pub(crate) fn sum_entries(
    os: &Vec<Vec<Ratio>>,
    ov: &Vec<Vec<usize>>,
    nr: usize,
    Ghost(p): Ghost<Seq<Set<Seq<char>>>>,
    Ghost(r): Ghost<Seq<Set<Seq<char>>>>,
) -> (s: Option<u128>)
    requires
        matrices_of(p, r, os@, ov@),
        nr == r.len(),
    ensures
        s == fit(ppv_den(p, r)),
{
    let mut acc: u128 = 0;
    let mut i: usize = 0;
    proof {
        assert forall|k: int| 0 <= k < p.len() implies #[trigger] row_sums(p, r)(k) >= 0 by {
            lemma_sum_mono(r.len() as int, 0, row(p, r, k));
        }
    }
    while i < ov.len()
        invariant
            i <= p.len(),
            nr == r.len(),
            matrices_of(p, r, os@, ov@),
            acc == sum_upto(i as int, row_sums(p, r)),
            forall|k: int| 0 <= k < p.len() ==> #[trigger] row_sums(p, r)(k) >= 0,
        decreases p.len() - i,
    {
        match row_sum(os, ov, i, nr, Ghost(p), Ghost(r)) {
            Some(s) => match acc.checked_add(s) {
                Some(v) => {
                    acc = v;
                },
                None => {
                    proof {
                        lemma_sum_mono(p.len() as int, i + 1, row_sums(p, r));
                    }
                    return None;
                },
            },
            None => {
                proof {
                    lemma_sum_mono(p.len() as int, i + 1, row_sums(p, r));
                    lemma_sum_mono(i as int, 0, row_sums(p, r));
                }
                return None;
            },
        }
        i = i + 1;
    }
    Some(acc)
}

/// The F-measure `2 mp mr / (mp nr + mr np)` of precision `mp / np` and
/// recall `mr / nr`, where both parts fit.
pub(crate) fn harmonic(mp: usize, np: usize, mr: usize, nr: usize) -> (f: Option<Ratio>)
    ensures
        f == (if fit(f_num(mp as int, mr as int)) is Some && fit(
            f_den(mp as int, np as int, mr as int, nr as int),
        ) is Some {
            Some(
                Ratio {
                    num: f_num(mp as int, mr as int) as u128,
                    den: f_den(mp as int, np as int, mr as int, nr as int) as u128,
                },
            )
        } else {
            None
        }),
{
    let (a, b, c, d) = (mp as u128, np as u128, mr as u128, nr as u128);
    let num = match a.checked_mul(c) {
        Some(x) => x.checked_mul(2),
        None => None,
    };
    let den = match (a.checked_mul(d), c.checked_mul(b)) {
        (Some(x), Some(y)) => x.checked_add(y),
        _ => None,
    };
    proof {
        if num is None {
            assert(2 * (a * c) > u128::MAX) by (nonlinear_arith)
                requires a * c > u128::MAX || 2 * (a * c) > u128::MAX;
        }
        if den is None {
            assert(a * d + c * b > u128::MAX) by (nonlinear_arith)
                requires
                    a * d > u128::MAX || c * b > u128::MAX || a * d + c * b > u128::MAX,
                    a >= 0, b >= 0, c >= 0, d >= 0;
        }
        assert(2 * mp * mr == 2 * (a * c)) by (nonlinear_arith)
            requires a == mp, c == mr;
    }
    match (num, den) {
        (Some(x), Some(y)) => Some(Ratio { num: x, den: y }),
        _ => None,
    }
}

/// Each metric that is defined lies in `[0, 1]`, and so does `sn * ppv`,
/// the square of the accuracy.
pub proof fn lemma_metrics_bounded(pre: Seq<Complex>, refs: Seq<Complex>, t: Ratio)
    requires
        pre.len() <= usize::MAX,
        refs.len() <= usize::MAX,
        index_spec(views(pre), views(refs), t) is Ok,
    ensures
        ({
            let m = index_spec(views(pre), views(refs), t)->Ok_0;
            &&& m.precision.in_unit()
            &&& m.recall.in_unit()
            &&& m.sn matches Some(sn) ==> sn.in_unit()
            &&& m.ppv matches Some(ppv) ==> ppv.in_unit()
            &&& (m.sn is Some && m.ppv is Some) ==> (m.sn->0).num * (m.ppv->0).num <= (m.sn->0).den
                * (m.ppv->0).den
            &&& m.f_measure matches Some(f) ==> f.in_unit()
        }),
{
    let p = views(pre);
    let r = views(refs);
    assert forall|i: int| 0 <= i < p.len() implies #[trigger] p[i].finite() by {
        pre[i].lemma_finite();
    }
    assert forall|j: int| 0 <= j < r.len() implies #[trigger] r[j].finite() by {
        refs[j].lemma_finite();
    }
    lemma_parts_bounded(p, r, t);
    let m = index_spec(p, r, t)->Ok_0;
    if m.sn is Some && m.ppv is Some {
        let (a, b, c, d) = (sn_num(p, r), sn_den(r), ppv_num(p, r), ppv_den(p, r));
        assert(a * c <= b * d) by (nonlinear_arith)
            requires 0 <= a <= b, 0 <= c <= d;
    }
    let (mp, np, mr, nr) = (
        matched_predicted(p, r, t) as int,
        p.len() as int,
        matched_reference(p, r, t) as int,
        r.len() as int,
    );
    if mp + mr > 0 {
        assert(0 <= 2 * mp * mr <= mp * nr + mr * np && mp * nr + mr * np > 0) by (nonlinear_arith)
            requires 0 <= mp <= np, 0 <= mr <= nr, mp + mr > 0, np > 0, nr > 0;
    }
}

} // verus!
