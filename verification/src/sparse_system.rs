//! Linear system around a preprocessed sparse matrix, solved by a
//! diagonally-preconditioned fixed-point iteration.
//!
//! The update rule reads the whole previous iterate before writing any new
//! component (a Jacobi-style sweep, which is what makes the row-parallel
//! update safe), with truncating integer division by the row's diagonal.
//! A strict diagonal-dominance precheck guards the iteration.

use crate::sparse_matrix::ENTRY_CAP;
use crate::sparse_matrix::SUM_BOUND;
use crate::sparse_matrix::TERM_BOUND;
use crate::sparse_matrix::SparseEntry;
use crate::sparse_matrix::SparseMatrix;
use crate::sparse_matrix::VAL_BOUND;
use crate::sparse_matrix::entries_bounded;
use crate::sparse_matrix::row_sum;
use crate::numeric::abs_i;
use crate::numeric::in_i64;
use crate::numeric::lemma_trunc_div_bound;
use crate::numeric::to_ints;
use crate::numeric::trunc_div;
use rayon::iter::IntoParallelIterator;
use rayon::iter::ParallelIterator;
use vstd::prelude::*;

verus! {

/// Largest magnitude a single residual component may have for the squared
/// residual norm to be reported exactly.
pub const RESIDUAL_BOUND: i128 = 1152921504606846976;

/// Largest squared residual norm that is reported exactly; a tolerance
/// must lie below this bound so that the convergence test is decidable.
pub const NORM_BOUND: i128 = 1152921504606846976i128 * 1152921504606846976i128;

/// The value of the last diagonal entry of row `r` in entry-list order, or
/// zero when row `r` has no diagonal entry. A later duplicate overrides an
/// earlier one, matching how the solver reads the diagonal.
pub open spec fn diag_of(s: Seq<SparseEntry>, r: int) -> int
    decreases s.len(),
{
    if s.len() == 0 {
        0
    } else if s.last().row == r && s.last().col == r {
        s.last().value as int
    } else {
        diag_of(s.drop_last(), r)
    }
}

/// Sum of the absolute values of the off-diagonal entries of row `r`.
pub open spec fn off_abs_sum(s: Seq<SparseEntry>, r: int) -> int
    decreases s.len(),
{
    if s.len() == 0 {
        0
    } else {
        off_abs_sum(s.drop_last(), r) + if s.last().row == r && s.last().col != r {
            abs_i(s.last().value as int)
        } else {
            0
        }
    }
}

/// Row-wise diagonal dominance: in every row the diagonal magnitude is at
/// least the sum of the off-diagonal magnitudes. This is the solver's
/// strict precondition for iterating.
pub open spec fn diag_dominant(m: SparseMatrix) -> bool {
    forall|r: int|
        0 <= r < m.n_rows ==> abs_i(#[trigger] diag_of(m.entries@, r)) >= off_abs_sum(
            m.entries@,
            r,
        )
}

/// Every row has a nonzero diagonal to divide by.
pub open spec fn has_full_diagonal(m: SparseMatrix) -> bool {
    forall|r: int| 0 <= r < m.n_rows ==> #[trigger] diag_of(m.entries@, r) != 0
}

/// Exact sum of `value * x[col]` over the off-diagonal entries of row `r`.
pub open spec fn off_row_sum(s: Seq<SparseEntry>, x: Seq<int>, r: int) -> int
    decreases s.len(),
{
    if s.len() == 0 {
        0
    } else {
        off_row_sum(s.drop_last(), x, r) + if s.last().row == r && s.last().col != r {
            (s.last().value as int) * x[s.last().col as int]
        } else {
            0
        }
    }
}

/// Exact sum of `value * x[col]` over all entries of row `r`, with the
/// input vector given as unbounded integers.
pub open spec fn row_sum_int(s: Seq<SparseEntry>, x: Seq<int>, r: int) -> int
    decreases s.len(),
{
    if s.len() == 0 {
        0
    } else {
        row_sum_int(s.drop_last(), x, r) + if s.last().row == r {
            (s.last().value as int) * x[s.last().col as int]
        } else {
            0
        }
    }
}

/// Squared residual norm accumulated over the first `k` rows.
pub open spec fn norm2_upto(m: SparseMatrix, b: Seq<i64>, x: Seq<int>, k: int) -> int
    decreases k,
{
    if k <= 0 {
        0
    } else {
        let d = row_sum_int(m.entries@, x, k - 1) - b[k - 1];
        norm2_upto(m, b, x, k - 1) + d * d
    }
}

/// Squared residual norm of `A x - b` over all rows.
pub open spec fn norm2(m: SparseMatrix, b: Seq<i64>, x: Seq<int>) -> int {
    norm2_upto(m, b, x, m.n_rows as int)
}

/// One sweep of the iteration: every component is recomputed from the
/// whole previous iterate, as `(b[r] - off-diagonal row sum) / diagonal`
/// with truncating division.
pub open spec fn jacobi_next(m: SparseMatrix, b: Seq<i64>, x: Seq<int>) -> Seq<int> {
    Seq::new(
        m.n_rows as nat,
        |r: int| trunc_div(b[r] - off_row_sum(m.entries@, x, r), diag_of(m.entries@, r)),
    )
}

/// The iterate after `k` sweeps from the initial guess `x0`.
pub open spec fn iter_vec(m: SparseMatrix, b: Seq<i64>, x0: Seq<i64>, k: nat) -> Seq<int>
    decreases k,
{
    if k == 0 {
        to_ints(x0)
    } else {
        jacobi_next(m, b, iter_vec(m, b, x0, (k - 1) as nat))
    }
}

/// Every iterate up to sweep `t` stays inside the `i64` range.
pub open spec fn iters_in_range(m: SparseMatrix, b: Seq<i64>, x0: Seq<i64>, t: nat) -> bool {
    forall|j: nat| 1 <= j <= t ==> in_i64(#[trigger] iter_vec(m, b, x0, j))
}

/// The iterate after `t` sweeps meets the tolerance.
pub open spec fn converged_at(
    m: SparseMatrix,
    b: Seq<i64>,
    x0: Seq<i64>,
    tol: int,
    t: nat,
) -> bool {
    norm2(m, b, iter_vec(m, b, x0, t)) < tol
}

/// The solve inputs have consistent dimensions: a square matrix whose row
/// count matches both the right-hand side and the initial guess.
pub open spec fn solve_valid_dims(m: SparseMatrix, b: Seq<i64>, x0: Seq<i64>) -> bool {
    &&& x0.len() == m.n_rows
    &&& b.len() == m.n_rows
    &&& m.n_cols == m.n_rows
}

/// Outcome record of one solve attempt.
pub struct SolverResult {
    pub solution: Option<Vec<i64>>,
    pub converged: bool,
    pub diagonal_dominance: Option<bool>,
    pub iters: usize,
    pub tol: i128,
    pub max_iters_reached: bool,
    pub error: Option<i128>,
    pub message: String,
}

/// Everything `gauss_seidel_solve` promises, case by case: rejected
/// dimensions; failed dominance precheck; a zero diagonal; convergence at
/// the first sweep that meets the tolerance; the next iterate leaving the
/// fixed-point range; or the sweep budget running out (in which case
/// `converged` is false, deliberately: the tolerance was not met).
pub open spec fn solver_post(
    m: SparseMatrix,
    b: Seq<i64>,
    x0: Seq<i64>,
    tol: int,
    max_iters: nat,
    res: SolverResult,
) -> bool {
    &&& res.tol == tol
    &&& if !solve_valid_dims(m, b, x0) {
        &&& res.solution is None
        &&& !res.converged
        &&& res.diagonal_dominance is None
        &&& res.iters == 0
        &&& !res.max_iters_reached
        &&& res.error is None
    } else if !diag_dominant(m) {
        &&& res.solution is None
        &&& !res.converged
        &&& res.diagonal_dominance == Some(false)
        &&& res.iters == 0
        &&& !res.max_iters_reached
        &&& res.error is None
    } else if !has_full_diagonal(m) {
        &&& res.solution is None
        &&& !res.converged
        &&& res.diagonal_dominance == Some(true)
        &&& res.iters == 0
        &&& !res.max_iters_reached
        &&& res.error is None
    } else {
        &&& res.diagonal_dominance == Some(true)
        &&& if res.converged {
            &&& 1 <= res.iters <= max_iters
            &&& iters_in_range(m, b, x0, res.iters as nat)
            &&& converged_at(m, b, x0, tol, res.iters as nat)
            &&& forall|t: nat| 1 <= t < res.iters ==> !converged_at(m, b, x0, tol, t)
            &&& res.solution is Some
            &&& to_ints(res.solution->0@) == iter_vec(m, b, x0, res.iters as nat)
            &&& !res.max_iters_reached
            &&& res.error == Some(norm2(m, b, iter_vec(m, b, x0, res.iters as nat)) as i128)
        } else if res.max_iters_reached {
            &&& res.iters == max_iters
            &&& iters_in_range(m, b, x0, max_iters)
            &&& forall|t: nat| 1 <= t <= max_iters ==> !converged_at(m, b, x0, tol, t)
            &&& res.solution is Some
            &&& to_ints(res.solution->0@) == iter_vec(m, b, x0, max_iters)
            &&& if norm2(m, b, iter_vec(m, b, x0, max_iters)) <= NORM_BOUND {
                res.error == Some(norm2(m, b, iter_vec(m, b, x0, max_iters)) as i128)
            } else {
                res.error is None
            }
        } else {
            &&& res.iters < max_iters
            &&& iters_in_range(m, b, x0, res.iters as nat)
            &&& forall|t: nat| 1 <= t <= res.iters ==> !converged_at(m, b, x0, tol, t)
            &&& !in_i64(iter_vec(m, b, x0, (res.iters + 1) as nat))
            &&& res.solution is None
            &&& res.error is None
        }
    }
}

/// The next component the sweep writes for a row with right-hand side
/// `b`, off-diagonal sum `s` and diagonal `d`: the truncated quotient, or
/// nothing when it leaves the `i64` range.
pub open spec fn update_spec(b: i64, s: i128, d: i64) -> Option<i64> {
    let q = trunc_div(b - s, d as int);
    if i64::MIN <= q <= i64::MAX {
        Some(q as i64)
    } else {
        None
    }
}

/// Bound on the magnitude of a per-row sum of absolute coefficient values
/// (`ENTRY_CAP` times `VAL_BOUND`).
pub const OFFSUM_BOUND: i128 = 1073741824i128 * 2147483648i128;

/// The per-row sums of an `i64` vector agree with those of its unbounded
/// integer view.
proof fn lemma_row_sum_ints(s: Seq<SparseEntry>, x: Seq<i64>, r: int)
    requires
        forall|i: int| #![trigger s[i]] 0 <= i < s.len() ==> s[i].col < x.len(),
    ensures
        row_sum(s, x, r) == row_sum_int(s, to_ints(x), r),
    decreases s.len(),
{
    if s.len() > 0 {
        assert(forall|i: int|
            #![trigger s.drop_last()[i]]
            0 <= i < s.drop_last().len() ==> s.drop_last()[i].col < x.len());
        lemma_row_sum_ints(s.drop_last(), x, r);
    }
}

/// The off-diagonal sum of any row, against an `i64`-ranged vector, stays
/// within `SUM_BOUND`.
proof fn lemma_off_row_sum_bound(s: Seq<SparseEntry>, x: Seq<int>, r: int)
    requires
        entries_bounded(s),
        s.len() <= ENTRY_CAP,
        in_i64(x),
        forall|i: int| #![trigger s[i]] 0 <= i < s.len() ==> s[i].col < x.len(),
    ensures
        -((s.len() as int) * (TERM_BOUND as int)) <= off_row_sum(s, x, r) <= (s.len() as int) * (
        TERM_BOUND as int),
        -SUM_BOUND <= off_row_sum(s, x, r) <= SUM_BOUND,
    decreases s.len(),
{
    if s.len() == 0 {
        assert((s.len() as int) * (TERM_BOUND as int) == 0) by (nonlinear_arith)
            requires
                s.len() == 0,
        ;
        assert(SUM_BOUND as int >= 0) by (nonlinear_arith)
            requires
                SUM_BOUND == 1073741824i128 * 2147483648i128 * 9223372036854775808i128,
        ;
    } else {
        assert(forall|i: int|
            #![trigger s.drop_last()[i]]
            0 <= i < s.drop_last().len() ==> s.drop_last()[i].col < x.len() && -VAL_BOUND
                <= s.drop_last()[i].value <= VAL_BOUND);
        lemma_off_row_sum_bound(s.drop_last(), x, r);
        let last = s[s.len() - 1];
        assert(-VAL_BOUND <= last.value <= VAL_BOUND);
        let prev = off_row_sum(s.drop_last(), x, r);
        let t: int = if last.row == r && last.col != r {
            (last.value as int) * x[last.col as int]
        } else {
            0
        };
        assert(i64::MIN <= x[last.col as int] <= i64::MAX);
        assert(-(TERM_BOUND as int) <= (last.value as int) * x[last.col as int] <= TERM_BOUND as int)
            by (nonlinear_arith)
            requires
                -VAL_BOUND <= last.value <= VAL_BOUND,
                VAL_BOUND == 2147483648i64,
                i64::MIN <= x[last.col as int] <= i64::MAX,
                TERM_BOUND == 2147483648i128 * 9223372036854775808i128,
        ;
        assert(-((s.len() as int) * (TERM_BOUND as int)) <= prev + t <= (s.len() as int) * (
        TERM_BOUND as int) && -(SUM_BOUND as int) <= prev + t <= SUM_BOUND as int)
            by (nonlinear_arith)
            requires
                -(((s.len() - 1) as int) * (TERM_BOUND as int)) <= prev <= ((s.len()
                    - 1) as int) * (TERM_BOUND as int),
                -(TERM_BOUND as int) <= t <= TERM_BOUND as int,
                1 <= s.len() <= ENTRY_CAP as int,
                ENTRY_CAP == 1073741824usize,
                TERM_BOUND == 2147483648i128 * 9223372036854775808i128,
                SUM_BOUND == 1073741824i128 * 2147483648i128 * 9223372036854775808i128,
        ;
    }
}

/// The sum of off-diagonal magnitudes of any row stays within
/// `OFFSUM_BOUND`.
proof fn lemma_off_abs_sum_bound(s: Seq<SparseEntry>, r: int)
    requires
        entries_bounded(s),
        s.len() <= ENTRY_CAP,
    ensures
        0 <= off_abs_sum(s, r) <= (s.len() as int) * (VAL_BOUND as int),
        off_abs_sum(s, r) <= OFFSUM_BOUND,
    decreases s.len(),
{
    if s.len() == 0 {
        assert((s.len() as int) * (VAL_BOUND as int) == 0) by (nonlinear_arith)
            requires
                s.len() == 0,
        ;
    } else {
        assert(forall|i: int|
            #![trigger s.drop_last()[i]]
            0 <= i < s.drop_last().len() ==> -VAL_BOUND <= s.drop_last()[i].value <= VAL_BOUND);
        lemma_off_abs_sum_bound(s.drop_last(), r);
        let last = s[s.len() - 1];
        assert(-VAL_BOUND <= last.value <= VAL_BOUND);
        let prev = off_abs_sum(s.drop_last(), r);
        let t: int = if last.row == r && last.col != r {
            abs_i(last.value as int)
        } else {
            0
        };
        assert(0 <= prev + t <= (s.len() as int) * (VAL_BOUND as int) && prev + t
            <= OFFSUM_BOUND as int) by (nonlinear_arith)
            requires
                0 <= prev <= ((s.len() - 1) as int) * (VAL_BOUND as int),
                0 <= t <= VAL_BOUND as int,
                1 <= s.len() <= ENTRY_CAP as int,
                ENTRY_CAP == 1073741824usize,
                VAL_BOUND == 2147483648i64,
                OFFSUM_BOUND == 1073741824i128 * 2147483648i128,
        ;
    }
}

/// The diagonal value of any row of a value-bounded entry list is itself
/// bounded.
proof fn lemma_diag_of_bound(s: Seq<SparseEntry>, r: int)
    requires
        entries_bounded(s),
    ensures
        -VAL_BOUND <= diag_of(s, r) <= VAL_BOUND,
    decreases s.len(),
{
    if s.len() > 0 {
        assert(-VAL_BOUND <= s[s.len() - 1].value <= VAL_BOUND);
        assert(forall|i: int|
            #![trigger s.drop_last()[i]]
            0 <= i < s.drop_last().len() ==> -VAL_BOUND <= s.drop_last()[i].value <= VAL_BOUND);
        lemma_diag_of_bound(s.drop_last(), r);
    }
}

/// The accumulated squared residual norm is nonnegative.
proof fn lemma_norm2_nonneg(m: SparseMatrix, b: Seq<i64>, x: Seq<int>, k: int)
    ensures
        0 <= norm2_upto(m, b, x, k),
    decreases k,
{
    if k > 0 {
        lemma_norm2_nonneg(m, b, x, k - 1);
        let d = row_sum_int(m.entries@, x, k - 1) - b[k - 1];
        assert(d * d >= 0) by (nonlinear_arith);
    }
}

/// The accumulated squared residual norm grows with the number of rows
/// taken.
proof fn lemma_norm2_mono(m: SparseMatrix, b: Seq<i64>, x: Seq<int>, k1: int, k2: int)
    requires
        0 <= k1 <= k2,
    ensures
        norm2_upto(m, b, x, k1) <= norm2_upto(m, b, x, k2),
    decreases k2 - k1,
{
    if k1 < k2 {
        lemma_norm2_mono(m, b, x, k1, k2 - 1);
        let d = row_sum_int(m.entries@, x, k2 - 1) - b[k2 - 1];
        assert(d * d >= 0) by (nonlinear_arith);
    }
}

/// Computes one component of the sweep from plain values, exactly as
/// `update_spec` says.
fn update_row(b: i64, s: i128, d: i64) -> (res: Option<i64>)
    requires
        d != 0,
        -SUM_BOUND <= s <= SUM_BOUND,
    ensures
        res == update_spec(b, s, d),
{
    let t: i128 = (b as i128) - s;
    proof {
        lemma_trunc_div_bound(t as int, d as int);
    }
    match t.checked_div(d as i128) {
        Some(v) => {
            if i64::MIN as i128 <= v && v <= i64::MAX as i128 {
                Some(v as i64)
            } else {
                None
            }
        },
        None => None,
    }
}

/// Relies on rayon's parallel iterator over the row indices: `map`
/// applies the verified `update_row` to each row's right-hand side,
/// off-diagonal sum and diagonal, and `collect` returns the results in
/// row order, one per row. This is the row-parallel sweep update; each
/// row writes only its own output slot.
#[verifier::external_body]
fn par_update(column: &Vec<i64>, sums: &Vec<i128>, diag: &Vec<i64>) -> (res: Vec<Option<i64>>)
    requires
        sums@.len() == column@.len(),
        diag@.len() == column@.len(),
        forall|i: int| 0 <= i < diag@.len() ==> #[trigger] diag@[i] != 0,
        forall|i: int| 0 <= i < sums@.len() ==> -SUM_BOUND <= #[trigger] sums@[i] <= SUM_BOUND,
    ensures
        res@.len() == column@.len(),
        forall|i: int|
            0 <= i < res@.len() ==> #[trigger] res@[i] == update_spec(
                column@[i],
                sums@[i],
                diag@[i],
            ),
{
    (0..column.len()).into_par_iter().map(|i| update_row(column[i], sums[i], diag[i])).collect()
}

/// Executable absolute value for coefficient-range inputs.
fn abs64(v: i64) -> (r: i64)
    requires
        v > i64::MIN,
    ensures
        r as int == abs_i(v as int),
{
    if v < 0 {
        -v
    } else {
        v
    }
}

/// The per-row diagonal values of a preprocessed matrix: the last diagonal
/// entry of each row, or zero where a row has none.
fn diagonal_by_row(m: &SparseMatrix) -> (res: Vec<i64>)
    requires
        m.wf(),
    ensures
        res@.len() == m.n_rows,
        forall|r: int| 0 <= r < m.n_rows ==> #[trigger] res@[r] as int == diag_of(m.entries@, r),
{
    let n_rows = m.n_rows;
    let mut res: Vec<i64> = Vec::with_capacity(n_rows);
    let mut k: usize = 0;
    while k < n_rows
        invariant
            k <= n_rows,
            res@.len() == k,
            forall|r: int| 0 <= r < k ==> #[trigger] res@[r] == 0,
        decreases n_rows - k,
    {
        res.push(0);
        k = k + 1;
    }
    let n = m.entries.len();
    let mut i: usize = 0;
    proof {
        assert forall|r: int| 0 <= r < n_rows implies #[trigger] res@[r] as int == diag_of(
            m.entries@.take(0),
            r,
        ) by {
            assert(m.entries@.take(0) =~= Seq::<SparseEntry>::empty());
        }
    }
    while i < n
        invariant
            m.wf(),
            n == m.entries@.len(),
            n_rows == m.n_rows,
            i <= n,
            res@.len() == n_rows,
            forall|r: int|
                0 <= r < n_rows ==> #[trigger] res@[r] as int == diag_of(
                    m.entries@.take(i as int),
                    r,
                ),
        decreases n - i,
    {
        let e = m.entries[i];
        if e.row == e.col {
            res.set(e.row, e.value);
        }
        proof {
            assert(m.entries@.take(i + 1).drop_last() =~= m.entries@.take(i as int));
            assert(m.entries@.take(i + 1).last() == m.entries@[i as int]);
        }
        i = i + 1;
    }
    proof {
        assert(m.entries@.take(n as int) =~= m.entries@);
    }
    res
}

/// The per-row sums of off-diagonal magnitudes of a preprocessed matrix.
fn off_abs_by_row(m: &SparseMatrix) -> (res: Vec<i128>)
    requires
        m.wf(),
    ensures
        res@.len() == m.n_rows,
        forall|r: int| 0 <= r < m.n_rows ==> #[trigger] res@[r] as int == off_abs_sum(
            m.entries@,
            r,
        ),
{
    let n_rows = m.n_rows;
    let mut res: Vec<i128> = Vec::with_capacity(n_rows);
    let mut k: usize = 0;
    while k < n_rows
        invariant
            k <= n_rows,
            res@.len() == k,
            forall|r: int| 0 <= r < k ==> #[trigger] res@[r] == 0,
        decreases n_rows - k,
    {
        res.push(0);
        k = k + 1;
    }
    let n = m.entries.len();
    let mut i: usize = 0;
    proof {
        assert forall|r: int| 0 <= r < n_rows implies #[trigger] res@[r] as int == off_abs_sum(
            m.entries@.take(0),
            r,
        ) by {
            assert(m.entries@.take(0) =~= Seq::<SparseEntry>::empty());
        }
    }
    while i < n
        invariant
            m.wf(),
            n == m.entries@.len(),
            n_rows == m.n_rows,
            i <= n,
            res@.len() == n_rows,
            forall|r: int|
                0 <= r < n_rows ==> #[trigger] res@[r] as int == off_abs_sum(
                    m.entries@.take(i as int),
                    r,
                ),
        decreases n - i,
    {
        let e = m.entries[i];
        proof {
            assert(m.entries@[i as int].row < m.n_rows && -VAL_BOUND <= m.entries@[i as int].value
                <= VAL_BOUND);
            assert(entries_bounded(m.entries@.take(i as int))) by {
                assert forall|t: int|
                    0 <= t < i implies -VAL_BOUND <= #[trigger] m.entries@.take(
                    i as int)[t].value <= VAL_BOUND by {
                    assert(m.entries@.take(i as int)[t] == m.entries@[t]);
                    assert(-VAL_BOUND <= m.entries@[t].value <= VAL_BOUND);
                }
            }
            lemma_off_abs_sum_bound(m.entries@.take(i as int), e.row as int);
        }
        if e.row != e.col {
            let a = abs64(e.value);
            let cur = res[e.row];
            res.set(e.row, cur + (a as i128));
        }
        proof {
            assert(m.entries@.take(i + 1).drop_last() =~= m.entries@.take(i as int));
            assert(m.entries@.take(i + 1).last() == m.entries@[i as int]);
        }
        i = i + 1;
    }
    proof {
        assert(m.entries@.take(n as int) =~= m.entries@);
    }
    res
}

/// A linear system `A x = b` over a preprocessed coefficient matrix.
pub struct SparseSystem<'a> {
    pub coefficients: &'a SparseMatrix,
    pub column: &'a Vec<i64>,
}

impl<'a> SparseSystem<'a> {
    /// Couples a coefficient matrix with a right-hand-side column.
    pub fn new(matrix: &'a SparseMatrix, column: &'a Vec<i64>) -> (s: SparseSystem<'a>)
        ensures
            s.coefficients == matrix,
            s.column == column,
    {
        SparseSystem { coefficients: matrix, column }
    }

    /// Exact squared residual norm of `A x - b`: the value itself when it
    /// is within `NORM_BOUND`, and nothing when it exceeds it.
    pub fn error_sq(&self, x: &Vec<i64>) -> (res: Option<i128>)
        requires
            self.coefficients.wf(),
            x@.len() == self.coefficients.n_cols,
            self.column@.len() == self.coefficients.n_rows,
        ensures
            match res {
                Some(v) => v as int == norm2(*self.coefficients, self.column@, to_ints(x@)) && v
                    <= NORM_BOUND,
                None => norm2(*self.coefficients, self.column@, to_ints(x@)) > NORM_BOUND,
            },
    {
        let m = self.coefficients;
        let n_rows = m.n_rows;
        let mut acc: i128 = 0;
        let mut r: usize = 0;
        while r < n_rows
            invariant
                m == self.coefficients,
                m.wf(),
                x@.len() == m.n_cols,
                self.column@.len() == m.n_rows,
                n_rows == m.n_rows,
                r <= n_rows,
                acc as int == norm2_upto(*m, self.column@, to_ints(x@), r as int),
                0 <= acc <= NORM_BOUND,
            decreases n_rows - r,
        {
            let s = m.row_product(x, r);
            proof {
                crate::sparse_matrix::lemma_row_sum_bound(m.entries@, x@, r as int);
                lemma_row_sum_ints(m.entries@, x@, r as int);
            }
            let d: i128 = s - (self.column[r] as i128);
            let ghost dz = row_sum_int(m.entries@, to_ints(x@), r as int) - self.column@[r as int];
            if d < -RESIDUAL_BOUND || d > RESIDUAL_BOUND {
                proof {
                    assert(dz * dz > NORM_BOUND as int) by (nonlinear_arith)
                        requires
                            dz == d as int,
                            d < -RESIDUAL_BOUND || d > RESIDUAL_BOUND,
                            RESIDUAL_BOUND == 1152921504606846976i128,
                            NORM_BOUND == 1152921504606846976i128 * 1152921504606846976i128,
                    ;
                    lemma_norm2_nonneg(*m, self.column@, to_ints(x@), r as int);
                    lemma_norm2_mono(*m, self.column@, to_ints(x@), r + 1, n_rows as int);
                }
                return None;
            }
            proof {
                assert(-(NORM_BOUND as int) <= dz * dz <= NORM_BOUND as int) by (nonlinear_arith)
                    requires
                        dz == d as int,
                        -RESIDUAL_BOUND <= d <= RESIDUAL_BOUND,
                        RESIDUAL_BOUND == 1152921504606846976i128,
                        NORM_BOUND == 1152921504606846976i128 * 1152921504606846976i128,
                ;
                assert(dz * dz >= 0) by (nonlinear_arith);
            }
            let sq: i128 = d * d;
            if acc + sq > NORM_BOUND {
                proof {
                    lemma_norm2_mono(*m, self.column@, to_ints(x@), r + 1, n_rows as int);
                }
                return None;
            }
            acc = acc + sq;
            r = r + 1;
        }
        Some(acc)
    }

    /// Diagonal-dominance precheck: true exactly when every row's diagonal
    /// magnitude is at least the sum of its off-diagonal magnitudes.
    pub fn is_gauss_seidel_convergent(&self) -> (res: bool)
        requires
            self.coefficients.wf(),
        ensures
            res == diag_dominant(*self.coefficients),
    {
        let m = self.coefficients;
        let diag = diagonal_by_row(m);
        let off = off_abs_by_row(m);
        let n_rows = m.n_rows;
        let mut r: usize = 0;
        while r < n_rows
            invariant
                m == self.coefficients,
                m.wf(),
                n_rows == m.n_rows,
                r <= n_rows,
                diag@.len() == n_rows,
                off@.len() == n_rows,
                forall|q: int|
                    0 <= q < n_rows ==> #[trigger] diag@[q] as int == diag_of(m.entries@, q),
                forall|q: int|
                    0 <= q < n_rows ==> #[trigger] off@[q] as int == off_abs_sum(m.entries@, q),
                forall|q: int|
                    0 <= q < r ==> abs_i(#[trigger] diag_of(m.entries@, q)) >= off_abs_sum(
                        m.entries@,
                        q,
                    ),
            decreases n_rows - r,
        {
            proof {
                lemma_diag_of_bound(m.entries@, r as int);
            }
            let d = abs64(diag[r]);
            if (d as i128) < off[r] {
                proof {
                    assert(abs_i(diag_of(m.entries@, r as int)) < off_abs_sum(
                        m.entries@,
                        r as int,
                    ));
                }
                return false;
            }
            r = r + 1;
        }
        true
    }

    /// Validate, precheck, then iterate: row-parallel Jacobi-style sweeps,
    /// each reading the whole previous iterate, with the squared residual
    /// norm checked after every sweep. Stops at the first sweep below
    /// `tol`, when the next iterate leaves the fixed-point range, or after
    /// `max_iters` sweeps (then `converged` is false: the tolerance was
    /// not met).
    pub fn gauss_seidel_solve(&self, x0: &Vec<i64>, tol: i128, max_iters: usize) -> (res:
        SolverResult)
        requires
            self.coefficients.wf(),
            tol <= NORM_BOUND,
        ensures
            solver_post(
                *self.coefficients,
                self.column@,
                x0@,
                tol as int,
                max_iters as nat,
                res,
            ),
    {
        let m = self.coefficients;
        if x0.len() != m.n_rows || self.column.len() != m.n_rows || m.n_cols != m.n_rows {
            return SolverResult {
                solution: None,
                converged: false,
                diagonal_dominance: None,
                iters: 0,
                tol,
                max_iters_reached: false,
                error: None,
                message: "wrong dimensions between the matrix, the right-hand side and the initial guess".to_owned(),
            };
        }
        if !self.is_gauss_seidel_convergent() {
            return SolverResult {
                solution: None,
                converged: false,
                diagonal_dominance: Some(false),
                iters: 0,
                tol,
                max_iters_reached: false,
                error: None,
                message: "the coefficient matrix is not diagonally dominant".to_owned(),
            };
        }
        let n_rows = m.n_rows;
        let diag = diagonal_by_row(m);
        let mut r: usize = 0;
        while r < n_rows
            invariant
                m == self.coefficients,
                n_rows == m.n_rows,
                x0@.len() == m.n_rows,
                self.column@.len() == m.n_rows,
                m.n_cols == m.n_rows,
                diag_dominant(*m),
                r <= n_rows,
                diag@.len() == n_rows,
                forall|q: int|
                    0 <= q < n_rows ==> #[trigger] diag@[q] as int == diag_of(m.entries@, q),
                forall|q: int| 0 <= q < r ==> #[trigger] diag_of(m.entries@, q) != 0,
            decreases n_rows - r,
        {
            if diag[r] == 0 {
                proof {
                    assert(diag_of(m.entries@, r as int) == 0);
                    assert(!has_full_diagonal(*m));
                }
                return SolverResult {
                    solution: None,
                    converged: false,
                    diagonal_dominance: Some(true),
                    iters: 0,
                    tol,
                    max_iters_reached: false,
                    error: None,
                    message: "a row of the coefficient matrix has no nonzero diagonal entry".to_owned(),
                };
            }
            r = r + 1;
        }
        let mut x: Vec<i64> = Vec::with_capacity(n_rows);
        let mut k: usize = 0;
        while k < n_rows
            invariant
                k <= n_rows,
                x0@.len() == n_rows,
                x@.len() == k,
                forall|q: int| 0 <= q < k ==> #[trigger] x@[q] == x0@[q],
            decreases n_rows - k,
        {
            x.push(x0[k]);
            k = k + 1;
        }
        proof {
            assert(x@ =~= x0@);
            assert(to_ints(x@) == iter_vec(*m, self.column@, x0@, 0));
        }
        let n = m.entries.len();
        let mut it: usize = 0;
        while it < max_iters
            invariant
                m == self.coefficients,
                m.wf(),
                tol <= NORM_BOUND,
                n == m.entries@.len(),
                x0@.len() == m.n_rows,
                self.column@.len() == m.n_rows,
                m.n_cols == m.n_rows,
                diag_dominant(*m),
                has_full_diagonal(*m),
                n_rows == m.n_rows,
                diag@.len() == n_rows,
                forall|q: int|
                    0 <= q < n_rows ==> #[trigger] diag@[q] as int == diag_of(m.entries@, q),
                it <= max_iters,
                x@.len() == n_rows,
                to_ints(x@) == iter_vec(*m, self.column@, x0@, it as nat),
                iters_in_range(*m, self.column@, x0@, it as nat),
                forall|t: nat|
                    1 <= t <= it ==> !converged_at(*m, self.column@, x0@, tol as int, t),
            decreases max_iters - it,
        {
            let ghost xz = to_ints(x@);
            proof {
                assert forall|q: int| 0 <= q < xz.len() implies i64::MIN <= #[trigger] xz[q]
                    <= i64::MAX by {
                    assert(xz[q] == x@[q] as int);
                }
                assert(in_i64(xz));
            }
            let mut sums: Vec<i128> = Vec::with_capacity(n_rows);
            let mut k: usize = 0;
            while k < n_rows
                invariant
                    k <= n_rows,
                    sums@.len() == k,
                    forall|q: int| 0 <= q < k ==> #[trigger] sums@[q] == 0,
                decreases n_rows - k,
            {
                sums.push(0);
                k = k + 1;
            }
            proof {
                assert forall|q: int| 0 <= q < n_rows implies #[trigger] sums@[q] as int
                    == off_row_sum(m.entries@.take(0), xz, q) by {
                    assert(m.entries@.take(0) =~= Seq::<SparseEntry>::empty());
                }
            }
            let mut i: usize = 0;
            while i < n
                invariant
                    m == self.coefficients,
                    m.wf(),
                    n == m.entries@.len(),
                    n_rows == m.n_rows,
                    m.n_cols == m.n_rows,
                    i <= n,
                    x@.len() == n_rows,
                    xz == to_ints(x@),
                    in_i64(xz),
                    sums@.len() == n_rows,
                    forall|q: int|
                        0 <= q < n_rows ==> #[trigger] sums@[q] as int == off_row_sum(
                            m.entries@.take(i as int),
                            xz,
                            q,
                        ),
                decreases n - i,
            {
                let e = m.entries[i];
                proof {
                    assert(m.entries@[i as int].row < m.n_rows && m.entries@[i as int].col
                        < m.n_cols && -VAL_BOUND <= m.entries@[i as int].value <= VAL_BOUND);
                    assert(entries_bounded(m.entries@.take(i as int))) by {
                        assert forall|t: int|
                            0 <= t < i implies -VAL_BOUND <= #[trigger] m.entries@.take(
                            i as int)[t].value <= VAL_BOUND by {
                            assert(m.entries@.take(i as int)[t] == m.entries@[t]);
                            assert(-VAL_BOUND <= m.entries@[t].value <= VAL_BOUND);
                        }
                    }
                    assert forall|t: int|
                        0 <= t < i implies #[trigger] m.entries@.take(i as int)[t].col
                        < xz.len() by {
                        assert(m.entries@.take(i as int)[t] == m.entries@[t]);
                        assert(m.entries@[t].col < m.n_cols);
                    }
                    lemma_off_row_sum_bound(m.entries@.take(i as int), xz, e.row as int);
                    crate::sparse_matrix::lemma_term_bound(e.value, x@[e.col as int]);
                }
                if e.row != e.col {
                    let term: i128 = (e.value as i128) * (x[e.col] as i128);
                    let cur = sums[e.row];
                    sums.set(e.row, cur + term);
                }
                proof {
                    assert(m.entries@.take(i + 1).drop_last() =~= m.entries@.take(i as int));
                    assert(m.entries@.take(i + 1).last() == m.entries@[i as int]);
                }
                i = i + 1;
            }
            proof {
                assert(m.entries@.take(n as int) =~= m.entries@);
                assert forall|q: int| 0 <= q < n_rows implies -SUM_BOUND <= #[trigger] sums@[q]
                    <= SUM_BOUND by {
                    assert forall|t: int|
                        0 <= t < n implies #[trigger] m.entries@[t].col < xz.len() by {
                        assert(m.entries@[t].col < m.n_cols);
                    }
                    lemma_off_row_sum_bound(m.entries@, xz, q);
                }
                assert forall|q: int| 0 <= q < n_rows implies #[trigger] diag@[q] != 0 by {
                    assert(diag_of(m.entries@, q) != 0);
                }
            }
            let upd = par_update(self.column, &sums, &diag);
            let ghost nxt = jacobi_next(*m, self.column@, xz);
            proof {
                assert(nxt == iter_vec(*m, self.column@, x0@, (it + 1) as nat));
            }
            let mut newx: Vec<i64> = Vec::with_capacity(n_rows);
            let mut rr: usize = 0;
            while rr < n_rows
                invariant
                    m == self.coefficients,
                    n_rows == m.n_rows,
                    x0@.len() == m.n_rows,
                    self.column@.len() == m.n_rows,
                    m.n_cols == m.n_rows,
                    diag_dominant(*m),
                    has_full_diagonal(*m),
                    it < max_iters,
                    iters_in_range(*m, self.column@, x0@, it as nat),
                    forall|t: nat|
                        1 <= t <= it ==> !converged_at(*m, self.column@, x0@, tol as int, t),
                    nxt == iter_vec(*m, self.column@, x0@, (it + 1) as nat),
                    rr <= n_rows,
                    upd@.len() == n_rows,
                    sums@.len() == n_rows,
                    diag@.len() == n_rows,
                    forall|q: int|
                        0 <= q < n_rows ==> #[trigger] upd@[q] == update_spec(
                            self.column@[q],
                            sums@[q],
                            diag@[q],
                        ),
                    forall|q: int|
                        0 <= q < n_rows ==> #[trigger] sums@[q] as int == off_row_sum(
                            m.entries@,
                            xz,
                            q,
                        ),
                    forall|q: int|
                        0 <= q < n_rows ==> #[trigger] diag@[q] as int == diag_of(m.entries@, q),
                    nxt == jacobi_next(*m, self.column@, xz),
                    newx@.len() == rr,
                    forall|q: int| 0 <= q < rr ==> #[trigger] newx@[q] as int == nxt[q],
                decreases n_rows - rr,
            {
                let slot = upd[rr];
                match slot {
                    Some(v) => {
                        proof {
                            assert(upd@[rr as int] == update_spec(
                                self.column@[rr as int],
                                sums@[rr as int],
                                diag@[rr as int],
                            ));
                            assert(nxt[rr as int] == trunc_div(
                                self.column@[rr as int] - off_row_sum(m.entries@, xz, rr as int),
                                diag_of(m.entries@, rr as int),
                            ));
                        }
                        newx.push(v);
                    },
                    None => {
                        proof {
                            assert(nxt[rr as int] == trunc_div(
                                self.column@[rr as int] - off_row_sum(m.entries@, xz, rr as int),
                                diag_of(m.entries@, rr as int),
                            ));
                            assert(!(i64::MIN <= nxt[rr as int] <= i64::MAX));
                            assert(!in_i64(nxt));
                            assert(!in_i64(iter_vec(*m, self.column@, x0@, (it + 1) as nat)));
                        }
                        return SolverResult {
                            solution: None,
                            converged: false,
                            diagonal_dominance: Some(true),
                            iters: it,
                            tol,
                            max_iters_reached: false,
                            error: None,
                            message: "the iteration left the fixed-point value range".to_owned(),
                        };
                    },
                }
                rr = rr + 1;
            }
            x = newx;
            proof {
                assert forall|q: int| 0 <= q < n_rows implies #[trigger] to_ints(x@)[q]
                    == nxt[q] by {
                    assert(to_ints(x@)[q] == x@[q] as int);
                }
                assert(to_ints(x@) =~= nxt);
                assert forall|j: nat|
                    1 <= j <= (it + 1) as nat implies in_i64(
                    #[trigger] iter_vec(*m, self.column@, x0@, j)) by {
                    if j <= it {
                        assert(iters_in_range(*m, self.column@, x0@, it as nat));
                    } else {
                        assert(iter_vec(*m, self.column@, x0@, j) == to_ints(x@));
                        assert forall|q: int|
                            0 <= q < to_ints(x@).len() implies i64::MIN <= #[trigger] to_ints(
                            x@)[q] <= i64::MAX by {
                            assert(to_ints(x@)[q] == x@[q] as int);
                        }
                    }
                }
            }
            let err = self.error_sq(&x);
            it = it + 1;
            match err {
                Some(v) => {
                    if v < tol {
                        return SolverResult {
                            solution: Some(x),
                            converged: true,
                            diagonal_dominance: Some(true),
                            iters: it,
                            tol,
                            max_iters_reached: false,
                            error: Some(v),
                            message: "converged within tolerance".to_owned(),
                        };
                    }
                    proof {
                        assert(!converged_at(*m, self.column@, x0@, tol as int, it as nat));
                    }
                },
                None => {
                    proof {
                        assert(!converged_at(*m, self.column@, x0@, tol as int, it as nat));
                    }
                },
            }
        }
        let err = self.error_sq(&x);
        SolverResult {
            solution: Some(x),
            converged: false,
            diagonal_dominance: Some(true),
            iters: it,
            tol,
            max_iters_reached: true,
            error: err,
            message: "the tolerance was not reached within the sweep budget".to_owned(),
        }
    }
}

} // verus!
