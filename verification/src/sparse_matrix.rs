//! Coordinate-format sparse matrix storage with a derived per-row index.
//!
//! Entries are (row, col, value) triples over fixed-point integer values.
//! Before any row-indexed operation the entries are sorted by (row, col)
//! and a per-row inclusive [start, end] range is computed; `preprocess`
//! performs the whole pipeline.

use rand::Rng;
use rayon::iter::IntoParallelIterator;
use rayon::iter::ParallelIterator;
use vstd::prelude::*;

verus! {

/// Largest magnitude a matrix coefficient may have, in fixed-point units.
/// Keeping coefficients within this range lets every accumulation in the
/// matrix-vector product fit an `i128` without overflow.
pub const VAL_BOUND: i64 = 2147483648;

/// Largest number of stored entries the matrix operations accept.
pub const ENTRY_CAP: usize = 1073741824;

/// Bound on the magnitude of one product term `value * x[col]`
/// (`VAL_BOUND` times the `i64` magnitude range). At most `ENTRY_CAP`
/// such terms are accumulated, so every partial sum fits an `i128`.
pub const TERM_BOUND: i128 = 2147483648i128 * 9223372036854775808i128;

/// Bound on the magnitude of any accumulated sum of product terms
/// (`ENTRY_CAP` times `TERM_BOUND`), comfortably inside the `i128` range.
pub const SUM_BOUND: i128 = 1073741824i128 * 2147483648i128 * 9223372036854775808i128;

/// One coordinate-format entry: the contribution `value` at (row, col).
#[derive(Clone, Copy, PartialEq, Eq, Structural, Debug)]
pub struct SparseEntry {
    pub row: usize,
    pub col: usize,
    pub value: i64,
}

/// (row, col) lexicographic order on entries.
pub open spec fn entry_le(a: SparseEntry, b: SparseEntry) -> bool {
    a.row < b.row || (a.row == b.row && a.col <= b.col)
}

/// The entry sequence is sorted by (row, col) ascending.
pub open spec fn entries_sorted(s: Seq<SparseEntry>) -> bool {
    forall|i: int, j: int| #![trigger s[i], s[j]] 0 <= i < j < s.len() ==> entry_le(s[i], s[j])
}

/// Where a stable sort puts `e` into the sorted run `s`: after every
/// entry whose (row, col) key is at or below `e`'s, so entries with
/// equal keys keep their original relative order.
pub open spec fn sorted_insert(s: Seq<SparseEntry>, e: SparseEntry) -> Seq<SparseEntry>
    decreases s.len(),
{
    if s.len() > 0 && !entry_le(s.last(), e) {
        sorted_insert(s.drop_last(), e).push(s.last())
    } else {
        s.push(e)
    }
}

/// The stable (row, col) sort of `s`: entries are placed in their
/// original order, each after all entries with keys at or below its own.
/// This is the one sorted permutation of `s` in which entries with equal
/// (row, col) keys keep their relative order.
pub open spec fn stable_sorted(s: Seq<SparseEntry>) -> Seq<SparseEntry>
    decreases s.len(),
{
    if s.len() == 0 {
        Seq::empty()
    } else {
        sorted_insert(stable_sorted(s.drop_last()), s.last())
    }
}

/// A stable insertion preserves length and contents and keeps the run
/// sorted.
proof fn lemma_sorted_insert_props(s: Seq<SparseEntry>, e: SparseEntry)
    ensures
        sorted_insert(s, e).len() == s.len() + 1,
        sorted_insert(s, e).to_multiset() == s.to_multiset().insert(e),
        entries_sorted(s) ==> entries_sorted(sorted_insert(s, e)),
    decreases s.len(),
{
    broadcast use vstd::seq_lib::group_to_multiset_ensures;

    if s.len() > 0 && !entry_le(s.last(), e) {
        assert(forall|i: int, j: int|
            #![trigger s.drop_last()[i], s.drop_last()[j]]
            entries_sorted(s) && 0 <= i < j < s.drop_last().len() ==> entry_le(
                s.drop_last()[i],
                s.drop_last()[j],
            ));
        lemma_sorted_insert_props(s.drop_last(), e);
        let rec = sorted_insert(s.drop_last(), e);
        assert(sorted_insert(s, e).to_multiset() =~= s.to_multiset().insert(e)) by {
            assert(rec.push(s.last()).to_multiset() =~= rec.to_multiset().insert(s.last()));
            assert(s.drop_last().push(s.last()) =~= s);
        }
        if entries_sorted(s) {
            assert forall|t: int| 0 <= t < rec.len() implies entry_le(rec[t], s.last()) by {
                assert(rec.to_multiset().contains(rec[t]));
                if rec[t] != e {
                    assert(s.drop_last().to_multiset().count(rec[t]) > 0);
                    assert(s.drop_last().contains(rec[t]));
                    let u = choose|u: int|
                        0 <= u < s.drop_last().len() && s.drop_last()[u] == rec[t];
                    assert(entry_le(s[u], s[s.len() - 1]));
                }
            }
        }
    }
}

/// The stable sort preserves length and contents and sorts.
proof fn lemma_stable_sorted_props(s: Seq<SparseEntry>)
    ensures
        stable_sorted(s).len() == s.len(),
        stable_sorted(s).to_multiset() == s.to_multiset(),
        entries_sorted(stable_sorted(s)),
    decreases s.len(),
{
    broadcast use vstd::seq_lib::group_to_multiset_ensures;

    if s.len() > 0 {
        lemma_stable_sorted_props(s.drop_last());
        lemma_sorted_insert_props(stable_sorted(s.drop_last()), s.last());
        assert(stable_sorted(s).to_multiset() =~= s.to_multiset()) by {
            assert(s.drop_last().push(s.last()) =~= s);
        }
    }
}

/// Inserting into a sorted run after every key at or below `e`'s puts
/// `e` exactly at the first position holding a strictly larger key.
proof fn lemma_sorted_insert_at(s: Seq<SparseEntry>, e: SparseEntry, j: int)
    requires
        entries_sorted(s),
        0 <= j <= s.len(),
        forall|t: int| 0 <= t < j ==> entry_le(#[trigger] s[t], e),
        j < s.len() ==> !entry_le(s[j], e),
    ensures
        sorted_insert(s, e) == s.insert(j, e),
    decreases s.len(),
{
    if s.len() > 0 && !entry_le(s.last(), e) {
        assert(j < s.len()) by {
            if j == s.len() {
                assert(entry_le(s[s.len() - 1], e));
            }
        }
        assert(forall|a: int, b: int|
            #![trigger s.drop_last()[a], s.drop_last()[b]]
            0 <= a < b < s.drop_last().len() ==> entry_le(s.drop_last()[a], s.drop_last()[b]));
        lemma_sorted_insert_at(s.drop_last(), e, j);
        assert(sorted_insert(s.drop_last(), e).push(s.last()) =~= s.insert(j, e));
    } else {
        assert(j == s.len()) by {
            if j < s.len() {
                if j < s.len() - 1 {
                    assert(entry_le(s[j], s[s.len() - 1]));
                }
            }
        }
        assert(s.push(e) =~= s.insert(j, e));
    }
}

/// A sorted entry list is its own stable sort, so re-sorting changes
/// nothing.
pub proof fn lemma_stable_sorted_identity(s: Seq<SparseEntry>)
    requires
        entries_sorted(s),
    ensures
        stable_sorted(s) == s,
    decreases s.len(),
{
    if s.len() > 0 {
        assert(forall|a: int, b: int|
            #![trigger s.drop_last()[a], s.drop_last()[b]]
            0 <= a < b < s.drop_last().len() ==> entry_le(s.drop_last()[a], s.drop_last()[b]));
        lemma_stable_sorted_identity(s.drop_last());
        if s.len() >= 2 {
            assert(entry_le(s.drop_last().last(), s.last()));
        }
        assert(s.drop_last().push(s.last()) =~= s);
    }
}

/// Row `r` holds at least one diagonal entry in `s`.
pub open spec fn has_diagonal_entry(s: Seq<SparseEntry>, r: int) -> bool {
    exists|i: int| 0 <= i < s.len() && #[trigger] s[i].row == r && s[i].col == r
}

/// `slot` describes exactly where row `r` lives in the sorted entry list:
/// an inclusive index range, or `None` when the row has no entries.
pub open spec fn row_slot_valid(entries: Seq<SparseEntry>, slot: Option<(usize, usize)>, r: int) -> bool {
    match slot {
        Some((start, end)) => {
            &&& start <= end < entries.len()
            &&& forall|i: int|
                0 <= i < entries.len() ==> ((start <= i <= end) <==> (#[trigger] entries[i].row
                    == r))
        },
        None => forall|i: int| 0 <= i < entries.len() ==> #[trigger] entries[i].row != r,
    }
}

/// Every stored value lies within the fixed-point coefficient range.
pub open spec fn entries_bounded(s: Seq<SparseEntry>) -> bool {
    forall|i: int| #![trigger s[i]] 0 <= i < s.len() ==> -VAL_BOUND <= s[i].value <= VAL_BOUND
}

/// One more than the largest row index occurring in `s` (0 if `s` is empty).
pub open spec fn max_row_excl(s: Seq<SparseEntry>) -> int
    decreases s.len(),
{
    if s.len() == 0 {
        0
    } else {
        let prev = max_row_excl(s.drop_last());
        if s.last().row + 1 > prev {
            s.last().row + 1
        } else {
            prev
        }
    }
}

/// One more than the largest column index occurring in `s` (0 if `s` is empty).
pub open spec fn max_col_excl(s: Seq<SparseEntry>) -> int
    decreases s.len(),
{
    if s.len() == 0 {
        0
    } else {
        let prev = max_col_excl(s.drop_last());
        if s.last().col + 1 > prev {
            s.last().col + 1
        } else {
            prev
        }
    }
}

/// Relies on rand's `Rng::gen_range` over `0..n`: the sample lies in the
/// (non-empty) range. Nothing more can be promised of a random value.
#[verifier::external_body]
fn rand_index_below(n: usize) -> (r: usize)
    requires
        n > 0,
    ensures
        r < n,
{
    rand::thread_rng().gen_range(0..n)
}

/// Relies on rand's `Rng::gen_range` over `lo..hi`: the sample lies in the
/// (non-empty) range. Nothing more can be promised of a random value.
#[verifier::external_body]
fn rand_value_in(lo: i64, hi: i64) -> (r: i64)
    requires
        lo < hi,
    ensures
        lo <= r < hi,
{
    rand::thread_rng().gen_range(lo..hi)
}

/// Largest row (and column) bound: if every row index is below `bound`, so
/// is the derived row count.
proof fn lemma_max_excl_le(s: Seq<SparseEntry>, bound: int)
    requires
        forall|i: int| #![trigger s[i]] 0 <= i < s.len() ==> s[i].row < bound && s[i].col < bound,
        0 <= bound,
    ensures
        max_row_excl(s) <= bound,
        max_col_excl(s) <= bound,
    decreases s.len(),
{
    if s.len() > 0 {
        assert(forall|i: int|
            #![trigger s.drop_last()[i]]
            0 <= i < s.drop_last().len() ==> s.drop_last()[i].row < bound && s.drop_last()[i].col
                < bound);
        lemma_max_excl_le(s.drop_last(), bound);
    }
}

/// Executable (row, col) lexicographic comparison of two entries.
fn entry_le_exec(a: &SparseEntry, b: &SparseEntry) -> (r: bool)
    ensures
        r == entry_le(*a, *b),
{
    a.row < b.row || (a.row == b.row && a.col <= b.col)
}

/// Errors reported by the matrix operations.
#[derive(Clone, Copy, PartialEq, Eq, Structural, Debug)]
pub enum SparseError {
    /// A vector length does not match the matrix dimension it is used
    /// against.
    DimensionMismatch,
    /// An exact result does not fit the fixed-point value range.
    ValueOutOfRange,
}

/// `v` fits the `i64` range.
pub open spec fn fits_i64(v: int) -> bool {
    i64::MIN <= v <= i64::MAX
}

/// Length of the entry list built from parallel sequences: the shortest of
/// the three lengths.
pub open spec fn zip_len(rows: Seq<usize>, cols: Seq<usize>, values: Seq<i64>) -> int {
    if rows.len() <= cols.len() && rows.len() <= values.len() {
        rows.len() as int
    } else if cols.len() <= values.len() {
        cols.len() as int
    } else {
        values.len() as int
    }
}

/// The entry list built index by index from parallel row, column and value
/// sequences, up to the shortest length.
pub open spec fn zip_entries(rows: Seq<usize>, cols: Seq<usize>, values: Seq<i64>) -> Seq<
    SparseEntry,
> {
    Seq::new(
        zip_len(rows, cols, values) as nat,
        |i: int| SparseEntry { row: rows[i], col: cols[i], value: values[i] },
    )
}

/// The diagonal entries of `s` (row equals column), in entry-list order.
pub open spec fn diagonal_seq(s: Seq<SparseEntry>) -> Seq<SparseEntry>
    decreases s.len(),
{
    if s.len() == 0 {
        Seq::empty()
    } else {
        let p = diagonal_seq(s.drop_last());
        if s.last().row == s.last().col {
            p.push(s.last())
        } else {
            p
        }
    }
}

/// The off-diagonal entries of `s` (row differs from column), in
/// entry-list order.
pub open spec fn off_diagonal_seq(s: Seq<SparseEntry>) -> Seq<SparseEntry>
    decreases s.len(),
{
    if s.len() == 0 {
        Seq::empty()
    } else {
        let p = off_diagonal_seq(s.drop_last());
        if s.last().row != s.last().col {
            p.push(s.last())
        } else {
            p
        }
    }
}

/// Exact sum of `value * x[col]` over the entries of row `r`, taken in
/// entry-list order.
pub open spec fn row_sum(s: Seq<SparseEntry>, x: Seq<i64>, r: int) -> int
    decreases s.len(),
{
    if s.len() == 0 {
        0
    } else {
        row_sum(s.drop_last(), x, r) + if s.last().row == r {
            s.last().value * x[s.last().col as int]
        } else {
            0
        }
    }
}

/// Exact sum of `value * x[col]` over the entry positions `from..to`.
pub open spec fn slice_sum(s: Seq<SparseEntry>, x: Seq<i64>, from: int, to: int) -> int
    decreases to - from,
{
    if to <= from {
        0
    } else {
        slice_sum(s, x, from, to - 1) + s[to - 1].value * x[s[to - 1].col as int]
    }
}

/// A row with no entries sums to zero.
proof fn lemma_row_sum_absent(s: Seq<SparseEntry>, x: Seq<i64>, r: int)
    requires
        forall|i: int| 0 <= i < s.len() ==> #[trigger] s[i].row != r,
    ensures
        row_sum(s, x, r) == 0,
    decreases s.len(),
{
    if s.len() > 0 {
        assert(forall|i: int|
            0 <= i < s.drop_last().len() ==> #[trigger] s.drop_last()[i].row != r);
        lemma_row_sum_absent(s.drop_last(), x, r);
    }
}

/// On a prefix of the entry list, the sum of row `r` equals the sum of the
/// prefix's overlap with the row's contiguous slice `[a, b]`.
proof fn lemma_row_sum_prefix(s: Seq<SparseEntry>, x: Seq<i64>, r: int, a: int, b: int, k: int)
    requires
        0 <= a <= b < s.len(),
        forall|i: int| 0 <= i < s.len() ==> ((a <= i <= b) <==> (#[trigger] s[i].row == r)),
        0 <= k <= s.len(),
    ensures
        row_sum(s.take(k), x, r) == if k <= a {
            0
        } else if k <= b + 1 {
            slice_sum(s, x, a, k)
        } else {
            slice_sum(s, x, a, b + 1)
        },
    decreases k,
{
    if k > 0 {
        lemma_row_sum_prefix(s, x, r, a, b, k - 1);
        assert(s.take(k).drop_last() =~= s.take(k - 1));
        assert(s.take(k).last() == s[k - 1]);
        if k - 1 < a {
            assert(s[k - 1].row != r);
        } else if k - 1 <= b {
            assert(s[k - 1].row == r);
            assert(slice_sum(s, x, a, k) == slice_sum(s, x, a, k - 1) + s[k - 1].value * x[s[k
                - 1].col as int]);
        } else {
            assert(s[k - 1].row != r);
        }
    }
}

/// The sum of row `r` is exactly the sum over its indexed slice.
proof fn lemma_row_sum_slice(s: Seq<SparseEntry>, x: Seq<i64>, r: int, a: int, b: int)
    requires
        0 <= a <= b < s.len(),
        forall|i: int| 0 <= i < s.len() ==> ((a <= i <= b) <==> (#[trigger] s[i].row == r)),
    ensures
        row_sum(s, x, r) == slice_sum(s, x, a, b + 1),
{
    lemma_row_sum_prefix(s, x, r, a, b, s.len() as int);
    assert(s.take(s.len() as int) =~= s);
}

/// Any sum over entry positions `from..to` of a value-bounded entry list
/// stays within `SUM_BOUND`.
proof fn lemma_slice_sum_bound(s: Seq<SparseEntry>, x: Seq<i64>, from: int, to: int)
    requires
        entries_bounded(s),
        s.len() <= ENTRY_CAP,
        0 <= from <= to <= s.len(),
    ensures
        -((to - from) * (TERM_BOUND as int)) <= slice_sum(s, x, from, to) <= (to - from) * (
        TERM_BOUND as int),
        -(SUM_BOUND as int) <= slice_sum(s, x, from, to) <= SUM_BOUND as int,
    decreases to - from,
{
    if to <= from {
        assert((to - from) * (TERM_BOUND as int) == 0) by (nonlinear_arith)
            requires
                to - from == 0,
        ;
        assert(SUM_BOUND as int >= 0) by (nonlinear_arith)
            requires
                SUM_BOUND == 1073741824i128 * 2147483648i128 * 9223372036854775808i128,
        ;
    } else {
        lemma_slice_sum_bound(s, x, from, to - 1);
        lemma_term_bound(s[to - 1].value, x[s[to - 1].col as int]);
        let prev = slice_sum(s, x, from, to - 1);
        let t = s[to - 1].value * x[s[to - 1].col as int];
        assert(-((to - from) * (TERM_BOUND as int)) <= prev + t <= (to - from) * (
        TERM_BOUND as int) && -(SUM_BOUND as int) <= prev + t <= SUM_BOUND as int)
            by (nonlinear_arith)
            requires
                -((to - 1 - from) * (TERM_BOUND as int)) <= prev <= (to - 1 - from) * (
                TERM_BOUND as int),
                -(TERM_BOUND as int) <= t <= TERM_BOUND as int,
                1 <= to - from <= ENTRY_CAP as int,
                ENTRY_CAP == 1073741824usize,
                TERM_BOUND == 2147483648i128 * 9223372036854775808i128,
                SUM_BOUND == 1073741824i128 * 2147483648i128 * 9223372036854775808i128,
        ;
    }
}

/// The exact sum of any single row of a value-bounded entry list stays
/// within `SUM_BOUND`.
pub proof fn lemma_row_sum_bound(s: Seq<SparseEntry>, x: Seq<i64>, r: int)
    requires
        entries_bounded(s),
        s.len() <= ENTRY_CAP,
    ensures
        -((s.len() as int) * (TERM_BOUND as int)) <= row_sum(s, x, r) <= (s.len() as int) * (
        TERM_BOUND as int),
        -(SUM_BOUND as int) <= row_sum(s, x, r) <= SUM_BOUND as int,
    decreases s.len(),
{
    if s.len() == 0 {
        assert((s.len() as int) * (TERM_BOUND as int) == 0) by (nonlinear_arith)
            requires
                s.len() == 0,
        ;
        assert(SUM_BOUND as int >= 0) by (nonlinear_arith)
            requires
                SUM_BOUND == 1073741824i128 * 2147483648i128 * 9223372036854775808i128,
        ;
    } else {
        assert(entries_bounded(s.drop_last())) by {
            assert forall|k: int|
                0 <= k < s.drop_last().len() implies -VAL_BOUND
                <= #[trigger] s.drop_last()[k].value <= VAL_BOUND by {
                assert(s.drop_last()[k] == s[k]);
                assert(-VAL_BOUND <= s[k].value <= VAL_BOUND);
            }
        }
        lemma_row_sum_bound(s.drop_last(), x, r);
        assert(s.last() == s[s.len() - 1]);
        assert(-VAL_BOUND <= s[s.len() - 1].value <= VAL_BOUND);
        lemma_term_bound(s.last().value, x[s.last().col as int]);
        let prev = row_sum(s.drop_last(), x, r);
        let t: int = if s.last().row == r {
            s.last().value * x[s.last().col as int]
        } else {
            0
        };
        assert(-((s.len() as int) * (TERM_BOUND as int)) <= prev + t <= (s.len() as int) * (
        TERM_BOUND as int) && -(SUM_BOUND as int) <= prev + t <= SUM_BOUND as int)
            by (nonlinear_arith)
            requires
                -(((s.len() - 1) as int) * (TERM_BOUND as int)) <= prev <= ((s.len()
                    - 1) as int) * (TERM_BOUND as int),
                -(TERM_BOUND as int) <= t <= TERM_BOUND as int,
                1 <= s.len() <= ENTRY_CAP as int,
                ENTRY_CAP == 1073741824usize,
                TERM_BOUND == 2147483648i128 * 9223372036854775808i128,
                SUM_BOUND == 1073741824i128 * 2147483648i128 * 9223372036854775808i128,
        ;
    }
}

/// A single product of a coefficient and a vector component stays within
/// `TERM_BOUND`.
pub proof fn lemma_term_bound(v: i64, x: i64)
    requires
        -VAL_BOUND <= v <= VAL_BOUND,
    ensures
        -(TERM_BOUND as int) <= v * x <= TERM_BOUND as int,
{
    assert(-(TERM_BOUND as int) <= v * x <= TERM_BOUND as int) by (nonlinear_arith)
        requires
            -2147483648 <= v <= 2147483648,
            -9223372036854775808 <= x <= 9223372036854775807,
    ;
}

/// What the serial and the parallel matrix-vector product return for a
/// preprocessed matrix `m` and input `x`: a dimension-mismatch error when
/// `x` has the wrong length, a range error when some exact row sum does not
/// fit `i64`, and otherwise exactly the vector of row sums.
pub open spec fn dot_post(m: SparseMatrix, x: Seq<i64>, res: Result<Vec<i64>, SparseError>) -> bool {
    if x.len() != m.n_cols {
        res == Err::<Vec<i64>, SparseError>(SparseError::DimensionMismatch)
    } else if exists|r: int| 0 <= r < m.n_rows && !fits_i64(row_sum(m.entries@, x, r)) {
        res == Err::<Vec<i64>, SparseError>(SparseError::ValueOutOfRange)
    } else {
        &&& res is Ok
        &&& res->Ok_0@.len() == m.n_rows
        &&& forall|r: int| 0 <= r < m.n_rows ==> res->Ok_0@[r] == row_sum(m.entries@, x, r)
    }
}

/// The serial and the parallel product have the same exact contract, so any
/// two results for the same matrix and input agree: same success, same
/// solution components, same error.
pub proof fn lemma_dot_deterministic(
    m: SparseMatrix,
    x: Seq<i64>,
    r1: Result<Vec<i64>, SparseError>,
    r2: Result<Vec<i64>, SparseError>,
)
    requires
        dot_post(m, x, r1),
        dot_post(m, x, r2),
    ensures
        r1 is Ok <==> r2 is Ok,
        r1 is Ok ==> r1->Ok_0@ == r2->Ok_0@,
        r1 is Err ==> r1->Err_0 == r2->Err_0,
{
    if r1 is Ok {
        assert(r1->Ok_0@ =~= r2->Ok_0@);
    }
}

/// Coordinate-format sparse matrix with a derived per-row index range.
///
/// `row_indices[r]` is `Some((start, end))` when the entries of row `r`
/// occupy exactly the inclusive slice `start..=end` of the sorted entry
/// list, and `None` when row `r` has no entries.
pub struct SparseMatrix {
    pub entries: Vec<SparseEntry>,
    pub n_rows: usize,
    pub n_cols: usize,
    pub row_indices: Vec<Option<(usize, usize)>>,
}

impl SparseMatrix {
    /// The per-row index describes the sorted entry list exactly.
    pub open spec fn row_indices_valid(self) -> bool {
        &&& self.row_indices@.len() == self.n_rows
        &&& forall|r: int|
            0 <= r < self.n_rows ==> row_slot_valid(
                self.entries@,
                #[trigger] self.row_indices@[r],
                r,
            )
    }

    /// Every entry addresses a position inside the matrix dimensions.
    pub open spec fn entries_in_range(self) -> bool {
        forall|i: int|
            #![trigger self.entries@[i]]
            0 <= i < self.entries@.len() ==> (self.entries@[i].row < self.n_rows
                && self.entries@[i].col < self.n_cols)
    }

    /// Fully preprocessed state: sorted, indexed, in range and bounded.
    /// Every row-indexed operation requires this.
    pub open spec fn wf(self) -> bool {
        &&& entries_sorted(self.entries@)
        &&& entries_bounded(self.entries@)
        &&& self.entries_in_range()
        &&& self.entries@.len() <= ENTRY_CAP
        &&& self.row_indices_valid()
    }

    /// An empty matrix with room reserved for the expected entry count.
    pub fn new(estimated_entries_count: usize) -> (m: Self)
        ensures
            m.entries@.len() == 0,
            m.n_rows == 0,
            m.n_cols == 0,
            m.row_indices@.len() == 0,
    {
        SparseMatrix {
            entries: Vec::with_capacity(estimated_entries_count),
            n_rows: 0,
            n_cols: 0,
            row_indices: Vec::new(),
        }
    }

    /// Appends one coordinate entry; the matrix must be preprocessed again
    /// before any row-indexed operation.
    pub fn push_entry(&mut self, row: usize, col: usize, value: i64)
        ensures
            final(self).entries@ == old(self).entries@.push(
                SparseEntry { row, col, value },
            ),
            final(self).n_rows == old(self).n_rows,
            final(self).n_cols == old(self).n_cols,
            final(self).row_indices@ == old(self).row_indices@,
    {
        self.entries.push(SparseEntry { row, col, value });
    }

    /// Stable-sorts the stored entries by (row, col) ascending: the
    /// result is exactly `stable_sorted` of the old entry list, so
    /// entries with equal (row, col) keys keep their relative order.
    pub fn sort_entries(&mut self)
        ensures
            final(self).entries@ == stable_sorted(old(self).entries@),
            final(self).entries@.to_multiset() == old(self).entries@.to_multiset(),
            final(self).entries@.len() == old(self).entries@.len(),
            entries_sorted(final(self).entries@),
            final(self).n_rows == old(self).n_rows,
            final(self).n_cols == old(self).n_cols,
            final(self).row_indices@ == old(self).row_indices@,
    {
        proof {
            broadcast use vstd::seq_lib::group_to_multiset_ensures;

            lemma_stable_sorted_props(self.entries@);
        }
        let n = self.entries.len();
        if n < 2 {
            proof {
                lemma_stable_sorted_identity(self.entries@);
            }
            return ;
        }
        let ghost orig = self.entries@;
        let mut i: usize = 1;
        proof {
            assert(orig.take(1).drop_last() =~= orig.take(0));
            assert(orig.take(0) =~= Seq::<SparseEntry>::empty());
            assert(stable_sorted(orig.take(1)) == sorted_insert(
                stable_sorted(orig.take(0)),
                orig.take(1).last(),
            ));
            assert(stable_sorted(orig.take(0)) =~= Seq::<SparseEntry>::empty());
            assert(sorted_insert(Seq::<SparseEntry>::empty(), orig[0]) =~= Seq::<
                SparseEntry,
            >::empty().push(orig[0]));
            assert(self.entries@.take(1) =~= stable_sorted(orig.take(1)));
            assert(self.entries@.skip(1) =~= orig.skip(1));
        }
        while i < n
            invariant
                orig == old(self).entries@,
                n == self.entries@.len(),
                n == orig.len(),
                1 <= i <= n,
                self.entries@.take(i as int) == stable_sorted(orig.take(i as int)),
                self.entries@.skip(i as int) == orig.skip(i as int),
                self.entries@.to_multiset() == orig.to_multiset(),
                entries_sorted(self.entries@.take(i as int)),
                self.n_rows == old(self).n_rows,
                self.n_cols == old(self).n_cols,
                self.row_indices@ == old(self).row_indices@,
            decreases n - i,
        {
            proof {
                broadcast use vstd::seq_lib::group_to_multiset_ensures;

                assert(self.entries@[i as int] == self.entries@.skip(i as int)[0]);
                assert(self.entries@[i as int] == orig[i as int]);
            }
            let ghost before = self.entries@;
            let e = self.entries.remove(i);
            let ghost removed = self.entries@;
            let mut j: usize = 0;
            while j < i && entry_le_exec(&self.entries[j], &e)
                invariant
                    i < n,
                    n - 1 == self.entries@.len(),
                    j <= i <= self.entries@.len(),
                    forall|k: int| 0 <= k < j ==> entry_le(#[trigger] self.entries@[k], e),
                decreases i - j,
            {
                j = j + 1;
            }
            self.entries.insert(j, e);
            proof {
                assert(self.entries@.take(i + 1) =~= removed.take(i as int).insert(j as int, e));
                assert(removed.take(i as int) =~= before.take(i as int));
                assert(entries_sorted(self.entries@.take(i + 1))) by {
                    let t = self.entries@.take(i + 1);
                    assert forall|p: int, q: int| 0 <= p < q < t.len() implies entry_le(
                        t[p],
                        t[q],
                    ) by {
                        if p < j && q > j {
                            assert(entry_le(t[p], t[j - 1]) || p == j - 1);
                        }
                        if p == j && q > j {
                            assert(entry_le(removed[j as int], removed[q - 1]));
                        }
                    }
                }
                lemma_sorted_insert_at(before.take(i as int), e, j as int);
                assert(orig.take(i + 1).drop_last() =~= orig.take(i as int));
                assert(orig.take(i + 1).last() == orig[i as int]);
                assert(self.entries@.take(i + 1) == stable_sorted(orig.take(i + 1)));
                assert(self.entries@.skip(i + 1) =~= orig.skip(i + 1)) by {
                    assert forall|t: int|
                        #![trigger orig.skip(i + 1)[t]]
                        0 <= t < self.entries@.skip(i + 1).len() implies self.entries@.skip(
                        i + 1)[t] == orig.skip(i + 1)[t] by {
                        assert(self.entries@[i + 1 + t] == removed[i + t]);
                        assert(removed[i + t] == before[i + 1 + t]);
                        assert(before.skip(i as int)[1 + t] == orig.skip(i as int)[1 + t]);
                    }
                }
            }
            i = i + 1;
        }
        proof {
            assert(self.entries@.take(n as int) =~= self.entries@);
            assert(orig.take(n as int) =~= orig);
        }
    }

    /// Grows `n_rows` and `n_cols` to cover every stored entry.
    pub fn compute_size(&mut self)
        requires
            forall|i: int|
                0 <= i < old(self).entries@.len() ==> (#[trigger] old(self).entries@[i].row
                    < usize::MAX && old(self).entries@[i].col < usize::MAX),
        ensures
            final(self).entries@ == old(self).entries@,
            final(self).row_indices@ == old(self).row_indices@,
            final(self).n_rows == if max_row_excl(old(self).entries@) > old(self).n_rows {
                max_row_excl(old(self).entries@)
            } else {
                old(self).n_rows as int
            },
            final(self).n_cols == if max_col_excl(old(self).entries@) > old(self).n_cols {
                max_col_excl(old(self).entries@)
            } else {
                old(self).n_cols as int
            },
    {
        let n = self.entries.len();
        let mut k: usize = 0;
        while k < n
            invariant
                n == self.entries@.len(),
                k <= n,
                self.entries@ == old(self).entries@,
                self.row_indices@ == old(self).row_indices@,
                forall|i: int|
                    0 <= i < self.entries@.len() ==> (#[trigger] self.entries@[i].row < usize::MAX
                        && self.entries@[i].col < usize::MAX),
                self.n_rows == if max_row_excl(self.entries@.take(k as int)) > old(self).n_rows {
                    max_row_excl(self.entries@.take(k as int))
                } else {
                    old(self).n_rows as int
                },
                self.n_cols == if max_col_excl(self.entries@.take(k as int)) > old(self).n_cols {
                    max_col_excl(self.entries@.take(k as int))
                } else {
                    old(self).n_cols as int
                },
            decreases n - k,
        {
            let e = self.entries[k];
            if e.row + 1 > self.n_rows {
                self.n_rows = e.row + 1;
            }
            if e.col + 1 > self.n_cols {
                self.n_cols = e.col + 1;
            }
            proof {
                assert(self.entries@.take(k + 1).drop_last() =~= self.entries@.take(k as int));
                assert(self.entries@.take(k + 1).last() == self.entries@[k as int]);
            }
            k = k + 1;
        }
        proof {
            assert(self.entries@.take(n as int) =~= self.entries@);
        }
    }

    /// Rebuilds the per-row index by one scan over the sorted entry list.
    pub fn compute_row_indices(&mut self)
        requires
            entries_sorted(old(self).entries@),
            forall|i: int|
                0 <= i < old(self).entries@.len() ==> #[trigger] old(self).entries@[i].row < old(
                    self,
                ).n_rows,
        ensures
            final(self).entries@ == old(self).entries@,
            final(self).n_rows == old(self).n_rows,
            final(self).n_cols == old(self).n_cols,
            final(self).row_indices_valid(),
    {
        let n_rows = self.n_rows;
        let mut ri: Vec<Option<(usize, usize)>> = Vec::with_capacity(n_rows);
        let mut k: usize = 0;
        while k < n_rows
            invariant
                k <= n_rows,
                ri@.len() == k,
                forall|r: int| 0 <= r < k ==> #[trigger] ri@[r] is None,
            decreases n_rows - k,
        {
            ri.push(None);
            k = k + 1;
        }
        let n = self.entries.len();
        if n == 0 {
            self.row_indices = ri;
            return ;
        }
        let mut current_row = self.entries[0].row;
        let mut start_index: usize = 0;
        let mut i: usize = 1;
        proof {
            assert forall|r: int| 0 <= r < current_row implies row_slot_valid(
                self.entries@,
                ri@[r],
                r,
            ) by {
                assert(ri@[r] is None);
                assert forall|t: int|
                    0 <= t < self.entries@.len() implies #[trigger] self.entries@[t].row != r by {
                    assert(entry_le(self.entries@[0], self.entries@[t]) || t == 0);
                }
            }
        }
        while i < n
            invariant
                n == self.entries@.len(),
                1 <= i <= n,
                entries_sorted(self.entries@),
                forall|t: int|
                    0 <= t < self.entries@.len() ==> #[trigger] self.entries@[t].row < n_rows,
                self.entries@ == old(self).entries@,
                self.n_rows == old(self).n_rows,
                n_rows == self.n_rows,
                self.n_cols == old(self).n_cols,
                current_row == self.entries@[i - 1].row,
                start_index < i,
                forall|t: int|
                    start_index <= t < i ==> #[trigger] self.entries@[t].row == current_row,
                start_index == 0 || self.entries@[start_index - 1].row != current_row,
                ri@.len() == n_rows,
                forall|r: int|
                    0 <= r < current_row ==> row_slot_valid(self.entries@, #[trigger] ri@[r], r),
                forall|r: int| current_row <= r < n_rows ==> #[trigger] ri@[r] is None,
            decreases n - i,
        {
            let row = self.entries[i].row;
            if row != current_row {
                ri.set(current_row, Some((start_index, i - 1)));
                proof {
                    assert(row_slot_valid(
                        self.entries@,
                        Some((start_index, (i - 1) as usize)),
                        current_row as int,
                    )) by {
                        assert forall|t: int|
                            0 <= t < self.entries@.len() implies ((start_index <= t <= i - 1)
                            <==> (#[trigger] self.entries@[t].row == current_row as int)) by {
                            if t < start_index {
                                assert(start_index > 0 ==> entry_le(
                                    self.entries@[t],
                                    self.entries@[start_index - 1],
                                ) || t == start_index - 1);
                            }
                            if t >= i {
                                assert(entry_le(self.entries@[i as int], self.entries@[t]));
                            }
                        }
                    }
                    assert forall|r: int| current_row < r < row implies row_slot_valid(
                        self.entries@,
                        #[trigger] ri@[r],
                        r,
                    ) by {
                        assert(ri@[r] is None);
                        assert forall|t: int|
                            0 <= t < self.entries@.len() implies #[trigger] self.entries@[t].row
                            != r by {
                            if t < i {
                                assert(entry_le(self.entries@[t], self.entries@[i - 1]) || t == i
                                    - 1);
                            } else {
                                assert(entry_le(self.entries@[i as int], self.entries@[t]));
                            }
                        }
                    }
                }
                current_row = row;
                start_index = i;
            }
            i = i + 1;
        }
        ri.set(current_row, Some((start_index, n - 1)));
        proof {
            assert forall|r: int| 0 <= r < n_rows implies row_slot_valid(
                self.entries@,
                #[trigger] ri@[r],
                r,
            ) by {
                if r == current_row {
                    assert forall|t: int|
                        0 <= t < self.entries@.len() implies ((start_index <= t <= n - 1) <==> (
                        #[trigger] self.entries@[t].row == current_row as int)) by {
                        if t < start_index {
                            assert(start_index > 0 ==> entry_le(
                                self.entries@[t],
                                self.entries@[start_index - 1],
                            ) || t == start_index - 1);
                        }
                    }
                } else if r > current_row {
                    assert forall|t: int|
                        0 <= t < self.entries@.len() implies #[trigger] self.entries@[t].row
                        != r by {
                        assert(entry_le(self.entries@[t], self.entries@[n - 1]) || t == n - 1);
                    }
                }
            }
        }
        self.row_indices = ri;
    }

    /// Full preprocessing pipeline: derive the dimensions, stable-sort the
    /// entries by (row, col), and rebuild the per-row index. Required
    /// before any product or solve, and callable again whenever entries
    /// change; the dimensions only ever grow, and re-running on an
    /// already sorted list leaves the entries as they are
    /// (`lemma_stable_sorted_identity`).
    pub fn preprocess(&mut self)
        requires
            old(self).entries@.len() <= ENTRY_CAP,
            entries_bounded(old(self).entries@),
            forall|i: int|
                0 <= i < old(self).entries@.len() ==> (#[trigger] old(self).entries@[i].row
                    < usize::MAX && old(self).entries@[i].col < usize::MAX),
        ensures
            final(self).wf(),
            final(self).entries@ == stable_sorted(old(self).entries@),
            final(self).entries@.to_multiset() == old(self).entries@.to_multiset(),
            final(self).entries@.len() == old(self).entries@.len(),
            final(self).n_rows == if max_row_excl(old(self).entries@) > old(self).n_rows {
                max_row_excl(old(self).entries@)
            } else {
                old(self).n_rows as int
            },
            final(self).n_cols == if max_col_excl(old(self).entries@) > old(self).n_cols {
                max_col_excl(old(self).entries@)
            } else {
                old(self).n_cols as int
            },
    {
        proof {
            broadcast use vstd::seq_lib::group_to_multiset_ensures;
        }
        self.compute_size();
        proof {
            lemma_max_row_col_covers(self.entries@);
        }
        let ghost pre_sort = self.entries@;
        self.sort_entries();
        proof {
            assert forall|i: int|
                0 <= i < self.entries@.len() implies pre_sort.contains(
                #[trigger] self.entries@[i]) by {
                assert(self.entries@.contains(self.entries@[i]));
                assert(pre_sort.to_multiset().count(self.entries@[i]) > 0);
            }
            assert(entries_bounded(self.entries@)) by {
                assert forall|i: int|
                    0 <= i < self.entries@.len() implies -VAL_BOUND
                    <= #[trigger] self.entries@[i].value <= VAL_BOUND by {
                    assert(pre_sort.contains(self.entries@[i]));
                    let j = choose|j: int|
                        0 <= j < pre_sort.len() && pre_sort[j] == self.entries@[i];
                }
            }
            assert(self.entries_in_range()) by {
                assert forall|i: int|
                    0 <= i < self.entries@.len() implies (#[trigger] self.entries@[i].row
                    < self.n_rows && self.entries@[i].col < self.n_cols) by {
                    assert(pre_sort.contains(self.entries@[i]));
                    let j = choose|j: int|
                        0 <= j < pre_sort.len() && pre_sort[j] == self.entries@[i];
                }
            }
        }
        self.compute_row_indices();
    }

    /// Builds a preprocessed matrix from parallel row, column and value
    /// sequences; surplus elements of a longer sequence are ignored, as the
    /// entries are taken index by index up to the shortest length.
    pub fn from_vecs(rows: &Vec<usize>, cols: &Vec<usize>, values: &Vec<i64>) -> (m: Self)
        requires
            zip_len(rows@, cols@, values@) <= ENTRY_CAP,
            forall|i: int|
                0 <= i < zip_len(rows@, cols@, values@) ==> (#[trigger] rows@[i] < usize::MAX
                    && cols@[i] < usize::MAX && -VAL_BOUND <= values@[i] <= VAL_BOUND),
        ensures
            m.wf(),
            m.entries@ == stable_sorted(zip_entries(rows@, cols@, values@)),
            m.entries@.to_multiset() == zip_entries(rows@, cols@, values@).to_multiset(),
            m.entries@.len() == zip_len(rows@, cols@, values@),
            m.n_rows == max_row_excl(zip_entries(rows@, cols@, values@)),
            m.n_cols == max_col_excl(zip_entries(rows@, cols@, values@)),
    {
        let mut n = rows.len();
        if cols.len() < n {
            n = cols.len();
        }
        if values.len() < n {
            n = values.len();
        }
        let mut entries: Vec<SparseEntry> = Vec::with_capacity(n);
        let mut i: usize = 0;
        while i < n
            invariant
                n == zip_len(rows@, cols@, values@),
                i <= n,
                n <= rows@.len() && n <= cols@.len() && n <= values@.len(),
                entries@ =~= zip_entries(rows@, cols@, values@).take(i as int),
            decreases n - i,
        {
            entries.push(
                SparseEntry { row: rows[i], col: cols[i], value: values[i] },
            );
            proof {
                assert(entries@ =~= zip_entries(rows@, cols@, values@).take(i + 1));
            }
            i = i + 1;
        }
        proof {
            assert(entries@ =~= zip_entries(rows@, cols@, values@));
        }
        let mut m = SparseMatrix { entries, n_rows: 0, n_cols: 0, row_indices: Vec::new() };
        m.preprocess();
        m
    }

    /// Serial matrix-vector product: accumulates `value * x[col]` of every
    /// entry into the output slot of its row, exactly.
    pub fn dot(&self, x: &Vec<i64>) -> (res: Result<Vec<i64>, SparseError>)
        requires
            self.wf(),
        ensures
            dot_post(*self, x@, res),
    {
        if x.len() != self.n_cols {
            return Err(SparseError::DimensionMismatch);
        }
        let n = self.entries.len();
        let n_rows = self.n_rows;
        let mut acc: Vec<i128> = Vec::with_capacity(n_rows);
        let mut k: usize = 0;
        while k < n_rows
            invariant
                k <= n_rows,
                acc@.len() == k,
                forall|r: int| 0 <= r < k ==> #[trigger] acc@[r] == 0,
            decreases n_rows - k,
        {
            acc.push(0);
            k = k + 1;
        }
        proof {
            assert forall|r: int| 0 <= r < n_rows implies #[trigger] acc@[r] == row_sum(
                self.entries@.take(0),
                x@,
                r,
            ) by {
                assert(self.entries@.take(0) =~= Seq::<SparseEntry>::empty());
            }
        }
        let mut i: usize = 0;
        while i < n
            invariant
                self.wf(),
                x@.len() == self.n_cols,
                n == self.entries@.len(),
                n_rows == self.n_rows,
                i <= n,
                acc@.len() == n_rows,
                forall|r: int|
                    0 <= r < n_rows ==> #[trigger] acc@[r] == row_sum(
                        self.entries@.take(i as int),
                        x@,
                        r,
                    ),
            decreases n - i,
        {
            let e = self.entries[i];
            proof {
                assert(self.entries@[i as int].row < self.n_rows && self.entries@[i as int].col
                    < self.n_cols);
                assert(-VAL_BOUND <= self.entries@[i as int].value <= VAL_BOUND);
                lemma_term_bound(e.value, x@[e.col as int]);
                assert(entries_bounded(self.entries@.take(i as int))) by {
                    assert forall|k: int|
                        0 <= k < i implies -VAL_BOUND <= #[trigger] self.entries@.take(
                        i as int)[k].value <= VAL_BOUND by {
                        assert(self.entries@.take(i as int)[k] == self.entries@[k]);
                        assert(-VAL_BOUND <= self.entries@[k].value <= VAL_BOUND);
                    }
                }
                lemma_row_sum_bound(self.entries@.take(i as int), x@, e.row as int);
            }
            let term: i128 = (e.value as i128) * (x[e.col] as i128);
            let cur = acc[e.row];
            acc.set(e.row, cur + term);
            proof {
                assert(self.entries@.take(i + 1).drop_last() =~= self.entries@.take(i as int));
                assert(self.entries@.take(i + 1).last() == self.entries@[i as int]);
            }
            i = i + 1;
        }
        proof {
            assert(self.entries@.take(n as int) =~= self.entries@);
        }
        self.narrow_sums(&acc, x)
    }

    /// Exact sum of row `r` against `x`, read through the per-row index.
    pub fn row_product(&self, x: &Vec<i64>, r: usize) -> (res: i128)
        requires
            self.wf(),
            x@.len() == self.n_cols,
            r < self.n_rows,
        ensures
            res == row_sum(self.entries@, x@, r as int),
    {
        match self.row_indices[r] {
            None => {
                proof {
                    assert(row_slot_valid(self.entries@, self.row_indices@[r as int], r as int));
                    lemma_row_sum_absent(self.entries@, x@, r as int);
                }
                0
            },
            Some((start, end)) => {
                proof {
                    assert(row_slot_valid(self.entries@, self.row_indices@[r as int], r as int));
                    lemma_row_sum_slice(self.entries@, x@, r as int, start as int, end as int);
                }
                let mut acc: i128 = 0;
                let mut j: usize = start;
                while j <= end
                    invariant
                        self.wf(),
                        x@.len() == self.n_cols,
                        start <= j <= end + 1,
                        end < self.entries@.len(),
                        acc == slice_sum(self.entries@, x@, start as int, j as int),
                    decreases end + 1 - j,
                {
                    let e = self.entries[j];
                    proof {
                        assert(self.entries@[j as int].row < self.n_rows
                            && self.entries@[j as int].col < self.n_cols);
                        assert(-VAL_BOUND <= self.entries@[j as int].value <= VAL_BOUND);
                        lemma_term_bound(e.value, x@[e.col as int]);
                        lemma_slice_sum_bound(self.entries@, x@, start as int, j as int);
                    }
                    let term: i128 = (e.value as i128) * (x[e.col] as i128);
                    acc = acc + term;
                    j = j + 1;
                }
                acc
            },
        }
    }

    /// Relies on rayon's parallel iterator over `0..n_rows`: `map` applies
    /// the verified `row_product` to each row index and `collect` returns
    /// the mapped values in row order, one per row.
    #[verifier::external_body]
    fn par_row_products(&self, x: &Vec<i64>) -> (res: Vec<i128>)
        requires
            self.wf(),
            x@.len() == self.n_cols,
        ensures
            res@.len() == self.n_rows,
            forall|r: int| 0 <= r < self.n_rows ==> #[trigger] res@[r] == row_sum(
                self.entries@,
                x@,
                r,
            ),
    {
        (0..self.n_rows).into_par_iter().map(|r| self.row_product(x, r)).collect()
    }

    /// Parallel matrix-vector product: each row's slice of entries is
    /// summed independently against `x` and written to the row's own output
    /// slot; the result is exactly the serial product's.
    pub fn dot_par(&self, x: &Vec<i64>) -> (res: Result<Vec<i64>, SparseError>)
        requires
            self.wf(),
        ensures
            dot_post(*self, x@, res),
    {
        if x.len() != self.n_cols {
            return Err(SparseError::DimensionMismatch);
        }
        let sums = self.par_row_products(x);
        self.narrow_sums(&sums, x)
    }

    /// A random preprocessed matrix with indices drawn below `n_rows`:
    /// `n_entries` draws are kept when they fall off the diagonal, with
    /// values in [-10, 10), and with `force_diagonal` every row gets a
    /// diagonal entry with a value in [5000, 10000).
    pub fn random(n_rows: usize, n_entries: usize, force_diagonal: bool) -> (m: Self)
        requires
            1 <= n_rows,
            n_entries + n_rows <= ENTRY_CAP,
        ensures
            m.wf(),
            forall|i: int|
                #![trigger m.entries@[i]]
                0 <= i < m.entries@.len() ==> (m.entries@[i].row < n_rows && m.entries@[i].col
                    < n_rows && (m.entries@[i].row == m.entries@[i].col ==> 5000
                    <= m.entries@[i].value < 10000) && (m.entries@[i].row != m.entries@[i].col
                    ==> -10 <= m.entries@[i].value < 10)),
            m.n_rows <= n_rows,
            m.n_cols <= n_rows,
            force_diagonal ==> m.n_rows == n_rows && m.n_cols == n_rows,
            force_diagonal ==> forall|r: int|
                0 <= r < n_rows ==> #[trigger] has_diagonal_entry(m.entries@, r),
    {
        let mut rows: Vec<usize> = Vec::new();
        let mut cols: Vec<usize> = Vec::new();
        let mut k: usize = 0;
        while k < n_entries
            invariant
                1 <= n_rows,
                k <= n_entries,
                rows@.len() == cols@.len(),
                rows@.len() <= k,
                forall|i: int|
                    #![trigger rows@[i]]
                    #![trigger cols@[i]]
                    0 <= i < rows@.len() ==> (rows@[i] < n_rows && cols@[i] < n_rows && rows@[i]
                        != cols@[i]),
            decreases n_entries - k,
        {
            let r = rand_index_below(n_rows);
            let c = rand_index_below(n_rows);
            if r != c {
                rows.push(r);
                cols.push(c);
            }
            k = k + 1;
        }
        if force_diagonal {
            let base = rows.len();
            let mut i: usize = 0;
            while i < n_rows
                invariant
                    i <= n_rows,
                    rows@.len() == cols@.len(),
                    rows@.len() == base + i,
                    base + n_rows <= ENTRY_CAP,
                    forall|j: int|
                        #![trigger rows@[j]]
                        #![trigger cols@[j]]
                        0 <= j < rows@.len() ==> (rows@[j] < n_rows && cols@[j] < n_rows),
                    forall|j: int|
                        #![trigger rows@[j]]
                        base <= j < rows@.len() ==> (rows@[j] == cols@[j] && rows@[j] == j - base),
                decreases n_rows - i,
            {
                rows.push(i);
                cols.push(i);
                i = i + 1;
            }
            proof {
                assert forall|r: int|
                    #![trigger rows@[rows@.len() - n_rows + r]]
                    0 <= r < n_rows implies rows@[rows@.len() - n_rows + r] == r && cols@[
                    rows@.len() - n_rows + r] == r by {
                    assert(rows@[base + r] == r && cols@[base + r] == r);
                }
            }
        }
        let n = rows.len();
        let mut values: Vec<i64> = Vec::with_capacity(n);
        let mut k: usize = 0;
        while k < n
            invariant
                k <= n,
                n == rows@.len(),
                n == cols@.len(),
                values@.len() == k,
                forall|j: int|
                    #![trigger values@[j]]
                    0 <= j < k ==> ((rows@[j] == cols@[j] ==> 5000 <= values@[j] < 10000) && (
                    rows@[j] != cols@[j] ==> -10 <= values@[j] < 10)),
            decreases n - k,
        {
            if rows[k] == cols[k] {
                values.push(rand_value_in(5000, 10000));
            } else {
                values.push(rand_value_in(-10, 10));
            }
            k = k + 1;
        }
        let m = Self::from_vecs(&rows, &cols, &values);
        proof {
            broadcast use vstd::seq_lib::group_to_multiset_ensures;

            let z = zip_entries(rows@, cols@, values@);
            assert forall|i: int|
                #![trigger m.entries@[i]]
                0 <= i < m.entries@.len() implies (m.entries@[i].row < n_rows
                && m.entries@[i].col < n_rows && (m.entries@[i].row == m.entries@[i].col ==> 5000
                <= m.entries@[i].value < 10000) && (m.entries@[i].row != m.entries@[i].col ==> -10
                <= m.entries@[i].value < 10)) by {
                assert(m.entries@.contains(m.entries@[i]));
                assert(z.to_multiset().count(m.entries@[i]) > 0);
                assert(z.contains(m.entries@[i]));
                let j = choose|j: int| 0 <= j < z.len() && z[j] == m.entries@[i];
            }
            assert forall|i: int|
                #![trigger z[i]]
                0 <= i < z.len() implies z[i].row < n_rows && z[i].col < n_rows by {}
            lemma_max_excl_le(z, n_rows as int);
            if force_diagonal {
                lemma_max_row_col_covers(z);
                assert(z[z.len() - 1].row == n_rows - 1 && z[z.len() - 1].col == n_rows - 1);
                assert forall|r: int| 0 <= r < n_rows implies #[trigger] has_diagonal_entry(
                    m.entries@,
                    r,
                ) by {
                    assert(z.len() == rows@.len());
                    let zi = z.len() - n_rows + r;
                    assert(rows@[rows@.len() - n_rows + r] == r && cols@[rows@.len() - n_rows + r]
                        == r);
                    assert(z[zi].row == r && z[zi].col == r);
                    assert(z.contains(z[zi]));
                    assert(m.entries@.to_multiset().count(z[zi]) > 0);
                    assert(m.entries@.contains(z[zi]));
                    let ii = choose|ii: int| 0 <= ii < m.entries@.len() && m.entries@[ii] == z[zi];
                    assert(m.entries@[ii].row == r && m.entries@[ii].col == r);
                }
            }
        }
        m
    }

    /// A random vector matching the matrix's column count, with components
    /// spanning the fixed-point unit range.
    pub fn random_vec_like(&self) -> (res: Vec<i64>)
        ensures
            res@.len() == self.n_cols,
            forall|i: int| 0 <= i < res@.len() ==> -VAL_BOUND <= #[trigger] res@[i] < VAL_BOUND,
    {
        let n = self.n_cols;
        let mut out: Vec<i64> = Vec::with_capacity(n);
        let mut i: usize = 0;
        while i < n
            invariant
                i <= n,
                out@.len() == i,
                forall|j: int| 0 <= j < i ==> -VAL_BOUND <= #[trigger] out@[j] < VAL_BOUND,
            decreases n - i,
        {
            out.push(rand_value_in(-VAL_BOUND, VAL_BOUND));
            i = i + 1;
        }
        out
    }

    /// The diagonal entries, in entry-list order.
    pub fn diagonal_entries(&self) -> (res: Vec<SparseEntry>)
        ensures
            res@ == diagonal_seq(self.entries@),
    {
        let n = self.entries.len();
        let mut out: Vec<SparseEntry> = Vec::new();
        let mut i: usize = 0;
        while i < n
            invariant
                n == self.entries@.len(),
                i <= n,
                out@ == diagonal_seq(self.entries@.take(i as int)),
            decreases n - i,
        {
            let e = self.entries[i];
            if e.row == e.col {
                out.push(e);
            }
            proof {
                assert(self.entries@.take(i + 1).drop_last() =~= self.entries@.take(i as int));
                assert(self.entries@.take(i + 1).last() == self.entries@[i as int]);
            }
            i = i + 1;
        }
        proof {
            assert(self.entries@.take(n as int) =~= self.entries@);
        }
        out
    }

    /// The values of the diagonal entries, in entry-list order.
    pub fn diagonal_values(&self) -> (res: Vec<i64>)
        ensures
            res@.len() == diagonal_seq(self.entries@).len(),
            forall|i: int|
                0 <= i < res@.len() ==> #[trigger] res@[i] == diagonal_seq(
                    self.entries@,
                )[i].value,
    {
        let diag = self.diagonal_entries();
        let n = diag.len();
        let mut out: Vec<i64> = Vec::with_capacity(n);
        let mut i: usize = 0;
        while i < n
            invariant
                n == diag@.len(),
                i <= n,
                out@.len() == i,
                forall|k: int| 0 <= k < i ==> #[trigger] out@[k] == diag@[k].value,
            decreases n - i,
        {
            out.push(diag[i].value);
            i = i + 1;
        }
        out
    }

    /// The off-diagonal entries, in entry-list order.
    pub fn off_diagonal_entries(&self) -> (res: Vec<SparseEntry>)
        ensures
            res@ == off_diagonal_seq(self.entries@),
    {
        let n = self.entries.len();
        let mut out: Vec<SparseEntry> = Vec::new();
        let mut i: usize = 0;
        while i < n
            invariant
                n == self.entries@.len(),
                i <= n,
                out@ == off_diagonal_seq(self.entries@.take(i as int)),
            decreases n - i,
        {
            let e = self.entries[i];
            if e.row != e.col {
                out.push(e);
            }
            proof {
                assert(self.entries@.take(i + 1).drop_last() =~= self.entries@.take(i as int));
                assert(self.entries@.take(i + 1).last() == self.entries@[i as int]);
            }
            i = i + 1;
        }
        proof {
            assert(self.entries@.take(n as int) =~= self.entries@);
        }
        out
    }

    /// Narrows exact `i128` row sums to the `i64` output vector, reporting
    /// a range error when any sum does not fit.
    fn narrow_sums(&self, sums: &Vec<i128>, x: &Vec<i64>) -> (res: Result<
        Vec<i64>,
        SparseError,
    >)
        requires
            x@.len() == self.n_cols,
            sums@.len() == self.n_rows,
            forall|r: int|
                0 <= r < self.n_rows ==> #[trigger] sums@[r] == row_sum(self.entries@, x@, r),
        ensures
            dot_post(*self, x@, res),
    {
        let n_rows = self.n_rows;
        let mut out: Vec<i64> = Vec::with_capacity(n_rows);
        let mut r: usize = 0;
        while r < n_rows
            invariant
                n_rows == self.n_rows,
                x@.len() == self.n_cols,
                sums@.len() == self.n_rows,
                forall|q: int|
                    0 <= q < self.n_rows ==> #[trigger] sums@[q] == row_sum(self.entries@, x@, q),
                r <= n_rows,
                out@.len() == r,
                forall|q: int| 0 <= q < r ==> #[trigger] out@[q] == sums@[q],
                forall|q: int| 0 <= q < r ==> fits_i64(#[trigger] sums@[q] as int),
            decreases n_rows - r,
        {
            let v = sums[r];
            if v < i64::MIN as i128 || v > i64::MAX as i128 {
                proof {
                    assert(!fits_i64(row_sum(self.entries@, x@, r as int)));
                }
                return Err(SparseError::ValueOutOfRange);
            }
            out.push(v as i64);
            r = r + 1;
        }
        proof {
            assert forall|q: int| 0 <= q < self.n_rows implies fits_i64(
                row_sum(self.entries@, x@, q),
            ) by {
                assert(sums@[q] == row_sum(self.entries@, x@, q));
            }
        }
        Ok(out)
    }
}

/// Every entry's row is below `max_row_excl` and its column below
/// `max_col_excl`.
proof fn lemma_max_row_col_covers(s: Seq<SparseEntry>)
    ensures
        forall|i: int|
            0 <= i < s.len() ==> (#[trigger] s[i].row < max_row_excl(s) && s[i].col < max_col_excl(
                s,
            )),
        max_row_excl(s) >= 0,
        max_col_excl(s) >= 0,
    decreases s.len(),
{
    if s.len() > 0 {
        lemma_max_row_col_covers(s.drop_last());
        assert forall|i: int|
            0 <= i < s.len() implies (#[trigger] s[i].row < max_row_excl(s) && s[i].col
            < max_col_excl(s)) by {
            if i < s.len() - 1 {
                assert(s.drop_last()[i] == s[i]);
            }
        }
    }
}

} // verus!
