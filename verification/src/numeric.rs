//! Shared integer arithmetic specifications: absolute value, truncating
//! division, and views of `i64` vectors as unbounded integers.

use vstd::arithmetic::div_mod::lemma_div_nonincreasing;
use vstd::arithmetic::div_mod::lemma_div_pos_is_pos;
use vstd::prelude::*;

verus! {

/// Absolute value.
pub open spec fn abs_i(v: int) -> int {
    if v < 0 {
        -v
    } else {
        v
    }
}

/// The components of an `i64` vector as unbounded integers.
pub open spec fn to_ints(x: Seq<i64>) -> Seq<int> {
    Seq::new(x.len(), |i: int| x[i] as int)
}

/// Every component fits the `i64` range.
pub open spec fn in_i64(v: Seq<int>) -> bool {
    forall|i: int| #![trigger v[i]] 0 <= i < v.len() ==> i64::MIN <= v[i] <= i64::MAX
}

/// Truncating integer division (the `/` of the executable code): the
/// quotient of the magnitudes, with the sign of the exact quotient.
pub open spec fn trunc_div(a: int, d: int) -> int {
    if a == 0 {
        0
    } else if a > 0 && d > 0 {
        a / d
    } else if a < 0 && d < 0 {
        (a * -1) / (d * -1)
    } else if a < 0 {
        ((a * -1) / d) * -1
    } else {
        (a / (d * -1)) * -1
    }
}

/// The magnitude of a truncated quotient never exceeds the dividend's.
pub proof fn lemma_trunc_div_bound(a: int, d: int)
    requires
        d != 0,
    ensures
        abs_i(trunc_div(a, d)) <= abs_i(a),
{
    if a == 0 {
    } else if a > 0 && d > 0 {
        lemma_div_pos_is_pos(a, d);
        lemma_div_nonincreasing(a, d);
    } else if a < 0 && d < 0 {
        lemma_div_pos_is_pos(a * -1, d * -1);
        lemma_div_nonincreasing(a * -1, d * -1);
    } else if a < 0 {
        lemma_div_pos_is_pos(a * -1, d);
        lemma_div_nonincreasing(a * -1, d);
    } else {
        lemma_div_pos_is_pos(a, d * -1);
        lemma_div_nonincreasing(a, d * -1);
    }
}

} // verus!
