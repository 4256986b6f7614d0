//! Small numeric helpers for building level sets: evenly spaced values
//! and powers of ten over them, in fixed-point integers.

use crate::numeric::trunc_div;
use vstd::arithmetic::div_mod::lemma_div_pos_is_pos;
use vstd::arithmetic::div_mod::lemma_fundamental_div_mod;
use vstd::arithmetic::div_mod::lemma_mod_pos_bound;
use vstd::prelude::*;

verus! {

/// Largest magnitude `linspace` accepts for its endpoints.
pub const LIN_BOUND: i64 = 1048576;

/// Largest point count `linspace` accepts.
pub const LIN_CAP: usize = 65536;

/// The value at position `q` of an evenly spaced ramp: the exact stop at
/// the last position, and `start` plus `q` truncated steps before it.
pub open spec fn lin_at(start: i64, stop: i64, num: int, q: int) -> int {
    if q == num - 1 {
        stop as int
    } else {
        start + trunc_div(stop - start, num - 1) * q
    }
}

/// Ten to the power `e`.
pub open spec fn pow10(e: int) -> int
    decreases e,
{
    if e <= 0 {
        1
    } else {
        10 * pow10(e - 1)
    }
}

/// A ramp of `q` truncated steps stays between zero and the full span.
proof fn lemma_ramp_bounds(d: int, n: int, q: int)
    requires
        1 <= n,
        0 <= q <= n,
    ensures
        d >= 0 ==> 0 <= trunc_div(d, n) * q <= d,
        d < 0 ==> d <= trunc_div(d, n) * q <= 0,
{
    if d == 0 {
        assert(trunc_div(0, n) * q == 0) by (nonlinear_arith)
            requires
                trunc_div(0, n) == 0,
        ;
    } else if d > 0 {
        let s = d / n;
        lemma_fundamental_div_mod(d, n);
        lemma_mod_pos_bound(d, n);
        lemma_div_pos_is_pos(d, n);
        assert(trunc_div(d, n) == s);
        assert(0 <= s * q <= d) by (nonlinear_arith)
            requires
                0 <= s,
                0 <= q <= n,
                d == n * s + d % n,
                0 <= d % n,
        ;
    } else {
        let u = (d * -1) / n;
        lemma_fundamental_div_mod(d * -1, n);
        lemma_mod_pos_bound(d * -1, n);
        lemma_div_pos_is_pos(d * -1, n);
        assert(trunc_div(d, n) == u * -1);
        assert(d <= (u * -1) * q <= 0) by (nonlinear_arith)
            requires
                0 <= u,
                0 <= q <= n,
                d * -1 == n * u + (d * -1) % n,
                0 <= (d * -1) % n,
        ;
    }
}

/// Evenly spaced values from `start` to `stop`: a single `start` when
/// fewer than two points are asked for, otherwise `num` values that move
/// from `start` by the truncated step `(stop - start) / (num - 1)` and
/// end exactly at `stop`.
pub fn linspace(start: i64, stop: i64, num: usize) -> (res: Vec<i64>)
    requires
        -LIN_BOUND <= start <= LIN_BOUND,
        -LIN_BOUND <= stop <= LIN_BOUND,
        num <= LIN_CAP,
    ensures
        num < 2 ==> res@ =~= seq![start],
        num >= 2 ==> res@.len() == num && forall|q: int|
            0 <= q < num ==> #[trigger] res@[q] == lin_at(start, stop, num as int, q),
{
    if num < 2 {
        let mut res: Vec<i64> = Vec::new();
        res.push(start);
        return res;
    }
    proof {
        crate::numeric::lemma_trunc_div_bound(stop - start, num - 1);
    }
    let step = match (stop - start).checked_div((num - 1) as i64) {
        Some(v) => v,
        None => 0,
    };
    let mut res: Vec<i64> = Vec::with_capacity(num);
    let mut i: usize = 0;
    while i < num - 1
        invariant
            2 <= num <= LIN_CAP,
            -LIN_BOUND <= start <= LIN_BOUND,
            -LIN_BOUND <= stop <= LIN_BOUND,
            step == trunc_div(stop - start, num - 1),
            i <= num - 1,
            res@.len() == i,
            forall|q: int| 0 <= q < i ==> #[trigger] res@[q] == lin_at(start, stop, num as int, q),
        decreases num - 1 - i,
    {
        proof {
            lemma_ramp_bounds(stop - start, num - 1, i as int);
        }
        let value = start + step * (i as i64);
        res.push(value);
        i = i + 1;
    }
    res.push(stop);
    res
}

/// Ten to the power `e`, exactly, for exponents up to 18.
pub fn pow10_exec(e: i64) -> (r: i64)
    requires
        0 <= e <= 18,
    ensures
        r == pow10(e as int),
        1 <= r <= 1000000000000000000,
{
    let mut r: i64 = 1;
    let mut t: i64 = 0;
    while t < e
        invariant
            0 <= t <= e <= 18,
            r == pow10(t as int),
            1 <= r <= 1000000000000000000,
        decreases e - t,
    {
        proof {
            lemma_pow10_bounds((t + 1) as int);
        }
        r = r * 10;
        t = t + 1;
    }
    r
}

/// Powers of ten are positive.
pub proof fn lemma_pow10_pos(e: int)
    ensures
        pow10(e) >= 1,
    decreases e,
{
    if e > 0 {
        lemma_pow10_pos(e - 1);
    }
}

/// Powers of ten grow with the exponent.
pub proof fn lemma_pow10_mono(a: int, b: int)
    requires
        0 <= a <= b,
    ensures
        pow10(a) <= pow10(b),
    decreases b - a,
{
    if a < b {
        lemma_pow10_mono(a, b - 1);
        lemma_pow10_pos(b - 1);
    }
}

/// Powers of ten up to the 18th stay within `i64`.
proof fn lemma_pow10_bounds(e: int)
    requires
        0 <= e <= 18,
    ensures
        1 <= pow10(e) <= 1000000000000000000,
{
    lemma_pow10_pos(e);
    lemma_pow10_mono(e, 18);
    assert(pow10(18) == 1000000000000000000) by {
        reveal_with_fuel(pow10, 20);
    }
}

/// Powers of ten over an evenly spaced exponent ramp from `start` to
/// `end`: position `q` holds ten to the power of the ramp value there.
pub fn logspace(start: i64, end: i64, num: usize) -> (res: Vec<i64>)
    requires
        0 <= start <= 18,
        0 <= end <= 18,
        2 <= num <= LIN_CAP,
    ensures
        res@.len() == num,
        forall|q: int|
            0 <= q < num ==> #[trigger] res@[q] == pow10(lin_at(start, end, num as int, q)),
{
    let lin = linspace(start, end, num);
    let mut res: Vec<i64> = Vec::with_capacity(num);
    let mut i: usize = 0;
    while i < num
        invariant
            0 <= start <= 18,
            0 <= end <= 18,
            2 <= num,
            lin@.len() == num,
            forall|q: int| 0 <= q < num ==> #[trigger] lin@[q] == lin_at(start, end, num as int, q),
            i <= num,
            res@.len() == i,
            forall|q: int|
                0 <= q < i ==> #[trigger] res@[q] == pow10(lin_at(start, end, num as int, q)),
        decreases num - i,
    {
        proof {
            lemma_lin_at_between(start, end, num as int, i as int);
        }
        res.push(pow10_exec(lin[i]));
        i = i + 1;
    }
    res
}

/// Every ramp value lies between the two endpoints.
proof fn lemma_lin_at_between(start: i64, end: i64, num: int, q: int)
    requires
        2 <= num,
        0 <= q < num,
    ensures
        (start <= end ==> start <= lin_at(start, end, num, q) <= end),
        (end <= start ==> end <= lin_at(start, end, num, q) <= start),
{
    if q < num - 1 {
        lemma_ramp_bounds(end - start, num - 1, q);
    }
}

} // verus!
