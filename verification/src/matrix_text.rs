//! The sparse matrix text format: one entry per line, three
//! whitespace-separated decimal fields `row col value`.
//!
//! This module parses one line exactly: the grammar is leading
//! whitespace, a row numeral, whitespace, a column numeral, whitespace,
//! an optionally negated value numeral, and trailing whitespace. A
//! numeral has 1 to 18 digits (longer numerals are rejected, which keeps
//! every value well inside the machine ranges).

use crate::math::pow10;
use vstd::arithmetic::div_mod::lemma_fundamental_div_mod;
use vstd::prelude::*;

verus! {

/// Longest accepted numeral.
pub const MAX_DIGITS: usize = 18;

/// An ASCII decimal digit.
pub open spec fn is_digit(b: u8) -> bool {
    48 <= b <= 57
}

/// Blank characters between fields: space, tab and carriage return.
pub open spec fn is_space(b: u8) -> bool {
    b == 32 || b == 9 || b == 13
}

/// The first position at or after `i` that does not hold a blank.
pub open spec fn skip_ws(s: Seq<u8>, i: int) -> int
    decreases s.len() - i,
{
    if 0 <= i < s.len() && is_space(s[i]) {
        skip_ws(s, i + 1)
    } else {
        i
    }
}

/// The first position at or after `i` that does not hold a digit.
pub open spec fn digits_end(s: Seq<u8>, i: int) -> int
    decreases s.len() - i,
{
    if 0 <= i < s.len() && is_digit(s[i]) {
        digits_end(s, i + 1)
    } else {
        i
    }
}

/// The value of the digit run `s[i..j)`.
pub open spec fn dec_val(s: Seq<u8>, i: int, j: int) -> int
    decreases j - i,
{
    if j <= i {
        0
    } else {
        dec_val(s, i, j - 1) * 10 + (s[j - 1] - 48)
    }
}

/// What one line of the matrix text format denotes: the (row, col,
/// value) triple when the line matches the grammar and its numerals are
/// in range, and nothing otherwise.
pub open spec fn parse_entry(s: Seq<u8>) -> Option<(int, int, int)> {
    let a0 = skip_ws(s, 0);
    let a1 = digits_end(s, a0);
    let b0 = skip_ws(s, a1);
    let b1 = digits_end(s, b0);
    let c0 = skip_ws(s, b1);
    let neg = c0 < s.len() && s[c0] == 45;
    let d0 = if neg {
        c0 + 1
    } else {
        c0
    };
    let d1 = digits_end(s, d0);
    let end = skip_ws(s, d1);
    if a1 - a0 < 1 || a1 - a0 > MAX_DIGITS {
        None
    } else if b0 <= a1 || b1 - b0 < 1 || b1 - b0 > MAX_DIGITS {
        None
    } else if c0 <= b1 || d1 - d0 < 1 || d1 - d0 > MAX_DIGITS {
        None
    } else if end != s.len() {
        None
    } else if dec_val(s, a0, a1) > usize::MAX || dec_val(s, b0, b1) > usize::MAX {
        None
    } else {
        let v = dec_val(s, d0, d1);
        Some((dec_val(s, a0, a1), dec_val(s, b0, b1), if neg {
            -v
        } else {
            v
        }))
    }
}

/// Positions only move forward while skipping blanks.
proof fn lemma_skip_ws_range(s: Seq<u8>, i: int)
    requires
        0 <= i <= s.len(),
    ensures
        i <= skip_ws(s, i) <= s.len(),
    decreases s.len() - i,
{
    if i < s.len() && is_space(s[i]) {
        lemma_skip_ws_range(s, i + 1);
    }
}

/// A digit run's value is nonnegative and below ten to its length.
proof fn lemma_dec_val_bounds(s: Seq<u8>, i: int, j: int)
    requires
        forall|t: int| i <= t < j ==> is_digit(#[trigger] s[t]),
    ensures
        0 <= dec_val(s, i, j),
        j > i ==> dec_val(s, i, j) < pow10(j - i),
    decreases j - i,
{
    if j > i {
        lemma_dec_val_bounds(s, i, j - 1);
        if j - 1 > i {
            assert(dec_val(s, i, j - 1) < pow10(j - 1 - i));
            assert(dec_val(s, i, j - 1) * 10 <= (pow10(j - 1 - i) - 1) * 10) by (nonlinear_arith)
                requires
                    dec_val(s, i, j - 1) <= pow10(j - 1 - i) - 1,
            ;
        }
    }
}

/// Ten to the 18th, the bound on any accepted numeral's value.
proof fn lemma_pow10_cap(e: int)
    requires
        0 <= e <= 18,
    ensures
        pow10(e) <= 1000000000000000000,
{
    assert(pow10(18) == 1000000000000000000) by {
        reveal_with_fuel(pow10, 20);
    }
    crate::math::lemma_pow10_mono(e, 18);
}

/// The first non-blank position at or after `i`.
fn skip_ws_exec(s: &[u8], i: usize) -> (r: usize)
    requires
        i <= s@.len(),
    ensures
        r == skip_ws(s@, i as int),
        i <= r <= s@.len(),
{
    let n = s.len();
    let mut j = i;
    while j < n && (s[j] == 32 || s[j] == 9 || s[j] == 13)
        invariant
            i <= j <= n,
            n == s@.len(),
            skip_ws(s@, i as int) == skip_ws(s@, j as int),
        decreases n - j,
    {
        j = j + 1;
    }
    j
}

/// The first non-digit position at or after `i`.
fn digits_end_exec(s: &[u8], i: usize) -> (r: usize)
    requires
        i <= s@.len(),
    ensures
        r == digits_end(s@, i as int),
        i <= r <= s@.len(),
        forall|t: int| i <= t < r ==> is_digit(#[trigger] s@[t]),
{
    let n = s.len();
    let mut j = i;
    while j < n && 48 <= s[j] && s[j] <= 57
        invariant
            i <= j <= n,
            n == s@.len(),
            digits_end(s@, i as int) == digits_end(s@, j as int),
            forall|t: int| i <= t < j ==> is_digit(#[trigger] s@[t]),
        decreases n - j,
    {
        j = j + 1;
    }
    j
}

/// The value of the digit run `s[i..j)`, exact for runs of up to 18
/// digits.
fn dec_val_exec(s: &[u8], i: usize, j: usize) -> (r: u64)
    requires
        i <= j <= s@.len(),
        j - i <= MAX_DIGITS,
        forall|t: int| i <= t < j ==> is_digit(#[trigger] s@[t]),
    ensures
        r == dec_val(s@, i as int, j as int),
        r <= 1000000000000000000,
{
    let mut acc: u64 = 0;
    let mut t = i;
    while t < j
        invariant
            i <= t <= j <= s@.len(),
            j - i <= MAX_DIGITS,
            forall|q: int| i <= q < j ==> is_digit(#[trigger] s@[q]),
            acc == dec_val(s@, i as int, t as int),
            acc <= 1000000000000000000,
        decreases j - t,
    {
        proof {
            lemma_dec_val_bounds(s@, i as int, t as int);
            lemma_dec_val_bounds(s@, i as int, t + 1);
            if t + 1 > i {
                lemma_pow10_cap(t + 1 - i);
            }
        }
        acc = acc * 10 + ((s[t] - 48) as u64);
        t = t + 1;
    }
    proof {
        lemma_dec_val_bounds(s@, i as int, j as int);
        if j > i {
            lemma_pow10_cap(j - i);
        }
    }
    acc
}

/// The numeric value of a least-significant-digit-first run.
pub open spec fn rev_val(r: Seq<u8>) -> int
    decreases r.len(),
{
    if r.len() == 0 {
        0
    } else {
        (r[0] - 48) + 10 * rev_val(r.drop_first())
    }
}

/// A digit run's value depends only on the positions it reads.
proof fn lemma_dec_val_frame(s1: Seq<u8>, s2: Seq<u8>, i: int, j: int)
    requires
        forall|t: int| i <= t < j ==> s1[t] == #[trigger] s2[t],
    ensures
        dec_val(s1, i, j) == dec_val(s2, i, j),
    decreases j - i,
{
    if j > i {
        lemma_dec_val_frame(s1, s2, i, j - 1);
    }
}

/// Reversing a least-significant-first run gives the digit run with the
/// same value.
proof fn lemma_dec_rev(r: Seq<u8>)
    ensures
        dec_val(r.reverse(), 0, r.len() as int) == rev_val(r),
    decreases r.len(),
{
    if r.len() > 0 {
        let s = r.reverse();
        let rd = r.drop_first();
        lemma_dec_rev(rd);
        assert(forall|t: int| 0 <= t < rd.len() ==> #[trigger] rd.reverse()[t] == s[t]);
        lemma_dec_val_frame(rd.reverse(), s, 0, rd.len() as int);
        assert(s[r.len() - 1] == r[0]);
    }
}

/// Renders `v` as its decimal digit run, most significant digit first,
/// with no leading zero (a single zero digit for 0).
fn render_u64(v: u64) -> (res: Vec<u8>)
    requires
        v <= 999999999999999999,
    ensures
        1 <= res@.len() <= 18,
        forall|t: int| 0 <= t < res@.len() ==> is_digit(#[trigger] res@[t]),
        dec_val(res@, 0, res@.len() as int) == v,
{
    let mut rev: Vec<u8> = Vec::new();
    let mut x = v;
    rev.push((x % 10) as u8 + 48);
    proof {
        assert(rev@.drop_first() =~= Seq::<u8>::empty());
        assert(rev_val(Seq::<u8>::empty()) == 0);
        assert(rev_val(rev@) == x % 10);
        assert(pow10(1) == 10 * pow10(0));
        lemma_fundamental_div_mod(x as int, 10);
    }
    x = x / 10;
    while x > 0
        invariant
            1 <= rev@.len() <= 18,
            forall|t: int| 0 <= t < rev@.len() ==> is_digit(#[trigger] rev@[t]),
            v == rev_val(rev@) + x * pow10(rev@.len() as int),
            0 <= rev_val(rev@),
            v <= 999999999999999999,
            x > 0 ==> rev@.len() < 18,
        decreases x,
    {
        let d = (x % 10) as u8 + 48;
        let ghost old_rev = rev@;
        let ghost old_x = x as int;
        rev.push(d);
        x = x / 10;
        proof {
            lemma_rev_val_push(old_rev, d);
            lemma_fundamental_div_mod(old_x, 10);
            crate::math::lemma_pow10_pos(old_rev.len() as int);
            assert(pow10(rev@.len() as int) == 10 * pow10(old_rev.len() as int));
            assert(old_x * pow10(old_rev.len() as int) == (old_x % 10) * pow10(
                old_rev.len() as int,
            ) + (old_x / 10) * (10 * pow10(old_rev.len() as int))) by (nonlinear_arith)
                requires
                    old_x == 10 * (old_x / 10) + old_x % 10,
            ;
            assert(0 <= (d - 48) * pow10(old_rev.len() as int)) by (nonlinear_arith)
                requires
                    48 <= d,
                    1 <= pow10(old_rev.len() as int),
            ;
            assert(v == rev_val(rev@) + x * pow10(rev@.len() as int));
            if x > 0 {
                assert(rev@.len() < 18) by {
                    if rev@.len() >= 18 {
                        crate::math::lemma_pow10_mono(18, rev@.len() as int);
                        assert(pow10(18) == 1000000000000000000) by {
                            reveal_with_fuel(pow10, 20);
                        }
                        assert((x as int) * pow10(rev@.len() as int) >= pow10(
                            rev@.len() as int,
                        )) by (nonlinear_arith)
                            requires
                                x >= 1,
                                pow10(rev@.len() as int) >= 0,
                        ;
                    }
                }
            }
        }
    }
    let rlen = rev.len();
    let mut res: Vec<u8> = Vec::with_capacity(rlen);
    let mut t: usize = 0;
    while t < rlen
        invariant
            rlen == rev@.len(),
            t <= rlen,
            res@ =~= rev@.reverse().take(t as int),
        decreases rlen - t,
    {
        res.push(rev[rlen - 1 - t]);
        proof {
            assert(rev@.reverse()[t as int] == rev@[rlen - 1 - t]);
            assert(res@ =~= rev@.reverse().take(t + 1));
        }
        t = t + 1;
    }
    proof {
        assert(res@ =~= rev@.reverse());
        lemma_dec_rev(rev@);
        assert(forall|q: int|
            0 <= q < res@.len() ==> #[trigger] res@[q] == rev@[rev@.len() - 1 - q]);
        assert(pow10(rev@.len() as int) >= 1) by {
            crate::math::lemma_pow10_pos(rev@.len() as int);
        }
        assert(v == rev_val(rev@));
    }
    res
}

/// Appending a more significant digit scales it by the run's length.
proof fn lemma_rev_val_push(r: Seq<u8>, d: u8)
    ensures
        rev_val(r.push(d)) == rev_val(r) + (d - 48) * pow10(r.len() as int),
    decreases r.len(),
{
    if r.len() == 0 {
        assert(r.push(d).drop_first() =~= Seq::<u8>::empty());
        assert(rev_val(Seq::<u8>::empty()) == 0);
        assert(pow10(0) == 1);
        assert((d - 48) * 1 == d - 48) by (nonlinear_arith);
    } else {
        assert(r.push(d).drop_first() =~= r.drop_first().push(d));
        lemma_rev_val_push(r.drop_first(), d);
        assert(r.push(d)[0] == r[0]);
        assert(pow10(r.len() as int) == 10 * pow10(r.drop_first().len() as int));
        assert((d - 48) * pow10(r.len() as int) == 10 * ((d - 48) * pow10(
            r.drop_first().len() as int,
        ))) by (nonlinear_arith)
            requires
                pow10(r.len() as int) == 10 * pow10(r.drop_first().len() as int),
        ;
    }
}

/// A digit run ending at a non-digit (or at the end) scans exactly to
/// its boundary.
proof fn lemma_digits_end_run(s: Seq<u8>, i: int, j: int)
    requires
        0 <= i <= j <= s.len(),
        forall|t: int| i <= t < j ==> is_digit(#[trigger] s[t]),
        j == s.len() || !is_digit(s[j]),
    ensures
        digits_end(s, i) == j,
    decreases j - i,
{
    if i < j {
        lemma_digits_end_run(s, i + 1, j);
    }
}

/// A digit run's value is unchanged by shifting it to another position.
proof fn lemma_dec_val_shift(s: Seq<u8>, base: int, d: Seq<u8>, k: int)
    requires
        0 <= k <= d.len(),
        forall|t: int| 0 <= t < k ==> s[base + t] == #[trigger] d[t],
    ensures
        dec_val(s, base, base + k) == dec_val(d, 0, k),
    decreases k,
{
    if k > 0 {
        lemma_dec_val_shift(s, base, d, k - 1);
    }
}

/// Appends the bytes of `src` to `out`.
fn append_bytes(out: &mut Vec<u8>, src: &Vec<u8>)
    ensures
        final(out)@ == old(out)@ + src@,
{
    let n = src.len();
    let mut i: usize = 0;
    while i < n
        invariant
            n == src@.len(),
            i <= n,
            out@ =~= old(out)@ + src@.take(i as int),
        decreases n - i,
    {
        out.push(src[i]);
        proof {
            assert(out@ =~= old(out)@ + src@.take(i + 1));
        }
        i = i + 1;
    }
    proof {
        assert(out@ =~= old(out)@ + src@);
    }
}

/// Renders one entry as a line of the matrix text format, so that
/// `parse_entry` reads back exactly the same triple: the save/load
/// round trip in one contract.
pub fn format_entry(row: usize, col: usize, value: i64) -> (res: Vec<u8>)
    requires
        row as int <= 999999999999999999,
        col as int <= 999999999999999999,
        -999999999999999999 <= value <= 999999999999999999,
    ensures
        parse_entry(res@) == Some((row as int, col as int, value as int)),
{
    let rd = render_u64(row as u64);
    let cd = render_u64(col as u64);
    let neg = value < 0;
    let mag: u64 = if neg {
        (-value) as u64
    } else {
        value as u64
    };
    let vd = render_u64(mag);
    let mut out: Vec<u8> = Vec::new();
    append_bytes(&mut out, &rd);
    out.push(32);
    append_bytes(&mut out, &cd);
    out.push(32);
    if neg {
        out.push(45);
    }
    append_bytes(&mut out, &vd);
    proof {
        let s = out@;
        let rl = rd@.len() as int;
        let cl = cd@.len() as int;
        let vl = vd@.len() as int;
        let nlen: int = if neg {
            1
        } else {
            0
        };
        let d0 = rl + 1 + cl + 1 + nlen;
        assert(s.len() == d0 + vl);
        assert(forall|t: int| 0 <= t < rl ==> s[t] == #[trigger] rd@[t]);
        assert(s[rl] == 32);
        assert(forall|t: int| 0 <= t < cl ==> s[rl + 1 + t] == #[trigger] cd@[t]);
        assert(s[rl + 1 + cl] == 32);
        if neg {
            assert(s[rl + 1 + cl + 1] == 45);
        }
        assert(forall|t: int| 0 <= t < vl ==> s[d0 + t] == #[trigger] vd@[t]);

        assert(skip_ws(s, 0) == 0);
        lemma_digits_end_run(s, 0, rl);
        assert(skip_ws(s, rl + 1) == rl + 1);
        assert(skip_ws(s, rl) == rl + 1);
        lemma_digits_end_run(s, rl + 1, rl + 1 + cl);
        assert(skip_ws(s, rl + 1 + cl + 1) == rl + 1 + cl + 1);
        assert(skip_ws(s, rl + 1 + cl) == rl + 1 + cl + 1);
        lemma_digits_end_run(s, d0, d0 + vl);
        assert(skip_ws(s, s.len() as int) == s.len());

        lemma_dec_val_shift(s, 0, rd@, rl);
        lemma_dec_val_shift(s, rl + 1, cd@, cl);
        lemma_dec_val_shift(s, d0, vd@, vl);
        assert(parse_entry(s) == Some((row as int, col as int, value as int)));
    }
    out
}

/// Parses one line of the matrix text format, exactly as `parse_entry`
/// reads it.
pub fn parse_entry_line(s: &[u8]) -> (res: Option<(usize, usize, i64)>)
    ensures
        match res {
            Some((r, c, v)) => parse_entry(s@) == Some((r as int, c as int, v as int)),
            None => parse_entry(s@) is None,
        },
{
    let n = s.len();
    let a0 = skip_ws_exec(s, 0);
    let a1 = digits_end_exec(s, a0);
    if a1 == a0 || a1 - a0 > 18 {
        return None;
    }
    let b0 = skip_ws_exec(s, a1);
    let b1 = digits_end_exec(s, b0);
    if b0 <= a1 || b1 == b0 || b1 - b0 > 18 {
        return None;
    }
    let c0 = skip_ws_exec(s, b1);
    if c0 <= b1 {
        return None;
    }
    let neg = c0 < n && s[c0] == 45;
    let d0 = if neg {
        c0 + 1
    } else {
        c0
    };
    proof {
        lemma_skip_ws_range(s@, b1 as int);
    }
    if d0 > n {
        return None;
    }
    let d1 = digits_end_exec(s, d0);
    if d1 == d0 || d1 - d0 > 18 {
        return None;
    }
    let end = skip_ws_exec(s, d1);
    if end != n {
        return None;
    }
    let row64 = dec_val_exec(s, a0, a1);
    let col64 = dec_val_exec(s, b0, b1);
    let val64 = dec_val_exec(s, d0, d1);
    if row64 > usize::MAX as u64 || col64 > usize::MAX as u64 {
        return None;
    }
    let value: i64 = if neg {
        -(val64 as i64)
    } else {
        val64 as i64
    };
    Some((row64 as usize, col64 as usize, value))
}

} // verus!
