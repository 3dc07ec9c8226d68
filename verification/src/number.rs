//! Whether a CSS number is below 1, decided the way `str::parse::<f32>()`
//! followed by a comparison with one decides it, but over the decimal text itself.
//!
//! `f32` parsing rounds to the nearest `f32` with ties to even, so the parsed
//! value is below one exactly when the written value is below
//! `1 - 2^-25 = 0.9999999701976776123046875` (the midpoint between one and
//! the largest `f32` below it). Negative values, including `-0` and `-inf`,
//! are below one; `nan` and `inf` are not; text that `f32` does not accept is
//! not a number and so not below one.
use vstd::prelude::*;

use crate::text::{
    eq_ignore_case, equal_ignore_case, first_match, lemma_first_match, lemma_first_match_is,
    lemma_first_match_skip, slice,
};

verus! {

/// An ASCII decimal digit.
pub open spec fn is_digit(c: char) -> bool {
    '0' <= c && c <= '9'
}

/// The value of a decimal digit.
pub open spec fn digit_value(c: char) -> int {
    c as int - '0' as int
}

pub open spec fn non_digit_pred(s: Seq<char>) -> spec_fn(int) -> bool {
    |i: int| !is_digit(s[i])
}

/// The end of the run of ASCII digits that starts at `from`.
pub open spec fn digit_run_end(s: Seq<char>, from: int) -> int {
    match first_match(non_digit_pred(s), from, s.len() as int) {
        Some(i) => i,
        None => s.len() as int,
    }
}

/// The exponent that `f32` parsing accumulates from its digits: it stops
/// growing once it reaches 0x10000, which is far beyond any `f32` range.
pub open spec fn exponent_value(ds: Seq<char>) -> int
    decreases ds.len(),
{
    if ds.len() == 0 {
        0
    } else {
        let e = exponent_value(ds.drop_last());
        if e < 0x10000 {
            10 * e + digit_value(ds.last())
        } else {
            e
        }
    }
}

/// A decimal numeral `int[.frac][(e|E)[+|-]digits]` with at least one digit in
/// `int` and `frac` together, read as its digits `d` and the position `p` of
/// the decimal point: the value is `0.d × 10^p`.
pub open spec fn decimal_parts(b: Seq<char>) -> Option<(Seq<char>, int)> {
    let i1 = digit_run_end(b, 0);
    let has_dot = i1 < b.len() && b[i1] == '.';
    let i2 = if has_dot {
        digit_run_end(b, i1 + 1)
    } else {
        i1
    };
    let frac = if has_dot {
        b.subrange(i1 + 1, i2)
    } else {
        Seq::empty()
    };
    let digits = b.subrange(0, i1) + frac;
    if digits.len() == 0 {
        None
    } else if i2 == b.len() {
        Some((digits, i1))
    } else if b[i2] == 'e' || b[i2] == 'E' {
        let j0 = i2 + 1;
        let neg = j0 < b.len() && b[j0] == '-';
        let j = if j0 < b.len() && (b[j0] == '-' || b[j0] == '+') {
            j0 + 1
        } else {
            j0
        };
        if j < b.len() && is_digit(b[j]) && digit_run_end(b, j) == b.len() {
            let e = exponent_value(b.subrange(j, b.len() as int));
            Some((digits, i1 + if neg { -e } else { e }))
        } else {
            None
        }
    } else {
        None
    }
}

/// The digits of `1 - 2^-25` after the decimal point.
pub open spec fn threshold_digits() -> Seq<char> {
    seq![
        '9', '9', '9', '9', '9', '9', '9', '7', '0', '1', '9', '7', '6', '7', '7', '6', '1', '2',
        '3', '0', '4', '6', '8', '7', '5',
    ]
}

/// `0.a[j..] < 0.c[j..]` for digit strings, reading missing digits as `0`.
pub open spec fn frac_lt_from(a: Seq<char>, c: Seq<char>, j: int) -> bool
    decreases a.len() + c.len() - j,
{
    if j < 0 || (j >= a.len() && j >= c.len()) {
        false
    } else {
        let x = if j < a.len() {
            digit_value(a[j])
        } else {
            0
        };
        let y = if j < c.len() {
            digit_value(c[j])
        } else {
            0
        };
        if x < y {
            true
        } else if x > y {
            false
        } else {
            frac_lt_from(a, c, j + 1)
        }
    }
}

pub open spec fn nonzero_pred(d: Seq<char>) -> spec_fn(int) -> bool {
    |i: int| d[i] != '0'
}

/// `0.d × 10^p < 1 - 2^-25` for a non-negative value.
pub open spec fn below_threshold(d: Seq<char>, p: int) -> bool {
    match first_match(nonzero_pred(d), 0, d.len() as int) {
        None => true,
        Some(k) => if k < p {
            false
        } else if k > p {
            true
        } else {
            frac_lt_from(d.skip(k), threshold_digits(), 0)
        },
    }
}

pub open spec fn inf_word() -> Seq<char> {
    seq!['i', 'n', 'f']
}

pub open spec fn infinity_word() -> Seq<char> {
    seq!['i', 'n', 'f', 'i', 'n', 'i', 't', 'y']
}

/// `s.parse::<f32>()` succeeds with a value below one.
pub open spec fn float_below_one(s: Seq<char>) -> bool {
    if s.len() == 0 {
        false
    } else {
        let neg = s[0] == '-';
        let b = if s[0] == '-' || s[0] == '+' {
            s.skip(1)
        } else {
            s
        };
        if b.len() == 0 {
            false
        } else {
            match decimal_parts(b) {
                Some((d, p)) => neg || below_threshold(d, p),
                None => neg && (eq_ignore_case(b, inf_word()) || eq_ignore_case(b, infinity_word())),
            }
        }
    }
}

/// Whether `c` is an ASCII decimal digit.
pub fn digit_char(c: char) -> (r: bool)
    ensures
        r == is_digit(c),
{
    '0' <= c && c <= '9'
}

/// The end of the run of ASCII digits that starts at `from`.
pub fn digit_run(s: &Vec<char>, from: usize) -> (r: usize)
    requires
        from <= s.len(),
    ensures
        r == digit_run_end(s@, from as int),
        from <= r <= s.len(),
        forall|k: int| from <= k < r ==> is_digit(#[trigger] s@[k]),
{
    let ghost p = non_digit_pred(s@);
    let mut i = from;
    while i < s.len()
        invariant
            from <= i <= s.len(),
            p == non_digit_pred(s@),
            forall|j: int| from <= j < i ==> !#[trigger] p(j),
        decreases s.len() - i,
    {
        if !digit_char(s[i]) {
            proof {
                lemma_first_match_is(p, from as int, i as int, s@.len() as int);
                assert forall|k: int| from <= k < i implies is_digit(#[trigger] s@[k]) by {
                    assert(!p(k));
                }
            }
            return i;
        }
        i += 1;
    }
    proof {
        lemma_first_match_skip(p, from as int, i as int, s@.len() as int);
        lemma_first_match(p, i as int, s@.len() as int);
        assert forall|k: int| from <= k < i implies is_digit(#[trigger] s@[k]) by {
            assert(!p(k));
        }
    }
    i
}

proof fn lemma_exponent_bound(ds: Seq<char>)
    requires
        forall|k: int| 0 <= k < ds.len() ==> is_digit(#[trigger] ds[k]),
    ensures
        0 <= exponent_value(ds) < 0x10000 * 10 + 10,
    decreases ds.len(),
{
    if ds.len() > 0 {
        let init = ds.drop_last();
        assert forall|k: int| 0 <= k < init.len() implies is_digit(#[trigger] init[k]) by {
            assert(init[k] == ds[k]);
        }
        lemma_exponent_bound(init);
        assert(is_digit(ds[ds.len() - 1]));
    }
}

/// The exponent written in `s[a..b]`, which holds only digits.
fn exponent_of(s: &Vec<char>, a: usize, b: usize) -> (r: i64)
    requires
        a <= b <= s.len(),
        forall|k: int| a <= k < b ==> is_digit(#[trigger] s@[k]),
    ensures
        r == exponent_value(s@.subrange(a as int, b as int)),
{
    let mut e: i64 = 0;
    let mut j = a;
    while j < b
        invariant
            a <= j <= b <= s.len(),
            forall|k: int| a <= k < b ==> is_digit(#[trigger] s@[k]),
            e == exponent_value(s@.subrange(a as int, j as int)),
            0 <= e < 0x10000 * 10 + 10,
        decreases b - j,
    {
        let ghost sub = s@.subrange(a as int, j + 1);
        assert(sub.drop_last() =~= s@.subrange(a as int, j as int));
        assert(sub.last() == s@[j as int]);
        assert(is_digit(s@[j as int]));
        if e < 0x10000 {
            e = 10 * e + (s[j] as i64 - '0' as i64);
        }
        proof {
            assert forall|k: int| 0 <= k < sub.len() implies is_digit(#[trigger] sub[k]) by {
                assert(sub[k] == s@[a + k]);
            }
            lemma_exponent_bound(sub);
        }
        j += 1;
    }
    e
}

/// `decimal_parts`: the digits and the decimal point position of a numeral.
pub fn decimal_parts_exec(b: &Vec<char>) -> (r: Option<(Vec<char>, i128)>)
    ensures
        match r {
            Some((d, p)) => decimal_parts(b@) == Some((d@, p as int)),
            None => decimal_parts(b@) is None,
        },
{
    let i1 = digit_run(b, 0);
    let has_dot = i1 < b.len() && b[i1] == '.';
    let i2 = if has_dot {
        digit_run(b, i1 + 1)
    } else {
        i1
    };
    let mut digits = slice(b, 0, i1);
    if has_dot {
        let frac = slice(b, i1 + 1, i2);
        let mut d2 = digits;
        crate::text::push_all(&mut d2, &frac);
        digits = d2;
    }
    proof {
        let frac = if has_dot {
            b@.subrange(i1 + 1, i2 as int)
        } else {
            Seq::<char>::empty()
        };
        assert(digits@ =~= b@.subrange(0, i1 as int) + frac);
    }
    if digits.len() == 0 {
        return None;
    }
    if i2 == b.len() {
        return Some((digits, i1 as i128));
    }
    if b[i2] == 'e' || b[i2] == 'E' {
        let j0 = i2 + 1;
        let neg = j0 < b.len() && b[j0] == '-';
        let j = if j0 < b.len() && (b[j0] == '-' || b[j0] == '+') {
            j0 + 1
        } else {
            j0
        };
        if j < b.len() && digit_char(b[j]) && digit_run(b, j) == b.len() {
            let e = exponent_of(b, j, b.len());
            let p: i128 = if neg {
                i1 as i128 - e as i128
            } else {
                i1 as i128 + e as i128
            };
            return Some((digits, p));
        }
        return None;
    }
    None
}

/// `frac_lt_from` on executable digit strings.
fn frac_less(a: &Vec<char>, c: &Vec<char>) -> (r: bool)
    requires
        forall|k: int| 0 <= k < a.len() ==> is_digit(#[trigger] a@[k]),
        forall|k: int| 0 <= k < c.len() ==> is_digit(#[trigger] c@[k]),
    ensures
        r == frac_lt_from(a@, c@, 0),
{
    let n = if a.len() > c.len() {
        a.len()
    } else {
        c.len()
    };
    let mut j: usize = 0;
    while j < n
        invariant
            j <= n,
            n == a.len() || n == c.len(),
            a.len() <= n && c.len() <= n,
            forall|k: int| 0 <= k < a.len() ==> is_digit(#[trigger] a@[k]),
            forall|k: int| 0 <= k < c.len() ==> is_digit(#[trigger] c@[k]),
            frac_lt_from(a@, c@, 0) == frac_lt_from(a@, c@, j as int),
        decreases n - j,
    {
        let x: u32 = if j < a.len() {
            a[j] as u32 - '0' as u32
        } else {
            0
        };
        let y: u32 = if j < c.len() {
            c[j] as u32 - '0' as u32
        } else {
            0
        };
        if x < y {
            return true;
        }
        if x > y {
            return false;
        }
        j += 1;
    }
    false
}

/// `below_threshold` on executable digits.
fn below_threshold_exec(d: &Vec<char>, p: i128) -> (r: bool)
    requires
        forall|k: int| 0 <= k < d.len() ==> is_digit(#[trigger] d@[k]),
    ensures
        r == below_threshold(d@, p as int),
{
    let ghost q = nonzero_pred(d@);
    let mut k: usize = 0;
    while k < d.len()
        invariant
            k <= d.len(),
            q == nonzero_pred(d@),
            forall|k: int| 0 <= k < d.len() ==> is_digit(#[trigger] d@[k]),
            forall|j: int| 0 <= j < k ==> !#[trigger] q(j),
        decreases d.len() - k,
    {
        if d[k] != '0' {
            proof {
                lemma_first_match_is(q, 0, k as int, d@.len() as int);
            }
            if (k as i128) < p {
                return false;
            }
            if (k as i128) > p {
                return true;
            }
            let rest = slice(d, k, d.len());
            let threshold = vec![
                '9', '9', '9', '9', '9', '9', '9', '7', '0', '1', '9', '7', '6', '7', '7', '6',
                '1', '2', '3', '0', '4', '6', '8', '7', '5',
            ];
            proof {
                assert(rest@ =~= d@.skip(k as int));
                assert(threshold@ =~= threshold_digits());
                assert forall|j: int| 0 <= j < rest.len() implies is_digit(#[trigger] rest@[j]) by {
                    assert(rest@[j] == d@[k + j]);
                    assert(is_digit(d@[k + j]));
                }
            }
            return frac_less(&rest, &threshold);
        }
        k += 1;
    }
    proof {
        lemma_first_match_skip(q, 0, k as int, d@.len() as int);
        lemma_first_match(q, k as int, d@.len() as int);
    }
    true
}

/// The digits of a decimal numeral are digits.
proof fn lemma_decimal_digits(b: Seq<char>)
    ensures
        decimal_parts(b) matches Some((d, p)) ==> forall|k: int|
            0 <= k < d.len() ==> is_digit(#[trigger] d[k]),
{
    let i1 = digit_run_end(b, 0);
    let has_dot = i1 < b.len() && b[i1] == '.';
    lemma_first_match(non_digit_pred(b), 0, b.len() as int);
    if has_dot {
        lemma_first_match(non_digit_pred(b), i1 + 1, b.len() as int);
    }
    if let Some((d, p)) = decimal_parts(b) {
        assert forall|k: int| 0 <= k < d.len() implies is_digit(#[trigger] d[k]) by {
            if k < i1 {
                assert(d[k] == b[k]);
                assert(!non_digit_pred(b)(k));
            } else {
                assert(d[k] == b[k + 1]);
                assert(!non_digit_pred(b)(k + 1));
            }
        }
    }
}

/// Whether `s` parses as an `f32` below one, decided on the text.
pub fn below_one(s: &Vec<char>) -> (r: bool)
    ensures
        r == float_below_one(s@),
{
    if s.len() == 0 {
        return false;
    }
    let neg = s[0] == '-';
    let b = if s[0] == '-' || s[0] == '+' {
        slice(s, 1, s.len())
    } else {
        slice(s, 0, s.len())
    };
    proof {
        assert(s@.subrange(0, s@.len() as int) =~= s@);
        assert(s@.subrange(1, s@.len() as int) =~= s@.skip(1));
    }
    if b.len() == 0 {
        return false;
    }
    match decimal_parts_exec(&b) {
        Some((d, p)) => {
            proof {
                lemma_decimal_digits(b@);
                let dp = decimal_parts(b@);
                assert(dp == Some((d@, p as int)));
                assert(dp.unwrap().0 == d@);
            }
            neg || below_threshold_exec(&d, p)
        },
        None => {
            let inf = vec!['i', 'n', 'f'];
            let infinity = vec!['i', 'n', 'f', 'i', 'n', 'i', 't', 'y'];
            proof {
                assert(inf@ =~= inf_word());
                assert(infinity@ =~= infinity_word());
            }
            neg && (equal_ignore_case(&b, &inf) || equal_ignore_case(&b, &infinity))
        },
    }
}

} // verus!
