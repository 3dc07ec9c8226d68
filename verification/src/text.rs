//! Character-level text toolkit: searching, replacing and trimming over
//! sequences of `char`, with the model of each operation written as a spec
//! function over `Seq<char>`.
//!
//! Every document this crate handles is worked on as a `Vec<char>`; the
//! conversions to and from `&str` / `String` are at the bottom of the file.
use vstd::prelude::*;
use vstd::relations::total_ordering;

verus! {

// ------------------------------------------------------------------ first match

/// The smallest index in `[from, end)` that satisfies `p`, if any.
pub open spec fn first_match(p: spec_fn(int) -> bool, from: int, end: int) -> Option<int>
    decreases end - from,
{
    if from >= end {
        None
    } else if p(from) {
        Some(from)
    } else {
        first_match(p, from + 1, end)
    }
}

/// What `first_match` returns: the least satisfying index, or `None` when
/// no index in the range satisfies the predicate.
pub proof fn lemma_first_match(p: spec_fn(int) -> bool, from: int, end: int)
    ensures
        match first_match(p, from, end) {
            Some(k) => from <= k < end && p(k) && forall|j: int| from <= j < k ==> !#[trigger] p(j),
            None => forall|j: int| from <= j < end ==> !#[trigger] p(j),
        },
    decreases end - from,
{
    if from < end && !p(from) {
        lemma_first_match(p, from + 1, end);
    }
}

/// Skipping a prefix of the range that holds no match changes nothing.
pub proof fn lemma_first_match_skip(p: spec_fn(int) -> bool, from: int, mid: int, end: int)
    requires
        from <= mid,
        forall|j: int| from <= j < mid ==> !#[trigger] p(j),
    ensures
        first_match(p, from, end) == first_match(p, mid, end),
    decreases mid - from,
{
    if from < mid && from < end {
        lemma_first_match_skip(p, from + 1, mid, end);
    }
}

/// A satisfying index with no satisfying index before it is the first match.
pub proof fn lemma_first_match_is(p: spec_fn(int) -> bool, from: int, k: int, end: int)
    requires
        from <= k < end,
        p(k),
        forall|j: int| from <= j < k ==> !#[trigger] p(j),
    ensures
        first_match(p, from, end) == Some(k),
{
    lemma_first_match_skip(p, from, k, end);
}

// ------------------------------------------------------------------ substrings

/// `pat` occurs in `s` at index `i`.
pub open spec fn matches_at(s: Seq<char>, pat: Seq<char>, i: int) -> bool {
    0 <= i && i + pat.len() <= s.len() && s.subrange(i, i + pat.len()) == pat
}

pub open spec fn match_pred(s: Seq<char>, pat: Seq<char>) -> spec_fn(int) -> bool {
    |i: int| matches_at(s, pat, i)
}

/// The first occurrence of `pat` in `s` at or after `from` (`str::find` on `s[from..]`,
/// counted in characters from the start of `s`).
pub open spec fn find_from(s: Seq<char>, pat: Seq<char>, from: int) -> Option<int> {
    first_match(match_pred(s, pat), from, s.len() - pat.len() + 1)
}

/// `pat` occurs somewhere in `s` (`str::contains`).
pub open spec fn contains(s: Seq<char>, pat: Seq<char>) -> bool {
    find_from(s, pat, 0) is Some
}

/// `s` starts with `pat`.
pub open spec fn starts_with(s: Seq<char>, pat: Seq<char>) -> bool {
    matches_at(s, pat, 0)
}

/// `s` ends with `pat`.
pub open spec fn ends_with(s: Seq<char>, pat: Seq<char>) -> bool {
    pat.len() <= s.len() && matches_at(s, pat, s.len() - pat.len())
}

/// What `find_from` returns.
pub proof fn lemma_find_from(s: Seq<char>, pat: Seq<char>, from: int)
    ensures
        match find_from(s, pat, from) {
            Some(k) => from <= k && matches_at(s, pat, k) && forall|j: int|
                from <= j < k ==> !matches_at(s, pat, j),
            None => forall|j: int| from <= j ==> !matches_at(s, pat, j),
        },
{
    lemma_first_match(match_pred(s, pat), from, s.len() - pat.len() + 1);
    let r = find_from(s, pat, from);
    if r is Some {
        assert forall|j: int| from <= j < r->0 implies !matches_at(s, pat, j) by {
            assert(!match_pred(s, pat)(j));
        }
    } else {
        assert forall|j: int| from <= j implies !matches_at(s, pat, j) by {
            if j < s.len() - pat.len() + 1 {
                assert(!match_pred(s, pat)(j));
            }
        }
    }
}

/// `contains` says that some occurrence exists.
pub proof fn lemma_contains(s: Seq<char>, pat: Seq<char>)
    ensures
        contains(s, pat) <==> exists|i: int| matches_at(s, pat, i),
{
    lemma_find_from(s, pat, 0);
    if exists|i: int| matches_at(s, pat, i) {
        let i = choose|i: int| matches_at(s, pat, i);
        assert(0 <= i);
    }
}

/// An occurrence with none before it (from `from` on) is what `find_from` finds.
pub proof fn lemma_find_from_is(s: Seq<char>, pat: Seq<char>, from: int, k: int)
    requires
        from <= k,
        matches_at(s, pat, k),
        forall|j: int| from <= j < k ==> !matches_at(s, pat, j),
    ensures
        find_from(s, pat, from) == Some(k),
{
    assert forall|j: int| from <= j < k implies !#[trigger] match_pred(s, pat)(j) by {}
    lemma_first_match_is(match_pred(s, pat), from, k, s.len() - pat.len() + 1);
}

/// Whether `pat` occurs at `i` depends only on the characters `s[i..i + |pat|]`.
pub proof fn lemma_matches_at_local(s: Seq<char>, t: Seq<char>, pat: Seq<char>, i: int, di: int)
    requires
        0 <= i,
        i + pat.len() <= s.len(),
        0 <= i + di,
        i + di + pat.len() <= t.len(),
        forall|j: int| i <= j < i + pat.len() ==> #[trigger] s[j] == t[j + di],
    ensures
        matches_at(s, pat, i) == matches_at(t, pat, i + di),
{
    if matches_at(s, pat, i) {
        assert(t.subrange(i + di, i + di + pat.len()) =~= pat) by {
            assert forall|k: int| 0 <= k < pat.len() implies t.subrange(i + di, i + di + pat.len())[k]
                == pat[k] by {
                assert(s.subrange(i, i + pat.len())[k] == s[i + k]);
                assert(s[i + k] == t[i + k + di]);
            }
        }
    }
    if matches_at(t, pat, i + di) {
        assert(s.subrange(i, i + pat.len()) =~= pat) by {
            assert forall|k: int| 0 <= k < pat.len() implies s.subrange(i, i + pat.len())[k]
                == pat[k] by {
                assert(t.subrange(i + di, i + di + pat.len())[k] == t[i + di + k]);
                assert(s[i + k] == t[i + k + di]);
            }
        }
    }
}

/// Whether `pat` occurs at index `i` of `s`.
pub fn matches_here(s: &Vec<char>, pat: &Vec<char>, i: usize) -> (r: bool)
    ensures
        r == matches_at(s@, pat@, i as int),
{
    if i > s.len() || pat.len() > s.len() - i {
        return false;
    }
    let mut j: usize = 0;
    while j < pat.len()
        invariant
            i + pat.len() <= s.len(),
            j <= pat.len(),
            forall|k: int| 0 <= k < j ==> s@[i + k] == pat@[k],
        decreases pat.len() - j,
    {
        if s[i + j] != pat[j] {
            assert(s@.subrange(i as int, i + pat.len())[j as int] != pat@[j as int]);
            return false;
        }
        j += 1;
    }
    assert(s@.subrange(i as int, i + pat.len()) =~= pat@);
    true
}

/// The first occurrence of `pat` in `s` at or after `from`.
pub fn find(s: &Vec<char>, pat: &Vec<char>, from: usize) -> (res: Option<usize>)
    ensures
        match res {
            Some(k) => find_from(s@, pat@, from as int) == Some(k as int),
            None => find_from(s@, pat@, from as int) is None,
        },
{
    let ghost p = match_pred(s@, pat@);
    let ghost end = s@.len() - pat@.len() + 1;
    if pat.len() > s.len() || from > s.len() - pat.len() {
        proof {
            lemma_first_match(p, from as int, end);
        }
        return None;
    }
    let last = s.len() - pat.len();
    let mut i = from;
    loop
        invariant
            from <= i <= last,
            last == s@.len() - pat@.len(),
            p == match_pred(s@, pat@),
            end == last + 1,
            forall|j: int| from <= j < i ==> !#[trigger] p(j),
        decreases last - i,
    {
        if matches_here(s, pat, i) {
            proof {
                lemma_first_match_is(p, from as int, i as int, end);
            }
            return Some(i);
        }
        if i == last {
            proof {
                lemma_first_match_skip(p, from as int, end, end);
                lemma_first_match(p, end, end);
            }
            return None;
        }
        i += 1;
    }
}

/// `pat` occurs in `s`.
pub fn has(s: &Vec<char>, pat: &Vec<char>) -> (r: bool)
    ensures
        r == contains(s@, pat@),
{
    find(s, pat, 0).is_some()
}

/// `s` ends with `pat`.
pub fn has_suffix(s: &Vec<char>, pat: &Vec<char>) -> (r: bool)
    ensures
        r == ends_with(s@, pat@),
{
    if pat.len() > s.len() {
        return false;
    }
    matches_here(s, pat, s.len() - pat.len())
}

// ------------------------------------------------------------------ replace

/// Replaces every non-overlapping occurrence of `pat` (scanned left to right,
/// starting at `pos`) with `rep`; the characters before `pos` are not part of
/// the result. `replace_all(s, pat, rep)` is `str::replace`.
pub open spec fn replace_from(s: Seq<char>, pat: Seq<char>, rep: Seq<char>, pos: int) -> Seq<char>
    decreases s.len() - pos,
{
    if pat.len() == 0 || pos < 0 || pos > s.len() {
        Seq::empty()
    } else {
        match find_from(s, pat, pos) {
            None => s.subrange(pos, s.len() as int),
            Some(i) => {
                proof {
                    lemma_find_from(s, pat, pos);
                }
                s.subrange(pos, i) + rep + replace_from(s, pat, rep, i + pat.len())
            },
        }
    }
}

/// `x` placed to start `k` characters before `q` disagrees with `q` where
/// they overlap.
pub open spec fn misfit_before(x: Seq<char>, q: Seq<char>, k: int) -> bool {
    exists|d: int| 0 <= d && k + d < x.len() && d < q.len() && #[trigger] x[k + d] != q[d]
}

/// `x` placed to start at index `m` of `q` disagrees with `q` where they
/// overlap.
pub open spec fn misfit_inside(x: Seq<char>, q: Seq<char>, m: int) -> bool {
    exists|d: int| 0 <= d && m + d < q.len() && d < x.len() && #[trigger] q[m + d] != x[d]
}

/// No occurrence of `x` can reach into `q` from before it or start inside it.
pub open spec fn no_overlap(x: Seq<char>, q: Seq<char>) -> bool {
    &&& forall|k: int| 0 < k < x.len() ==> #[trigger] misfit_before(x, q, k)
    &&& forall|m: int| 0 <= m < q.len() ==> #[trigger] misfit_inside(x, q, m)
}

/// Replacing with a text that no occurrence of `x` can reach into leaves no
/// `x`, when the replaced pattern is `x` itself or the text held no `x`.
pub proof fn lemma_replace_leaves_none(s: Seq<char>, p: Seq<char>, q: Seq<char>, pos: int, x: Seq<char>)
    requires
        p.len() > 0,
        x.len() > 0,
        0 <= pos <= s.len(),
        no_overlap(x, q),
        p == x || forall|j: int| pos <= j ==> !matches_at(s, x, j),
    ensures
        forall|j: int| !matches_at(replace_from(s, p, q, pos), x, j),
    decreases s.len() - pos,
{
    let r = replace_from(s, p, q, pos);
    lemma_find_from(s, p, pos);
    match find_from(s, p, pos) {
        None => {
            assert(r == s.subrange(pos, s.len() as int));
            assert forall|j: int| !matches_at(r, x, j) by {
                if matches_at(r, x, j) {
                    assert forall|k: int| j <= k < j + x.len() implies #[trigger] r[k] == s[k + pos] by {}
                    lemma_matches_at_local(r, s, x, j, pos);
                }
            }
        },
        Some(i) => {
            let c = s.subrange(pos, i);
            let np = i + p.len();
            lemma_replace_leaves_none(s, p, q, np, x);
            let r2 = replace_from(s, p, q, np);
            assert(r == c + q + r2);
            assert forall|j: int| !matches_at(r, x, j) by {
                if matches_at(r, x, j) {
                    assert(r.subrange(j, j + x.len()) == x);
                    if j + x.len() <= c.len() {
                        assert forall|k: int| j <= k < j + x.len() implies #[trigger] r[k] == s[k + pos] by {}
                        lemma_matches_at_local(r, s, x, j, pos);
                    } else if j < c.len() {
                        let k = c.len() - j;
                        assert(misfit_before(x, q, k));
                        let d = choose|d: int| 0 <= d && k + d < x.len() && d < q.len() && #[trigger] x[k + d] != q[d];
                        assert(r[j + k + d] == q[d]);
                        assert(r.subrange(j, j + x.len())[k + d] == r[j + k + d]);
                    } else if j < c.len() + q.len() {
                        let m = j - c.len();
                        assert(misfit_inside(x, q, m));
                        let d = choose|d: int| 0 <= d && m + d < q.len() && d < x.len() && #[trigger] q[m + d] != x[d];
                        assert(r[j + d] == q[m + d]);
                        assert(r.subrange(j, j + x.len())[d] == r[j + d]);
                    } else {
                        let off = c.len() + q.len();
                        assert forall|k: int| j <= k < j + x.len() implies #[trigger] r[k] == r2[k - off] by {}
                        lemma_matches_at_local(r, r2, x, j, -off);
                    }
                }
            }
        },
    }
}

/// Replacing from `pos` splits at `b` when no occurrence of `pat` runs
/// across `b`: what lies before `b` is replaced on its own.
pub proof fn lemma_replace_split(s: Seq<char>, p: Seq<char>, q: Seq<char>, pos: int, b: int)
    requires
        p.len() > 0,
        0 <= pos <= b <= s.len(),
        forall|j: int| j < b < j + p.len() ==> !#[trigger] matches_at(s, p, j),
    ensures
        replace_from(s, p, q, pos) == replace_from(s.subrange(0, b), p, q, pos) + replace_from(
            s,
            p,
            q,
            b,
        ),
    decreases s.len() - pos,
{
    let a = s.subrange(0, b);
    lemma_find_from(s, p, pos);
    lemma_find_from(a, p, pos);
    assert forall|j: int| matches_at(a, p, j) implies matches_at(s, p, j) by {
        assert forall|m: int| j <= m < j + p.len() implies #[trigger] a[m] == s[m] by {}
        lemma_matches_at_local(a, s, p, j, 0);
    }
    match find_from(s, p, pos) {
        None => {
            lemma_find_from(s, p, b);
            assert(find_from(a, p, pos) is None);
            assert(find_from(s, p, b) is None);
            assert(replace_from(s, p, q, pos) =~= a.subrange(pos, b) + s.subrange(b, s.len() as int));
        },
        Some(k) => {
            if k + p.len() <= b {
                assert forall|m: int| k <= m < k + p.len() implies #[trigger] s[m] == a[m] by {}
                lemma_matches_at_local(s, a, p, k, 0);
                lemma_find_from_is(a, p, pos, k);
                lemma_replace_split(s, p, q, k + p.len(), b);
                assert(a.subrange(pos, k) =~= s.subrange(pos, k));
                assert(replace_from(s, p, q, pos) =~= replace_from(a, p, q, pos) + replace_from(
                    s,
                    p,
                    q,
                    b,
                ));
            } else {
                assert(k >= b);
                assert(find_from(a, p, pos) is None);
                lemma_find_from_is(s, p, b, k);
                assert(s.subrange(pos, k) =~= a.subrange(pos, b) + s.subrange(b, k));
                assert(replace_from(s, p, q, pos) =~= replace_from(a, p, q, pos) + replace_from(
                    s,
                    p,
                    q,
                    b,
                ));
            }
        },
    }
}

/// `str::replace` for a non-empty pattern.
pub open spec fn replace_all(s: Seq<char>, pat: Seq<char>, rep: Seq<char>) -> Seq<char> {
    replace_from(s, pat, rep, 0)
}

/// Appends `s[a..b]` to `out`.
pub fn push_range(out: &mut Vec<char>, s: &Vec<char>, a: usize, b: usize)
    requires
        a <= b <= s.len(),
    ensures
        final(out)@ == old(out)@ + s@.subrange(a as int, b as int),
{
    let mut i = a;
    while i < b
        invariant
            a <= i <= b <= s.len(),
            out@ == old(out)@ + s@.subrange(a as int, i as int),
        decreases b - i,
    {
        out.push(s[i]);
        assert(s@.subrange(a as int, i + 1) =~= s@.subrange(a as int, i as int).push(s@[i as int]));
        i += 1;
    }
}

/// Appends all of `s` to `out`.
pub fn push_all(out: &mut Vec<char>, s: &Vec<char>)
    ensures
        final(out)@ == old(out)@ + s@,
{
    push_range(out, s, 0, s.len());
    assert(s@.subrange(0, s@.len() as int) =~= s@);
}

/// `s[a..b]` as a new vector.
pub fn slice(s: &Vec<char>, a: usize, b: usize) -> (res: Vec<char>)
    requires
        a <= b <= s.len(),
    ensures
        res@ == s@.subrange(a as int, b as int),
{
    let mut out = Vec::new();
    push_range(&mut out, s, a, b);
    assert(out@ =~= s@.subrange(a as int, b as int));
    out
}

/// `a + b` as a new vector.
pub fn concat(a: &Vec<char>, b: &Vec<char>) -> (res: Vec<char>)
    ensures
        res@ == a@ + b@,
{
    let mut out = Vec::new();
    push_all(&mut out, a);
    push_all(&mut out, b);
    assert(out@ =~= a@ + b@);
    out
}

/// `str::replace` (every occurrence of a non-empty `pat` becomes `rep`).
pub fn replace(s: &Vec<char>, pat: &Vec<char>, rep: &Vec<char>) -> (res: Vec<char>)
    requires
        pat.len() > 0,
    ensures
        res@ == replace_all(s@, pat@, rep@),
{
    let mut out: Vec<char> = Vec::new();
    let mut pos: usize = 0;
    loop
        invariant
            pat@.len() > 0,
            pos <= s.len(),
            out@ + replace_from(s@, pat@, rep@, pos as int) == replace_all(s@, pat@, rep@),
        decreases s.len() - pos,
    {
        match find(s, pat, pos) {
            None => {
                push_range(&mut out, s, pos, s.len());
                return out;
            },
            Some(i) => {
                proof {
                    lemma_find_from(s@, pat@, pos as int);
                }
                let ghost before = out@;
                push_range(&mut out, s, pos, i);
                push_all(&mut out, rep);
                proof {
                    assert(out@ + replace_from(s@, pat@, rep@, i + pat@.len()) =~= before
                        + replace_from(s@, pat@, rep@, pos as int));
                }
                pos = i + pat.len();
            },
        }
    }
}

// ------------------------------------------------------------------ whitespace

/// `char::is_whitespace`: the Unicode `White_Space` property.
pub open spec fn is_ws(c: char) -> bool {
    c == ' ' || ('\u{9}' <= c && c <= '\u{d}') || c == '\u{85}' || c == '\u{a0}' || c
        == '\u{1680}' || ('\u{2000}' <= c && c <= '\u{200a}') || c == '\u{2028}' || c == '\u{2029}'
        || c == '\u{202f}' || c == '\u{205f}' || c == '\u{3000}'
}

/// `char::is_whitespace`.
pub fn is_whitespace(c: char) -> (r: bool)
    ensures
        r == is_ws(c),
{
    c == ' ' || ('\u{9}' <= c && c <= '\u{d}') || c == '\u{85}' || c == '\u{a0}' || c
        == '\u{1680}' || ('\u{2000}' <= c && c <= '\u{200a}') || c == '\u{2028}' || c == '\u{2029}'
        || c == '\u{202f}' || c == '\u{205f}' || c == '\u{3000}'
}

pub open spec fn non_ws_pred(s: Seq<char>) -> spec_fn(int) -> bool {
    |i: int| !is_ws(s[i])
}

/// Index of the first non-whitespace character (`s.len()` if there is none).
pub open spec fn lead_ws(s: Seq<char>) -> int {
    match first_match(non_ws_pred(s), 0, s.len() as int) {
        Some(i) => i,
        None => s.len() as int,
    }
}

/// One past the last non-whitespace character of `s[..end]` (0 if there is none).
pub open spec fn ws_end(s: Seq<char>, end: int) -> int
    decreases end,
{
    if end <= 0 {
        0
    } else if !is_ws(s[end - 1]) {
        end
    } else {
        ws_end(s, end - 1)
    }
}

/// `str::trim_start`.
pub open spec fn trim_start(s: Seq<char>) -> Seq<char> {
    s.subrange(lead_ws(s), s.len() as int)
}

/// `str::trim_end`.
pub open spec fn trim_end(s: Seq<char>) -> Seq<char> {
    s.subrange(0, ws_end(s, s.len() as int))
}

/// `str::trim`.
pub open spec fn trim(s: Seq<char>) -> Seq<char> {
    if lead_ws(s) < ws_end(s, s.len() as int) {
        s.subrange(lead_ws(s), ws_end(s, s.len() as int))
    } else {
        Seq::empty()
    }
}

/// What `lead_ws` is: everything before it is whitespace, the character at it is not.
pub proof fn lemma_lead_ws(s: Seq<char>)
    ensures
        0 <= lead_ws(s) <= s.len(),
        forall|j: int| 0 <= j < lead_ws(s) ==> is_ws(#[trigger] s[j]),
        lead_ws(s) < s.len() ==> !is_ws(s[lead_ws(s)]),
{
    lemma_first_match(non_ws_pred(s), 0, s.len() as int);
    assert forall|j: int| 0 <= j < lead_ws(s) implies is_ws(#[trigger] s[j]) by {
        assert(!non_ws_pred(s)(j));
    }
}

/// What `ws_end` is: everything from it to `end` is whitespace, the character before it is not.
pub proof fn lemma_ws_end(s: Seq<char>, end: int)
    requires
        end <= s.len(),
    ensures
        0 <= ws_end(s, end) <= if end < 0 { 0 } else { end },
        forall|j: int| ws_end(s, end) <= j < end ==> is_ws(#[trigger] s[j]),
        ws_end(s, end) > 0 ==> !is_ws(s[ws_end(s, end) - 1]),
    decreases end,
{
    if end > 0 && is_ws(s[end - 1]) {
        lemma_ws_end(s, end - 1);
    }
}

/// Whitespace bounds agree: when there is a non-whitespace character, the
/// first one comes no later than the last one.
pub proof fn lemma_trim_bounds(s: Seq<char>)
    ensures
        lead_ws(s) < s.len() ==> lead_ws(s) < ws_end(s, s.len() as int),
        lead_ws(s) == s.len() ==> ws_end(s, s.len() as int) == 0,
        trim(s).len() == 0 <==> (forall|j: int| 0 <= j < s.len() ==> is_ws(#[trigger] s[j])),
{
    lemma_lead_ws(s);
    lemma_ws_end(s, s.len() as int);
    let l = lead_ws(s);
    let e = ws_end(s, s.len() as int);
    if l < s.len() && e <= l {
        assert(is_ws(s[l]));
    }
    if l == s.len() && e > 0 {
        assert(is_ws(s[e - 1]));
    }
    if trim(s).len() == 0 && l < s.len() {
        assert(!is_ws(s[l]));
    }
}

/// `lead_ws` is the first index that is not whitespace.
pub proof fn lemma_lead_ws_is(s: Seq<char>, l: int)
    requires
        0 <= l <= s.len(),
        forall|j: int| 0 <= j < l ==> is_ws(#[trigger] s[j]),
        l < s.len() ==> !is_ws(s[l]),
    ensures
        lead_ws(s) == l,
{
    lemma_lead_ws(s);
    let k = lead_ws(s);
    if k < l {
        assert(is_ws(s[k]));
    }
    if l < k {
        assert(is_ws(s[l]));
    }
}

proof fn lemma_ws_end_space_front(x: Seq<char>, end: int)
    requires
        1 <= end <= x.len() + 1,
    ensures
        ws_end(seq![' '] + x, end) == if ws_end(x, end - 1) > 0 {
            ws_end(x, end - 1) + 1
        } else {
            0
        },
    decreases end,
{
    let y = seq![' '] + x;
    if end == 1 {
        assert(is_ws(y[0]));
        assert(ws_end(y, 0) == 0);
        assert(ws_end(y, 1) == ws_end(y, 0));
        assert(ws_end(x, 0) == 0);
    } else {
        assert(y[end - 1] == x[end - 2]);
        if is_ws(y[end - 1]) {
            lemma_ws_end_space_front(x, end - 1);
            assert(ws_end(y, end) == ws_end(y, end - 1));
            assert(ws_end(x, end - 1) == ws_end(x, end - 2));
        } else {
            assert(ws_end(y, end) == end);
            assert(ws_end(x, end - 1) == end - 1);
        }
    }
}

/// A space in front changes nothing once trimmed.
pub proof fn lemma_trim_space_front(x: Seq<char>)
    ensures
        trim(seq![' '] + x) == trim(x),
{
    let y = seq![' '] + x;
    lemma_lead_ws(x);
    assert forall|j: int| 0 <= j < lead_ws(x) + 1 implies is_ws(#[trigger] y[j]) by {
        if j > 0 {
            assert(y[j] == x[j - 1]);
        }
    }
    if lead_ws(x) < x.len() {
        assert(y[lead_ws(x) + 1] == x[lead_ws(x)]);
    }
    lemma_lead_ws_is(y, lead_ws(x) + 1);
    lemma_ws_end_space_front(x, (x.len() + 1) as int);
    lemma_trim_bounds(x);
    lemma_trim_bounds(y);
    let l = lead_ws(x);
    let e = ws_end(x, x.len() as int);
    assert(lead_ws(y) == l + 1);
    assert(y.len() == x.len() + 1);
    lemma_ws_end(x, x.len() as int);
    if l < e {
        assert(ws_end(y, y.len() as int) == e + 1);
        assert(trim(y) == y.subrange(l + 1, e + 1));
        assert(trim(x) == x.subrange(l, e));
        assert forall|k: int| 0 <= k < e - l implies #[trigger] trim(y)[k] == trim(x)[k] by {
            assert(y[l + 1 + k] == x[l + k]);
        }
        assert(trim(y) =~= trim(x));
    } else {
        assert(ws_end(y, y.len() as int) <= l + 1);
    }
}

/// The index of the first non-whitespace character.
pub fn lead_ws_exec(s: &Vec<char>) -> (r: usize)
    ensures
        r == lead_ws(s@),
{
    let ghost p = non_ws_pred(s@);
    let mut i: usize = 0;
    while i < s.len()
        invariant
            i <= s.len(),
            p == non_ws_pred(s@),
            forall|j: int| 0 <= j < i ==> !#[trigger] p(j),
        decreases s.len() - i,
    {
        if !is_whitespace(s[i]) {
            proof {
                lemma_first_match_is(p, 0, i as int, s@.len() as int);
            }
            return i;
        }
        i += 1;
    }
    proof {
        lemma_first_match_skip(p, 0, i as int, s@.len() as int);
    }
    i
}

/// One past the last non-whitespace character of `s[..end]`.
pub fn ws_end_exec(s: &Vec<char>, end: usize) -> (r: usize)
    requires
        end <= s.len(),
    ensures
        r == ws_end(s@, end as int),
{
    let mut e = end;
    while e > 0 && is_whitespace(s[e - 1])
        invariant
            e <= end <= s.len(),
            ws_end(s@, e as int) == ws_end(s@, end as int),
        decreases e,
    {
        e -= 1;
    }
    e
}

/// `str::trim`.
pub fn trimmed(s: &Vec<char>) -> (res: Vec<char>)
    ensures
        res@ == trim(s@),
{
    let l = lead_ws_exec(s);
    let e = ws_end_exec(s, s.len());
    proof {
        lemma_ws_end(s@, s@.len() as int);
    }
    if l < e {
        slice(s, l, e)
    } else {
        Vec::new()
    }
}

/// `str::trim_end`.
pub fn trimmed_end(s: &Vec<char>) -> (res: Vec<char>)
    ensures
        res@ == trim_end(s@),
{
    let e = ws_end_exec(s, s.len());
    proof {
        lemma_ws_end(s@, s@.len() as int);
    }
    slice(s, 0, e)
}

// ------------------------------------------------------------------ ASCII case

/// The ASCII lower-case code of `c` (other characters keep their code).
pub open spec fn ascii_lower(c: char) -> u32 {
    if 'A' <= c && c <= 'Z' {
        (c as u32 + 32) as u32
    } else {
        c as u32
    }
}

/// `s[i..]` starts with `pat` ignoring ASCII case (`eq_ignore_ascii_case` on the slice).
pub open spec fn matches_at_ci(s: Seq<char>, pat: Seq<char>, i: int) -> bool {
    0 <= i && i + pat.len() <= s.len() && forall|k: int|
        0 <= k < pat.len() ==> ascii_lower(#[trigger] s[i + k]) == ascii_lower(pat[k])
}

/// `a.eq_ignore_ascii_case(b)`.
pub open spec fn eq_ignore_case(a: Seq<char>, b: Seq<char>) -> bool {
    a.len() == b.len() && matches_at_ci(a, b, 0)
}

/// The code of a character with ASCII letters lowered.
pub fn lower_code(c: char) -> (r: u32)
    ensures
        r == ascii_lower(c),
{
    if 'A' <= c && c <= 'Z' {
        c as u32 + 32
    } else {
        c as u32
    }
}

/// Whether `pat` occurs at index `i` of `s`, ignoring ASCII case.
pub fn matches_here_ci(s: &Vec<char>, pat: &Vec<char>, i: usize) -> (r: bool)
    ensures
        r == matches_at_ci(s@, pat@, i as int),
{
    if i > s.len() || pat.len() > s.len() - i {
        return false;
    }
    let mut j: usize = 0;
    while j < pat.len()
        invariant
            i + pat.len() <= s.len(),
            j <= pat.len(),
            forall|k: int| 0 <= k < j ==> ascii_lower(#[trigger] s@[i + k]) == ascii_lower(pat@[k]),
        decreases pat.len() - j,
    {
        if lower_code(s[i + j]) != lower_code(pat[j]) {
            return false;
        }
        j += 1;
    }
    true
}

/// `a.eq_ignore_ascii_case(b)`.
pub fn equal_ignore_case(a: &Vec<char>, b: &Vec<char>) -> (r: bool)
    ensures
        r == eq_ignore_case(a@, b@),
{
    a.len() == b.len() && matches_here_ci(a, b, 0)
}

/// The texts of a sequence of strings.
pub open spec fn string_views(v: Seq<String>) -> Seq<Seq<char>> {
    v.map_values(|s: String| s@)
}

// ------------------------------------------------------------------ order

/// Lexicographic order of texts by character code: a prefix comes first.
///
/// It agrees with `Ord` on `str`, which compares the UTF-8 bytes, since
/// UTF-8 keeps the order of code points.
pub open spec fn text_le(a: Seq<char>, b: Seq<char>) -> bool
    decreases a.len(),
{
    if a.len() == 0 {
        true
    } else if b.len() == 0 {
        false
    } else if a[0] != b[0] {
        a[0] < b[0]
    } else {
        text_le(a.drop_first(), b.drop_first())
    }
}

/// `text_le` is reflexive.
pub proof fn lemma_text_le_refl(a: Seq<char>)
    ensures
        text_le(a, a),
    decreases a.len(),
{
    if a.len() > 0 {
        lemma_text_le_refl(a.drop_first());
    }
}

/// Any two texts are ordered one way or the other.
pub proof fn lemma_text_le_connected(a: Seq<char>, b: Seq<char>)
    ensures
        text_le(a, b) || text_le(b, a),
    decreases a.len(),
{
    if a.len() > 0 && b.len() > 0 && a[0] == b[0] {
        lemma_text_le_connected(a.drop_first(), b.drop_first());
    }
}

/// Texts ordered both ways are equal.
pub proof fn lemma_text_le_antisymmetric(a: Seq<char>, b: Seq<char>)
    requires
        text_le(a, b),
        text_le(b, a),
    ensures
        a == b,
    decreases a.len(),
{
    if a.len() == 0 || b.len() == 0 {
        assert(a =~= b);
    } else {
        assert(a[0] == b[0]);
        assert(text_le(a.drop_first(), b.drop_first()));
        assert(text_le(b.drop_first(), a.drop_first()));
        lemma_text_le_antisymmetric(a.drop_first(), b.drop_first());
        assert(a.drop_first().len() == b.drop_first().len());
        assert forall|i: int| 0 <= i < a.len() implies a[i] == b[i] by {
            if i > 0 {
                assert(a[i] == a.drop_first()[i - 1]);
                assert(b[i] == b.drop_first()[i - 1]);
            }
        }
        assert(a =~= b);
    }
}

/// `text_le` is transitive.
pub proof fn lemma_text_le_transitive(a: Seq<char>, b: Seq<char>, c: Seq<char>)
    requires
        text_le(a, b),
        text_le(b, c),
    ensures
        text_le(a, c),
    decreases a.len(),
{
    if a.len() > 0 && b.len() > 0 && c.len() > 0 && a[0] == b[0] && b[0] == c[0] {
        lemma_text_le_transitive(a.drop_first(), b.drop_first(), c.drop_first());
    }
}

/// `text_le` is a total order.
pub proof fn lemma_text_order()
    ensures
        total_ordering(|a: Seq<char>, b: Seq<char>| text_le(a, b)),
{
    let le = |a: Seq<char>, b: Seq<char>| text_le(a, b);
    assert forall|a: Seq<char>| #[trigger] le(a, a) by {
        lemma_text_le_refl(a);
    }
    assert forall|a: Seq<char>, b: Seq<char>| #[trigger] le(a, b) && #[trigger] le(b, a) implies a
        == b by {
        lemma_text_le_antisymmetric(a, b);
    }
    assert forall|a: Seq<char>, b: Seq<char>, c: Seq<char>| #[trigger] le(a, b) && #[trigger] le(
        b,
        c,
    ) implies le(a, c) by {
        lemma_text_le_transitive(a, b, c);
    }
    assert forall|a: Seq<char>, b: Seq<char>| #[trigger] le(a, b) || #[trigger] le(b, a) by {
        lemma_text_le_connected(a, b);
    }
}

/// `a <= b` on the texts of two strings.
pub fn text_le_exec(a: &str, b: &str) -> (r: bool)
    ensures
        r == text_le(a@, b@),
{
    let x = chars_of(a);
    let y = chars_of(b);
    let mut i: usize = 0;
    assert(x@.skip(0) =~= x@);
    assert(y@.skip(0) =~= y@);
    while i < x.len() && i < y.len() && x[i] == y[i]
        invariant
            i <= x.len(),
            i <= y.len(),
            text_le(x@, y@) == text_le(x@.skip(i as int), y@.skip(i as int)),
        decreases x.len() - i,
    {
        assert(x@.skip(i as int).drop_first() =~= x@.skip(i + 1));
        assert(y@.skip(i as int).drop_first() =~= y@.skip(i + 1));
        i += 1;
    }
    if i == x.len() {
        true
    } else if i == y.len() {
        false
    } else {
        x[i] < y[i]
    }
}

// ------------------------------------------------------------------ strings

/// Appends one character to a string (`String::push`).
#[verifier::external_body]
pub(crate) fn push_char(s: &mut String, c: char)
    ensures
        final(s)@ == old(s)@.push(c),
{
    s.push(c);
}

/// The characters of a string slice, in order.
pub fn chars_of(s: &str) -> (res: Vec<char>)
    ensures
        res@ == s@,
{
    let mut out: Vec<char> = Vec::new();
    for c in it: s.chars()
        invariant
            out@ == it.seq().take(it.index() as int),
    {
        out.push(c);
    }
    out
}

/// The string made of the given characters.
pub fn to_string(v: &Vec<char>) -> (res: String)
    ensures
        res@ == v@,
{
    let mut out = String::new();
    let mut i: usize = 0;
    while i < v.len()
        invariant
            i <= v.len(),
            out@ == v@.take(i as int),
        decreases v.len() - i,
    {
        push_char(&mut out, v[i]);
        assert(v@.take(i + 1) =~= v@.take(i as int).push(v@[i as int]));
        i += 1;
    }
    assert(v@.take(v@.len() as int) =~= v@);
    out
}

} // verus!
