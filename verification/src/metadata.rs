//! Bibliographic rewriting: the OPF metadata, the NCX navigation, and the
//! `xml:lang` attributes and chapter headings of the text files.
//!
//! This layer only puts the target language's wording in place of the
//! source's; which paragraphs stay is decided in [`crate::split`].
use vstd::prelude::*;

use crate::lang::Lang;
use crate::markup::{replace_element_chars, replace_element_of};
use crate::text::{chars_of, contains, is_ws, ws_end, lemma_contains, lemma_lead_ws, lemma_replace_split, lemma_ws_end, lead_ws, replace_from, lemma_find_from_is, lemma_matches_at_local, matches_at, lemma_replace_leaves_none, misfit_before, misfit_inside, no_overlap, find, find_from, lemma_find_from, push_all, push_range, replace, replace_all, slice, to_string, trim, trimmed};

verus! {

/// The title of each edition.
pub open spec fn book_title_view(lang: Lang) -> Seq<char> {
    match lang {
        Lang::Ja => "カイブツ×カノジョ (講談社ラノベ文庫)"@,
        Lang::Zh => "凯物×女友"@,
    }
}

impl Lang {
    /// The title of the edition in this language.
    pub fn book_title(self) -> (r: &'static str)
        ensures
            r@ == book_title_view(self),
    {
        match self {
            Lang::Ja => "カイブツ×カノジョ (講談社ラノベ文庫)",
            Lang::Zh => "凯物×女友",
        }
    }
}

// ------------------------------------------------------------------ xml:lang

/// `xml:lang="…"` for the language.
pub open spec fn lang_attr(lang: Lang) -> Seq<char> {
    seq!['x', 'm', 'l', ':', 'l', 'a', 'n', 'g', '=', '"'] + lang.dc_language_view() + seq!['"']
}

/// Every `xml:lang` of the other language becomes one of this language.
///
/// Both directions are rewritten: a source that declares `zh-CN` would
/// otherwise make the Japanese edition declare itself Chinese.
pub open spec fn relabel(t: Seq<char>, lang: Lang) -> Seq<char> {
    replace_all(t, lang_attr(lang.other()), lang_attr(lang))
}

fn lang_attr_exec(lang: Lang) -> (r: Vec<char>)
    ensures
        r@ == lang_attr(lang),
        r@.len() > 0,
{
    let mut v = vec!['x', 'm', 'l', ':', 'l', 'a', 'n', 'g', '=', '"'];
    let tag = chars_of(lang.dc_language());
    push_all(&mut v, &tag);
    v.push('"');
    assert(v@ =~= lang_attr(lang));
    v
}

fn relabel_exec(t: &Vec<char>, lang: Lang) -> (r: Vec<char>)
    ensures
        r@ == relabel(t@, lang),
{
    let other = match lang {
        Lang::Ja => Lang::Zh,
        Lang::Zh => Lang::Ja,
    };
    let from = lang_attr_exec(other);
    let to = lang_attr_exec(lang);
    replace(t, &from, &to)
}

// ------------------------------------------------------------------ headings

pub open spec fn h2() -> Seq<char> {
    seq!['h', '2']
}

pub open spec fn h3() -> Seq<char> {
    seq!['h', '3']
}

/// `>name</level>`: the end of a heading element with exactly that text.
pub open spec fn heading_tail(name: Seq<char>, level: Seq<char>) -> Seq<char> {
    seq!['>'] + name + seq!['<', '/'] + level + seq!['>']
}

/// One row of the heading table, applied to `<h2>` and then to `<h3>`.
///
/// The leading `>` in the pattern keeps `一章` from matching inside a
/// `第一章` that an earlier row produced.
pub open spec fn heading_step(t: Seq<char>, ja: Seq<char>, zh: Seq<char>) -> Seq<char> {
    replace_all(
        replace_all(t, heading_tail(ja, h2()), heading_tail(zh, h2())),
        heading_tail(ja, h3()),
        heading_tail(zh, h3()),
    )
}

/// The chapter headings of the source exist only in Japanese; the Chinese
/// edition takes them from this table, row by row.
pub open spec fn translate_headings(t: Seq<char>) -> Seq<char> {
    let t = heading_step(t, "プロローグ"@, "序章"@);
    let t = heading_step(t, "エピローグ"@, "终章"@);
    let t = heading_step(t, "あとがき"@, "后记"@);
    let t = heading_step(t, "幕間"@, "间章"@);
    let t = heading_step(t, "一章"@, "第一章"@);
    let t = heading_step(t, "二章"@, "第二章"@);
    let t = heading_step(t, "三章"@, "第三章"@);
    let t = heading_step(t, "四章"@, "第四章"@);
    let t = heading_step(t, "五章"@, "第五章"@);
    heading_step(t, "六章"@, "第六章"@)
}

fn heading_tail_exec(name: &str, level: char) -> (r: Vec<char>)
    ensures
        r@ == heading_tail(name@, seq!['h', level]),
        r@.len() > 0,
{
    let mut v = vec!['>'];
    push_all(&mut v, &chars_of(name));
    v.push('<');
    v.push('/');
    v.push('h');
    v.push(level);
    v.push('>');
    assert(v@ =~= heading_tail(name@, seq!['h', level]));
    v
}

fn heading_step_exec(t: Vec<char>, ja: &str, zh: &str) -> (r: Vec<char>)
    ensures
        r@ == heading_step(t@, ja@, zh@),
{
    assert(h2() =~= seq!['h', '2']);
    assert(h3() =~= seq!['h', '3']);
    let t2 = replace(&t, &heading_tail_exec(ja, '2'), &heading_tail_exec(zh, '2'));
    replace(&t2, &heading_tail_exec(ja, '3'), &heading_tail_exec(zh, '3'))
}

fn translate_headings_exec(t: Vec<char>) -> (r: Vec<char>)
    ensures
        r@ == translate_headings(t@),
{
    let t = heading_step_exec(t, "プロローグ", "序章");
    let t = heading_step_exec(t, "エピローグ", "终章");
    let t = heading_step_exec(t, "あとがき", "后记");
    let t = heading_step_exec(t, "幕間", "间章");
    let t = heading_step_exec(t, "一章", "第一章");
    let t = heading_step_exec(t, "二章", "第二章");
    let t = heading_step_exec(t, "三章", "第三章");
    let t = heading_step_exec(t, "四章", "第四章");
    let t = heading_step_exec(t, "五章", "第五章");
    heading_step_exec(t, "六章", "第六章")
}

// ------------------------------------------------------------------ text files

/// The text between the paragraphs of a text file, in the target language:
/// `xml:lang` relabelled and, for Chinese, the chapter headings translated.
/// The `<title>` of each file stays: in some books it is the chapter's name.
pub open spec fn rewrite_raw_of(t: Seq<char>, lang: Lang) -> Seq<char> {
    let relabelled = relabel(t, lang);
    if lang == Lang::Zh {
        translate_headings(relabelled)
    } else {
        relabelled
    }
}

/// `rewrite_raw` on characters.
pub fn rewrite_raw_chars(t: &Vec<char>, lang: Lang) -> (r: Vec<char>)
    ensures
        r@ == rewrite_raw_of(t@, lang),
{
    let relabelled = relabel_exec(t, lang);
    match lang {
        Lang::Zh => translate_headings_exec(relabelled),
        Lang::Ja => relabelled,
    }
}

/// Rewrites the text between the paragraphs of a text file for the target
/// language.
pub fn rewrite_raw(text: &str, lang: Lang) -> (r: String)
    ensures
        r@ == rewrite_raw_of(text@, lang),
{
    to_string(&rewrite_raw_chars(&chars_of(text), lang))
}

/// Replacing a pattern that does not occur changes nothing.
proof fn lemma_replace_absent(s: Seq<char>, p: Seq<char>, q: Seq<char>)
    requires
        p.len() > 0,
        !contains(s, p),
    ensures
        replace_all(s, p, q) == s,
{
    assert(s.subrange(0, s.len() as int) =~= s);
}

/// The text has neither heading of a table row.
pub open spec fn row_settled(t: Seq<char>, ja: Seq<char>) -> bool {
    !contains(t, heading_tail(ja, h2())) && !contains(t, heading_tail(ja, h3()))
}

/// The text has no Japanese heading of the table left.
pub open spec fn headings_settled(t: Seq<char>) -> bool {
    &&& row_settled(t, "プロローグ"@)
    &&& row_settled(t, "エピローグ"@)
    &&& row_settled(t, "あとがき"@)
    &&& row_settled(t, "幕間"@)
    &&& row_settled(t, "一章"@)
    &&& row_settled(t, "二章"@)
    &&& row_settled(t, "三章"@)
    &&& row_settled(t, "四章"@)
    &&& row_settled(t, "五章"@)
    &&& row_settled(t, "六章"@)
}

/// Nothing is left to rewrite: no `xml:lang` of the other language and, for
/// Chinese, no Japanese heading of the table.
pub open spec fn raw_settled(t: Seq<char>, lang: Lang) -> bool {
    !contains(t, lang_attr(lang.other())) && (lang == Lang::Zh ==> headings_settled(t))
}

proof fn lemma_step_settled(t: Seq<char>, ja: Seq<char>, zh: Seq<char>)
    requires
        row_settled(t, ja),
    ensures
        heading_step(t, ja, zh) == t,
{
    lemma_replace_absent(t, heading_tail(ja, h2()), heading_tail(zh, h2()));
    lemma_replace_absent(t, heading_tail(ja, h3()), heading_tail(zh, h3()));
}

/// Rewriting a text a second time changes nothing when the first rewriting
/// left nothing to rewrite. It can leave something: two `>一章</h2>` that
/// share their `>` are found as one, as `str::replace` finds them.
pub proof fn law_rewrite_raw_settles(t: Seq<char>, lang: Lang)
    requires
        raw_settled(rewrite_raw_of(t, lang), lang),
    ensures
        rewrite_raw_of(rewrite_raw_of(t, lang), lang) == rewrite_raw_of(t, lang),
{
    let r = rewrite_raw_of(t, lang);
    lemma_replace_absent(r, lang_attr(lang.other()), lang_attr(lang));
    if lang == Lang::Zh {
        lemma_step_settled(r, "プロローグ"@, "序章"@);
        lemma_step_settled(r, "エピローグ"@, "终章"@);
        lemma_step_settled(r, "あとがき"@, "后记"@);
        lemma_step_settled(r, "幕間"@, "间章"@);
        lemma_step_settled(r, "一章"@, "第一章"@);
        lemma_step_settled(r, "二章"@, "第二章"@);
        lemma_step_settled(r, "三章"@, "第三章"@);
        lemma_step_settled(r, "四章"@, "第四章"@);
        lemma_step_settled(r, "五章"@, "第五章"@);
        lemma_step_settled(r, "六章"@, "第六章"@);
    }
}

// ------------------------------------------------------------------ the heading table

/// The chapter names of the source with their Chinese names, in the order the
/// Chinese edition applies them.
pub open spec fn heading_table() -> Seq<(Seq<char>, Seq<char>)> {
    seq![
        ("プロローグ"@, "序章"@),
        ("エピローグ"@, "终章"@),
        ("あとがき"@, "后记"@),
        ("幕間"@, "间章"@),
        ("一章"@, "第一章"@),
        ("二章"@, "第二章"@),
        ("三章"@, "第三章"@),
        ("四章"@, "第四章"@),
        ("五章"@, "第五章"@),
        ("六章"@, "第六章"@),
    ]
}

/// The heading levels the table is applied at.
pub open spec fn is_heading_level(level: Seq<char>) -> bool {
    level == h2() || level == h3()
}

/// The only heading of the table in `t` is the Japanese name of row `k` at
/// `level`, once, at index `i`.
pub open spec fn only_table_heading(t: Seq<char>, i: int, k: int, level: Seq<char>) -> bool {
    forall|r: int, l: Seq<char>, j: int|
        #![trigger matches_at(t, heading_tail(heading_table()[r].0, l), j)]
        0 <= r < heading_table().len() && is_heading_level(l) && matches_at(
            t,
            heading_tail(heading_table()[r].0, l),
            j,
        ) ==> r == k && l == level && j == i
}

/// The table's rows from `r` on, applied in order.
spec fn rows_from(t: Seq<char>, r: int) -> Seq<char>
    decreases heading_table().len() - r,
{
    if 0 <= r < heading_table().len() {
        rows_from(heading_step(t, heading_table()[r].0, heading_table()[r].1), r + 1)
    } else {
        t
    }
}

proof fn lemma_translate_is_rows(t: Seq<char>)
    ensures
        translate_headings(t) == rows_from(t, 0),
{
    reveal_with_fuel(rows_from, 11);
}

/// What the table's names are made of: no `>`, and no Japanese name starts
/// like a Chinese one.
proof fn lemma_table_names()
    ensures
        heading_table().len() == 10,
        forall|r: int| 0 <= r < 10 ==> #[trigger] heading_table()[r].0.len() > 0 && heading_table()[r].1.len() > 0,
        forall|r: int, k: int|
            0 <= r < 10 && 0 <= k < heading_table()[r].0.len() ==> #[trigger] heading_table()[r].0[k] != '>',
        forall|r: int, k: int|
            0 <= r < 10 && 0 <= k < heading_table()[r].1.len() ==> #[trigger] heading_table()[r].1[k] != '>',
        forall|r: int, k: int|
            0 <= r < 10 && 0 <= k < 10 ==> #[trigger] heading_table()[r].0[0] != #[trigger] heading_table()[k].1[0],
{
    reveal_strlit("プロローグ");
    reveal_strlit("序章");
    reveal_strlit("エピローグ");
    reveal_strlit("终章");
    reveal_strlit("あとがき");
    reveal_strlit("后记");
    reveal_strlit("幕間");
    reveal_strlit("间章");
    reveal_strlit("一章");
    reveal_strlit("第一章");
    reveal_strlit("二章");
    reveal_strlit("第二章");
    reveal_strlit("三章");
    reveal_strlit("第三章");
    reveal_strlit("四章");
    reveal_strlit("第四章");
    reveal_strlit("五章");
    reveal_strlit("第五章");
    reveal_strlit("六章");
    reveal_strlit("第六章");
}

/// A heading tail has `>` at both ends and nowhere else.
proof fn lemma_tail_shape(name: Seq<char>, level: Seq<char>)
    requires
        name.len() > 0,
        forall|k: int| 0 <= k < name.len() ==> #[trigger] name[k] != '>',
        is_heading_level(level),
    ensures
        heading_tail(name, level).len() >= 2,
        heading_tail(name, level)[0] == '>',
        heading_tail(name, level)[heading_tail(name, level).len() - 1] == '>',
        heading_tail(name, level)[1] == name[0],
        forall|k: int|
            0 < k < heading_tail(name, level).len() - 1 ==> #[trigger] heading_tail(name, level)[k] != '>',
{
    let x = heading_tail(name, level);
    assert forall|k: int| 0 < k < x.len() - 1 implies #[trigger] x[k] != '>' by {
        if k <= name.len() {
            assert(x[k] == name[k - 1]);
        }
    }
}

/// Replacing a pattern that occurs once replaces just that occurrence.
proof fn lemma_replace_once(a: Seq<char>, p: Seq<char>, b: Seq<char>, q: Seq<char>)
    requires
        p.len() > 0,
        forall|j: int| #[trigger] matches_at(a + p + b, p, j) ==> j == a.len(),
    ensures
        replace_all(a + p + b, p, q) == a + q + b,
{
    let t = a + p + b;
    let l = a.len() as int;
    assert(t.subrange(l, l + p.len()) =~= p);
    lemma_find_from_is(t, p, 0, l);
    lemma_find_from(t, p, l + p.len());
    assert(find_from(t, p, l + p.len()) is None);
    assert(t.subrange(0, l) =~= a);
    assert(t.subrange(l + p.len(), t.len() as int) =~= b);
    assert(replace_from(t, p, q, l + p.len()) == t.subrange(l + p.len(), t.len() as int));
    assert(replace_from(t, p, q, 0) == t.subrange(0, l) + q + replace_from(t, p, q, l + p.len()));
    assert(replace_all(t, p, q) =~= a + q + b);
}

/// Putting `q` in the place of `p` makes no new `x`, when all three start and
/// end with `>` and have it nowhere else, `x` and `q` differ in their second
/// character, and `x` occurred in the text only where `p` was.
proof fn lemma_no_new_heading(a: Seq<char>, p: Seq<char>, q: Seq<char>, b: Seq<char>, x: Seq<char>)
    requires
        p.len() >= 2,
        q.len() >= 2,
        x.len() >= 2,
        p[0] == '>' && p[p.len() - 1] == '>',
        q[0] == '>' && q[q.len() - 1] == '>',
        x[0] == '>' && x[x.len() - 1] == '>',
        forall|k: int| 0 < k < x.len() - 1 ==> #[trigger] x[k] != '>',
        forall|k: int| 0 < k < q.len() - 1 ==> #[trigger] q[k] != '>',
        x[1] != q[1],
        forall|j: int| #[trigger] matches_at(a + p + b, x, j) ==> j == a.len(),
    ensures
        !contains(a + q + b, x),
{
    let t = a + p + b;
    let u = a + q + b;
    let la = a.len() as int;
    let lq = q.len() as int;
    let lp = p.len() as int;
    lemma_contains(u, x);
    if contains(u, x) {
        let j = choose|j: int| matches_at(u, x, j);
        assert(u.subrange(j, j + x.len()) == x);
        if j + x.len() <= la {
            assert forall|y: int| j <= y < j + x.len() implies #[trigger] u[y] == t[y + 0] by {}
            lemma_matches_at_local(u, t, x, j, 0);
        } else if j < la {
            let k = la - j;
            assert(u.subrange(j, j + x.len())[k] == u[la]);
            assert(x[k] == '>');
            assert(k == x.len() - 1);
            assert forall|y: int| j <= y < j + x.len() implies #[trigger] u[y] == t[y + 0] by {
                if y == la {
                    assert(u[y] == q[0]);
                    assert(t[y] == p[0]);
                }
            }
            lemma_matches_at_local(u, t, x, j, 0);
        } else if j < la + lq {
            let m = j - la;
            assert(u.subrange(j, j + x.len())[0] == u[j]);
            assert(u[j] == q[m]);
            if m == 0 {
                assert(u.subrange(j, j + x.len())[1] == u[j + 1]);
                assert(u[j + 1] == q[1]);
            } else {
                assert(m == lq - 1);
                let di = lp - lq;
                assert forall|y: int| j <= y < j + x.len() implies #[trigger] u[y] == t[y + di] by {
                    if y == j {
                        assert(t[y + di] == p[lp - 1]);
                    }
                }
                lemma_matches_at_local(u, t, x, j, di);
            }
        } else {
            let di = lp - lq;
            assert forall|y: int| j <= y < j + x.len() implies #[trigger] u[y] == t[y + di] by {}
            lemma_matches_at_local(u, t, x, j, di);
        }
    }
}

/// A text with no heading of the table is left as it is by the rows from `r` on.
proof fn lemma_rows_leave_clean(t: Seq<char>, r: int)
    requires
        0 <= r,
        forall|rr: int, l: Seq<char>|
            0 <= rr < heading_table().len() && is_heading_level(l) ==> !contains(
                t,
                #[trigger] heading_tail(heading_table()[rr].0, l),
            ),
    ensures
        rows_from(t, r) == t,
    decreases heading_table().len() - r,
{
    lemma_table_names();
    if r < heading_table().len() {
        let ja = heading_table()[r].0;
        let zh = heading_table()[r].1;
        assert(!contains(t, heading_tail(ja, h2())));
        assert(!contains(t, heading_tail(ja, h3())));
        lemma_replace_absent(t, heading_tail(ja, h2()), heading_tail(zh, h2()));
        lemma_replace_absent(t, heading_tail(ja, h3()), heading_tail(zh, h3()));
        lemma_rows_leave_clean(t, r + 1);
    }
}

/// The rows from `r` on, up to and with row `k`, turn the one table heading
/// of row `k` into its Chinese name and leave the rest.
proof fn lemma_rows_translate_one(a: Seq<char>, b: Seq<char>, k: int, level: Seq<char>, r: int)
    requires
        0 <= r <= k < heading_table().len(),
        is_heading_level(level),
        only_table_heading(a + heading_tail(heading_table()[k].0, level) + b, a.len() as int, k, level),
    ensures
        rows_from(a + heading_tail(heading_table()[k].0, level) + b, r) == a + heading_tail(
            heading_table()[k].1,
            level,
        ) + b,
    decreases k - r,
{
    lemma_table_names();
    let t = a + heading_tail(heading_table()[k].0, level) + b;
    let ja = heading_table()[r].0;
    let zh = heading_table()[r].1;
    assert(h2() != h3()) by {
        assert(h2()[1] != h3()[1]);
    }
    // The tails of row `r` that are not the one heading do not occur.
    assert forall|l: Seq<char>| is_heading_level(l) && !(r == k && l == level) implies !contains(
        t,
        #[trigger] heading_tail(ja, l),
    ) by {
        lemma_contains(t, heading_tail(ja, l));
        if contains(t, heading_tail(ja, l)) {
            let j = choose|j: int| matches_at(t, heading_tail(ja, l), j);
            assert(matches_at(t, heading_tail(heading_table()[r].0, l), j));
        }
    }
    if r < k {
        lemma_replace_absent(t, heading_tail(ja, h2()), heading_tail(zh, h2()));
        lemma_replace_absent(t, heading_tail(ja, h3()), heading_tail(zh, h3()));
        lemma_rows_translate_one(a, b, k, level, r + 1);
    } else {
        let p = heading_tail(ja, level);
        let q = heading_tail(zh, level);
        let u = a + q + b;
        lemma_tail_shape(ja, level);
        lemma_tail_shape(zh, level);
        assert forall|j: int| #[trigger] matches_at(t, p, j) implies j == a.len() by {
            assert(matches_at(t, heading_tail(heading_table()[k].0, level), j));
        }
        lemma_replace_once(a, p, b, q);
        // The Chinese name leaves no heading of the table behind.
        assert forall|rr: int, l: Seq<char>|
            0 <= rr < heading_table().len() && is_heading_level(l) implies !contains(
            u,
            #[trigger] heading_tail(heading_table()[rr].0, l),
        ) by {
            let x = heading_tail(heading_table()[rr].0, l);
            lemma_tail_shape(heading_table()[rr].0, l);
            assert(x[1] != q[1]) by {
                assert(heading_table()[rr].0[0] != heading_table()[k].1[0]);
            }
            assert forall|j: int| #[trigger] matches_at(t, x, j) implies j == a.len() by {}
            lemma_no_new_heading(a, p, q, b, x);
        }
        if level == h2() {
            lemma_replace_absent(u, heading_tail(ja, h3()), heading_tail(zh, h3()));
        } else {
            lemma_replace_absent(t, heading_tail(ja, h2()), heading_tail(zh, h2()));
        }
        assert(heading_step(t, ja, zh) == u);
        lemma_rows_leave_clean(u, r + 1);
    }
}

/// In the Chinese edition every row of the heading table is applied at both
/// `<h2>` and `<h3>`: a text whose one heading of the table is a Japanese
/// chapter name at either level comes out with the Chinese name in its place
/// and nothing else changed (when it declares no Japanese `xml:lang`, which
/// would be relabelled too).
pub proof fn law_headings_are_translated(a: Seq<char>, b: Seq<char>, k: int, level: Seq<char>)
    requires
        0 <= k < heading_table().len(),
        is_heading_level(level),
        only_table_heading(a + heading_tail(heading_table()[k].0, level) + b, a.len() as int, k, level),
        !contains(a + heading_tail(heading_table()[k].0, level) + b, lang_attr(Lang::Ja)),
    ensures
        rewrite_raw_of(a + heading_tail(heading_table()[k].0, level) + b, Lang::Zh) == a
            + heading_tail(heading_table()[k].1, level) + b,
{
    let t = a + heading_tail(heading_table()[k].0, level) + b;
    lemma_replace_absent(t, lang_attr(Lang::Ja), lang_attr(Lang::Zh));
    lemma_translate_is_rows(t);
    lemma_rows_translate_one(a, b, k, level, 0);
}

/// The Japanese edition only relabels: a text that declares no Chinese
/// `xml:lang` comes out as it went in, headings and all.
pub proof fn law_japanese_raw_text_is_kept(t: Seq<char>)
    requires
        !contains(t, lang_attr(Lang::Zh)),
    ensures
        rewrite_raw_of(t, Lang::Ja) == t,
{
    lemma_replace_absent(t, lang_attr(Lang::Zh), lang_attr(Lang::Ja));
}

// ------------------------------------------------------------------ OPF

/// The document with the text of the first `tag` element replaced; unchanged
/// when there is no such element.
pub open spec fn set_element(doc: Seq<char>, tag: Seq<char>, new_text: Seq<char>) -> Seq<char> {
    match replace_element_of(doc, tag, new_text) {
        Some(d) => d,
        None => doc,
    }
}

fn set_element_exec(doc: Vec<char>, tag: &str, new_text: &Vec<char>) -> (r: Vec<char>)
    ensures
        r@ == set_element(doc@, tag@, new_text@),
{
    match replace_element_chars(&doc, &chars_of(tag), new_text) {
        Some(d) => d,
        None => doc,
    }
}

/// The identifier of an edition: the source's identifier, trimmed, with the
/// language tag appended, so the two editions never share one.
pub open spec fn edition_id(base_id: Seq<char>, lang: Lang) -> Seq<char> {
    trim(base_id) + seq!['-'] + lang.tag_view()
}

/// The two editions never share an identifier, whatever the source's was.
pub proof fn law_edition_ids_differ(base_id: Seq<char>)
    ensures
        edition_id(base_id, Lang::Ja) != edition_id(base_id, Lang::Zh),
{
    let ja = edition_id(base_id, Lang::Ja);
    let zh = edition_id(base_id, Lang::Zh);
    assert(ja[ja.len() - 1] == 'a');
    assert(zh[zh.len() - 1] == 'h');
}

/// The open tag of the book's own identifier, the one that the package's
/// `unique-identifier="uid"` names.
pub open spec fn uid_open() -> Seq<char> {
    "<dc:identifier id=\"uid\">"@
}

/// `</dc:identifier>`.
pub open spec fn id_close() -> Seq<char> {
    "</dc:identifier>"@
}

/// Where the text of the book's identifier lies: just after the first
/// `<dc:identifier id="uid">`, up to the first `</dc:identifier>` after it.
pub open spec fn uid_span(doc: Seq<char>) -> Option<(int, int)> {
    match find_from(doc, uid_open(), 0) {
        None => None,
        Some(i) => match find_from(doc, id_close(), i + uid_open().len()) {
            None => None,
            Some(e) => Some((i + uid_open().len(), e)),
        },
    }
}

/// The book's identifier, trimmed.
pub open spec fn uid_text(doc: Seq<char>) -> Option<Seq<char>> {
    match uid_span(doc) {
        None => None,
        Some((o, e)) => Some(trim(doc.subrange(o, e))),
    }
}

/// The text of the book's identifier as it stands, untrimmed.
pub open spec fn uid_body(doc: Seq<char>) -> Seq<char> {
    match uid_span(doc) {
        None => Seq::empty(),
        Some((o, e)) => doc.subrange(o, e),
    }
}

/// The book's identifier can be set in this document: it has the element,
/// or it has no `<dc:identifier id="uid">` at all and a `</metadata>` to add
/// one before.
pub open spec fn identifier_settable(doc: Seq<char>) -> bool {
    uid_span(doc) is Some || (find_from(doc, uid_open(), 0) is None && find_from(
        doc,
        "</metadata>"@,
        0,
    ) is Some)
}

/// The identifier element added to a source that has none.
pub open spec fn identifier_element(id: Seq<char>) -> Seq<char> {
    uid_open() + id + id_close()
}

/// The book's identifier set to `id`: its text replaced when the source has
/// the element, otherwise the element added before `</metadata>` (and
/// nothing changes without `</metadata>`).
pub open spec fn set_identifier(doc: Seq<char>, id: Seq<char>) -> Seq<char> {
    match uid_span(doc) {
        Some((o, e)) => doc.subrange(0, o) + id + doc.subrange(e, doc.len() as int),
        None => match find_from(doc, "</metadata>"@, 0) {
            None => doc,
            Some(i) => doc.subrange(0, i) + identifier_element(id) + doc.subrange(
                i,
                doc.len() as int,
            ),
        },
    }
}

/// Both tags start with `<` and hold no other.
proof fn lemma_identifier_tags()
    ensures
        uid_open().len() > 0,
        id_close().len() > 0,
        forall|k: int| 0 < k < uid_open().len() ==> #[trigger] uid_open()[k] != uid_open()[0],
        forall|k: int| 0 < k < id_close().len() ==> #[trigger] id_close()[k] != id_close()[0],
        uid_open()[0] == '<',
        uid_open()[uid_open().len() - 1] == '>',
        id_close()[0] == '<',
        id_close()[id_close().len() - 1] == '>',
{
    reveal_strlit("<dc:identifier id=\"uid\">");
    reveal_strlit("</dc:identifier>");
}

/// In `a + b`, where `a` holds no `p` from `from` on, `b` starts with `p`,
/// and the first character of `p` occurs nowhere else in it, the first `p`
/// from `from` on is where `b` starts.
proof fn lemma_first_at_join(a: Seq<char>, b: Seq<char>, p: Seq<char>, from: int)
    requires
        p.len() > 0,
        0 <= from <= a.len(),
        matches_at(b, p, 0),
        forall|j: int| from <= j ==> !#[trigger] matches_at(a, p, j),
        forall|k: int| 0 < k < p.len() ==> #[trigger] p[k] != p[0],
    ensures
        find_from(a + b, p, from) == Some(a.len() as int),
{
    let n = a + b;
    let l = a.len() as int;
    assert forall|j: int| 0 <= j < p.len() implies #[trigger] b[j] == n[j + l] by {}
    lemma_matches_at_local(b, n, p, 0, l);
    assert forall|j: int| from <= j < l implies !matches_at(n, p, j) by {
        if matches_at(n, p, j) {
            if j + p.len() <= l {
                assert forall|m: int| j <= m < j + p.len() implies #[trigger] n[m] == a[m] by {}
                lemma_matches_at_local(n, a, p, j, 0);
            } else {
                let k = l - j;
                assert(n.subrange(j, j + p.len())[k] == n[l]);
                assert(n[l] == b[0]);
                assert(b.subrange(0, p.len() as int)[0] == b[0]);
            }
        }
    }
    lemma_find_from_is(n, p, from, l);
}

/// In `a + t + b`, where `t` holds no `c`, `b` starts with `c`, and the first
/// character of `c` occurs nowhere else in it, the first `c` from the end of
/// `a` on is where `b` starts.
proof fn lemma_close_after(a: Seq<char>, t: Seq<char>, b: Seq<char>, c: Seq<char>)
    requires
        c.len() > 0,
        matches_at(b, c, 0),
        !contains(t, c),
        forall|k: int| 0 < k < c.len() ==> #[trigger] c[k] != c[0],
    ensures
        find_from(a + t + b, c, a.len() as int) == Some(a.len() + t.len() as int),
{
    let at = a + t;
    let l = a.len() as int;
    assert forall|j: int| l <= j implies !#[trigger] matches_at(at, c, j) by {
        if matches_at(at, c, j) {
            assert forall|m: int| j <= m < j + c.len() implies #[trigger] at[m] == t[m + (-l)] by {}
            lemma_matches_at_local(at, t, c, j, -l);
            lemma_contains(t, c);
        }
    }
    lemma_first_at_join(at, b, c, l);
}

/// Setting the book's identifier and reading it back gives the identifier
/// set, trimmed. This holds when the OPF has the identifier element, or has
/// no `<dc:identifier id="uid">` at all and a `</metadata>` to add one
/// before; and when the identifier holds no `</dc:identifier>`.
pub proof fn law_identifier_set_reads_back(doc: Seq<char>, id: Seq<char>)
    requires
        identifier_settable(doc),
        !contains(id, id_close()),
    ensures
        uid_text(set_identifier(doc, id)) == Some(trim(id)),
        uid_span(set_identifier(doc, id)) is Some,
        uid_body(set_identifier(doc, id)) == id,
{
    lemma_identifier_tags();
    let open = uid_open();
    let close = id_close();
    let n = set_identifier(doc, id);
    lemma_find_from(doc, open, 0);
    if let Some((o, e)) = uid_span(doc) {
        let i = find_from(doc, open, 0)->0;
        lemma_find_from(doc, close, o);
        let a = doc.subrange(0, i);
        let a2 = doc.subrange(0, o);
        let b2 = doc.subrange(e, doc.len() as int);
        assert(doc.subrange(i, o) == open);
        assert(a2 =~= a + open);
        assert(n =~= a + (open + id + b2));
        assert forall|j: int| 0 <= j implies !#[trigger] matches_at(a, open, j) by {
            if matches_at(a, open, j) {
                assert forall|m: int| j <= m < j + open.len() implies #[trigger] a[m] == doc[m] by {}
                lemma_matches_at_local(a, doc, open, j, 0);
            }
        }
        assert((open + id + b2).subrange(0, open.len() as int) =~= open);
        lemma_first_at_join(a, open + id + b2, open, 0);
        assert forall|m: int| 0 <= m < close.len() implies #[trigger] b2[m] == doc[m + e] by {}
        lemma_matches_at_local(b2, doc, close, 0, e);
        lemma_close_after(a2, id, b2, close);
        assert(n =~= a2 + id + b2);
        assert(uid_span(n) == Some((o, o + id.len())));
        assert(n.subrange(o, o + id.len()) =~= id);
    } else {
        let k = find_from(doc, "</metadata>"@, 0)->0;
        lemma_find_from(doc, "</metadata>"@, 0);
        let a = doc.subrange(0, k);
        let rest = doc.subrange(k, doc.len() as int);
        let b2 = close + rest;
        assert(n =~= a + (open + id + b2));
        assert forall|j: int| 0 <= j implies !#[trigger] matches_at(a, open, j) by {
            if matches_at(a, open, j) {
                assert forall|m: int| j <= m < j + open.len() implies #[trigger] a[m] == doc[m] by {}
                lemma_matches_at_local(a, doc, open, j, 0);
            }
        }
        assert((open + id + b2).subrange(0, open.len() as int) =~= open);
        lemma_first_at_join(a, open + id + b2, open, 0);
        assert(b2.subrange(0, close.len() as int) =~= close);
        lemma_close_after(a + open, id, b2, close);
        assert(n =~= (a + open) + id + b2);
        let o = k + open.len();
        assert(uid_span(n) == Some((o, o + id.len())));
        assert(n.subrange(o, o + id.len()) =~= id);
    }
}

/// The two fixed Japanese labels of the guide, in Chinese.
pub open spec fn translate_guide(t: Seq<char>) -> Seq<char> {
    replace_all(
        replace_all(t, "title=\"目次\""@, "title=\"目录\""@),
        "title=\"奥付\""@,
        "title=\"版权页\""@,
    )
}

/// The OPF with the edition's language and title set.
pub open spec fn with_language_and_title(opf: Seq<char>, lang: Lang) -> Seq<char> {
    set_element(
        set_element(opf, "dc:language"@, lang.dc_language_view()),
        "dc:title"@,
        book_title_view(lang),
    )
}

/// The OPF of an edition: language, title and identifier set; the writing
/// mode made vertical, as the text is; the guide labels translated for
/// Chinese.
pub open spec fn rewrite_opf_of(opf: Seq<char>, lang: Lang, base_id: Seq<char>) -> Seq<char> {
    let t = set_identifier(with_language_and_title(opf, lang), edition_id(base_id, lang));
    let t = replace_all(t, "content=\"horizontal-lr\""@, "content=\"vertical-rl\""@);
    if lang == Lang::Zh {
        translate_guide(t)
    } else {
        t
    }
}

/// Around the book's identifier: no `p` runs across the start of its open
/// tag or the end of its close tag, and none lies from the open tag to the
/// end of the close tag.
proof fn lemma_uid_region_free(s: Seq<char>, p: Seq<char>, o: int, e: int)
    requires
        p.len() > 0,
        forall|k: int| 0 <= k < p.len() ==> #[trigger] p[k] != '<' && p[k] != '>',
        !contains(uid_open(), p),
        !contains(id_close(), p),
        uid_span(s) == Some((o, e)),
        !contains(uid_body(s), p),
    ensures
        0 <= o - uid_open().len(),
        o <= e,
        e + id_close().len() <= s.len(),
        s.subrange(o - uid_open().len(), o) == uid_open(),
        s.subrange(e, e + id_close().len()) == id_close(),
        forall|j: int| 0 <= j < o - uid_open().len() ==> !matches_at(s, uid_open(), j),
        forall|j: int| o <= j < e ==> !matches_at(s, id_close(), j),
        forall|j: int|
            j < o - uid_open().len() < j + p.len() ==> !#[trigger] matches_at(s, p, j),
        forall|j: int| j < e + id_close().len() < j + p.len() ==> !#[trigger] matches_at(s, p, j),
        forall|j: int|
            o - uid_open().len() <= j ==> !#[trigger] matches_at(
                s.subrange(0, e + id_close().len()),
                p,
                j,
            ),
{
    lemma_identifier_tags();
    let open = uid_open();
    let close = id_close();
    let i = o - open.len();
    let ee = e + close.len();
    let body = uid_body(s);
    lemma_find_from(s, open, 0);
    lemma_find_from(s, close, o);
    assert(s.subrange(i, o) == open);
    assert(s.subrange(e, ee) == close);
    assert(s[i] == open[0]);
    assert(s[o - 1] == open[open.len() - 1]);
    assert(s[e] == close[0]);
    assert(s[ee - 1] == close[close.len() - 1]);
    // An occurrence of `p` holds no `<` or `>`, so it runs across none of them.
    assert forall|j: int, m: int|
        #![trigger matches_at(s, p, j), s[m]]
        matches_at(s, p, j) && j <= m < j + p.len() implies s[m] != '<' && s[m] != '>' by {
        assert(s.subrange(j, j + p.len())[m - j] == s[m]);
    }
    assert forall|j: int| j < i < j + p.len() implies !#[trigger] matches_at(s, p, j) by {
        if matches_at(s, p, j) {
            assert(s[i] == '<');
        }
    }
    assert forall|j: int| j < ee < j + p.len() implies !#[trigger] matches_at(s, p, j) by {
        if matches_at(s, p, j) {
            assert(s[ee - 1] == '>');
        }
    }
    // Between the two, from the open tag to the end of the close tag, there is no `p`.
    let mid = s.subrange(0, ee);
    assert forall|j: int| i <= j implies !#[trigger] matches_at(mid, p, j) by {
        if matches_at(mid, p, j) {
            assert forall|m: int| j <= m < j + p.len() implies #[trigger] mid[m] == s[m] by {}
            lemma_matches_at_local(mid, s, p, j, 0);
            if j < o {
                if j + p.len() > o {
                    assert(s[o - 1] == '>');
                } else if j == i {
                    assert(s[i] == '<');
                } else {
                    assert forall|m: int| j <= m < j + p.len() implies #[trigger] s[m] == open[m + (-i)] by {
                        assert(s.subrange(i, o)[m - i] == s[m]);
                    }
                    lemma_matches_at_local(s, open, p, j, -i);
                    lemma_contains(open, p);
                }
            } else if j < e {
                if j + p.len() > e {
                    assert(s[e] == '<');
                } else {
                    assert forall|m: int| j <= m < j + p.len() implies #[trigger] s[m] == body[m + (-o)] by {}
                    lemma_matches_at_local(s, body, p, j, -o);
                    lemma_contains(body, p);
                }
            } else if j == e {
                assert(s[e] == '<');
            } else {
                assert forall|m: int| j <= m < j + p.len() implies #[trigger] s[m] == close[m + (-e)] by {
                    assert(s.subrange(e, ee)[m - e] == s[m]);
                }
                lemma_matches_at_local(s, close, p, j, -e);
                lemma_contains(close, p);
            }
        }
    }
}

/// A pattern with no `<` or `>` in it, found in neither identifier tag nor
/// in the identifier, and replaced by a text that no `<dc:identifier
/// id="uid">` can reach into, leaves the book's identifier as it was.
proof fn lemma_replace_keeps_uid(s: Seq<char>, p: Seq<char>, q: Seq<char>)
    requires
        p.len() > 0,
        forall|k: int| 0 <= k < p.len() ==> #[trigger] p[k] != '<' && p[k] != '>',
        !contains(uid_open(), p),
        !contains(id_close(), p),
        no_overlap(uid_open(), q),
        uid_span(s) is Some,
        !contains(uid_body(s), p),
    ensures
        uid_span(replace_all(s, p, q)) is Some,
        uid_body(replace_all(s, p, q)) == uid_body(s),
{
    lemma_identifier_tags();
    let open = uid_open();
    let close = id_close();
    let (o, e) = uid_span(s)->0;
    let i = o - open.len();
    let ee = e + close.len();
    let body = uid_body(s);
    lemma_uid_region_free(s, p, o, e);
    lemma_replace_split(s, p, q, 0, i);
    lemma_replace_split(s, p, q, i, ee);
    let mid = s.subrange(0, ee);
    lemma_find_from(mid, p, i);
    assert(replace_from(mid, p, q, i) == mid.subrange(i, ee));
    // Before the open tag: no identifier was there, and none is made.
    let pre = s.subrange(0, i);
    assert forall|j: int| 0 <= j implies !#[trigger] matches_at(pre, open, j) by {
        if matches_at(pre, open, j) {
            assert forall|m: int| j <= m < j + open.len() implies #[trigger] pre[m] == s[m] by {}
            lemma_matches_at_local(pre, s, open, j, 0);
        }
    }
    lemma_replace_leaves_none(pre, p, q, 0, open);
    let a2 = replace_all(pre, p, q);
    let c2 = replace_from(s, p, q, ee);
    let r = replace_all(s, p, q);
    assert(r =~= a2 + (s.subrange(i, ee) + c2));
    assert((s.subrange(i, ee) + c2).subrange(0, open.len() as int) =~= open);
    lemma_first_at_join(a2, s.subrange(i, ee) + c2, open, 0);
    let head = a2 + open;
    let tail = close + c2;
    assert(r =~= head + body + tail);
    assert forall|j: int| 0 <= j && j + close.len() <= body.len() implies !#[trigger] matches_at(body, close, j) by {
        if matches_at(body, close, j) {
            assert forall|m: int| j <= m < j + close.len() implies #[trigger] body[m] == s[m + o] by {}
            lemma_matches_at_local(body, s, close, j, o);
        }
    }
    lemma_contains(body, close);
    assert(tail.subrange(0, close.len() as int) =~= close);
    lemma_close_after(head, body, tail, close);
    assert(uid_span(r) == Some((head.len() as int, head.len() + body.len() as int)));
    assert(r.subrange(head.len() as int, head.len() + body.len() as int) =~= body);
}

/// Trimming keeps only characters that were there.
proof fn lemma_trim_within(s: Seq<char>)
    ensures
        forall|k: int| 0 <= k < trim(s).len() ==> exists|m: int| 0 <= m < s.len() && #[trigger] trim(s)[k] == s[m],
{
    lemma_lead_ws(s);
    lemma_ws_end(s, s.len() as int);
    assert forall|k: int| 0 <= k < trim(s).len() implies exists|m: int| 0 <= m < s.len() && #[trigger] trim(s)[k] == s[m] by {
        let m = lead_ws(s) + k;
        assert(trim(s)[k] == s[m]);
    }
}

/// A text without some character of a pattern does not hold the pattern.
proof fn lemma_missing_char(t: Seq<char>, p: Seq<char>, k0: int)
    requires
        0 <= k0 < p.len(),
        forall|k: int| 0 <= k < t.len() ==> #[trigger] t[k] != p[k0],
    ensures
        !contains(t, p),
{
    lemma_contains(t, p);
    if contains(t, p) {
        let j = choose|j: int| matches_at(t, p, j);
        assert(t.subrange(j, j + p.len())[k0] == t[j + k0]);
    }
}

/// The OPF of each edition names the edition's own identifier: the source's
/// identifier, trimmed, with the language tag. This holds when, once the
/// language and title are set, the identifier element is there or can be
/// added, and the source's identifier holds no `"` or `<`.
pub proof fn law_opf_identifier_reads_back(opf: Seq<char>, lang: Lang, base_id: Seq<char>)
    requires
        identifier_settable(with_language_and_title(opf, lang)),
        forall|k: int| 0 <= k < base_id.len() ==> #[trigger] base_id[k] != '"' && base_id[k] != '<',
    ensures
        uid_text(rewrite_opf_of(opf, lang, base_id)) == Some(trim(edition_id(base_id, lang))),
{
    lemma_identifier_tags();
    let id = edition_id(base_id, lang);
    let tb = trim(base_id);
    lemma_trim_within(base_id);
    assert forall|k: int| 0 <= k < id.len() implies #[trigger] id[k] != '"' && id[k] != '<' by {
        if k < tb.len() {
            let m = choose|m: int| 0 <= m < base_id.len() && #[trigger] tb[k] == base_id[m];
            assert(id[k] == tb[k]);
        }
    }
    lemma_missing_char(id, id_close(), 0);
    let t3 = set_identifier(with_language_and_title(opf, lang), id);
    law_identifier_set_reads_back(with_language_and_title(opf, lang), id);
    reveal_strlit("<dc:identifier id=\"uid\">");
    reveal_strlit("</dc:identifier>");
    reveal_strlit("content=\"horizontal-lr\"");
    reveal_strlit("content=\"vertical-rl\"");
    let open = uid_open();
    let p1 = "content=\"horizontal-lr\""@;
    let q1 = "content=\"vertical-rl\""@;
    assert(p1[8] == '"');
    lemma_missing_char(id, p1, 8);
    assert(open[3] != p1[3]);
    assert(!contains(open, p1)) by {
        lemma_contains(open, p1);
    }
    assert(!contains(id_close(), p1)) by {
        lemma_contains(id_close(), p1);
    }
    assert forall|k: int| 0 < k < open.len() implies #[trigger] misfit_before(open, q1, k) by {
        if k == 2 {
            assert(open[k + 1] != q1[1]);
        } else {
            assert(open[k + 0] != q1[0]);
        }
    }
    assert forall|m: int| 0 <= m < q1.len() implies #[trigger] misfit_inside(open, q1, m) by {
        assert(q1[m + 0] != open[0]);
    }
    lemma_replace_keeps_uid(t3, p1, q1);
    let t4 = replace_all(t3, p1, q1);
    if lang == Lang::Zh {
        reveal_strlit("title=\"目次\"");
        reveal_strlit("title=\"目录\"");
        reveal_strlit("title=\"奥付\"");
        reveal_strlit("title=\"版权页\"");
        let p2 = "title=\"目次\""@;
        let q2 = "title=\"目录\""@;
        let p3 = "title=\"奥付\""@;
        let q3 = "title=\"版权页\""@;
        assert(p2[6] == '"' && p3[6] == '"');
        lemma_missing_char(id, p2, 6);
        lemma_missing_char(id, p3, 6);
        assert(!contains(open, p2)) by {
            assert(p2[7] == '目');
            lemma_missing_char(open, p2, 7);
        }
        assert(!contains(id_close(), p2)) by {
            lemma_contains(id_close(), p2);
        }
        assert(!contains(open, p3)) by {
            assert(p3[7] == '奥');
            lemma_missing_char(open, p3, 7);
        }
        assert(!contains(id_close(), p3)) by {
            lemma_contains(id_close(), p3);
        }
        assert forall|k: int| 0 < k < open.len() implies #[trigger] misfit_before(open, q2, k) by {
            if k == 8 {
                assert(open[k + 2] != q2[2]);
            } else {
                assert(open[k + 0] != q2[0]);
            }
        }
        assert forall|m: int| 0 <= m < q2.len() implies #[trigger] misfit_inside(open, q2, m) by {
            assert(q2[m + 0] != open[0]);
        }
        assert forall|k: int| 0 < k < open.len() implies #[trigger] misfit_before(open, q3, k) by {
            if k == 8 {
                assert(open[k + 2] != q3[2]);
            } else {
                assert(open[k + 0] != q3[0]);
            }
        }
        assert forall|m: int| 0 <= m < q3.len() implies #[trigger] misfit_inside(open, q3, m) by {
            assert(q3[m + 0] != open[0]);
        }
        lemma_replace_keeps_uid(t4, p2, q2);
        lemma_replace_keeps_uid(replace_all(t4, p2, q2), p3, q3);
    }
}

/// Trimming keeps a last character that is not whitespace.
proof fn lemma_trim_keeps_last(s: Seq<char>)
    requires
        s.len() > 0,
        !is_ws(s[s.len() - 1]),
    ensures
        trim(s).len() > 0,
        trim(s)[trim(s).len() - 1] == s[s.len() - 1],
{
    lemma_lead_ws(s);
    assert(ws_end(s, s.len() as int) == s.len());
    if lead_ws(s) == s.len() {
        assert(is_ws(s[s.len() - 1]));
    }
}

/// The two editions' OPFs name different identifiers, so a reader's library
/// keeps them apart; under the same conditions as the read-back above.
pub proof fn law_opf_identifiers_differ(opf: Seq<char>, base_id: Seq<char>)
    requires
        identifier_settable(with_language_and_title(opf, Lang::Ja)),
        identifier_settable(with_language_and_title(opf, Lang::Zh)),
        forall|k: int| 0 <= k < base_id.len() ==> #[trigger] base_id[k] != '"' && base_id[k] != '<',
    ensures
        uid_text(rewrite_opf_of(opf, Lang::Ja, base_id)) != uid_text(rewrite_opf_of(opf, Lang::Zh, base_id)),
{
    law_opf_identifier_reads_back(opf, Lang::Ja, base_id);
    law_opf_identifier_reads_back(opf, Lang::Zh, base_id);
    let ja = edition_id(base_id, Lang::Ja);
    let zh = edition_id(base_id, Lang::Zh);
    assert(ja[ja.len() - 1] == 'a');
    assert(zh[zh.len() - 1] == 'h');
    lemma_trim_keeps_last(ja);
    lemma_trim_keeps_last(zh);
}

/// A literal's characters, which are not empty.
fn lit(s: &str) -> (r: Vec<char>)
    requires
        s@.len() > 0,
    ensures
        r@ == s@,
        r@.len() > 0,
{
    chars_of(s)
}

/// `uid_span` on characters.
fn uid_span_exec(doc: &Vec<char>) -> (r: Option<(usize, usize)>)
    ensures
        match r {
            Some((o, e)) => uid_span(doc@) == Some((o as int, e as int)) && o <= e <= doc@.len(),
            None => uid_span(doc@) is None,
        },
{
    let open = chars_of("<dc:identifier id=\"uid\">");
    let close = chars_of("</dc:identifier>");
    match find(doc, &open, 0) {
        None => None,
        Some(i) => {
            proof {
                lemma_find_from(doc@, open@, 0);
                assert(matches_at(doc@, open@, i as int));
                assert(i + open@.len() <= doc@.len());
            }
            assert(i + open.len() <= doc.len());
            let o = i + open.len();
            match find(doc, &close, o) {
                None => None,
                Some(e) => {
                    proof {
                        lemma_find_from(doc@, close@, o as int);
                    }
                    Some((o, e))
                },
            }
        },
    }
}

/// The book's identifier (the text of `<dc:identifier id="uid">`), trimmed,
/// on characters.
pub fn uid_text_chars(doc: &Vec<char>) -> (r: Option<Vec<char>>)
    ensures
        match r {
            Some(t) => uid_text(doc@) == Some(t@),
            None => uid_text(doc@) is None,
        },
{
    match uid_span_exec(doc) {
        None => None,
        Some((o, e)) => Some(trimmed(&slice(doc, o, e))),
    }
}

fn set_identifier_exec(doc: Vec<char>, id: &Vec<char>) -> (r: Vec<char>)
    ensures
        r@ == set_identifier(doc@, id@),
{
    match uid_span_exec(&doc) {
        Some((o, e)) => {
            let mut out = slice(&doc, 0, o);
            push_all(&mut out, id);
            push_range(&mut out, &doc, e, doc.len());
            out
        },
        None => {
            let end = chars_of("</metadata>");
            match find(&doc, &end, 0) {
                None => doc,
                Some(i) => {
                    proof {
                        lemma_find_from(doc@, end@, 0);
                    }
                    let mut out = slice(&doc, 0, i);
                    push_all(&mut out, &chars_of("<dc:identifier id=\"uid\">"));
                    push_all(&mut out, id);
                    push_all(&mut out, &chars_of("</dc:identifier>"));
                    push_range(&mut out, &doc, i, doc.len());
                    assert(out@ =~= doc@.subrange(0, i as int) + identifier_element(id@)
                        + doc@.subrange(i as int, doc@.len() as int));
                    out
                },
            }
        },
    }
}

fn translate_guide_exec(t: &Vec<char>) -> (r: Vec<char>)
    ensures
        r@ == translate_guide(t@),
{
    proof {
        reveal_strlit("title=\"目次\"");
        reveal_strlit("title=\"奥付\"");
    }
    let t1 = replace(t, &lit("title=\"目次\""), &chars_of("title=\"目录\""));
    replace(&t1, &lit("title=\"奥付\""), &chars_of("title=\"版权页\""))
}

/// `rewrite_opf` on characters.
pub fn rewrite_opf_chars(opf: &Vec<char>, lang: Lang, base_id: &Vec<char>) -> (r: Vec<char>)
    ensures
        r@ == rewrite_opf_of(opf@, lang, base_id@),
{
    let t = set_element_exec(slice(opf, 0, opf.len()), "dc:language", &chars_of(lang.dc_language()));
    proof {
        assert(opf@.subrange(0, opf@.len() as int) =~= opf@);
    }
    let t = set_element_exec(t, "dc:title", &chars_of(lang.book_title()));
    let mut id = trimmed(base_id);
    id.push('-');
    push_all(&mut id, &chars_of(lang.tag()));
    assert(id@ =~= edition_id(base_id@, lang));
    let t = set_identifier_exec(t, &id);
    proof {
        reveal_strlit("content=\"horizontal-lr\"");
    }
    let t = replace(&t, &lit("content=\"horizontal-lr\""), &chars_of("content=\"vertical-rl\""));
    match lang {
        Lang::Zh => translate_guide_exec(&t),
        Lang::Ja => t,
    }
}

/// Rewrites the OPF metadata for an edition: language, title, identifier,
/// writing mode, and the guide labels.
///
/// The book's identifier, `<dc:identifier id="uid">`, is set for the edition
/// (added before `</metadata>` when the source has none), so the two editions
/// get different identifiers (the base identifier with the language tag
/// appended); with the same one a reader's library would take them for one
/// book. Other `dc:identifier` elements, such as an ISBN, stay.
pub fn rewrite_opf(opf: &str, lang: Lang, base_id: &str) -> (r: String)
    ensures
        r@ == rewrite_opf_of(opf@, lang, base_id@),
{
    to_string(&rewrite_opf_chars(&chars_of(opf), lang, &chars_of(base_id)))
}

/// `content="horizontal-lr"`, the writing mode that contradicts the text.
pub open spec fn horizontal_mode() -> Seq<char> {
    "content=\"horizontal-lr\""@
}

/// No occurrence of `x` is left in a replacement of `x`, nor in a
/// replacement in a text without `x`.
proof fn lemma_none_left(s: Seq<char>, p: Seq<char>, q: Seq<char>, x: Seq<char>)
    requires
        p.len() > 0,
        x.len() > 0,
        no_overlap(x, q),
        p == x || !contains(s, x),
    ensures
        !contains(replace_all(s, p, q), x),
{
    if p != x {
        crate::text::lemma_contains(s, x);
    }
    lemma_replace_leaves_none(s, p, q, 0, x);
    crate::text::lemma_contains(replace_all(s, p, q), x);
}

/// The OPF of an edition never keeps the horizontal writing mode, which
/// contradicts the vertical text: it becomes `vertical-rl`.
pub proof fn law_opf_has_no_horizontal_mode(opf: Seq<char>, lang: Lang, base_id: Seq<char>)
    ensures
        !contains(rewrite_opf_of(opf, lang, base_id), horizontal_mode()),
{
    reveal_strlit("content=\"horizontal-lr\"");
    reveal_strlit("content=\"vertical-rl\"");
    reveal_strlit("title=\"目次\"");
    reveal_strlit("title=\"目录\"");
    reveal_strlit("title=\"奥付\"");
    reveal_strlit("title=\"版权页\"");
    let h = horizontal_mode();
    let v = "content=\"vertical-rl\""@;
    let g1 = "title=\"目录\""@;
    let g2 = "title=\"版权页\""@;
    assert(h.len() == 23 && v.len() == 21 && g1.len() == 10 && g2.len() == 11);
    assert forall|k: int| 0 < k < h.len() implies #[trigger] misfit_before(h, v, k) by {
        assert(h[k + 0] != v[0]);
    }
    assert forall|m: int| 0 <= m < v.len() implies #[trigger] misfit_inside(h, v, m) by {
        if m == 0 {
            assert(v[m + 9] != h[9]);
        } else if m == 14 {
            assert(v[m + 1] != h[1]);
        } else {
            assert(v[m + 0] != h[0]);
        }
    }
    assert forall|k: int| 0 < k < h.len() implies #[trigger] misfit_before(h, g1, k) by {
        if h[k] == g1[0] {
            assert(h[k + 1] != g1[1]);
        } else {
            assert(h[k + 0] != g1[0]);
        }
    }
    assert forall|m: int| 0 <= m < g1.len() implies #[trigger] misfit_inside(h, g1, m) by {
        assert(g1[m + 0] != h[0]);
    }
    assert forall|k: int| 0 < k < h.len() implies #[trigger] misfit_before(h, g2, k) by {
        if h[k] == g2[0] {
            assert(h[k + 1] != g2[1]);
        } else {
            assert(h[k + 0] != g2[0]);
        }
    }
    assert forall|m: int| 0 <= m < g2.len() implies #[trigger] misfit_inside(h, g2, m) by {
        assert(g2[m + 0] != h[0]);
    }
    let t = set_element(opf, "dc:language"@, lang.dc_language_view());
    let t = set_element(t, "dc:title"@, book_title_view(lang));
    let t = set_identifier(t, edition_id(base_id, lang));
    let t4 = replace_all(t, h, v);
    lemma_none_left(t, h, v, h);
    if lang == Lang::Zh {
        let t5 = replace_all(t4, "title=\"目次\""@, g1);
        lemma_none_left(t4, "title=\"目次\""@, g1, h);
        lemma_none_left(t5, "title=\"奥付\""@, g2, h);
    }
}

/// The Chinese edition's OPF keeps neither fixed Japanese guide label: every
/// `title="目次"` and `title="奥付"` becomes its Chinese label.
pub proof fn law_chinese_guide_labels_translated(opf: Seq<char>, base_id: Seq<char>)
    ensures
        !contains(rewrite_opf_of(opf, Lang::Zh, base_id), "title=\"目次\""@),
        !contains(rewrite_opf_of(opf, Lang::Zh, base_id), "title=\"奥付\""@),
{
    reveal_strlit("title=\"目次\"");
    reveal_strlit("title=\"目录\"");
    reveal_strlit("title=\"奥付\"");
    reveal_strlit("title=\"版权页\"");
    let p2 = "title=\"目次\""@;
    let q2 = "title=\"目录\""@;
    let p3 = "title=\"奥付\""@;
    let q3 = "title=\"版权页\""@;
    assert(p2.len() == 10 && q2.len() == 10 && p3.len() == 10 && q3.len() == 11);
    assert forall|k: int| 0 < k < p2.len() implies #[trigger] misfit_before(p2, q2, k) by {
        if k == 2 {
            assert(p2[k + 1] != q2[1]);
        } else {
            assert(p2[k + 0] != q2[0]);
        }
    }
    assert forall|m: int| 0 <= m < q2.len() implies #[trigger] misfit_inside(p2, q2, m) by {
        if m == 0 {
            assert(q2[m + 8] != p2[8]);
        } else if m == 2 {
            assert(q2[m + 1] != p2[1]);
        } else {
            assert(q2[m + 0] != p2[0]);
        }
    }
    assert forall|k: int| 0 < k < p3.len() implies #[trigger] misfit_before(p3, q3, k) by {
        if k == 2 {
            assert(p3[k + 1] != q3[1]);
        } else {
            assert(p3[k + 0] != q3[0]);
        }
    }
    assert forall|m: int| 0 <= m < q3.len() implies #[trigger] misfit_inside(p3, q3, m) by {
        if m == 0 {
            assert(q3[m + 7] != p3[7]);
        } else if m == 2 {
            assert(q3[m + 1] != p3[1]);
        } else {
            assert(q3[m + 0] != p3[0]);
        }
    }
    assert forall|k: int| 0 < k < p2.len() implies #[trigger] misfit_before(p2, q3, k) by {
        if k == 2 {
            assert(p2[k + 1] != q3[1]);
        } else {
            assert(p2[k + 0] != q3[0]);
        }
    }
    assert forall|m: int| 0 <= m < q3.len() implies #[trigger] misfit_inside(p2, q3, m) by {
        if m == 0 {
            assert(q3[m + 7] != p2[7]);
        } else if m == 2 {
            assert(q3[m + 1] != p2[1]);
        } else {
            assert(q3[m + 0] != p2[0]);
        }
    }
    let t3 = set_identifier(with_language_and_title(opf, Lang::Zh), edition_id(base_id, Lang::Zh));
    let t4 = replace_all(t3, "content=\"horizontal-lr\""@, "content=\"vertical-rl\""@);
    let t5 = replace_all(t4, p2, q2);
    lemma_none_left(t4, p2, q2, p2);
    lemma_none_left(t5, p3, q3, p3);
    lemma_none_left(t5, p3, q3, p2);
}

// ------------------------------------------------------------------ NCX

/// The two fixed Japanese navigation labels, in Chinese.
pub open spec fn translate_nav(t: Seq<char>) -> Seq<char> {
    replace_all(
        replace_all(t, "<text>目次</text>"@, "<text>目录</text>"@),
        "<text>奥付</text>"@,
        "<text>版权页</text>"@,
    )
}

/// The content of `<docTitle>` for an edition.
pub open spec fn doc_title(lang: Lang) -> Seq<char> {
    "\n<text>"@ + book_title_view(lang) + "</text>\n"@
}

/// The NCX of an edition: `xml:lang` relabelled, the navigation labels
/// translated for Chinese, and then the title set.
pub open spec fn rewrite_ncx_of(ncx: Seq<char>, lang: Lang) -> Seq<char> {
    set_element(ncx_labelled(ncx, lang), "docTitle"@, doc_title(lang))
}

/// The NCX with `xml:lang` relabelled and, for Chinese, the navigation
/// labels translated: everything but the title.
pub open spec fn ncx_labelled(ncx: Seq<char>, lang: Lang) -> Seq<char> {
    let t = relabel(ncx, lang);
    if lang == Lang::Zh {
        translate_nav(t)
    } else {
        t
    }
}

/// The NCX of every edition names that edition's book: the text of its
/// `docTitle` is `<text>` with the edition's title. This holds when the NCX
/// has a `docTitle` element (once its labels are rewritten).
pub proof fn law_ncx_names_the_edition(ncx: Seq<char>, lang: Lang)
    requires
        crate::markup::element_span(ncx_labelled(ncx, lang), "docTitle"@) is Some,
    ensures
        crate::markup::element_text_of(rewrite_ncx_of(ncx, lang), "docTitle"@) == Some(
            "<text>"@ + book_title_view(lang) + "</text>"@,
        ),
{
    reveal_strlit("docTitle");
    reveal_strlit("\n<text>");
    reveal_strlit("</text>\n");
    reveal_strlit("<text>");
    reveal_strlit("</text>");
    reveal_strlit("カイブツ×カノジョ (講談社ラノベ文庫)");
    reveal_strlit("凯物×女友");
    let tag = "docTitle"@;
    let d = doc_title(lang);
    let c = crate::markup::close_tag(tag);
    assert forall|k: int| 0 <= k < tag.len() implies tag[k] != '<' by {}
    assert(c[5] == 'T');
    assert forall|k: int| 0 <= k < d.len() implies #[trigger] d[k] != c[5] by {}
    lemma_missing_char(d, c, 5);
    crate::markup::law_element_reads_back(ncx_labelled(ncx, lang), tag, d);
    let n = d.len() as int;
    assert(is_ws(d[0]));
    assert(!is_ws(d[1]));
    crate::text::lemma_lead_ws_is(d, 1);
    assert(is_ws(d[n - 1]));
    assert(!is_ws(d[n - 2]));
    assert(ws_end(d, n - 1) == n - 1);
    assert(ws_end(d, n) == n - 1);
    assert(trim(d) =~= "<text>"@ + book_title_view(lang) + "</text>"@);
}

/// A text without a pattern, with a middle whose first and last characters
/// the pattern does not hold, makes no occurrence across its joins.
proof fn lemma_join_free(a: Seq<char>, m: Seq<char>, b: Seq<char>, x: Seq<char>)
    requires
        x.len() > 0,
        m.len() > 0,
        !contains(a, x),
        !contains(m, x),
        !contains(b, x),
        forall|k: int| 0 <= k < x.len() ==> #[trigger] x[k] != m[0] && x[k] != m[m.len() - 1],
    ensures
        !contains(a + m + b, x),
{
    let t = a + m + b;
    let la = a.len() as int;
    let lm = m.len() as int;
    lemma_contains(t, x);
    lemma_contains(a, x);
    lemma_contains(m, x);
    lemma_contains(b, x);
    if contains(t, x) {
        let j = choose|j: int| matches_at(t, x, j);
        assert(t.subrange(j, j + x.len()) == x);
        if j + x.len() <= la {
            assert forall|y: int| j <= y < j + x.len() implies #[trigger] t[y] == a[y + 0] by {}
            lemma_matches_at_local(t, a, x, j, 0);
        } else if j < la {
            assert(t.subrange(j, j + x.len())[la - j] == t[la]);
            assert(t[la] == m[0]);
        } else if j + x.len() <= la + lm {
            assert forall|y: int| j <= y < j + x.len() implies #[trigger] t[y] == m[y + (-la)] by {}
            lemma_matches_at_local(t, m, x, j, -la);
        } else if j < la + lm {
            assert(t.subrange(j, j + x.len())[la + lm - 1 - j] == t[la + lm - 1]);
            assert(t[la + lm - 1] == m[lm - 1]);
        } else {
            assert forall|y: int| j <= y < j + x.len() implies #[trigger] t[y] == b[y + (-la - lm)] by {}
            lemma_matches_at_local(t, b, x, j, -la - lm);
        }
    }
}

/// A part of a text without a pattern holds none either.
proof fn lemma_part_free(t: Seq<char>, i: int, k: int, x: Seq<char>)
    requires
        0 <= i <= k <= t.len(),
        !contains(t, x),
    ensures
        !contains(t.subrange(i, k), x),
{
    let u = t.subrange(i, k);
    lemma_contains(t, x);
    lemma_contains(u, x);
    if contains(u, x) {
        let j = choose|j: int| matches_at(u, x, j);
        assert forall|y: int| j <= y < j + x.len() implies #[trigger] u[y] == t[y + i] by {}
        lemma_matches_at_local(u, t, x, j, i);
    }
}

/// The NCX of every edition declares that edition's language only: no
/// `xml:lang` of the other language is left.
pub proof fn law_ncx_declares_its_language(ncx: Seq<char>, lang: Lang)
    ensures
        !contains(rewrite_ncx_of(ncx, lang), lang_attr(lang.other())),
{
    let x = lang_attr(lang.other());
    let y = lang_attr(lang);
    assert(x.len() > 10 && y.len() > 10);
    assert(x[10] != y[10]);
    assert forall|k: int| 0 < k < x.len() implies #[trigger] misfit_before(x, y, k) by {
        assert(x[k + 0] != y[0]);
    }
    assert forall|m: int| 0 <= m < y.len() implies #[trigger] misfit_inside(x, y, m) by {
        if m == 0 {
            assert(y[m + 10] != x[10]);
        } else {
            assert(y[m + 0] != x[0]);
        }
    }
    let t = relabel(ncx, lang);
    lemma_none_left(ncx, x, y, x);
    let t2 = ncx_labelled(ncx, lang);
    if lang == Lang::Zh {
        reveal_strlit("<text>目次</text>");
        reveal_strlit("<text>目录</text>");
        reveal_strlit("<text>奥付</text>");
        reveal_strlit("<text>版权页</text>");
        let q1 = "<text>目录</text>"@;
        let q2 = "<text>版权页</text>"@;
        assert forall|k: int| 0 < k < x.len() implies #[trigger] misfit_before(x, q1, k) by {
            assert(x[k + 0] != q1[0]);
        }
        assert forall|m: int| 0 <= m < q1.len() implies #[trigger] misfit_inside(x, q1, m) by {
            if q1[m] == x[0] {
                assert(q1[m + 1] != x[1]);
            } else {
                assert(q1[m + 0] != x[0]);
            }
        }
        assert forall|k: int| 0 < k < x.len() implies #[trigger] misfit_before(x, q2, k) by {
            assert(x[k + 0] != q2[0]);
        }
        assert forall|m: int| 0 <= m < q2.len() implies #[trigger] misfit_inside(x, q2, m) by {
            if q2[m] == x[0] {
                assert(q2[m + 1] != x[1]);
            } else {
                assert(q2[m + 0] != x[0]);
            }
        }
        let t1 = replace_all(t, "<text>目次</text>"@, q1);
        lemma_none_left(t, "<text>目次</text>"@, q1, x);
        lemma_none_left(t1, "<text>奥付</text>"@, q2, x);
    }
    reveal_strlit("\n<text>");
    reveal_strlit("</text>\n");
    reveal_strlit("カイブツ×カノジョ (講談社ラノベ文庫)");
    reveal_strlit("凯物×女友");
    let d = doc_title(lang);
    assert(x[1] == 'm');
    assert forall|k: int| 0 <= k < d.len() implies #[trigger] d[k] != x[1] by {}
    lemma_missing_char(d, x, 1);
    match crate::markup::element_span(t2, "docTitle"@) {
        None => {},
        Some((o, e)) => {
            crate::markup::lemma_element_span(t2, "docTitle"@);
            lemma_part_free(t2, 0, o, x);
            lemma_part_free(t2, e, t2.len() as int, x);
            assert(d[0] == '\n' && d[d.len() - 1] == '\n');
            lemma_join_free(t2.subrange(0, o), d, t2.subrange(e, t2.len() as int), x);
        },
    }
}

fn translate_nav_exec(t: &Vec<char>) -> (r: Vec<char>)
    ensures
        r@ == translate_nav(t@),
{
    proof {
        reveal_strlit("<text>目次</text>");
        reveal_strlit("<text>奥付</text>");
    }
    let t1 = replace(t, &lit("<text>目次</text>"), &chars_of("<text>目录</text>"));
    replace(&t1, &lit("<text>奥付</text>"), &chars_of("<text>版权页</text>"))
}

/// `rewrite_ncx` on characters.
pub fn rewrite_ncx_chars(ncx: &Vec<char>, lang: Lang) -> (r: Vec<char>)
    ensures
        r@ == rewrite_ncx_of(ncx@, lang),
{
    let t = relabel_exec(ncx, lang);
    let t = match lang {
        Lang::Zh => translate_nav_exec(&t),
        Lang::Ja => t,
    };
    let mut title = chars_of("\n<text>");
    push_all(&mut title, &chars_of(lang.book_title()));
    push_all(&mut title, &chars_of("</text>\n"));
    assert(title@ =~= doc_title(lang));
    set_element_exec(t, "docTitle", &title)
}

/// Rewrites the NCX for an edition: language, navigation labels, title.
///
/// The title is set last, so that the label translation never sees it.
pub fn rewrite_ncx(ncx: &str, lang: Lang) -> (r: String)
    ensures
        r@ == rewrite_ncx_of(ncx@, lang),
{
    to_string(&rewrite_ncx_chars(&chars_of(ncx), lang))
}

} // verus!
