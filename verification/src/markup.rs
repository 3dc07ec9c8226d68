//! XHTML fragment layer: cuts a document into `<p>` elements and the text
//! between them, recognises and removes the fading style, and reads or
//! replaces the text of an element.
//!
//! This layer knows nothing of languages, only of markup.
use vstd::prelude::*;

use crate::number::{below_one, float_below_one};
use crate::text::{
    chars_of, contains, find, find_from, first_match, has, is_whitespace, is_ws, lemma_find_from,
    lemma_first_match, lemma_first_match_is, lemma_first_match_skip, matches_at, matches_here,
    slice, to_string, trim, trimmed, matches_at_ci, matches_here_ci, eq_ignore_case,
    equal_ignore_case, trim_end, trimmed_end, push_all, push_range, concat, lemma_contains,
    lemma_find_from_is, lemma_matches_at_local,
};

verus! {

// ------------------------------------------------------------------ patterns

pub open spec fn p_open_pat() -> Seq<char> {
    seq!['<', 'p']
}

pub open spec fn p_close_pat() -> Seq<char> {
    seq!['<', '/', 'p', '>']
}

pub open spec fn gt_pat() -> Seq<char> {
    seq!['>']
}

pub open spec fn style_pat() -> Seq<char> {
    seq!['s', 't', 'y', 'l', 'e', '=']
}

pub open spec fn opacity_word() -> Seq<char> {
    seq!['o', 'p', 'a', 'c', 'i', 't', 'y']
}

pub open spec fn img_pat() -> Seq<char> {
    seq!['<', 'i', 'm', 'g']
}

pub open spec fn br_spaced() -> Seq<char> {
    seq!['<', 'b', 'r', ' ', '/', '>']
}

pub open spec fn br_tight() -> Seq<char> {
    seq!['<', 'b', 'r', '/', '>']
}

// ------------------------------------------------------------------ segments

/// A piece of an XHTML document.
pub enum Segment {
    /// Everything that is not a `<p>` element, kept verbatim.
    Raw(String),
    /// A complete `<p>` element, as its open tag and its content.
    Para { open: String, inner: String },
}

/// The model of a `Segment`.
pub enum SegmentView {
    Raw(Seq<char>),
    Para { open: Seq<char>, inner: Seq<char> },
}

impl View for Segment {
    type V = SegmentView;

    open spec fn view(&self) -> SegmentView {
        match self {
            Segment::Raw(t) => SegmentView::Raw(t@),
            Segment::Para { open, inner } => SegmentView::Para { open: open@, inner: inner@ },
        }
    }
}

/// The models of a sequence of segments.
pub open spec fn seg_views(v: Seq<Segment>) -> Seq<SegmentView> {
    v.map_values(|x: Segment| x@)
}

/// A paragraph starts at `i`: `<p` followed by `>` or whitespace (so `<pre>`
/// is not one).
pub open spec fn para_start_at(s: Seq<char>, i: int) -> bool {
    matches_at(s, p_open_pat(), i) && i + 2 < s.len() && (s[i + 2] == '>' || is_ws(s[i + 2]))
}

pub open spec fn para_pred(s: Seq<char>) -> spec_fn(int) -> bool {
    |i: int| para_start_at(s, i)
}

/// The first paragraph start at or after `from`.
pub open spec fn next_para(s: Seq<char>, from: int) -> Option<int> {
    first_match(para_pred(s), from, s.len() as int)
}

/// The segments of `s[cursor..]`: text up to the next paragraph start, the
/// paragraph (open tag up to the first `>`, content up to the first `</p>`),
/// and so on. When no complete paragraph follows, the rest is one raw segment.
pub open spec fn tokenize_from(s: Seq<char>, cursor: int) -> Seq<SegmentView>
    decreases s.len() - cursor,
{
    if cursor < 0 || cursor > s.len() {
        Seq::empty()
    } else {
        let rest = seq![SegmentView::Raw(s.subrange(cursor, s.len() as int))];
        match next_para(s, cursor) {
            None => rest,
            Some(start) => match find_from(s, gt_pat(), start + 2) {
                None => rest,
                Some(gt) => match find_from(s, p_close_pat(), gt + 1) {
                    None => rest,
                    Some(close) => {
                        proof {
                            lemma_first_match(para_pred(s), cursor, s.len() as int);
                            lemma_find_from(s, gt_pat(), start + 2);
                            lemma_find_from(s, p_close_pat(), gt + 1);
                        }
                        seq![
                            SegmentView::Raw(s.subrange(cursor, start)),
                            SegmentView::Para {
                                open: s.subrange(start, gt + 1),
                                inner: s.subrange(gt + 1, close),
                            },
                        ] + tokenize_from(s, close + 4)
                    },
                },
            },
        }
    }
}

/// The segments of a whole document.
pub open spec fn tokens(s: Seq<char>) -> Seq<SegmentView> {
    tokenize_from(s, 0)
}

/// The text a segment stands for.
pub open spec fn render_one(seg: SegmentView) -> Seq<char> {
    match seg {
        SegmentView::Raw(t) => t,
        SegmentView::Para { open, inner } => open + inner + p_close_pat(),
    }
}

/// The text a sequence of segments stands for.
pub open spec fn render(segs: Seq<SegmentView>) -> Seq<char>
    decreases segs.len(),
{
    if segs.len() == 0 {
        Seq::empty()
    } else {
        render_one(segs[0]) + render(segs.drop_first())
    }
}

/// The open tag of a paragraph: `<p`, then `>` or whitespace, and a single
/// `>`, at its end.
pub open spec fn para_open_shape(open: Seq<char>) -> bool {
    &&& open.len() >= 3
    &&& open[0] == '<' && open[1] == 'p'
    &&& open[2] == '>' || is_ws(open[2])
    &&& open.last() == '>'
    &&& forall|k: int| 0 <= k < open.len() - 1 ==> open[k] != '>'
}

/// Segments as `tokenize` makes them: raw text and paragraphs alternate,
/// starting and ending with raw text; each paragraph has the open tag of a
/// paragraph and content without `</p>`.
pub open spec fn alternating(segs: Seq<SegmentView>) -> bool {
    &&& segs.len() % 2 == 1
    &&& forall|i: int| 0 <= i < segs.len() ==> ((#[trigger] segs[i]) is Raw <==> i % 2 == 0)
    &&& forall|i: int|
        0 <= i < segs.len() ==> (#[trigger] segs[i] matches SegmentView::Para { open, inner }
            ==> para_open_shape(open) && !contains(inner, p_close_pat()))
}

proof fn lemma_tokenize_alternates(s: Seq<char>, cursor: int)
    requires
        0 <= cursor <= s.len(),
    ensures
        alternating(tokenize_from(s, cursor)),
    decreases s.len() - cursor,
{
    let t = tokenize_from(s, cursor);
    let rest = seq![SegmentView::Raw(s.subrange(cursor, s.len() as int))];
    lemma_first_match(para_pred(s), cursor, s.len() as int);
    if let Some(start) = next_para(s, cursor) {
        lemma_find_from(s, gt_pat(), start + 2);
        if let Some(gt) = find_from(s, gt_pat(), start + 2) {
            lemma_find_from(s, p_close_pat(), gt + 1);
            if let Some(close) = find_from(s, p_close_pat(), gt + 1) {
                assert(para_pred(s)(start));
                lemma_tokenize_alternates(s, close + 4);
                let tail = tokenize_from(s, close + 4);
                let open = s.subrange(start, gt + 1);
                let inner = s.subrange(gt + 1, close);
                let head = seq![SegmentView::Raw(s.subrange(cursor, start)), SegmentView::Para { open, inner }];
                assert(t == head + tail);
                assert(s.subrange(start, start + 2)[0] == s[start]);
                assert(s.subrange(start, start + 2)[1] == s[start + 1]);
                assert forall|k: int| 0 <= k < open.len() - 1 implies open[k] != '>' by {
                    if k >= 2 {
                        assert(!matches_at(s, gt_pat(), start + k));
                        if s[start + k] == '>' {
                            assert(s.subrange(start + k, start + k + 1) =~= gt_pat());
                        }
                    }
                }
                assert(matches_at(s, gt_pat(), gt));
                assert(s.subrange(gt, gt + 1)[0] == s[gt]);
                assert(para_open_shape(open));
                if contains(inner, p_close_pat()) {
                    crate::text::lemma_contains(inner, p_close_pat());
                    let j = choose|j: int| matches_at(inner, p_close_pat(), j);
                    assert forall|k: int| j <= k < j + 4 implies #[trigger] inner[k] == s[k + gt + 1] by {}
                    lemma_matches_at_local(inner, s, p_close_pat(), j, gt + 1);
                    assert(false);
                }
                assert forall|i: int| 0 <= i < t.len() implies ((#[trigger] t[i]) is Raw <==> i % 2 == 0) by {
                    if i >= 2 {
                        assert(t[i] == tail[i - 2]);
                    }
                }
                assert forall|i: int| 0 <= i < t.len() implies (#[trigger] t[i] matches SegmentView::Para { open, inner }
                    ==> para_open_shape(open) && !contains(inner, p_close_pat())) by {
                    if i >= 2 {
                        assert(t[i] == tail[i - 2]);
                    }
                }
            } else {
                assert(t == rest);
            }
        } else {
            assert(t == rest);
        }
    } else {
        assert(t == rest);
    }
}

/// `tokenize` alternates raw text and paragraphs, starting and ending with
/// raw text, and each paragraph it cuts out has a paragraph's open tag and
/// no `</p>` inside.
pub proof fn law_tokenize_alternates(s: Seq<char>)
    ensures
        alternating(tokens(s)),
{
    lemma_tokenize_alternates(s, 0);
}

/// The number of paragraphs among the segments.
pub open spec fn para_count(segs: Seq<SegmentView>) -> nat
    decreases segs.len(),
{
    if segs.len() == 0 {
        0
    } else {
        (if segs.last() is Para {
            1nat
        } else {
            0nat
        }) + para_count(segs.drop_last())
    }
}

proof fn lemma_render_concat(a: Seq<SegmentView>, b: Seq<SegmentView>)
    ensures
        render(a + b) == render(a) + render(b),
    decreases a.len(),
{
    if a.len() == 0 {
        assert(a + b =~= b);
    } else {
        assert((a + b).drop_first() =~= a.drop_first() + b);
        lemma_render_concat(a.drop_first(), b);
        assert(render(a) + render(b) =~= render_one(a[0]) + (render(a.drop_first()) + render(b)));
    }
}

/// Tokenizing loses nothing: the segments render back to the text.
proof fn lemma_tokenize_renders(s: Seq<char>, cursor: int)
    requires
        0 <= cursor <= s.len(),
    ensures
        render(tokenize_from(s, cursor)) == s.subrange(cursor, s.len() as int),
    decreases s.len() - cursor,
{
    let whole = s.subrange(cursor, s.len() as int);
    let rest = seq![SegmentView::Raw(whole)];
    assert(render(rest) =~= whole) by {
        assert(rest.drop_first() =~= Seq::<SegmentView>::empty());
        reveal_with_fuel(render, 2);
    }
    match next_para(s, cursor) {
        None => {},
        Some(start) => match find_from(s, gt_pat(), start + 2) {
            None => {},
            Some(gt) => match find_from(s, p_close_pat(), gt + 1) {
                None => {},
                Some(close) => {
                    lemma_first_match(para_pred(s), cursor, s.len() as int);
                    lemma_find_from(s, gt_pat(), start + 2);
                    lemma_find_from(s, p_close_pat(), gt + 1);
                    lemma_tokenize_renders(s, close + 4);
                    let head = seq![
                        SegmentView::Raw(s.subrange(cursor, start)),
                        SegmentView::Para {
                            open: s.subrange(start, gt + 1),
                            inner: s.subrange(gt + 1, close),
                        },
                    ];
                    lemma_render_concat(head, tokenize_from(s, close + 4));
                    assert(head.drop_first().drop_first() =~= Seq::<SegmentView>::empty());
                    assert(render(head) == render_one(head[0]) + render_one(head[1])) by {
                        reveal_with_fuel(render, 3);
                        assert(head.drop_first()[0] == head[1]);
                        assert(render(head.drop_first()) =~= render_one(head[1]));
                    }
                    assert(s.subrange(close, close + 4) == p_close_pat());
                    assert(render(head) + render(tokenize_from(s, close + 4)) =~= whole);
                },
            },
        },
    }
}

/// Cutting a document into segments and putting them back together gives the
/// document again.
pub proof fn law_tokenize_is_lossless(s: Seq<char>)
    ensures
        render(tokens(s)) == s,
{
    lemma_tokenize_renders(s, 0);
    assert(s.subrange(0, s.len() as int) =~= s);
}

proof fn lemma_para_count_concat(a: Seq<SegmentView>, b: Seq<SegmentView>)
    ensures
        para_count(a + b) == para_count(a) + para_count(b),
    decreases b.len(),
{
    if b.len() == 0 {
        assert(a + b =~= a);
    } else {
        assert((a + b).drop_last() =~= a + b.drop_last());
        lemma_para_count_concat(a, b.drop_last());
    }
}

/// A text has fewer paragraphs than characters.
pub proof fn lemma_para_count_bound(s: Seq<char>, cursor: int)
    requires
        0 <= cursor <= s.len(),
    ensures
        para_count(tokenize_from(s, cursor)) <= s.len() - cursor,
    decreases s.len() - cursor,
{
    let rest = seq![SegmentView::Raw(s.subrange(cursor, s.len() as int))];
    assert(para_count(rest) == 0) by {
        assert(rest.drop_last() =~= Seq::<SegmentView>::empty());
        reveal_with_fuel(para_count, 2);
    }
    match next_para(s, cursor) {
        None => {},
        Some(start) => match find_from(s, gt_pat(), start + 2) {
            None => {},
            Some(gt) => match find_from(s, p_close_pat(), gt + 1) {
                None => {},
                Some(close) => {
                    lemma_first_match(para_pred(s), cursor, s.len() as int);
                    lemma_find_from(s, gt_pat(), start + 2);
                    lemma_find_from(s, p_close_pat(), gt + 1);
                    lemma_para_count_bound(s, close + 4);
                    let head = seq![
                        SegmentView::Raw(s.subrange(cursor, start)),
                        SegmentView::Para {
                            open: s.subrange(start, gt + 1),
                            inner: s.subrange(gt + 1, close),
                        },
                    ];
                    assert(para_count(head) == 1) by {
                        assert(head.drop_last().drop_last() =~= Seq::<SegmentView>::empty());
                        reveal_with_fuel(para_count, 3);
                    }
                    lemma_para_count_concat(head, tokenize_from(s, close + 4));
                },
            },
        },
    }
}

/// A paragraph starts at `i`.
fn para_start_here(s: &Vec<char>, i: usize) -> (r: bool)
    ensures
        r == para_start_at(s@, i as int),
{
    let p = vec!['<', 'p'];
    assert(p@ =~= p_open_pat());
    assert(p@.len() == 2);
    if i >= s.len() || s.len() - i <= 2 {
        return false;
    }
    if !matches_here(s, &p, i) {
        return false;
    }
    s[i + 2] == '>' || is_whitespace(s[i + 2])
}

/// The first paragraph start at or after `from`.
fn next_para_exec(s: &Vec<char>, from: usize) -> (r: Option<usize>)
    requires
        from <= s.len(),
    ensures
        match r {
            Some(k) => next_para(s@, from as int) == Some(k as int),
            None => next_para(s@, from as int) is None,
        },
{
    let ghost p = para_pred(s@);
    let mut i = from;
    while i < s.len()
        invariant
            from <= i <= s.len(),
            p == para_pred(s@),
            forall|j: int| from <= j < i ==> !#[trigger] p(j),
        decreases s.len() - i,
    {
        if para_start_here(s, i) {
            proof {
                lemma_first_match_is(p, from as int, i as int, s@.len() as int);
            }
            return Some(i);
        }
        i += 1;
    }
    proof {
        lemma_first_match_skip(p, from as int, i as int, s@.len() as int);
        lemma_first_match(p, i as int, s@.len() as int);
    }
    None
}

/// Cuts a document into alternating `Raw` and `Para` segments.
///
/// `<p>` cannot nest, so the first `</p>` after an open tag closes it. A
/// paragraph that is never closed (a damaged file) ends the cutting, and the
/// rest of the document stays one `Raw` segment.
pub fn tokenize(doc: &str) -> (res: Vec<Segment>)
    ensures
        seg_views(res@) == tokens(doc@),
{
    let s = chars_of(doc);
    tokenize_chars(&s)
}

/// `tokenize` on the characters of a document.
pub fn tokenize_chars(s: &Vec<char>) -> (res: Vec<Segment>)
    ensures
        seg_views(res@) == tokens(s@),
{
    let gt = vec!['>'];
    let close = vec!['<', '/', 'p', '>'];
    assert(gt@ =~= gt_pat());
    assert(close@ =~= p_close_pat());
    let mut segs: Vec<Segment> = Vec::new();
    let mut cursor: usize = 0;
    loop
        invariant
            cursor <= s.len(),
            gt@ == gt_pat(),
            close@ == p_close_pat(),
            seg_views(segs@) + tokenize_from(s@, cursor as int) == tokens(s@),
        decreases s.len() - cursor,
    {
        let ghost before = segs@;
        let tail = Segment::Raw(to_string(&slice(s, cursor, s.len())));
        let start = match next_para_exec(s, cursor) {
            Some(start) => start,
            None => {
                segs.push(tail);
                assert(seg_views(segs@) =~= seg_views(before) + tokenize_from(s@, cursor as int));
                return segs;
            },
        };
        proof {
            lemma_first_match(para_pred(s@), cursor as int, s@.len() as int);
        }
        let g = match find(s, &gt, start + 2) {
            Some(g) => g,
            None => {
                segs.push(tail);
                assert(seg_views(segs@) =~= seg_views(before) + tokenize_from(s@, cursor as int));
                return segs;
            },
        };
        proof {
            lemma_find_from(s@, gt@, start + 2);
        }
        let c = match find(s, &close, g + 1) {
            Some(c) => c,
            None => {
                segs.push(tail);
                assert(seg_views(segs@) =~= seg_views(before) + tokenize_from(s@, cursor as int));
                return segs;
            },
        };
        proof {
            lemma_find_from(s@, close@, g + 1);
        }
        segs.push(Segment::Raw(to_string(&slice(s, cursor, start))));
        segs.push(
            Segment::Para {
                open: to_string(&slice(s, start, g + 1)),
                inner: to_string(&slice(s, g + 1, c)),
            },
        );
        proof {
            let head = seq![
                SegmentView::Raw(s@.subrange(cursor as int, start as int)),
                SegmentView::Para {
                    open: s@.subrange(start as int, g + 1),
                    inner: s@.subrange(g + 1, c as int),
                },
            ];
            assert(seg_views(segs@) =~= seg_views(before) + head);
            assert(tokenize_from(s@, cursor as int) == head + tokenize_from(s@, c + 4));
            assert(seg_views(segs@) + tokenize_from(s@, c + 4) =~= seg_views(before)
                + tokenize_from(s@, cursor as int));
        }
        cursor = c + 4;
    }
}

// ------------------------------------------------------------------ neutral paragraphs

/// The content of a paragraph belongs to no language: an image, a blank line,
/// or nothing.
pub open spec fn neutral(inner: Seq<char>) -> bool {
    let t = trim(inner);
    contains(t, img_pat()) || t.len() == 0 || t == br_spaced() || t == br_tight()
}

/// `neutral` on characters.
pub fn is_neutral_chars(inner: &Vec<char>) -> (r: bool)
    ensures
        r == neutral(inner@),
{
    let t = trimmed(inner);
    let img = vec!['<', 'i', 'm', 'g'];
    let br1 = vec!['<', 'b', 'r', ' ', '/', '>'];
    let br2 = vec!['<', 'b', 'r', '/', '>'];
    assert(img@ =~= img_pat());
    assert(br1@ =~= br_spaced());
    assert(br2@ =~= br_tight());
    let r = has(&t, &img) || t.len() == 0 || (t.len() == 6 && matches_here(&t, &br1, 0)) || (
    t.len() == 5 && matches_here(&t, &br2, 0));
    proof {
        if t@.len() == 6 && matches_at(t@, br1@, 0) {
            assert(t@ =~= t@.subrange(0, 6));
        }
        if t@.len() == 5 && matches_at(t@, br2@, 0) {
            assert(t@ =~= t@.subrange(0, 5));
        }
        if t@ == br1@ {
            assert(t@.subrange(0, 6) =~= t@);
        }
        if t@ == br2@ {
            assert(t@.subrange(0, 5) =~= t@);
        }
    }
    r
}

/// Whether the content of a paragraph belongs to no language.
///
/// Image pages (`<p><img …/></p>`) and blank lines (`<p><br /></p>`) are kept
/// in both books; dropping them would break the rhythm of the pages.
pub fn is_neutral_para(inner: &str) -> (r: bool)
    ensures
        r == neutral(inner@),
{
    let v = chars_of(inner);
    is_neutral_chars(&v)
}

// ------------------------------------------------------------------ fading style

/// A `style=` attribute (any ASCII case) with an opening quote starts at `i`.
pub open spec fn style_attr_at(s: Seq<char>, i: int) -> bool {
    matches_at_ci(s, style_pat(), i) && i + 7 <= s.len() && (s[i + 6] == '"' || s[i + 6] == '\'')
}

pub open spec fn style_pred(s: Seq<char>) -> spec_fn(int) -> bool {
    |i: int| style_attr_at(s, i)
}

/// The first `style="…"` (or `style='…'`) attribute of an open tag, as the
/// index where `style=` starts and the index of the closing quote.
pub open spec fn style_attr(s: Seq<char>) -> Option<(int, int)> {
    match first_match(style_pred(s), 0, s.len() as int) {
        None => None,
        Some(i) => match find_from(s, seq![s[i + 6]], i + 7) {
            None => None,
            Some(e) => Some((i, e)),
        },
    }
}

/// The pieces of `s[pos..]` between the separators `c` (`str::split`).
pub open spec fn split_from(s: Seq<char>, c: char, pos: int) -> Seq<Seq<char>>
    decreases s.len() - pos,
{
    if pos < 0 || pos > s.len() {
        Seq::empty()
    } else {
        match find_from(s, seq![c], pos) {
            None => seq![s.subrange(pos, s.len() as int)],
            Some(k) => {
                proof {
                    lemma_find_from(s, seq![c], pos);
                }
                seq![s.subrange(pos, k)] + split_from(s, c, k + 1)
            },
        }
    }
}

/// The pieces of `s` between the separators `c` (`str::split`).
pub open spec fn split_on(s: Seq<char>, c: char) -> Seq<Seq<char>> {
    split_from(s, c, 0)
}

/// The part of `v` before its first `!` (`v.split('!').next()`).
pub open spec fn before_bang(v: Seq<char>) -> Seq<char> {
    match find_from(v, seq!['!'], 0) {
        None => v,
        Some(j) => v.subrange(0, j),
    }
}

/// A CSS declaration fades the text: its property is `opacity` (any ASCII
/// case) and its value, up to a `!`, is a number below one.
pub open spec fn is_fading_decl(d: Seq<char>) -> bool {
    match find_from(d, seq![':'], 0) {
        None => false,
        Some(k) => eq_ignore_case(trim(d.subrange(0, k)), opacity_word()) && float_below_one(
            trim(before_bang(d.subrange(k + 1, d.len() as int))),
        ),
    }
}

/// One of the declarations fades the text.
pub open spec fn any_fading(ds: Seq<Seq<char>>) -> bool {
    exists|j: int| 0 <= j < ds.len() && #[trigger] is_fading_decl(ds[j])
}

/// The declarations of the `style` attribute of an open tag.
pub open spec fn style_decls(open: Seq<char>, a: int, e: int) -> Seq<Seq<char>> {
    split_on(open.subrange(a + 7, e), ';')
}

/// The open tag carries the fading style.
pub open spec fn fading(open: Seq<char>) -> bool {
    match style_attr(open) {
        None => false,
        Some((a, e)) => any_fading(style_decls(open, a, e)),
    }
}

/// The declarations that stay when the fading ones are removed, trimmed.
pub open spec fn kept_decls(ds: Seq<Seq<char>>) -> Seq<Seq<char>>
    decreases ds.len(),
{
    if ds.len() == 0 {
        Seq::empty()
    } else {
        let rest = kept_decls(ds.drop_last());
        let t = trim(ds.last());
        if t.len() > 0 && !is_fading_decl(t) {
            rest.push(t)
        } else {
            rest
        }
    }
}

/// The pieces joined with `sep` between them (`[&str]::join`).
pub open spec fn join(ds: Seq<Seq<char>>, sep: Seq<char>) -> Seq<char>
    decreases ds.len(),
{
    if ds.len() == 0 {
        Seq::empty()
    } else if ds.len() == 1 {
        ds[0]
    } else {
        join(ds.drop_last(), sep) + sep + ds.last()
    }
}

pub open spec fn decl_sep() -> Seq<char> {
    seq![';', ' ']
}

/// The open tag without its fading declarations. When nothing else is left
/// in the `style` attribute the attribute goes, together with the whitespace
/// before it; otherwise only its value changes. A tag without a fading
/// declaration stays as it is.
pub open spec fn strip_fading(open: Seq<char>) -> Seq<char> {
    match style_attr(open) {
        None => open,
        Some((a, e)) => {
            let ds = style_decls(open, a, e);
            if !any_fading(ds) {
                open
            } else if kept_decls(ds).len() == 0 {
                trim_end(open.subrange(0, a)) + open.subrange(e + 1, open.len() as int)
            } else {
                open.subrange(0, a + 7) + join(kept_decls(ds), decl_sep()) + open.subrange(
                    e,
                    open.len() as int,
                )
            }
        },
    }
}

// ------------------------------------------------------------------ stripping twice

/// `s` holds no `c`.
pub open spec fn free_of(s: Seq<char>, c: char) -> bool {
    forall|k: int| 0 <= k < s.len() ==> s[k] != c
}

/// A one-character pattern occurs exactly where that character stands.
proof fn lemma_matches_char(s: Seq<char>, c: char, j: int)
    requires
        0 <= j < s.len(),
    ensures
        matches_at(s, seq![c], j) <==> s[j] == c,
{
    if s[j] == c {
        assert(s.subrange(j, j + 1) =~= seq![c]);
    }
    if matches_at(s, seq![c], j) {
        assert(s.subrange(j, j + 1)[0] == s[j]);
    }
}

/// The pieces of a split hold no separator, nor a character that the text
/// does not hold.
proof fn lemma_split_pieces(v: Seq<char>, c: char, pos: int, q: char)
    requires
        free_of(v, q),
    ensures
        forall|i: int|
            0 <= i < split_from(v, c, pos).len() ==> free_of(#[trigger] split_from(v, c, pos)[i], c)
                && free_of(split_from(v, c, pos)[i], q),
    decreases v.len() - pos,
{
    if 0 <= pos <= v.len() {
        lemma_find_from(v, seq![c], pos);
        match find_from(v, seq![c], pos) {
            None => {
                let piece = v.subrange(pos, v.len() as int);
                assert forall|k: int| 0 <= k < piece.len() implies piece[k] != c by {
                    lemma_matches_char(v, c, pos + k);
                }
                assert(split_from(v, c, pos) =~= seq![piece]);
            },
            Some(k) => {
                lemma_split_pieces(v, c, k + 1, q);
                let piece = v.subrange(pos, k);
                assert forall|j: int| 0 <= j < piece.len() implies piece[j] != c by {
                    lemma_matches_char(v, c, pos + j);
                }
                let rest = split_from(v, c, k + 1);
                assert(split_from(v, c, pos) =~= seq![piece] + rest);
                assert forall|i: int| 0 <= i < split_from(v, c, pos).len() implies free_of(
                    #[trigger] split_from(v, c, pos)[i],
                    c,
                ) && free_of(split_from(v, c, pos)[i], q) by {
                    if i > 0 {
                        assert(split_from(v, c, pos)[i] == rest[i - 1]);
                    }
                }
            },
        }
    }
}

/// A trimmed text holds no character that the text does not hold.
proof fn lemma_trim_free(x: Seq<char>, c: char)
    requires
        free_of(x, c),
    ensures
        free_of(trim(x), c),
{
    crate::text::lemma_lead_ws(x);
    crate::text::lemma_ws_end(x, x.len() as int);
    let l = crate::text::lead_ws(x);
    if l < crate::text::ws_end(x, x.len() as int) {
        assert forall|k: int| 0 <= k < trim(x).len() implies trim(x)[k] != c by {
            assert(trim(x)[k] == x[l + k]);
        }
    }
}

/// What stays of the declarations: none of them fades, and none holds a
/// character that no declaration held.
proof fn lemma_kept(ds: Seq<Seq<char>>, c: char)
    ensures
        forall|i: int| 0 <= i < kept_decls(ds).len() ==> !is_fading_decl(#[trigger] kept_decls(ds)[i]),
        (forall|i: int| 0 <= i < ds.len() ==> free_of(#[trigger] ds[i], c)) ==> forall|i: int|
            0 <= i < kept_decls(ds).len() ==> free_of(#[trigger] kept_decls(ds)[i], c),
    decreases ds.len(),
{
    if ds.len() > 0 {
        let rest = ds.drop_last();
        lemma_kept(rest, c);
        let rk = kept_decls(rest);
        let t = trim(ds.last());
        if (forall|i: int| 0 <= i < ds.len() ==> free_of(#[trigger] ds[i], c)) {
            assert forall|i: int| 0 <= i < rest.len() implies free_of(#[trigger] rest[i], c) by {
                assert(rest[i] == ds[i]);
            }
            assert(free_of(ds[ds.len() - 1], c));
            lemma_trim_free(ds.last(), c);
        }
        if t.len() > 0 && !is_fading_decl(t) {
            assert(kept_decls(ds) == rk.push(t));
            assert forall|i: int| 0 <= i < kept_decls(ds).len() implies !is_fading_decl(
                #[trigger] kept_decls(ds)[i],
            ) by {
                if i < rk.len() {
                    assert(kept_decls(ds)[i] == rk[i]);
                }
            }
            if (forall|i: int| 0 <= i < ds.len() ==> free_of(#[trigger] ds[i], c)) {
                assert forall|i: int| 0 <= i < kept_decls(ds).len() implies free_of(
                    #[trigger] kept_decls(ds)[i],
                    c,
                ) by {
                    if i < rk.len() {
                        assert(kept_decls(ds)[i] == rk[i]);
                    }
                }
            }
        } else {
            assert(kept_decls(ds) == rk);
        }
    }
}

/// Joined pieces hold no character that neither the pieces nor the
/// separator hold.
proof fn lemma_join_free(ds: Seq<Seq<char>>, sep: Seq<char>, c: char)
    requires
        forall|i: int| 0 <= i < ds.len() ==> free_of(#[trigger] ds[i], c),
        free_of(sep, c),
    ensures
        free_of(join(ds, sep), c),
    decreases ds.len(),
{
    if ds.len() > 1 {
        let rest = ds.drop_last();
        assert forall|i: int| 0 <= i < rest.len() implies free_of(#[trigger] rest[i], c) by {
            assert(rest[i] == ds[i]);
        }
        lemma_join_free(rest, sep, c);
        assert(free_of(ds[ds.len() - 1], c));
        let j = join(rest, sep);
        let whole = j + sep + ds.last();
        assert forall|k: int| 0 <= k < whole.len() implies whole[k] != c by {
            if k < j.len() {
                assert(whole[k] == j[k]);
            } else if k < j.len() + sep.len() {
                assert(whole[k] == sep[k - j.len()]);
            } else {
                assert(whole[k] == ds.last()[k - j.len() - sep.len()]);
            }
        }
    } else if ds.len() == 1 {
        assert(free_of(ds[0], c));
    }
}

/// Splitting `u`, a separator and a last piece gives the pieces of `u` and
/// then that piece.
proof fn lemma_split_append(u: Seq<char>, w: Seq<char>, c: char, pos: int)
    requires
        0 <= pos <= u.len(),
        free_of(w, c),
    ensures
        split_from(u + seq![c] + w, c, pos) == split_from(u, c, pos).push(w),
    decreases u.len() - pos,
{
    let s = u + seq![c] + w;
    lemma_find_from(u, seq![c], pos);
    assert forall|j: int| 0 <= j < u.len() implies #[trigger] matches_at(s, seq![c], j) == matches_at(u, seq![c], j) by {
        lemma_matches_char(s, c, j);
        lemma_matches_char(u, c, j);
        assert(s[j] == u[j]);
    }
    match find_from(u, seq![c], pos) {
        Some(k) => {
            lemma_find_from_is(s, seq![c], pos, k);
            lemma_split_append(u, w, c, k + 1);
            assert(s.subrange(pos, k) =~= u.subrange(pos, k));
            assert(split_from(s, c, pos) == seq![s.subrange(pos, k)] + split_from(s, c, k + 1));
            assert(split_from(u, c, pos) == seq![u.subrange(pos, k)] + split_from(u, c, k + 1));
            let x = u.subrange(pos, k);
            let tail = split_from(u, c, k + 1);
            assert(split_from(s, c, k + 1) == tail.push(w));
            assert(seq![x] + tail.push(w) =~= (seq![x] + tail).push(w));
            assert(split_from(s, c, pos) == seq![x] + tail.push(w));
        },
        None => {
            let m = u.len() as int;
            assert(s[m] == c);
            lemma_matches_char(s, c, m);
            lemma_find_from_is(s, seq![c], pos, m);
            lemma_find_from(s, seq![c], m + 1);
            assert forall|j: int| m + 1 <= j implies !matches_at(s, seq![c], j) by {
                if 0 <= j < s.len() {
                    lemma_matches_char(s, c, j);
                    assert(s[j] == w[j - m - 1]);
                }
            }
            assert(find_from(s, seq![c], m + 1) is None);
            assert(s.subrange(m + 1, s.len() as int) =~= w);
            assert(s.subrange(pos, m) =~= u.subrange(pos, m));
            assert(split_from(s, c, m + 1) == seq![s.subrange(m + 1, s.len() as int)]);
            assert(split_from(s, c, pos) == seq![s.subrange(pos, m)] + split_from(s, c, m + 1));
            assert(split_from(u, c, pos) == seq![u.subrange(pos, m)]);
            assert(split_from(s, c, pos) =~= split_from(u, c, pos).push(w));
        },
    }
}

/// The pieces written by `join(ks, "; ")`, as a split on `;` gives them
/// back: each but the first with the space in front.
pub open spec fn spaced(ks: Seq<Seq<char>>) -> Seq<Seq<char>>
    decreases ks.len(),
{
    if ks.len() <= 1 {
        ks
    } else {
        spaced(ks.drop_last()).push(seq![' '] + ks.last())
    }
}

proof fn lemma_split_join(ks: Seq<Seq<char>>)
    requires
        ks.len() > 0,
        forall|i: int| 0 <= i < ks.len() ==> free_of(#[trigger] ks[i], ';'),
    ensures
        split_on(join(ks, decl_sep()), ';') == spaced(ks),
    decreases ks.len(),
{
    if ks.len() == 1 {
        let x = ks[0];
        lemma_find_from(x, seq![';'], 0);
        assert forall|j: int| 0 <= j implies !matches_at(x, seq![';'], j) by {
            if j < x.len() {
                lemma_matches_char(x, ';', j);
            }
        }
        assert(x.subrange(0, x.len() as int) =~= x);
        assert(split_on(x, ';') =~= ks);
    } else {
        let rest = ks.drop_last();
        assert forall|i: int| 0 <= i < rest.len() implies free_of(#[trigger] rest[i], ';') by {
            assert(rest[i] == ks[i]);
        }
        lemma_split_join(rest);
        let u = join(rest, decl_sep());
        let w = seq![' '] + ks.last();
        assert(free_of(ks[ks.len() - 1], ';'));
        assert forall|k: int| 0 <= k < w.len() implies w[k] != ';' by {
            if k > 0 {
                assert(w[k] == ks.last()[k - 1]);
            }
        }
        assert(join(ks, decl_sep()) =~= u + seq![';'] + w);
        lemma_split_append(u, w, ';', 0);
    }
}

/// A space in front of a declaration does not change whether it fades.
proof fn lemma_fading_space(k: Seq<char>)
    ensures
        is_fading_decl(seq![' '] + k) == is_fading_decl(k),
{
    let d = seq![' '] + k;
    let colon = seq![':'];
    lemma_find_from(k, colon, 0);
    lemma_find_from(d, colon, 0);
    assert forall|j: int| 0 <= j < k.len() implies #[trigger] matches_at(k, colon, j) == matches_at(d, colon, j + 1) by {
        lemma_matches_char(k, ':', j);
        lemma_matches_char(d, ':', j + 1);
        assert(d[j + 1] == k[j]);
    }
    assert(!matches_at(d, colon, 0)) by {
        lemma_matches_char(d, ':', 0);
    }
    match find_from(k, colon, 0) {
        Some(j) => {
            assert forall|i: int| 0 <= i < j + 1 implies !matches_at(d, colon, i) by {
                if i > 0 {
                    assert(!matches_at(k, colon, i - 1));
                }
            }
            assert(matches_at(k, colon, j));
            lemma_find_from_is(d, colon, 0, j + 1);
            assert(d.subrange(0, j + 1) =~= seq![' '] + k.subrange(0, j));
            crate::text::lemma_trim_space_front(k.subrange(0, j));
            assert(d.subrange(j + 2, d.len() as int) =~= k.subrange(j + 1, k.len() as int));
        },
        None => {
            assert forall|j: int| 0 <= j implies !matches_at(d, colon, j) by {
                if 1 <= j < d.len() {
                    assert(!matches_at(k, colon, j - 1));
                }
            }
            assert(find_from(d, colon, 0) is None);
        },
    }
}

proof fn lemma_spaced_not_fading(ks: Seq<Seq<char>>)
    requires
        forall|i: int| 0 <= i < ks.len() ==> !is_fading_decl(#[trigger] ks[i]),
    ensures
        !any_fading(spaced(ks)),
    decreases ks.len(),
{
    if ks.len() > 1 {
        let rest = ks.drop_last();
        assert forall|i: int| 0 <= i < rest.len() implies !is_fading_decl(#[trigger] rest[i]) by {
            assert(rest[i] == ks[i]);
        }
        lemma_spaced_not_fading(rest);
        assert(!is_fading_decl(ks[ks.len() - 1]));
        lemma_fading_space(ks.last());
        let sp = spaced(ks);
        assert forall|j: int| 0 <= j < sp.len() implies !is_fading_decl(#[trigger] sp[j]) by {
            if j < sp.len() - 1 {
                assert(sp[j] == spaced(rest)[j]);
            }
        }
    } else if ks.len() == 1 {
        assert(!is_fading_decl(ks[0]));
    }
}

/// Rewriting the value of the first `style` attribute, with a value that
/// holds no quote of its kind, keeps it the first `style` attribute.
proof fn lemma_style_attr_rewritten(open: Seq<char>, v: Seq<char>)
    requires
        style_attr(open) matches Some((a, e)) && free_of(v, open[a + 6]),
    ensures
        ({
            let (a, e) = style_attr(open)->0;
            let y = open.subrange(0, a + 7) + v + open.subrange(e, open.len() as int);
            style_attr(y) == Some((a, a + 7 + v.len()))
        }),
{
    lemma_style_attr(open);
    let (a, e) = style_attr(open)->0;
    let y = open.subrange(0, a + 7) + v + open.subrange(e, open.len() as int);
    let q = open[a + 6];
    assert forall|j: int| 0 <= j < a + 7 implies #[trigger] y[j] == open[j] by {}
    assert forall|j: int| 0 <= j <= a implies #[trigger] style_attr_at(y, j) == style_attr_at(open, j) by {
        assert(y[j + 6] == open[j + 6]);
        if matches_at_ci(open, style_pat(), j) {
            assert forall|k: int| 0 <= k < style_pat().len() implies crate::text::ascii_lower(
                #[trigger] y[j + k],
            ) == crate::text::ascii_lower(style_pat()[k]) by {
                assert(y[j + k] == open[j + k]);
            }
        }
        if matches_at_ci(y, style_pat(), j) {
            assert forall|k: int| 0 <= k < style_pat().len() implies crate::text::ascii_lower(
                #[trigger] open[j + k],
            ) == crate::text::ascii_lower(style_pat()[k]) by {
                assert(y[j + k] == open[j + k]);
            }
        }
    }
    assert forall|j: int| 0 <= j < a implies !#[trigger] style_pred(y)(j) by {
        assert(!style_attr_at(open, j));
    }
    assert(style_pred(y)(a));
    crate::text::lemma_first_match_is(style_pred(y), 0, a, y.len() as int);
    let m = a + 7 + v.len();
    assert(y[m] == open[e]);
    assert(y[a + 6] == q);
    lemma_matches_char(y, q, m);
    assert forall|j: int| a + 7 <= j < m implies !matches_at(y, seq![q], j) by {
        lemma_matches_char(y, q, j);
        assert(y[j] == v[j - a - 7]);
    }
    lemma_find_from_is(y, seq![q], a + 7, m);
}

/// The tag is stripped by dropping its whole `style` attribute: every
/// declaration in it fades or is empty.
pub open spec fn strip_drops_attr(open: Seq<char>) -> bool {
    match style_attr(open) {
        None => false,
        Some((a, e)) => any_fading(style_decls(open, a, e)) && kept_decls(
            style_decls(open, a, e),
        ).len() == 0,
    }
}

/// A tag that fades is changed by stripping.
proof fn lemma_strip_changes(open: Seq<char>)
    requires
        fading(open),
    ensures
        strip_fading(open) != open,
{
    lemma_style_attr(open);
    let (a, e) = style_attr(open)->0;
    let ds = style_decls(open, a, e);
    let ks = kept_decls(ds);
    if ks.len() == 0 {
        crate::text::lemma_ws_end(open.subrange(0, a), a);
        assert(strip_fading(open).len() < open.len());
    } else {
        let value = open.subrange(a + 7, e);
        let v = join(ks, decl_sep());
        if strip_fading(open) == open {
            let y = strip_fading(open);
            assert(y.len() == open.len());
            assert(v.len() == value.len());
            assert(v =~= value) by {
                assert forall|k: int| 0 <= k < v.len() implies v[k] == value[k] by {
                    assert(y[a + 7 + k] == v[k]);
                    assert(open[a + 7 + k] == value[k]);
                }
            }
            lemma_find_from(open, seq![open[a + 6]], a + 7);
            assert forall|k: int| 0 <= k < value.len() implies value[k] != open[a + 6] by {
                lemma_matches_char(open, open[a + 6], a + 7 + k);
            }
            lemma_split_pieces(value, ';', 0, open[a + 6]);
            lemma_kept(ds, ';');
            lemma_split_join(ks);
            lemma_spaced_not_fading(ks);
            assert(false);
        }
    }
}

/// A tag without a fading declaration is kept as it is.
pub proof fn law_unfaded_tags_are_kept(open: Seq<char>)
    requires
        !fading(open),
    ensures
        strip_fading(open) == open,
{
}

/// Stripping changes a tag exactly when it fades.
pub proof fn law_strip_changes_exactly_faded_tags(open: Seq<char>)
    ensures
        strip_fading(open) == open <==> !fading(open),
{
    if fading(open) {
        lemma_strip_changes(open);
    }
}

/// When some declaration stays, the rewritten `style` attribute fades no
/// more.
proof fn lemma_rewritten_style_does_not_fade(open: Seq<char>)
    requires
        style_attr(open) matches Some((a, e)) && any_fading(style_decls(open, a, e)) && kept_decls(
            style_decls(open, a, e),
        ).len() > 0,
    ensures
        !fading(strip_fading(open)),
{
    lemma_style_attr(open);
    let (a, e) = style_attr(open)->0;
    let ds = style_decls(open, a, e);
    let ks = kept_decls(ds);
    let q = open[a + 6];
    let value = open.subrange(a + 7, e);
    lemma_find_from(open, seq![q], a + 7);
    assert forall|k: int| 0 <= k < value.len() implies value[k] != q by {
        lemma_matches_char(open, q, a + 7 + k);
    }
    lemma_split_pieces(value, ';', 0, q);
    lemma_kept(ds, ';');
    lemma_kept(ds, q);
    assert(free_of(decl_sep(), q)) by {
        assert(decl_sep()[0] == ';' && decl_sep()[1] == ' ');
        assert(q == '"' || q == '\'');
    }
    let v = join(ks, decl_sep());
    lemma_join_free(ks, decl_sep(), q);
    lemma_style_attr_rewritten(open, v);
    let y = strip_fading(open);
    assert(y == open.subrange(0, a + 7) + v + open.subrange(e, open.len() as int));
    assert(y.subrange(a + 7, a + 7 + v.len()) =~= v);
    lemma_split_join(ks);
    lemma_spaced_not_fading(ks);
}

/// A stripped tag fades no more, except when its `style` attribute went
/// whole and uncovered another fading `style` attribute.
pub proof fn law_stripped_tags_do_not_fade(open: Seq<char>)
    requires
        !(strip_drops_attr(open) && fading(strip_fading(open))),
    ensures
        !fading(strip_fading(open)),
{
    if let Some((a, e)) = style_attr(open) {
        let ds = style_decls(open, a, e);
        if any_fading(ds) && kept_decls(ds).len() > 0 {
            lemma_rewritten_style_does_not_fade(open);
        }
    }
}

/// Stripping twice gives what stripping once gave, except on a tag whose
/// `style` attribute goes whole and whose rest still carries a fading
/// `style` attribute, which the second pass removes in turn.
pub proof fn law_strip_is_idempotent(open: Seq<char>)
    ensures
        strip_fading(strip_fading(open)) == strip_fading(open) <==> !(strip_drops_attr(open)
            && fading(strip_fading(open))),
{
    if strip_drops_attr(open) && fading(strip_fading(open)) {
        lemma_strip_changes(strip_fading(open));
    } else {
        law_stripped_tags_do_not_fade(open);
    }
}

/// The first `style` attribute of an open tag.
fn find_style_attr(s: &Vec<char>) -> (r: Option<(usize, usize)>)
    ensures
        match r {
            Some((a, e)) => style_attr(s@) == Some((a as int, e as int)),
            None => style_attr(s@) is None,
        },
{
    let pat = vec!['s', 't', 'y', 'l', 'e', '='];
    assert(pat@ =~= style_pat());
    let ghost p = style_pred(s@);
    let mut i: usize = 0;
    while i < s.len()
        invariant
            i <= s.len(),
            pat@ == style_pat(),
            p == style_pred(s@),
            forall|j: int| 0 <= j < i ==> !#[trigger] p(j),
        decreases s.len() - i,
    {
        if s.len() - i >= 7 && matches_here_ci(s, &pat, i) && (s[i + 6] == '"' || s[i + 6] == '\'') {
            proof {
                lemma_first_match_is(p, 0, i as int, s@.len() as int);
            }
            let quote = vec![s[i + 6]];
            assert(quote@ =~= seq![s@[i + 6]]);
            return match find(s, &quote, i + 7) {
                None => None,
                Some(e) => Some((i, e)),
            };
        }
        i += 1;
    }
    proof {
        lemma_first_match_skip(p, 0, i as int, s@.len() as int);
        lemma_first_match(p, i as int, s@.len() as int);
    }
    None
}

/// `str::split` on one character.
fn split_chars(s: &Vec<char>, c: char) -> (r: Vec<Vec<char>>)
    ensures
        r@.map_values(|v: Vec<char>| v@) == split_on(s@, c),
{
    let sep = vec![c];
    assert(sep@ =~= seq![c]);
    let mut out: Vec<Vec<char>> = Vec::new();
    let mut pos: usize = 0;
    loop
        invariant
            pos <= s.len(),
            sep@ == seq![c],
            out@.map_values(|v: Vec<char>| v@) + split_from(s@, c, pos as int) == split_on(s@, c),
        decreases s.len() - pos,
    {
        let ghost before = out@.map_values(|v: Vec<char>| v@);
        match find(s, &sep, pos) {
            None => {
                out.push(slice(s, pos, s.len()));
                assert(out@.map_values(|v: Vec<char>| v@) =~= before + split_from(s@, c, pos as int));
                return out;
            },
            Some(k) => {
                proof {
                    lemma_find_from(s@, sep@, pos as int);
                }
                out.push(slice(s, pos, k));
                assert(out@.map_values(|v: Vec<char>| v@) + split_from(s@, c, k + 1) =~= before
                    + split_from(s@, c, pos as int));
                pos = k + 1;
            },
        }
    }
}

/// `before_bang` on characters.
fn before_bang_exec(v: &Vec<char>) -> (r: Vec<char>)
    ensures
        r@ == before_bang(v@),
{
    let bang = vec!['!'];
    assert(bang@ =~= seq!['!']);
    match find(v, &bang, 0) {
        None => slice(v, 0, v.len()),
        Some(j) => {
            proof {
                lemma_find_from(v@, bang@, 0);
            }
            slice(v, 0, j)
        },
    }
}

/// Whether one CSS declaration fades the text.
fn is_fading_declaration(d: &Vec<char>) -> (r: bool)
    ensures
        r == is_fading_decl(d@),
{
    let colon = vec![':'];
    assert(colon@ =~= seq![':']);
    let k = match find(d, &colon, 0) {
        None => return false,
        Some(k) => k,
    };
    proof {
        lemma_find_from(d@, colon@, 0);
        assert(colon@.len() == 1);
        assert(find_from(d@, colon@, 0) == Some(k as int));
        assert(matches_at(d@, colon@, k as int));
        assert(k + 1 <= d@.len());
    }
    let opacity = vec!['o', 'p', 'a', 'c', 'i', 't', 'y'];
    assert(opacity@ =~= opacity_word());
    let property = trimmed(&slice(d, 0, k));
    if !equal_ignore_case(&property, &opacity) {
        return false;
    }
    assert(k + 1 <= d.len());
    let value = slice(d, k + 1, d.len());
    let number = trimmed(&before_bang_exec(&value));
    below_one(&number)
}

/// Whether some declaration fades the text.
fn any_fading_exec(ds: &Vec<Vec<char>>) -> (r: bool)
    ensures
        r == any_fading(ds@.map_values(|v: Vec<char>| v@)),
{
    let ghost views = ds@.map_values(|v: Vec<char>| v@);
    let mut j: usize = 0;
    while j < ds.len()
        invariant
            j <= ds.len(),
            views == ds@.map_values(|v: Vec<char>| v@),
            forall|k: int| 0 <= k < j ==> !#[trigger] is_fading_decl(views[k]),
        decreases ds.len() - j,
    {
        if is_fading_declaration(&ds[j]) {
            assert(is_fading_decl(views[j as int]));
            return true;
        }
        j += 1;
    }
    false
}

/// Whether the open tag carries the fading style.
pub fn has_fading_style_chars(open: &Vec<char>) -> (r: bool)
    ensures
        r == fading(open@),
{
    match find_style_attr(open) {
        None => false,
        Some((a, e)) => {
            proof {
                lemma_style_attr(open@);
            }
            let value = slice(open, a + 7, e);
            let ds = split_chars(&value, ';');
            any_fading_exec(&ds)
        },
    }
}

/// Where the `style` attribute lies.
pub proof fn lemma_style_attr(s: Seq<char>)
    ensures
        style_attr(s) matches Some((a, e)) ==> 0 <= a && a + 7 <= e < s.len() && style_attr_at(s, a)
            && s[e] == s[a + 6] && forall|j: int| 0 <= j < a ==> !style_attr_at(s, j),
{
    lemma_first_match(style_pred(s), 0, s.len() as int);
    if let Some(i) = first_match(style_pred(s), 0, s.len() as int) {
        lemma_find_from(s, seq![s[i + 6]], i + 7);
        assert forall|j: int| 0 <= j < i implies !style_attr_at(s, j) by {
            assert(!style_pred(s)(j));
        }
        if let Some(e) = find_from(s, seq![s[i + 6]], i + 7) {
            assert(s.subrange(e, e + 1)[0] == s[e]);
        }
    }
}

/// Whether an open tag carries the fading style.
///
/// The original text is faded in the bilingual layout, and nothing but this
/// inline attribute marks it. The test is that some declaration sets
/// `opacity` to a value below one, not one fixed literal: how much the text
/// is faded varies from book to book.
pub fn has_fading_style(open_tag: &str) -> (r: bool)
    ensures
        r == fading(open_tag@),
{
    let v = chars_of(open_tag);
    has_fading_style_chars(&v)
}

/// The declarations that stay, trimmed.
fn kept_exec(ds: &Vec<Vec<char>>) -> (r: Vec<Vec<char>>)
    ensures
        r@.map_values(|v: Vec<char>| v@) == kept_decls(ds@.map_values(|v: Vec<char>| v@)),
{
    let ghost views = ds@.map_values(|v: Vec<char>| v@);
    let mut out: Vec<Vec<char>> = Vec::new();
    let mut j: usize = 0;
    while j < ds.len()
        invariant
            j <= ds.len(),
            views == ds@.map_values(|v: Vec<char>| v@),
            out@.map_values(|v: Vec<char>| v@) == kept_decls(views.take(j as int)),
        decreases ds.len() - j,
    {
        let t = trimmed(&ds[j]);
        proof {
            assert(views.take(j + 1).drop_last() =~= views.take(j as int));
            assert(views.take(j + 1).last() == ds@[j as int]@);
        }
        if t.len() > 0 && !is_fading_declaration(&t) {
            out.push(t);
            assert(out@.map_values(|v: Vec<char>| v@) =~= kept_decls(views.take(j as int)).push(
                t@,
            ));
        }
        j += 1;
    }
    assert(views.take(ds.len() as int) =~= views);
    out
}

/// The pieces joined with `sep` between them.
pub fn join_chars(ds: &Vec<Vec<char>>, sep: &Vec<char>) -> (r: Vec<char>)
    ensures
        r@ == join(ds@.map_values(|v: Vec<char>| v@), sep@),
{
    let ghost views = ds@.map_values(|v: Vec<char>| v@);
    let mut out: Vec<char> = Vec::new();
    let mut j: usize = 0;
    while j < ds.len()
        invariant
            j <= ds.len(),
            views == ds@.map_values(|v: Vec<char>| v@),
            out@ == join(views.take(j as int), sep@),
        decreases ds.len() - j,
    {
        proof {
            assert(views.take(j + 1).drop_last() =~= views.take(j as int));
            assert(views.take(j + 1).last() == ds@[j as int]@);
        }
        if j > 0 {
            push_all(&mut out, sep);
        } else {
            assert(views.take(1)[0] == views[0]);
        }
        push_all(&mut out, &ds[j]);
        proof {
            if j > 0 {
                assert(out@ =~= join(views.take(j as int), sep@) + sep@ + ds@[j as int]@);
            } else {
                assert(out@ =~= ds@[0]@);
            }
        }
        j += 1;
    }
    assert(views.take(ds.len() as int) =~= views);
    out
}

/// The pieces joined with `"; "`.
fn join_decls(ds: &Vec<Vec<char>>) -> (r: Vec<char>)
    ensures
        r@ == join(ds@.map_values(|v: Vec<char>| v@), decl_sep()),
{
    let sep = vec![';', ' '];
    assert(sep@ =~= decl_sep());
    join_chars(ds, &sep)
}

/// `strip_fading` on characters.
pub fn strip_fading_chars(open: &Vec<char>) -> (r: Vec<char>)
    ensures
        r@ == strip_fading(open@),
{
    let (a, e) = match find_style_attr(open) {
        None => return slice(open, 0, open.len()),
        Some(x) => x,
    };
    proof {
        lemma_style_attr(open@);
        assert(open@.subrange(0, open@.len() as int) =~= open@);
        let sa = style_attr(open@);
        assert(sa == Some((a as int, e as int)));
        assert(sa.unwrap().1 < open@.len());
    }
    let value = slice(open, a + 7, e);
    let ds = split_chars(&value, ';');
    if !any_fading_exec(&ds) {
        return slice(open, 0, open.len());
    }
    let kept = kept_exec(&ds);
    if kept.len() == 0 {
        let head = trimmed_end(&slice(open, 0, a));
        assert(e + 1 <= open.len());
        let tail = slice(open, e + 1, open.len());
        concat(&head, &tail)
    } else {
        let mut out = slice(open, 0, a + 7);
        let joined = join_decls(&kept);
        push_all(&mut out, &joined);
        push_range(&mut out, open, e, open.len());
        out
    }
}

/// Removes the fading declarations from an open tag and keeps every other
/// attribute and declaration.
///
/// Replacing the whole tag by `<p>` would lose attributes such as `id` and
/// `class`. A tag without a fading declaration comes back unchanged.
pub fn strip_fading_style(open_tag: &str) -> (r: String)
    ensures
        r@ == strip_fading(open_tag@),
{
    let v = chars_of(open_tag);
    to_string(&strip_fading_chars(&v))
}

// ------------------------------------------------------------------ elements

/// `</tag>`.
pub open spec fn close_tag(tag: Seq<char>) -> Seq<char> {
    seq!['<', '/'] + tag + seq!['>']
}

/// `<tag`.
pub open spec fn open_needle(tag: Seq<char>) -> Seq<char> {
    seq!['<'] + tag
}

/// A `<tag` starts at `i` and the name ends there: `>` or whitespace
/// follows it, so `<dc:titleX>` is no `<dc:title>`.
pub open spec fn tag_start_at(doc: Seq<char>, tag: Seq<char>, i: int) -> bool {
    let a = i + tag.len() + 1;
    matches_at(doc, open_needle(tag), i) && a < doc.len() && (doc[a] == '>' || is_ws(doc[a]))
}

pub open spec fn tag_pred(doc: Seq<char>, tag: Seq<char>) -> spec_fn(int) -> bool {
    |i: int| tag_start_at(doc, tag, i)
}

/// The index just after the `>` of the first `<tag …>` open tag.
pub open spec fn open_tag_end(doc: Seq<char>, tag: Seq<char>) -> Option<int> {
    match first_match(tag_pred(doc, tag), 0, doc.len() as int) {
        None => None,
        Some(i) => match find_from(doc, gt_pat(), i + tag.len() + 1) {
            None => None,
            Some(g) => Some(g + 1),
        },
    }
}

/// The content of the first `tag` element, as the indices where it starts
/// and where `</tag>` starts.
pub open spec fn element_span(doc: Seq<char>, tag: Seq<char>) -> Option<(int, int)> {
    match open_tag_end(doc, tag) {
        None => None,
        Some(o) => match find_from(doc, close_tag(tag), o) {
            None => None,
            Some(e) => Some((o, e)),
        },
    }
}

/// The trimmed text of the first `tag` element.
pub open spec fn element_text_of(doc: Seq<char>, tag: Seq<char>) -> Option<Seq<char>> {
    match element_span(doc, tag) {
        None => None,
        Some((o, e)) => Some(trim(doc.subrange(o, e))),
    }
}

/// The document with the text of the first `tag` element replaced.
pub open spec fn replace_element_of(doc: Seq<char>, tag: Seq<char>, new_text: Seq<char>) -> Option<
    Seq<char>,
> {
    match element_span(doc, tag) {
        None => None,
        Some((o, e)) => Some(doc.subrange(0, o) + new_text + doc.subrange(e, doc.len() as int)),
    }
}

/// Where the content of an element lies: after its open tag, and before a `</tag>`.
pub proof fn lemma_element_span(doc: Seq<char>, tag: Seq<char>)
    ensures
        element_span(doc, tag) matches Some((o, e)) ==> 0 < o <= e && matches_at(
            doc,
            close_tag(tag),
            e,
        ),
        open_tag_end(doc, tag) matches Some(o) ==> ({
            let i = first_match(tag_pred(doc, tag), 0, doc.len() as int)->0;
            &&& tag_start_at(doc, tag, i)
            &&& forall|j: int| 0 <= j < i ==> !tag_start_at(doc, tag, j)
            &&& find_from(doc, gt_pat(), i + tag.len() + 1) == Some(o - 1)
            &&& i + tag.len() + 1 <= o - 1
            &&& matches_at(doc, gt_pat(), o - 1)
            &&& forall|j: int| i + tag.len() + 1 <= j < o - 1 ==> !matches_at(doc, gt_pat(), j)
        }),
{
    lemma_first_match(tag_pred(doc, tag), 0, doc.len() as int);
    if let Some(i) = first_match(tag_pred(doc, tag), 0, doc.len() as int) {
        assert(tag_pred(doc, tag)(i));
        assert forall|j: int| 0 <= j < i implies !tag_start_at(doc, tag, j) by {
            assert(!tag_pred(doc, tag)(j));
        }
        let a = i + tag.len() + 1;
        lemma_find_from(doc, gt_pat(), a);
        if let Some(o) = open_tag_end(doc, tag) {
            lemma_find_from(doc, close_tag(tag), o);
        }
    }
}

/// Writing the text of an element and reading it back gives the text that
/// was written, trimmed. This holds when the element exists, the tag name
/// holds no `<` (no element name does) and the new text holds no `</tag>`.
pub proof fn law_element_reads_back(doc: Seq<char>, tag: Seq<char>, t: Seq<char>)
    requires
        element_span(doc, tag) is Some,
        forall|k: int| 0 <= k < tag.len() ==> tag[k] != '<',
        !contains(t, close_tag(tag)),
    ensures
        replace_element_of(doc, tag, t) matches Some(n) && element_text_of(n, tag) == Some(trim(t)),
{
    lemma_element_span(doc, tag);
    let (o, e) = element_span(doc, tag)->0;
    let n = doc.subrange(0, o) + t + doc.subrange(e, doc.len() as int);
    let c = close_tag(tag);
    let i = first_match(tag_pred(doc, tag), 0, doc.len() as int)->0;
    let a = i + tag.len() + 1;
    let g = o - 1;
    // The open tag lies before `o`, where `n` and `doc` agree.
    assert forall|j: int| 0 <= j < o implies #[trigger] n[j] == doc[j] by {}
    assert forall|j: int| 0 <= j <= i implies tag_start_at(n, tag, j) == tag_start_at(doc, tag, j) by {
        lemma_matches_at_local(doc, n, open_needle(tag), j, 0);
    }
    assert forall|j: int| 0 <= j < i implies !#[trigger] tag_pred(n, tag)(j) by {}
    assert(tag_pred(n, tag)(i));
    crate::text::lemma_first_match_is(tag_pred(n, tag), 0, i, n.len() as int);
    assert forall|j: int| a <= j <= g implies matches_at(n, gt_pat(), j) == matches_at(doc, gt_pat(), j) by {
        lemma_matches_at_local(doc, n, gt_pat(), j, 0);
    }
    lemma_find_from_is(n, gt_pat(), a, g);
    assert(open_tag_end(n, tag) == Some(o));
    // The first `</tag>` from `o` on is the one that followed the old text.
    let m = o + t.len();
    assert forall|j: int| 0 <= j < doc.len() - e implies #[trigger] n[m + j] == doc[e + j] by {}
    lemma_matches_at_local(doc, n, c, e, m - e);
    assert forall|j: int| o <= j < m implies !matches_at(n, c, j) by {
        if matches_at(n, c, j) {
            if j + c.len() <= m {
                assert forall|k: int| j <= k < j + c.len() implies #[trigger] n[k] == t[k - o] by {}
                lemma_matches_at_local(n, t, c, j, -o);
                lemma_contains(t, c);
            } else {
                let k = m - j;
                assert(n.subrange(j, j + c.len())[k] == n[m]);
                assert(n[m] == doc[e]);
                assert(doc.subrange(e, e + c.len())[0] == doc[e]);
                assert(c[0] == '<');
                assert(c[k] == '<');
                if k == 1 {
                    assert(c[1] == '/');
                } else if k < c.len() - 1 {
                    assert(c[k] == tag[k - 2]);
                } else {
                    assert(c[k] == '>');
                }
            }
        }
    }
    lemma_find_from_is(n, c, o, m);
    assert(element_span(n, tag) == Some((o, m)));
    assert(n.subrange(o, m) =~= t);
}

/// `element_span` on characters.
fn element_span_exec(doc: &Vec<char>, tag: &Vec<char>) -> (r: Option<(usize, usize)>)
    ensures
        match r {
            Some((o, e)) => element_span(doc@, tag@) == Some((o as int, e as int)),
            None => element_span(doc@, tag@) is None,
        },
{
    let mut needle = vec!['<'];
    push_all(&mut needle, tag);
    assert(needle@ =~= open_needle(tag@));
    let ghost p = tag_pred(doc@, tag@);
    let mut i: usize = 0;
    let mut found: usize = 0;
    loop
        invariant
            i <= doc.len(),
            needle@ == open_needle(tag@),
            p == tag_pred(doc@, tag@),
            forall|j: int| 0 <= j < i ==> !#[trigger] p(j),
        ensures
            found + tag@.len() + 1 < doc@.len(),
            first_match(p, 0, doc@.len() as int) == Some(found as int),
        decreases doc.len() - i,
    {
        let k = match find(doc, &needle, i) {
            None => {
                proof {
                    lemma_find_from(doc@, needle@, i as int);
                    assert forall|j: int| i <= j < doc@.len() implies !#[trigger] p(j) by {}
                    lemma_first_match(p, 0, doc@.len() as int);
                    if let Some(m) = first_match(p, 0, doc@.len() as int) {
                        assert(p(m));
                    }
                }
                return None;
            },
            Some(k) => k,
        };
        proof {
            lemma_find_from(doc@, needle@, i as int);
            assert forall|j: int| i <= j < k implies !#[trigger] p(j) by {}
        }
        assert(k + tag.len() + 1 <= doc.len());
        let a = k + tag.len() + 1;
        if a < doc.len() && (doc[a] == '>' || is_whitespace(doc[a])) {
            proof {
                assert(p(k as int));
                crate::text::lemma_first_match_is(p, 0, k as int, doc@.len() as int);
            }
            found = k;
            break;
        }
        proof {
            assert(!p(k as int));
        }
        i = k + 1;
    }
    let a = found + tag.len() + 1;
    let gt = vec!['>'];
    assert(gt@ =~= gt_pat());
    let g = match find(doc, &gt, a) {
        None => return None,
        Some(g) => g,
    };
    proof {
        lemma_find_from(doc@, gt@, a as int);
    }
    let mut close = vec!['<', '/'];
    push_all(&mut close, tag);
    close.push('>');
    assert(close@ =~= close_tag(tag@));
    match find(doc, &close, g + 1) {
        None => None,
        Some(e) => Some((g + 1, e)),
    }
}

/// The trimmed text of the first `tag` element, on characters.
pub fn element_text_chars(doc: &Vec<char>, tag: &Vec<char>) -> (r: Option<Vec<char>>)
    ensures
        match r {
            Some(t) => element_text_of(doc@, tag@) == Some(t@),
            None => element_text_of(doc@, tag@) is None,
        },
{
    match element_span_exec(doc, tag) {
        None => None,
        Some((o, e)) => {
            proof {
                lemma_element_span(doc@, tag@);
            }
            Some(trimmed(&slice(doc, o, e)))
        },
    }
}

/// The document with the text of the first `tag` element replaced, on characters.
pub fn replace_element_chars(doc: &Vec<char>, tag: &Vec<char>, new_text: &Vec<char>) -> (r: Option<
    Vec<char>,
>)
    ensures
        match r {
            Some(t) => replace_element_of(doc@, tag@, new_text@) == Some(t@),
            None => replace_element_of(doc@, tag@, new_text@) is None,
        },
{
    match element_span_exec(doc, tag) {
        None => None,
        Some((o, e)) => {
            proof {
                lemma_element_span(doc@, tag@);
            }
            let mut out = slice(doc, 0, o);
            push_all(&mut out, new_text);
            push_range(&mut out, doc, e, doc.len());
            Some(out)
        },
    }
}

/// The trimmed text of the first element with the given tag name.
///
/// The open tag may carry attributes, so both `<dc:title>` and
/// `<dc:title id="id">` are found.
pub fn element_text(doc: &str, tag: &str) -> (r: Option<String>)
    ensures
        match r {
            Some(t) => element_text_of(doc@, tag@) == Some(t@),
            None => element_text_of(doc@, tag@) is None,
        },
{
    let d = chars_of(doc);
    let t = chars_of(tag);
    match element_text_chars(&d, &t) {
        None => None,
        Some(v) => Some(to_string(&v)),
    }
}

/// Replaces the text of the first element with the given tag name.
///
/// A missing element gives `None`, and the caller decides whether to give up
/// or to add one.
pub fn replace_element_text(doc: &str, tag: &str, new_text: &str) -> (r: Option<String>)
    ensures
        match r {
            Some(t) => replace_element_of(doc@, tag@, new_text@) == Some(t@),
            None => replace_element_of(doc@, tag@, new_text@) is None,
        },
{
    let d = chars_of(doc);
    let t = chars_of(tag);
    let n = chars_of(new_text);
    match replace_element_chars(&d, &t, &n) {
        None => None,
        Some(v) => Some(to_string(&v)),
    }
}

} // verus!
