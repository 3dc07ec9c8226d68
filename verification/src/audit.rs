//! Self-check of a finished edition: the archive is read back and counted,
//! to confirm that the book is usable and holds no paragraph of the other
//! language.
//!
//! A kana in a Chinese paragraph is not a failure by itself: translations
//! legitimately keep some Japanese proper names. What shows that the
//! discriminator failed on a book is a page where a large share of the text
//! is suspect, so only such pages are fatal; scattered hits are warnings.
use vstd::prelude::*;
use vstd::utf8::{decode_utf8, valid_utf8};

use crate::epub::{
    archive_entry, archive_files, archive_probe, archive_source, entry_opens, entry_reads, zip_contents, zip_opens,
    ArchiveError, ZipFileView,
};
use crate::lang::{has_kana, has_kana_chars, Lang};
use crate::markup::{
    fading, has_fading_style_chars, is_neutral_chars, join, join_chars, neutral, seg_views,
    tokenize_chars, tokens, Segment, SegmentView,
};
use crate::pipeline::{kind_of, Kind};
use crate::text::{
    chars_of, contains, first_match, matches_at, is_whitespace, is_ws, lemma_first_match, lemma_first_match_is,
    lemma_first_match_skip, push_all, push_range, slice, string_views, to_string,
};

verus! {

/// A page counts as misjudged only with at least this many text paragraphs.
pub open spec fn misclassify_min_paragraphs() -> nat {
    5
}

/// How many suspect paragraphs are kept as samples.
pub open spec fn suspect_samples_max() -> nat {
    10
}

/// The length a sample is cut to.
pub open spec fn sample_chars() -> nat {
    60
}

/// What the self-check found.
pub struct Report {
    /// The number of entries of the archive.
    pub entries: usize,
    /// The name of the first entry.
    pub first_entry: String,
    /// The first entry is stored uncompressed.
    pub first_entry_is_stored: bool,
    /// Paragraphs of text (images and blank lines are not text).
    pub content_paragraphs: usize,
    /// Paragraphs that belong to no language: images and blank lines.
    pub neutral_paragraphs: usize,
    /// Paragraphs that still carry the fading style. Must be 0 in both
    /// editions, or the Japanese one is grey throughout.
    pub fading_style_leaks: usize,
    /// Text paragraphs that may belong to the other language (checked in the
    /// Chinese edition only).
    pub suspect_count: usize,
    /// Samples of the suspect paragraphs, at most ten.
    pub suspect_samples: Vec<String>,
    /// Pages where the split very likely failed.
    pub misclassified_pages: Vec<String>,
}

// ------------------------------------------------------------------ numbers as text

/// The decimal digit character of `d`.
pub open spec fn digit_char_of(d: nat) -> char {
    if d == 0 {
        '0'
    } else if d == 1 {
        '1'
    } else if d == 2 {
        '2'
    } else if d == 3 {
        '3'
    } else if d == 4 {
        '4'
    } else if d == 5 {
        '5'
    } else if d == 6 {
        '6'
    } else if d == 7 {
        '7'
    } else if d == 8 {
        '8'
    } else {
        '9'
    }
}

/// The decimal digits of `n`, as `to_string` writes them.
pub open spec fn decimal(n: nat) -> Seq<char>
    decreases n,
{
    if n < 10 {
        seq![digit_char_of(n)]
    } else {
        decimal(n / 10).push(digit_char_of(n % 10))
    }
}

fn digit_char(d: usize) -> (c: char)
    requires
        d < 10,
    ensures
        c == digit_char_of(d as nat),
{
    if d == 0 {
        '0'
    } else if d == 1 {
        '1'
    } else if d == 2 {
        '2'
    } else if d == 3 {
        '3'
    } else if d == 4 {
        '4'
    } else if d == 5 {
        '5'
    } else if d == 6 {
        '6'
    } else if d == 7 {
        '7'
    } else if d == 8 {
        '8'
    } else {
        '9'
    }
}

/// The decimal digits of `n`.
pub fn decimal_chars(n: usize) -> (r: Vec<char>)
    ensures
        r@ == decimal(n as nat),
    decreases n,
{
    if n < 10 {
        vec![digit_char(n)]
    } else {
        let mut v = decimal_chars(n / 10);
        v.push(digit_char(n % 10));
        v
    }
}

// ------------------------------------------------------------------ samples

pub open spec fn word_pred(s: Seq<char>) -> spec_fn(int) -> bool {
    |i: int| !is_ws(s[i])
}

pub open spec fn space_pred(s: Seq<char>) -> spec_fn(int) -> bool {
    |i: int| is_ws(s[i])
}

/// The first index at or after `pos` that `p` holds of, or `end`.
pub open spec fn first_or_end(p: spec_fn(int) -> bool, pos: int, end: int) -> int {
    match first_match(p, pos, end) {
        Some(i) => i,
        None => end,
    }
}

/// The words of `s[pos..]` (`str::split_whitespace`).
pub open spec fn words_from(s: Seq<char>, pos: int) -> Seq<Seq<char>>
    decreases s.len() - pos,
{
    let i = first_or_end(word_pred(s), pos, s.len() as int);
    if pos < 0 || i >= s.len() {
        Seq::empty()
    } else {
        let j = first_or_end(space_pred(s), i, s.len() as int);
        proof {
            lemma_first_match(word_pred(s), pos, s.len() as int);
            lemma_first_match(space_pred(s), i, s.len() as int);
        }
        if j <= pos {
            Seq::empty()
        } else {
            seq![s.subrange(i, j)] + words_from(s, j)
        }
    }
}

/// A sample of a paragraph: its words joined by single spaces, cut to
/// `max` characters, with `…` when something was cut.
pub open spec fn sample_of(s: Seq<char>, max: nat) -> Seq<char> {
    let flat = join(words_from(s, 0), seq![' ']);
    if flat.len() > max {
        flat.take(max as int).push('…')
    } else {
        flat
    }
}

fn first_or_end_exec(s: &Vec<char>, pos: usize, want_space: bool) -> (r: usize)
    requires
        pos <= s.len(),
    ensures
        r == first_or_end(if want_space { space_pred(s@) } else { word_pred(s@) }, pos as int, s@.len() as int),
        pos <= r <= s.len(),
{
    let ghost p = if want_space { space_pred(s@) } else { word_pred(s@) };
    let mut i = pos;
    while i < s.len()
        invariant
            pos <= i <= s.len(),
            p == (if want_space { space_pred(s@) } else { word_pred(s@) }),
            forall|j: int| pos <= j < i ==> !#[trigger] p(j),
        decreases s.len() - i,
    {
        if is_whitespace(s[i]) == want_space {
            proof {
                lemma_first_match_is(p, pos as int, i as int, s@.len() as int);
            }
            return i;
        }
        i += 1;
    }
    proof {
        lemma_first_match_skip(p, pos as int, i as int, s@.len() as int);
        lemma_first_match(p, i as int, s@.len() as int);
    }
    i
}

/// `str::split_whitespace`.
fn words(s: &Vec<char>) -> (r: Vec<Vec<char>>)
    ensures
        r@.map_values(|v: Vec<char>| v@) == words_from(s@, 0),
{
    let mut out: Vec<Vec<char>> = Vec::new();
    let mut pos: usize = 0;
    loop
        invariant
            pos <= s.len(),
            out@.map_values(|v: Vec<char>| v@) + words_from(s@, pos as int) == words_from(s@, 0),
        decreases s.len() - pos,
    {
        let ghost before = out@.map_values(|v: Vec<char>| v@);
        let i = first_or_end_exec(s, pos, false);
        if i >= s.len() {
            assert(words_from(s@, pos as int) =~= Seq::<Seq<char>>::empty());
            assert(out@.map_values(|v: Vec<char>| v@) =~= words_from(s@, 0));
            return out;
        }
        let j = first_or_end_exec(s, i, true);
        proof {
            lemma_first_match(word_pred(s@), pos as int, s@.len() as int);
            assert(!is_ws(s@[i as int]));
            if j == i {
                lemma_first_match(space_pred(s@), i as int, s@.len() as int);
            }
        }
        out.push(slice(s, i, j));
        assert(out@.map_values(|v: Vec<char>| v@) + words_from(s@, j as int) =~= before
            + words_from(s@, pos as int));
        pos = j;
    }
}

/// A sample of a paragraph for the report.
fn sample(s: &Vec<char>, max: usize) -> (r: Vec<char>)
    ensures
        r@ == sample_of(s@, max as nat),
{
    let ws = words(s);
    let space = vec![' '];
    assert(space@ =~= seq![' ']);
    let flat = join_chars(&ws, &space);
    if flat.len() > max {
        let mut out = slice(&flat, 0, max);
        assert(out@ =~= flat@.take(max as int));
        out.push('…');
        out
    } else {
        flat
    }
}

// ------------------------------------------------------------------ page counts

/// Paragraphs whose open tag carries the fading style.
pub open spec fn leak_count(segs: Seq<SegmentView>) -> nat
    decreases segs.len(),
{
    if segs.len() == 0 {
        0
    } else {
        leak_count(segs.drop_last()) + if (segs.last() matches SegmentView::Para { open, .. } && fading(open)) {
            1nat
        } else {
            0nat
        }
    }
}

/// A text paragraph that may belong to the other language: in the Chinese
/// edition, one that contains a kana.
pub open spec fn is_suspect(seg: SegmentView, lang: Lang) -> bool {
    &&& lang == Lang::Zh
    &&& (seg matches SegmentView::Para { inner, .. } && !neutral(inner) && has_kana(inner))
}

/// A paragraph of text (not an image or a blank line).
pub open spec fn is_content(seg: SegmentView) -> bool {
    seg matches SegmentView::Para { inner, .. } && !neutral(inner)
}

/// A paragraph that holds only an image or a blank line.
pub open spec fn is_neutral_para_seg(seg: SegmentView) -> bool {
    seg matches SegmentView::Para { inner, .. } && neutral(inner)
}

/// The number of text paragraphs among the segments.
pub open spec fn content_count(segs: Seq<SegmentView>) -> nat
    decreases segs.len(),
{
    if segs.len() == 0 {
        0
    } else {
        content_count(segs.drop_last()) + if is_content(segs.last()) {
            1nat
        } else {
            0nat
        }
    }
}

/// The number of neutral paragraphs among the segments.
pub open spec fn neutral_para_count(segs: Seq<SegmentView>) -> nat
    decreases segs.len(),
{
    if segs.len() == 0 {
        0
    } else {
        neutral_para_count(segs.drop_last()) + if is_neutral_para_seg(segs.last()) {
            1nat
        } else {
            0nat
        }
    }
}

/// The contents of the suspect paragraphs, in order.
pub open spec fn suspects(segs: Seq<SegmentView>, lang: Lang) -> Seq<Seq<char>>
    decreases segs.len(),
{
    if segs.len() == 0 {
        Seq::empty()
    } else {
        let rest = suspects(segs.drop_last(), lang);
        if is_suspect(segs.last(), lang) {
            rest.push(segs.last()->Para_inner)
        } else {
            rest
        }
    }
}

/// Too much of the page is suspect for a few proper names: at least five text
/// paragraphs, and more than a third of them suspect.
pub open spec fn page_misjudged(segs: Seq<SegmentView>, lang: Lang) -> bool {
    content_count(segs) >= misclassify_min_paragraphs() && 3 * suspects(segs, lang).len()
        > content_count(segs)
}

// ------------------------------------------------------------------ archive counts

/// The archive entry is a text file.
pub open spec fn is_text_name(name: Seq<char>) -> bool {
    kind_of(name) is Text
}

/// The text files of an archive: their names and their segments.
pub open spec fn text_pages(files: Seq<ZipFileView>) -> Seq<(Seq<char>, Seq<SegmentView>)>
    decreases files.len(),
{
    if files.len() == 0 {
        Seq::empty()
    } else {
        let rest = text_pages(files.drop_last());
        let f = files.last();
        if is_text_name(f.0) {
            rest.push((f.0, tokens(decode_utf8(f.2))))
        } else {
            rest
        }
    }
}

/// Every text file of the archive is UTF-8.
pub open spec fn texts_are_utf8(files: Seq<ZipFileView>) -> bool {
    forall|i: int| 0 <= i < files.len() && is_text_name(#[trigger] files[i].0) ==> valid_utf8(files[i].2)
}

/// The text paragraphs of all pages.
pub open spec fn total_content(pages: Seq<(Seq<char>, Seq<SegmentView>)>) -> nat
    decreases pages.len(),
{
    if pages.len() == 0 {
        0
    } else {
        total_content(pages.drop_last()) + content_count(pages.last().1)
    }
}

/// The neutral paragraphs of all pages.
pub open spec fn total_neutral(pages: Seq<(Seq<char>, Seq<SegmentView>)>) -> nat
    decreases pages.len(),
{
    if pages.len() == 0 {
        0
    } else {
        total_neutral(pages.drop_last()) + neutral_para_count(pages.last().1)
    }
}

/// The paragraphs of all pages that still carry the fading style.
pub open spec fn total_leaks(pages: Seq<(Seq<char>, Seq<SegmentView>)>) -> nat
    decreases pages.len(),
{
    if pages.len() == 0 {
        0
    } else {
        total_leaks(pages.drop_last()) + leak_count(pages.last().1)
    }
}

/// The suspect paragraphs of all pages, in order.
pub open spec fn all_suspects(pages: Seq<(Seq<char>, Seq<SegmentView>)>, lang: Lang) -> Seq<
    Seq<char>,
>
    decreases pages.len(),
{
    if pages.len() == 0 {
        Seq::empty()
    } else {
        all_suspects(pages.drop_last(), lang) + suspects(pages.last().1, lang)
    }
}

/// The names of the misjudged pages, in order.
pub open spec fn misjudged_pages(pages: Seq<(Seq<char>, Seq<SegmentView>)>, lang: Lang) -> Seq<
    Seq<char>,
>
    decreases pages.len(),
{
    if pages.len() == 0 {
        Seq::empty()
    } else {
        let rest = misjudged_pages(pages.drop_last(), lang);
        if page_misjudged(pages.last().1, lang) {
            rest.push(pages.last().0)
        } else {
            rest
        }
    }
}

/// The samples of the suspect paragraphs: the first ten, each cut down.
pub open spec fn samples_of(sus: Seq<Seq<char>>) -> Seq<Seq<char>> {
    let n = if sus.len() < suspect_samples_max() {
        sus.len() as int
    } else {
        suspect_samples_max() as int
    };
    sus.take(n).map_values(|s: Seq<char>| sample_of(s, sample_chars()))
}


/// The counts of a report on these files fit in a `usize`.
pub open spec fn counts_fit(files: Seq<ZipFileView>, lang: Lang) -> bool {
    let pages = text_pages(files);
    &&& total_content(pages) <= usize::MAX
    &&& total_neutral(pages) <= usize::MAX
    &&& total_leaks(pages) <= usize::MAX
    &&& all_suspects(pages, lang).len() <= usize::MAX
}

/// The counts over the first files are no more than over all of them.
proof fn lemma_totals_grow(files: Seq<ZipFileView>, k: int, lang: Lang)
    requires
        0 <= k <= files.len(),
    ensures
        total_content(text_pages(files.take(k))) <= total_content(text_pages(files)),
        total_neutral(text_pages(files.take(k))) <= total_neutral(text_pages(files)),
        total_leaks(text_pages(files.take(k))) <= total_leaks(text_pages(files)),
        all_suspects(text_pages(files.take(k)), lang).len() <= all_suspects(
            text_pages(files),
            lang,
        ).len(),
    decreases files.len(),
{
    if k < files.len() {
        let rest = files.drop_last();
        assert(rest.take(k) =~= files.take(k));
        lemma_totals_grow(rest, k, lang);
        let f = files.last();
        if is_text_name(f.0) {
            assert(text_pages(files).drop_last() =~= text_pages(rest));
        }
    } else {
        assert(files.take(k) =~= files);
    }
}

/// `inspect` succeeds on these bytes: they open as an archive with at least
/// one file, every file opens, every text file reads out and is UTF-8, and
/// the counts fit in a `usize`.
pub open spec fn inspect_succeeds(bytes: Seq<u8>, lang: Lang) -> bool {
    let files = zip_contents(bytes);
    &&& zip_opens(bytes)
    &&& files.len() > 0
    &&& forall|i: int| 0 <= i < files.len() ==> #[trigger] entry_opens(bytes, i)
    &&& forall|i: int| 0 <= i < files.len() && is_text_name(files[i].0) ==> #[trigger] entry_reads(bytes, i)
    &&& texts_are_utf8(files)
    &&& counts_fit(files, lang)
}

/// The report of an archive that holds `files`.
pub open spec fn report_of(files: Seq<ZipFileView>, lang: Lang, r: Report) -> bool {
    let pages = text_pages(files);
    &&& files.len() > 0
    &&& r.entries == files.len()
    &&& r.first_entry@ == files[0].0
    &&& r.first_entry_is_stored == files[0].1
    &&& r.content_paragraphs == total_content(pages)
    &&& r.neutral_paragraphs == total_neutral(pages)
    &&& r.fading_style_leaks == total_leaks(pages)
    &&& r.suspect_count == all_suspects(pages, lang).len()
    &&& string_views(r.suspect_samples@) == samples_of(all_suspects(pages, lang))
    &&& string_views(r.misclassified_pages@) == misjudged_pages(pages, lang)
}

// ------------------------------------------------------------------ verdicts

/// The first entry is `mimetype`, stored: what the EPUB specification requires.
pub open spec fn spec_compliant(r: Report) -> bool {
    r.first_entry@ == "mimetype"@ && r.first_entry_is_stored
}

/// Nothing at all was found: no leftover style, no suspect paragraph, no
/// misjudged page.
pub open spec fn clean(r: Report) -> bool {
    r.fading_style_leaks == 0 && r.suspect_count == 0 && r.misclassified_pages@.len() == 0
}

/// The fatal issue of an archive whose first entry is wrong.
pub open spec fn not_compliant_text(first: Seq<char>) -> Seq<char> {
    "mimetype 不是第一个条目或未压缩（实际首条目为 "@ + first + "）"@
}

/// The fatal issue of a leftover fading style.
pub open spec fn leak_text(n: nat) -> Seq<char> {
    "产物里还有 "@ + decimal(n) + " 段带淡化样式，日文版会整本显示为灰色"@
}

/// The fatal issue of misjudged pages.
pub open spec fn misjudged_text(pages: Seq<Seq<char>>) -> Seq<char> {
    "以下页面疑似整页判错（判别式在这些页上可能失效）："@ + join(pages, ", "@)
}

/// The fatal issues of a report, in this order: the archive breaks the EPUB
/// specification; the fading style is left; some pages look misjudged.
pub open spec fn fatal_texts(r: Report) -> Seq<Seq<char>> {
    let a = if !spec_compliant(r) {
        seq![not_compliant_text(r.first_entry@)]
    } else {
        Seq::empty()
    };
    let b = if r.fading_style_leaks > 0 {
        seq![leak_text(r.fading_style_leaks as nat)]
    } else {
        Seq::empty()
    };
    let c = if r.misclassified_pages@.len() > 0 {
        seq![misjudged_text(string_views(r.misclassified_pages@))]
    } else {
        Seq::empty()
    };
    a + b + c
}

/// The lines that list the samples.
pub open spec fn sample_lines(samples: Seq<Seq<char>>) -> Seq<char>
    decreases samples.len(),
{
    if samples.len() == 0 {
        Seq::empty()
    } else {
        sample_lines(samples.drop_last()) + "\n      · "@ + samples.last()
    }
}

/// The warning about suspect paragraphs: their number, the samples, and how
/// many were not listed.
pub open spec fn suspect_text(r: Report) -> Seq<char> {
    let samples = string_views(r.suspect_samples@);
    decimal(r.suspect_count as nat) + " 段正文含日文假名，可能是译本里保留的专有名词，也可能是漏翻"@
        + sample_lines(samples) + if r.suspect_count > samples.len() {
        "\n      … 另有 "@ + decimal((r.suspect_count - samples.len()) as nat) + " 段未列出"@
    } else {
        Seq::empty()
    }
}

/// The warnings of a report: one about suspect paragraphs, if there are any.
pub open spec fn warning_texts(r: Report) -> Seq<Seq<char>> {
    if r.suspect_count > 0 {
        seq![suspect_text(r)]
    } else {
        Seq::empty()
    }
}

/// A text contains what stands in its middle.
proof fn lemma_contains_middle(x: Seq<char>, m: Seq<char>, y: Seq<char>)
    ensures
        contains(x + m + y, m),
{
    let t = x + m + y;
    assert(t.subrange(x.len() as int, (x.len() + m.len()) as int) =~= m);
    assert(matches_at(t, m, x.len() as int));
    crate::text::lemma_contains(t, m);
}

/// Each sample stands in the sample lines.
proof fn lemma_sample_lines_hold(samples: Seq<Seq<char>>, i: int)
    requires
        0 <= i < samples.len(),
    ensures
        exists|x: Seq<char>, y: Seq<char>| sample_lines(samples) == x + samples[i] + y,
    decreases samples.len(),
{
    let rest = samples.drop_last();
    let sep = "\n      · "@;
    if i == samples.len() - 1 {
        let x = sample_lines(rest) + sep;
        assert(sample_lines(samples) == x + samples[i] + Seq::<char>::empty());
    } else {
        assert(rest[i] == samples[i]);
        lemma_sample_lines_hold(rest, i);
        let (x, y) = choose|x: Seq<char>, y: Seq<char>| sample_lines(rest) == x + rest[i] + y;
        assert(sample_lines(samples) == x + samples[i] + (y + sep + samples.last()));
    }
}

/// The warning about suspect paragraphs shows every sample kept, and the
/// number of suspect paragraphs that were not listed.
pub proof fn law_warning_lists_every_sample(r: Report)
    requires
        r.suspect_count > 0,
    ensures
        warning_texts(r) == seq![suspect_text(r)],
        forall|i: int|
            0 <= i < r.suspect_samples@.len() ==> contains(
                suspect_text(r),
                #[trigger] string_views(r.suspect_samples@)[i],
            ),
        r.suspect_count > r.suspect_samples@.len() ==> contains(
            suspect_text(r),
            decimal((r.suspect_count - r.suspect_samples@.len()) as nat),
        ),
{
    let samples = string_views(r.suspect_samples@);
    let head = decimal(r.suspect_count as nat)
        + " 段正文含日文假名，可能是译本里保留的专有名词，也可能是漏翻"@;
    let tail = if r.suspect_count > samples.len() {
        "\n      … 另有 "@ + decimal((r.suspect_count - samples.len()) as nat) + " 段未列出"@
    } else {
        Seq::empty()
    };
    assert(suspect_text(r) == head + sample_lines(samples) + tail);
    assert forall|i: int| 0 <= i < r.suspect_samples@.len() implies contains(
        suspect_text(r),
        #[trigger] string_views(r.suspect_samples@)[i],
    ) by {
        lemma_sample_lines_hold(samples, i);
        let (x, y) = choose|x: Seq<char>, y: Seq<char>| sample_lines(samples) == x + samples[i] + y;
        assert(suspect_text(r) =~= (head + x) + samples[i] + (y + tail));
        lemma_contains_middle(head + x, samples[i], y + tail);
    }
    if r.suspect_count > samples.len() {
        let n = decimal((r.suspect_count - samples.len()) as nat);
        assert(suspect_text(r) =~= (head + sample_lines(samples) + "\n      … 另有 "@) + n
            + " 段未列出"@);
        lemma_contains_middle(head + sample_lines(samples) + "\n      … 另有 "@, n, " 段未列出"@);
    }
}

impl Report {
    /// `mimetype` is the first entry and is not compressed: a hard requirement
    /// of the EPUB specification.
    pub fn is_spec_compliant(&self) -> (r: bool)
        ensures
            r == spec_compliant(*self),
    {
        let name = chars_of(self.first_entry.as_str());
        let m = chars_of("mimetype");
        let same = name.len() == m.len() && crate::text::matches_here(&name, &m, 0);
        proof {
            assert(name@.subrange(0, name@.len() as int) =~= name@);
        }
        same && self.first_entry_is_stored
    }

    /// Clean in the strict sense: no leftover style, no suspect paragraph, no
    /// misjudged page.
    ///
    /// This is not the failure criterion: a few legitimate Japanese names make
    /// it false, which is normal (see [`Report::fatal_issues`]).
    pub fn is_clean(&self) -> (r: bool)
        ensures
            r == clean(*self),
    {
        self.fading_style_leaks == 0 && self.suspect_count == 0 && self.misclassified_pages.len() == 0
    }

    /// The fatal issues: the archive breaks the specification, or the split
    /// clearly failed.
    pub fn fatal_issues(&self) -> (r: Vec<String>)
        ensures
            string_views(r@) == fatal_texts(*self),
    {
        let mut issues: Vec<String> = Vec::new();
        if !self.is_spec_compliant() {
            let mut t = chars_of("mimetype 不是第一个条目或未压缩（实际首条目为 ");
            push_all(&mut t, &chars_of(self.first_entry.as_str()));
            push_all(&mut t, &chars_of("）"));
            issues.push(to_string(&t));
        }
        if self.fading_style_leaks > 0 {
            let mut t = chars_of("产物里还有 ");
            push_all(&mut t, &decimal_chars(self.fading_style_leaks));
            push_all(&mut t, &chars_of(" 段带淡化样式，日文版会整本显示为灰色"));
            issues.push(to_string(&t));
        }
        if self.misclassified_pages.len() > 0 {
            let mut names: Vec<Vec<char>> = Vec::new();
            let mut i: usize = 0;
            while i < self.misclassified_pages.len()
                invariant
                    i <= self.misclassified_pages.len(),
                    names@.map_values(|v: Vec<char>| v@) == string_views(
                        self.misclassified_pages@,
                    ).take(i as int),
                decreases self.misclassified_pages.len() - i,
            {
                let ghost before = names@;
                let c = chars_of(self.misclassified_pages[i].as_str());
                names.push(c);
                proof {
                    let sv = string_views(self.misclassified_pages@);
                    let nv = names@.map_values(|v: Vec<char>| v@);
                    assert(before.map_values(|v: Vec<char>| v@).len() == before.len());
                    assert(sv.take(i as int).len() == i);
                    assert(before.len() == i);
                    assert(names@.len() == i + 1);
                    assert(nv.len() == i + 1);
                    assert forall|k: int| 0 <= k < i + 1 implies nv[k] == sv.take(i + 1)[k] by {
                        if k < i {
                            assert(names@[k] == before[k]);
                            assert(before.map_values(|v: Vec<char>| v@)[k] == sv.take(i as int)[k]);
                        } else {
                            assert(names@[k] == c);
                        }
                    }
                    assert(nv =~= sv.take(i + 1));
                }
                i += 1;
            }
            assert(string_views(self.misclassified_pages@).take(
                self.misclassified_pages@.len() as int,
            ) =~= string_views(self.misclassified_pages@));
            let mut t = chars_of("以下页面疑似整页判错（判别式在这些页上可能失效）：");
            push_all(&mut t, &join_chars(&names, &chars_of(", ")));
            issues.push(to_string(&t));
        }
        assert(string_views(issues@) =~= fatal_texts(*self));
        issues
    }

    /// The warnings: worth a look, but most likely normal.
    pub fn warnings(&self) -> (r: Vec<String>)
        ensures
            string_views(r@) == warning_texts(*self),
    {
        let mut warnings: Vec<String> = Vec::new();
        if self.suspect_count > 0 {
            let mut t = decimal_chars(self.suspect_count);
            push_all(&mut t, &chars_of(" 段正文含日文假名，可能是译本里保留的专有名词，也可能是漏翻"));
            let ghost head = t@;
            let ghost samples = string_views(self.suspect_samples@);
            let mut i: usize = 0;
            while i < self.suspect_samples.len()
                invariant
                    i <= self.suspect_samples.len(),
                    samples == string_views(self.suspect_samples@),
                    t@ == head + sample_lines(samples.take(i as int)),
                decreases self.suspect_samples.len() - i,
            {
                push_all(&mut t, &chars_of("\n      · "));
                push_all(&mut t, &chars_of(self.suspect_samples[i].as_str()));
                proof {
                    assert(samples.take(i + 1).drop_last() =~= samples.take(i as int));
                    assert(t@ =~= head + sample_lines(samples.take(i + 1)));
                }
                i += 1;
            }
            assert(samples.take(samples.len() as int) =~= samples);
            if self.suspect_count > self.suspect_samples.len() {
                push_all(&mut t, &chars_of("\n      … 另有 "));
                push_all(&mut t, &decimal_chars(self.suspect_count - self.suspect_samples.len()));
                push_all(&mut t, &chars_of(" 段未列出"));
            }
            assert(t@ =~= suspect_text(*self));
            warnings.push(to_string(&t));
        }
        assert(string_views(warnings@) =~= warning_texts(*self));
        warnings
    }

    /// All paragraphs of the archive: text, images and blank lines.
    ///
    /// The two editions have the same number: the source's Japanese and
    /// Chinese paragraphs correspond one to one.
    pub fn paragraphs_total(&self) -> (r: usize)
        requires
            self.content_paragraphs + self.neutral_paragraphs <= usize::MAX,
        ensures
            r == self.content_paragraphs + self.neutral_paragraphs,
    {
        self.content_paragraphs + self.neutral_paragraphs
    }
}

// ------------------------------------------------------------------ laws of the report

/// A page with a faded paragraph counts at least one leak.
proof fn lemma_faded_segment_counts(segs: Seq<SegmentView>, j: int)
    requires
        0 <= j < segs.len(),
        segs[j] matches SegmentView::Para { open, .. } && fading(open),
    ensures
        leak_count(segs) >= 1,
    decreases segs.len(),
{
    if j < segs.len() - 1 {
        assert(segs.drop_last()[j] == segs[j]);
        lemma_faded_segment_counts(segs.drop_last(), j);
    }
}

/// The leaks of all pages are at least those of each page.
proof fn lemma_page_leaks_counted(pages: Seq<(Seq<char>, Seq<SegmentView>)>, i: int)
    requires
        0 <= i < pages.len(),
    ensures
        total_leaks(pages) >= leak_count(pages[i].1),
    decreases pages.len(),
{
    if i < pages.len() - 1 {
        assert(pages.drop_last()[i] == pages[i]);
        lemma_page_leaks_counted(pages.drop_last(), i);
    }
}

/// What the report counts of the pages does not depend on the edition it is
/// read for: two reports of one archive, for any two languages, have the
/// same entries, first entry, text and neutral paragraphs, and leftover
/// fading styles.
pub proof fn law_counts_do_not_depend_on_language(
    files: Seq<ZipFileView>,
    lang1: Lang,
    r1: Report,
    lang2: Lang,
    r2: Report,
)
    requires
        report_of(files, lang1, r1),
        report_of(files, lang2, r2),
    ensures
        r1.entries == r2.entries,
        r1.first_entry@ == r2.first_entry@,
        r1.first_entry_is_stored == r2.first_entry_is_stored,
        r1.content_paragraphs == r2.content_paragraphs,
        r1.neutral_paragraphs == r2.neutral_paragraphs,
        r1.fading_style_leaks == r2.fading_style_leaks,
{
}

/// A paragraph that still fades, on any page and in either edition, is
/// reported: the leak count is not zero, the report is not clean, and there
/// is a fatal issue.
pub proof fn law_faded_paragraph_is_reported(
    files: Seq<ZipFileView>,
    lang: Lang,
    r: Report,
    i: int,
    j: int,
)
    requires
        report_of(files, lang, r),
        0 <= i < text_pages(files).len(),
        0 <= j < text_pages(files)[i].1.len(),
        text_pages(files)[i].1[j] matches SegmentView::Para { open, .. } && fading(open),
    ensures
        r.fading_style_leaks >= 1,
        !clean(r),
        fatal_texts(r).len() > 0,
{
    lemma_faded_segment_counts(text_pages(files)[i].1, j);
    lemma_page_leaks_counted(text_pages(files), i);
}

/// An archive is compliant only with `mimetype` first and stored; one whose
/// first entry is compressed has a fatal issue.
pub proof fn law_compliance_needs_stored_mimetype(r: Report)
    ensures
        spec_compliant(r) ==> r.first_entry@ == "mimetype"@ && r.first_entry_is_stored,
        !r.first_entry_is_stored ==> !spec_compliant(r) && fatal_texts(r).len() > 0,
        r.first_entry@ != "mimetype"@ ==> !spec_compliant(r) && fatal_texts(r).len() > 0,
{
}

/// The fatal issues are exactly the failures: there is none just when the
/// archive is compliant, no fading style is left and no page looks
/// misjudged. A clean report has no warning either.
pub proof fn law_fatal_issues_are_the_failures(r: Report)
    ensures
        fatal_texts(r).len() == 0 <==> (spec_compliant(r) && r.fading_style_leaks == 0
            && r.misclassified_pages@.len() == 0),
        clean(r) ==> warning_texts(r).len() == 0,
{
}

/// The report of an EPUB that `write` made is compliant, in either edition.
pub proof fn law_written_epub_is_compliant(es: Seq<(Seq<char>, Seq<u8>)>, lang: Lang, r: Report)
    requires
        report_of(crate::epub::epub_files(es), lang, r),
    ensures
        spec_compliant(r),
{
    crate::epub::law_mimetype_first_and_once(es);
    reveal_strlit("mimetype");
}

// ------------------------------------------------------------------ reading back

/// The counts of one page.
struct PageCounts {
    content: usize,
    neutral: usize,
    leaks: usize,
    suspects: usize,
}

proof fn lemma_samples_push(sus: Seq<Seq<char>>, x: Seq<char>)
    ensures
        samples_of(sus.push(x)) == if sus.len() < suspect_samples_max() {
            samples_of(sus).push(sample_of(x, sample_chars()))
        } else {
            samples_of(sus)
        },
        samples_of(sus).len() == if sus.len() < suspect_samples_max() {
            sus.len()
        } else {
            suspect_samples_max()
        },
{
    if sus.len() < suspect_samples_max() {
        assert(sus.push(x).take(sus.len() as int + 1) =~= sus.take(sus.len() as int).push(x));
        assert(samples_of(sus.push(x)) =~= samples_of(sus).push(sample_of(x, sample_chars())));
    } else {
        assert(sus.push(x).take(10) =~= sus.take(10));
    }
}

/// Counts one page and adds samples of its suspect paragraphs while fewer
/// than ten are kept.
fn count_page(segs: &Vec<Segment>, lang: Lang, samples: &mut Vec<String>, Ghost(before): Ghost<Seq<Seq<char>>>) -> (r: PageCounts)
    requires
        string_views(old(samples)@) == samples_of(before),
    ensures
        r.content == content_count(seg_views(segs@)),
        r.neutral == neutral_para_count(seg_views(segs@)),
        r.leaks == leak_count(seg_views(segs@)),
        r.suspects == suspects(seg_views(segs@), lang).len(),
        string_views(final(samples)@) == samples_of(before + suspects(seg_views(segs@), lang)),
{
    let ghost views = seg_views(segs@);
    let mut c = PageCounts { content: 0, neutral: 0, leaks: 0, suspects: 0 };
    let mut k: usize = 0;
    while k < segs.len()
        invariant
            k <= segs.len(),
            views == seg_views(segs@),
            c.content == content_count(views.take(k as int)),
            c.neutral == neutral_para_count(views.take(k as int)),
            c.leaks == leak_count(views.take(k as int)),
            c.suspects == suspects(views.take(k as int), lang).len(),
            c.content + c.neutral <= k,
            c.leaks <= k,
            c.suspects <= k,
            string_views(samples@) == samples_of(before + suspects(views.take(k as int), lang)),
        decreases segs.len() - k,
    {
        let ghost cur = views.take(k + 1);
        let ghost sus_before = before + suspects(views.take(k as int), lang);
        proof {
            assert(cur.drop_last() =~= views.take(k as int));
            assert(cur.last() == segs@[k as int]@);
        }
        if let Segment::Para { open, inner } = &segs[k] {
            let open_chars = chars_of(open.as_str());
            let inner_chars = chars_of(inner.as_str());
            if has_fading_style_chars(&open_chars) {
                c.leaks += 1;
            }
            if is_neutral_chars(&inner_chars) {
                c.neutral += 1;
            } else {
                c.content += 1;
                if lang == Lang::Zh && has_kana_chars(&inner_chars) {
                    c.suspects += 1;
                    proof {
                        lemma_samples_push(sus_before, inner@);
                    }
                    if samples.len() < 10 {
                        let s = sample(&inner_chars, 60);
                        samples.push(to_string(&s));
                    }
                    proof {
                        let after = sus_before.push(inner@);
                        lemma_samples_push(sus_before, inner@);
                        assert(before + suspects(cur, lang) =~= after);
                        assert(string_views(samples@) =~= samples_of(after));
                    }
                }
            }
        }
        proof {
            assert(before + suspects(cur, lang) =~= before + suspects(cur, lang));
        }
        k += 1;
    }
    assert(views.take(segs.len() as int) =~= views);
    c
}

/// Reads a finished archive back and counts what it holds.
///
/// Every file is opened; every text file (`.xhtml`, `.html`) is read out,
/// cut into paragraphs and counted;
/// in the Chinese edition, text paragraphs with kana are suspects, and a page
/// with at least five text paragraphs of which more than a third are suspects
/// is reported as misjudged.
pub fn inspect(archive: Vec<u8>, lang: Lang) -> (r: Result<Report, ArchiveError>)
    ensures
        r matches Ok(rep) ==> texts_are_utf8(zip_contents(archive@)) && report_of(
            zip_contents(archive@),
            lang,
            rep,
        ),
        r matches Err(ArchiveError::Empty) ==> zip_contents(archive@).len() == 0,
        r matches Err(ArchiveError::NotText(name)) ==> exists|i: int|
            0 <= i < zip_contents(archive@).len() && #[trigger] zip_contents(archive@)[i].0 == name@
                && is_text_name(name@) && !valid_utf8(zip_contents(archive@)[i].2),
        r matches Err(ArchiveError::TooLarge) ==> !counts_fit(zip_contents(archive@), lang),
        r matches Err(ArchiveError::Zip(_)) ==> !zip_opens(archive@) || (exists|i: int|
            0 <= i < zip_contents(archive@).len() && !#[trigger] entry_opens(archive@, i)) || (exists|
            i: int,
        |
            0 <= i < zip_contents(archive@).len() && is_text_name(zip_contents(archive@)[i].0)
                && !#[trigger] entry_reads(archive@, i)),
        r is Ok <==> inspect_succeeds(archive@, lang),
{
    let ghost bytes = archive@;
    let mut a = match crate::epub::archive_open(archive) {
        Ok(a) => a,
        Err(e) => return Err(ArchiveError::Zip(e)),
    };
    let ghost files = archive_files(a);
    let n = crate::epub::archive_len(&a);
    if n == 0 {
        return Err(ArchiveError::Empty);
    }
    let (first_entry, first_entry_is_stored) = match archive_probe(&mut a, 0) {
        Ok(e) => e,
        Err(e) => return Err(ArchiveError::Zip(e)),
    };
    let mut content: usize = 0;
    let mut neutral_total: usize = 0;
    let mut leaks: usize = 0;
    let mut suspect_count: usize = 0;
    let mut samples: Vec<String> = Vec::new();
    let mut misjudged: Vec<String> = Vec::new();
    let mut i: usize = 0;
    proof {
        assert(files.take(0) =~= Seq::<ZipFileView>::empty());
        assert(string_views(samples@) =~= samples_of(Seq::<Seq<char>>::empty()));
        assert(string_views(misjudged@) =~= Seq::<Seq<char>>::empty());
    }
    while i < n
        invariant
            i <= n,
            n == files.len(),
            n > 0,
            files == archive_files(a),
            files == zip_contents(bytes),
            bytes == archive@,
            bytes == archive_source(a),
            zip_opens(bytes),
            entry_opens(bytes, 0),
            forall|j: int| 0 <= j < i ==> #[trigger] entry_opens(bytes, j),
            forall|j: int| 0 <= j < i && is_text_name(files[j].0) ==> #[trigger] entry_reads(bytes, j),
            first_entry@ == files[0].0,
            first_entry_is_stored == files[0].1,
            forall|j: int| 0 <= j < i && is_text_name(#[trigger] files[j].0) ==> valid_utf8(files[j].2),
            content == total_content(text_pages(files.take(i as int))),
            neutral_total == total_neutral(text_pages(files.take(i as int))),
            leaks == total_leaks(text_pages(files.take(i as int))),
            suspect_count == all_suspects(text_pages(files.take(i as int)), lang).len(),
            string_views(samples@) == samples_of(all_suspects(text_pages(files.take(i as int)), lang)),
            string_views(misjudged@) == misjudged_pages(text_pages(files.take(i as int)), lang),
        decreases n - i,
    {
        let ghost prefix = files.take(i + 1);
        proof {
            assert(prefix.drop_last() =~= files.take(i as int));
            assert(prefix.last() == files[i as int]);
        }
        let (name, _) = match archive_probe(&mut a, i) {
            Ok(e) => e,
            Err(e) => return Err(ArchiveError::Zip(e)),
        };
        if let crate::pipeline::Kind::Text = crate::pipeline::classify(name.as_str()) {
            let (_, _, data) = match archive_entry(&mut a, i) {
                Ok(e) => e,
                Err(e) => return Err(ArchiveError::Zip(e)),
            };
            let text = match crate::pipeline::utf8_text(data.as_slice()) {
                Some(t) => t,
                None => {
                    proof {
                        assert(files[i as int].0 == name@);
                    }
                    return Err(ArchiveError::NotText(name));
                },
            };
            let segs = tokenize_chars(&chars_of(text));
            let ghost pages = text_pages(files.take(i as int));
            let page = count_page(&segs, lang, &mut samples, Ghost(all_suspects(pages, lang)));
            proof {
                let segv = tokens(decode_utf8(files[i as int].2));
                assert(seg_views(segs@) == segv);
                assert(text_pages(prefix) == pages.push((files[i as int].0, segv)));
                assert(text_pages(prefix).drop_last() =~= pages);
                assert(all_suspects(text_pages(prefix), lang) == all_suspects(pages, lang)
                    + suspects(segv, lang));
                lemma_totals_grow(files, i + 1, lang);
            }
            content = match content.checked_add(page.content) {
                Some(v) => v,
                None => return Err(ArchiveError::TooLarge),
            };
            neutral_total = match neutral_total.checked_add(page.neutral) {
                Some(v) => v,
                None => return Err(ArchiveError::TooLarge),
            };
            leaks = match leaks.checked_add(page.leaks) {
                Some(v) => v,
                None => return Err(ArchiveError::TooLarge),
            };
            suspect_count = match suspect_count.checked_add(page.suspects) {
                Some(v) => v,
                None => {
                    return Err(ArchiveError::TooLarge);
                },
            };
            if page.content >= 5 && page.suspects > page.content / 3 {
                misjudged.push(name);
            }
            proof {
                assert(string_views(misjudged@) =~= misjudged_pages(text_pages(prefix), lang));
            }
        }
        i += 1;
    }
    assert(files.take(n as int) =~= files);
    Ok(
        Report {
            entries: n,
            first_entry,
            first_entry_is_stored,
            content_paragraphs: content,
            neutral_paragraphs: neutral_total,
            fading_style_leaks: leaks,
            suspect_count,
            suspect_samples: samples,
            misclassified_pages: misjudged,
        },
    )
}

} // verus!
