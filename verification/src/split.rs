//! The core: filters a bilingual XHTML document down to one language by the
//! inline style of its paragraphs.
//!
//! A paragraph whose open tag carries the fading style is the Japanese
//! original; one without it is the Chinese translation; one whose content is
//! only an image or a blank line belongs to both.
use vstd::prelude::*;

use crate::lang::Lang;
use crate::markup::{
    fading, has_fading_style_chars, is_neutral_chars, neutral, p_close_pat, para_count, seg_views,
    strip_fading, strip_fading_chars, tokenize_chars, tokens, Segment, SegmentView,
};
use crate::metadata::{rewrite_raw_chars, rewrite_raw_of};
use crate::text::{chars_of, push_all, to_string};

verus! {

/// Where the paragraphs of one document (or of a whole book, summed) went.
#[derive(Clone, Copy)]
pub struct Stats {
    /// Japanese paragraphs kept.
    pub jp_kept: usize,
    /// Chinese paragraphs kept.
    pub zh_kept: usize,
    /// Paragraphs kept because they belong to no language (images, blank lines).
    pub neutral_kept: usize,
    /// Paragraphs dropped because they belong to the other language.
    pub dropped: usize,
    /// The document had a paragraph of text at all (images and blank lines
    /// are not text). Tells a page that was an image page from the start from
    /// a page whose text was all removed.
    pub had_content_paragraphs: bool,
}

impl Default for Stats {
    fn default() -> (r: Self)
        ensures
            r.jp_kept == 0 && r.zh_kept == 0 && r.neutral_kept == 0 && r.dropped == 0
                && !r.had_content_paragraphs,
    {
        Stats { jp_kept: 0, zh_kept: 0, neutral_kept: 0, dropped: 0, had_content_paragraphs: false }
    }
}

impl Stats {
    /// The paragraphs kept, of every kind.
    pub open spec fn kept(self) -> int {
        self.jp_kept + self.zh_kept + self.neutral_kept
    }

    /// The number of paragraphs left in the book, neutral ones included.
    pub fn paragraphs(&self) -> (r: usize)
        requires
            self.kept() <= usize::MAX,
        ensures
            r == self.kept(),
    {
        self.jp_kept + self.zh_kept + self.neutral_kept
    }

    /// The document had text, but none of it is left in the target language.
    ///
    /// A page that keeps only blank lines counts as emptied; an image page
    /// does not, since it never had text.
    pub fn is_empty_page(&self) -> (r: bool)
        ensures
            r == (self.had_content_paragraphs && self.jp_kept + self.zh_kept == 0),
    {
        self.had_content_paragraphs && self.jp_kept == 0 && self.zh_kept == 0
    }

    /// Adds another document's counts to these (for the whole book).
    pub fn add(&mut self, other: &Stats)
        requires
            old(self).jp_kept + other.jp_kept <= usize::MAX,
            old(self).zh_kept + other.zh_kept <= usize::MAX,
            old(self).neutral_kept + other.neutral_kept <= usize::MAX,
            old(self).dropped + other.dropped <= usize::MAX,
        ensures
            final(self).jp_kept == old(self).jp_kept + other.jp_kept,
            final(self).zh_kept == old(self).zh_kept + other.zh_kept,
            final(self).neutral_kept == old(self).neutral_kept + other.neutral_kept,
            final(self).dropped == old(self).dropped + other.dropped,
            final(self).had_content_paragraphs == (old(self).had_content_paragraphs
                || other.had_content_paragraphs),
    {
        self.jp_kept += other.jp_kept;
        self.zh_kept += other.zh_kept;
        self.neutral_kept += other.neutral_kept;
        self.dropped += other.dropped;
        self.had_content_paragraphs = self.had_content_paragraphs || other.had_content_paragraphs;
    }
}

// ------------------------------------------------------------------ the model

/// A paragraph belongs to no language.
pub open spec fn is_neutral_seg(seg: SegmentView) -> bool {
    seg matches SegmentView::Para { inner, .. } && neutral(inner)
}

/// A paragraph of Japanese text: faded, and not neutral.
pub open spec fn is_original_seg(seg: SegmentView) -> bool {
    seg matches SegmentView::Para { open, inner } && !neutral(inner) && fading(open)
}

/// A paragraph of Chinese text: not faded, and not neutral.
pub open spec fn is_translation_seg(seg: SegmentView) -> bool {
    seg matches SegmentView::Para { open, inner } && !neutral(inner) && !fading(open)
}

/// The number of neutral paragraphs among the segments.
pub open spec fn neutral_count(segs: Seq<SegmentView>) -> nat
    decreases segs.len(),
{
    if segs.len() == 0 {
        0
    } else {
        neutral_count(segs.drop_last()) + if is_neutral_seg(segs.last()) {
            1nat
        } else {
            0nat
        }
    }
}

/// The number of Japanese paragraphs among the segments.
pub open spec fn original_count(segs: Seq<SegmentView>) -> nat
    decreases segs.len(),
{
    if segs.len() == 0 {
        0
    } else {
        original_count(segs.drop_last()) + if is_original_seg(segs.last()) {
            1nat
        } else {
            0nat
        }
    }
}

/// The number of Chinese paragraphs among the segments.
pub open spec fn translation_count(segs: Seq<SegmentView>) -> nat
    decreases segs.len(),
{
    if segs.len() == 0 {
        0
    } else {
        translation_count(segs.drop_last()) + if is_translation_seg(segs.last()) {
            1nat
        } else {
            0nat
        }
    }
}

/// The text a segment leaves in the edition of `lang`: the text between the
/// paragraphs rewritten for the language; neutral paragraphs as they are;
/// Japanese paragraphs in the Japanese edition with the fading removed from
/// the open tag; Chinese paragraphs in the Chinese edition as they are; and
/// nothing of the other language's paragraphs.
pub open spec fn kept_text(seg: SegmentView, lang: Lang) -> Seq<char> {
    match seg {
        SegmentView::Raw(t) => rewrite_raw_of(t, lang),
        SegmentView::Para { open, inner } => if neutral(inner) {
            open + inner + p_close_pat()
        } else if fading(open) {
            if lang == Lang::Ja {
                strip_fading(open) + inner + p_close_pat()
            } else {
                Seq::empty()
            }
        } else {
            if lang == Lang::Zh {
                open + inner + p_close_pat()
            } else {
                Seq::empty()
            }
        },
    }
}

/// The edition's text of a sequence of segments.
pub open spec fn split_text(segs: Seq<SegmentView>, lang: Lang) -> Seq<char>
    decreases segs.len(),
{
    if segs.len() == 0 {
        Seq::empty()
    } else {
        split_text(segs.drop_last(), lang) + kept_text(segs.last(), lang)
    }
}

/// The statistics `split_document` reports for a document.
pub open spec fn split_stats(doc: Seq<char>, lang: Lang, s: Stats) -> bool {
    let segs = tokens(doc);
    &&& s.jp_kept == (if lang == Lang::Ja { original_count(segs) } else { 0 })
    &&& s.zh_kept == (if lang == Lang::Zh { translation_count(segs) } else { 0 })
    &&& s.neutral_kept == neutral_count(segs)
    &&& s.dropped == (if lang == Lang::Ja { translation_count(segs) } else { original_count(segs) })
    &&& s.had_content_paragraphs == (original_count(segs) + translation_count(segs) > 0)
}

// ------------------------------------------------------------------ the code

/// Appends `open + inner + "</p>"`.
fn write_para(out: &mut Vec<char>, open: &Vec<char>, inner: &Vec<char>)
    ensures
        final(out)@ == old(out)@ + open@ + inner@ + p_close_pat(),
{
    push_all(out, open);
    push_all(out, inner);
    out.push('<');
    out.push('/');
    out.push('p');
    out.push('>');
    assert(final(out)@ =~= old(out)@ + open@ + inner@ + p_close_pat());
}

/// Filters one XHTML document down to one language.
///
/// Paragraphs are kept or dropped here; the text between them (`<html>`,
/// `<head>`, headings, containers) stays, rewritten for the language by
/// [`crate::metadata::rewrite_raw`].
pub fn split_document(doc: &str, lang: Lang) -> (r: (String, Stats))
    ensures
        r.0@ == split_text(tokens(doc@), lang),
        split_stats(doc@, lang, r.1),
{
    let chars = chars_of(doc);
    let segs = tokenize_chars(&chars);
    let ghost views = seg_views(segs@);
    let mut out: Vec<char> = Vec::new();
    let mut jp: usize = 0;
    let mut zh: usize = 0;
    let mut neutral_kept: usize = 0;
    let mut faded: usize = 0;
    let mut plain: usize = 0;
    let mut i: usize = 0;
    while i < segs.len()
        invariant
            i <= segs.len(),
            views == seg_views(segs@),
            views == tokens(doc@),
            out@ == split_text(views.take(i as int), lang),
            neutral_kept == neutral_count(views.take(i as int)),
            faded == original_count(views.take(i as int)),
            plain == translation_count(views.take(i as int)),
            jp == (if lang == Lang::Ja { faded } else { 0 }),
            zh == (if lang == Lang::Zh { plain } else { 0 }),
            neutral_kept + faded + plain <= i,
        decreases segs.len() - i,
    {
        proof {
            let cur = views.take(i + 1);
            assert(cur.drop_last() =~= views.take(i as int));
            assert(cur.last() == segs@[i as int]@);
        }
        match &segs[i] {
            Segment::Raw(t) => {
                let rewritten = rewrite_raw_chars(&chars_of(t.as_str()), lang);
                push_all(&mut out, &rewritten);
            },
            Segment::Para { open, inner } => {
                let open_chars = chars_of(open.as_str());
                let inner_chars = chars_of(inner.as_str());
                if is_neutral_chars(&inner_chars) {
                    write_para(&mut out, &open_chars, &inner_chars);
                    neutral_kept += 1;
                } else if has_fading_style_chars(&open_chars) {
                    faded += 1;
                    if lang == Lang::Ja {
                        write_para(&mut out, &strip_fading_chars(&open_chars), &inner_chars);
                        jp += 1;
                    }
                } else {
                    plain += 1;
                    if lang == Lang::Zh {
                        write_para(&mut out, &open_chars, &inner_chars);
                        zh += 1;
                    }
                }
            },
        }
        proof {
            assert(out@ =~= split_text(views.take(i + 1), lang));
        }
        i += 1;
    }
    assert(views.take(segs.len() as int) =~= views);
    let stats = Stats {
        jp_kept: jp,
        zh_kept: zh,
        neutral_kept: neutral_kept,
        dropped: if lang == Lang::Ja {
            plain
        } else {
            faded
        },
        had_content_paragraphs: faded + plain > 0,
    };
    (to_string(&out), stats)
}

// ------------------------------------------------------------------ laws

/// Every paragraph is neutral, Japanese or Chinese.
pub proof fn lemma_paragraph_kinds(segs: Seq<SegmentView>)
    ensures
        para_count(segs) == neutral_count(segs) + original_count(segs) + translation_count(segs),
    decreases segs.len(),
{
    if segs.len() > 0 {
        lemma_paragraph_kinds(segs.drop_last());
    }
}

/// Every paragraph of the document has a place: it is kept in this edition
/// (neutral paragraphs in both), or dropped because it belongs to the other.
pub proof fn law_paragraphs_are_conserved(doc: Seq<char>, lang: Lang, s: Stats)
    requires
        split_stats(doc, lang, s),
    ensures
        s.kept() + s.dropped == para_count(tokens(doc)),
{
    lemma_paragraph_kinds(tokens(doc));
}

/// The two editions split the paragraphs between them: what the Japanese
/// edition keeps of the original the Chinese one drops, and the other way
/// round, and both keep the same neutral paragraphs.
pub proof fn law_editions_are_complementary(doc: Seq<char>, ja: Stats, zh: Stats)
    requires
        split_stats(doc, Lang::Ja, ja),
        split_stats(doc, Lang::Zh, zh),
    ensures
        ja.jp_kept == zh.dropped,
        zh.zh_kept == ja.dropped,
        ja.zh_kept == 0,
        zh.jp_kept == 0,
        ja.neutral_kept == zh.neutral_kept,
        ja.had_content_paragraphs == zh.had_content_paragraphs,
{
}

/// A document with no text paragraphs (only images or blank lines) is never
/// reported as an emptied page, in either edition.
pub proof fn law_image_pages_are_not_emptied(doc: Seq<char>, lang: Lang, s: Stats)
    requires
        split_stats(doc, lang, s),
        original_count(tokens(doc)) + translation_count(tokens(doc)) == 0,
    ensures
        !(s.had_content_paragraphs && s.jp_kept + s.zh_kept == 0),
{
}

} // verus!
