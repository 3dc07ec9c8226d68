//! Assembles one edition from the source archive: each entry goes to
//! [`crate::split`] or [`crate::metadata`] by its kind, and every other entry
//! is copied unchanged.
use vstd::prelude::*;
use vstd::utf8::{decode_utf8, encode_utf8, valid_utf8};

use crate::epub::Entry;
use crate::lang::Lang;
use crate::markup::{element_span, element_text_of, para_count, tokens};
use crate::metadata::{book_title_view, lang_attr, law_ncx_declares_its_language, law_ncx_names_the_edition, ncx_labelled, rewrite_ncx_chars, rewrite_ncx_of, rewrite_opf_chars, rewrite_opf_of, uid_text, uid_text_chars};
use crate::split::{
    lemma_paragraph_kinds, neutral_count, original_count, split_document, split_stats, split_text,
    translation_count, Stats,
};
use crate::text::{chars_of, contains, ends_with, first_match, has_suffix, lemma_first_match, lemma_first_match_is, lemma_first_match_skip, to_string};

verus! {

/// The split of a whole book.
pub struct BookStats {
    /// Where the paragraphs of all text files went, summed.
    pub paragraphs: Stats,
    /// The text files with no text left in the target language (there should
    /// be none in a well-formed source).
    pub empty_pages: Vec<String>,
}

impl BookStats {
    /// Adds the counts of one page, and notes the page when its text is all
    /// gone in the target language.
    fn absorb(&mut self, page: &String, part: &Stats)
        requires
            old(self).paragraphs.jp_kept + part.jp_kept <= usize::MAX,
            old(self).paragraphs.zh_kept + part.zh_kept <= usize::MAX,
            old(self).paragraphs.neutral_kept + part.neutral_kept <= usize::MAX,
            old(self).paragraphs.dropped + part.dropped <= usize::MAX,
        ensures
            final(self).paragraphs.jp_kept == old(self).paragraphs.jp_kept + part.jp_kept,
            final(self).paragraphs.zh_kept == old(self).paragraphs.zh_kept + part.zh_kept,
            final(self).paragraphs.neutral_kept == old(self).paragraphs.neutral_kept
                + part.neutral_kept,
            final(self).paragraphs.dropped == old(self).paragraphs.dropped + part.dropped,
            final(self).paragraphs.had_content_paragraphs == (
            old(self).paragraphs.had_content_paragraphs || part.had_content_paragraphs),
            final(self).empty_pages@ == if part.had_content_paragraphs && part.jp_kept
                + part.zh_kept == 0 {
                old(self).empty_pages@.push(*page)
            } else {
                old(self).empty_pages@
            },
    {
        self.paragraphs.add(part);
        if part.is_empty_page() {
            self.empty_pages.push(page.clone());
        }
    }
}

/// How an entry is handled.
pub enum Kind {
    /// A text file, filtered by language.
    Text,
    /// The package metadata.
    Opf,
    /// The navigation.
    Ncx,
    /// Images, style sheets, `container.xml` and the like, copied as they are.
    Passthrough,
}

/// The kind of an entry, by the end of its name.
pub open spec fn kind_of(name: Seq<char>) -> Kind {
    if ends_with(name, ".xhtml"@) || ends_with(name, ".html"@) {
        Kind::Text
    } else if ends_with(name, ".opf"@) {
        Kind::Opf
    } else if ends_with(name, ".ncx"@) {
        Kind::Ncx
    } else {
        Kind::Passthrough
    }
}

/// The kind of an entry, by the end of its name.
pub fn classify(name: &str) -> (r: Kind)
    ensures
        r == kind_of(name@),
{
    let n = chars_of(name);
    if has_suffix(&n, &chars_of(".xhtml")) || has_suffix(&n, &chars_of(".html")) {
        Kind::Text
    } else if has_suffix(&n, &chars_of(".opf")) {
        Kind::Opf
    } else if has_suffix(&n, &chars_of(".ncx")) {
        Kind::Ncx
    } else {
        Kind::Passthrough
    }
}

/// The text of an entry, when it is a text file in UTF-8.
pub open spec fn text_doc(e: Entry) -> Option<Seq<char>> {
    if valid_utf8(e.1@) && kind_of(e.0@) is Text {
        Some(decode_utf8(e.1@))
    } else {
        None
    }
}

/// The identifier used when the source has none.
pub open spec fn fallback_identifier() -> Seq<char> {
    "novelia-epub-splitter"@
}

pub open spec fn opf_pred(source: Seq<Entry>) -> spec_fn(int) -> bool {
    |i: int| ends_with(source[i].0@, ".opf"@)
}

/// The identifier of the source: the text of the book's identifier
/// (`<dc:identifier id="uid">`) in the first OPF entry, when that entry is
/// UTF-8 and has one.
pub open spec fn base_identifier(source: Seq<Entry>) -> Seq<char> {
    match first_match(opf_pred(source), 0, source.len() as int) {
        None => fallback_identifier(),
        Some(i) => if valid_utf8(source[i].1@) {
            match uid_text(decode_utf8(source[i].1@)) {
                Some(t) => t,
                None => fallback_identifier(),
            }
        } else {
            fallback_identifier()
        },
    }
}

/// The bytes of an entry in the edition of `lang`. Entries that are not
/// UTF-8 are copied as they are: images and fonts are not text.
pub open spec fn converted(e: Entry, lang: Lang, base_id: Seq<char>) -> Seq<u8> {
    if !valid_utf8(e.1@) {
        e.1@
    } else {
        let t = decode_utf8(e.1@);
        match kind_of(e.0@) {
            Kind::Text => encode_utf8(split_text(tokens(t), lang)),
            Kind::Opf => encode_utf8(rewrite_opf_of(t, lang, base_id)),
            Kind::Ncx => encode_utf8(rewrite_ncx_of(t, lang)),
            Kind::Passthrough => e.1@,
        }
    }
}

/// Images, style sheets and every entry that is not UTF-8 go into both
/// editions byte for byte.
pub proof fn law_shared_entries_are_copied(e: Entry, lang: Lang, base_id: Seq<char>)
    requires
        !valid_utf8(e.1@) || kind_of(e.0@) is Passthrough,
    ensures
        converted(e, lang, base_id) == e.1@,
{
}

/// Every edition's navigation is rewritten for it, whatever the language: an
/// NCX entry in UTF-8 comes out in UTF-8, with the text of its `docTitle`
/// naming that edition's book (when the NCX has a `docTitle`).
pub proof fn law_ncx_entries_name_the_edition(e: Entry, lang: Lang, base_id: Seq<char>)
    requires
        kind_of(e.0@) is Ncx,
        valid_utf8(e.1@),
        element_span(ncx_labelled(decode_utf8(e.1@), lang), "docTitle"@) is Some,
    ensures
        valid_utf8(converted(e, lang, base_id)),
        element_text_of(decode_utf8(converted(e, lang, base_id)), "docTitle"@) == Some(
            "<text>"@ + book_title_view(lang) + "</text>"@,
        ),
{
    broadcast use vstd::utf8::encode_utf8_valid_utf8, vstd::utf8::encode_utf8_decode_utf8;

    law_ncx_names_the_edition(decode_utf8(e.1@), lang);
}

/// Every edition's navigation declares that edition's language: an NCX
/// entry in UTF-8 comes out in UTF-8 with no `xml:lang` of the other
/// language.
pub proof fn law_ncx_entries_declare_the_edition(e: Entry, lang: Lang, base_id: Seq<char>)
    requires
        kind_of(e.0@) is Ncx,
        valid_utf8(e.1@),
    ensures
        valid_utf8(converted(e, lang, base_id)),
        !contains(decode_utf8(converted(e, lang, base_id)), lang_attr(lang.other())),
{
    broadcast use vstd::utf8::encode_utf8_valid_utf8, vstd::utf8::encode_utf8_decode_utf8;

    law_ncx_declares_its_language(decode_utf8(e.1@), lang);
}

/// Sums over the text files of a count of their paragraphs.
pub open spec fn sum_original(src: Seq<Entry>) -> nat
    decreases src.len(),
{
    if src.len() == 0 {
        0
    } else {
        sum_original(src.drop_last()) + match text_doc(src.last()) {
            Some(d) => original_count(tokens(d)),
            None => 0,
        }
    }
}

/// The Chinese paragraphs of all text files.
pub open spec fn sum_translation(src: Seq<Entry>) -> nat
    decreases src.len(),
{
    if src.len() == 0 {
        0
    } else {
        sum_translation(src.drop_last()) + match text_doc(src.last()) {
            Some(d) => translation_count(tokens(d)),
            None => 0,
        }
    }
}

/// The neutral paragraphs of all text files.
pub open spec fn sum_neutral(src: Seq<Entry>) -> nat
    decreases src.len(),
{
    if src.len() == 0 {
        0
    } else {
        sum_neutral(src.drop_last()) + match text_doc(src.last()) {
            Some(d) => neutral_count(tokens(d)),
            None => 0,
        }
    }
}

/// Some text file had a paragraph of text.
pub open spec fn any_content(src: Seq<Entry>) -> bool {
    sum_original(src) + sum_translation(src) > 0
}

/// The document had text and none of it is in `lang`.
pub open spec fn emptied(d: Seq<char>, lang: Lang) -> bool {
    let o = original_count(tokens(d));
    let t = translation_count(tokens(d));
    if lang == Lang::Ja {
        o == 0 && t > 0
    } else {
        t == 0 && o > 0
    }
}

/// The names of the text files that the edition of `lang` empties, in order.
pub open spec fn emptied_pages(src: Seq<Entry>, lang: Lang) -> Seq<Seq<char>>
    decreases src.len(),
{
    if src.len() == 0 {
        Seq::empty()
    } else {
        let rest = emptied_pages(src.drop_last(), lang);
        match text_doc(src.last()) {
            Some(d) => if emptied(d, lang) {
                rest.push(src.last().0@)
            } else {
                rest
            },
            None => rest,
        }
    }
}

/// A sum over the text entries of a field of their pages' statistics.
pub open spec fn page_sum(src: Seq<Entry>, pages: Seq<Stats>, f: spec_fn(Stats) -> int) -> int
    decreases src.len(),
{
    if src.len() == 0 || pages.len() != src.len() {
        0
    } else {
        page_sum(src.drop_last(), pages.drop_last(), f) + if text_doc(src.last()) is Some {
            f(pages.last())
        } else {
            0
        }
    }
}

/// Some text entry's page had a paragraph of text.
pub open spec fn pages_had_content(src: Seq<Entry>, pages: Seq<Stats>) -> bool {
    exists|i: int|
        0 <= i < src.len() && text_doc(src[i]) is Some && (#[trigger] pages[i]).had_content_paragraphs
}

/// The names of the text entries whose page lost all its text, in order.
pub open spec fn emptied_names(src: Seq<Entry>, pages: Seq<Stats>) -> Seq<Seq<char>>
    decreases src.len(),
{
    if src.len() == 0 || pages.len() != src.len() {
        Seq::empty()
    } else {
        let rest = emptied_names(src.drop_last(), pages.drop_last());
        let p = pages.last();
        if text_doc(src.last()) is Some && p.had_content_paragraphs && p.jp_kept + p.zh_kept == 0 {
            rest.push(src.last().0@)
        } else {
            rest
        }
    }
}

proof fn lemma_page_sums(src: Seq<Entry>, lang: Lang, pages: Seq<Stats>)
    requires
        pages.len() == src.len(),
        forall|i: int|
            0 <= i < src.len() ==> (text_doc(#[trigger] src[i]) matches Some(d) ==> split_stats(
                d,
                lang,
                pages[i],
            )),
    ensures
        page_sum(src, pages, |p: Stats| p.jp_kept as int) == (if lang == Lang::Ja {
            sum_original(src)
        } else {
            0
        }),
        page_sum(src, pages, |p: Stats| p.zh_kept as int) == (if lang == Lang::Zh {
            sum_translation(src)
        } else {
            0
        }),
        page_sum(src, pages, |p: Stats| p.neutral_kept as int) == sum_neutral(src),
        page_sum(src, pages, |p: Stats| p.dropped as int) == (if lang == Lang::Ja {
            sum_translation(src)
        } else {
            sum_original(src)
        }),
        pages_had_content(src, pages) == any_content(src),
        emptied_names(src, pages) == emptied_pages(src, lang),
    decreases src.len(),
{
    if src.len() > 0 {
        let rest = src.drop_last();
        let pr = pages.drop_last();
        assert forall|i: int| 0 <= i < rest.len() implies (text_doc(#[trigger] rest[i]) matches Some(d)
            ==> split_stats(d, lang, pr[i])) by {
            assert(rest[i] == src[i] && pr[i] == pages[i]);
        }
        lemma_page_sums(rest, lang, pr);
        let last = src.len() - 1;
        assert(src.last() == src[last] && pages.last() == pages[last]);
        if let Some(d) = text_doc(src.last()) {
            lemma_paragraph_kinds(tokens(d));
        }
        if pages_had_content(src, pages) {
            let i = choose|i: int|
                0 <= i < src.len() && text_doc(src[i]) is Some && (#[trigger] pages[i]).had_content_paragraphs;
            if i < last {
                assert(rest[i] == src[i] && pr[i] == pages[i]);
                assert(pages_had_content(rest, pr));
            }
        }
        if pages_had_content(rest, pr) {
            let i = choose|i: int|
                0 <= i < rest.len() && text_doc(rest[i]) is Some && (#[trigger] pr[i]).had_content_paragraphs;
            assert(rest[i] == src[i] && pr[i] == pages[i]);
            assert(pages_had_content(src, pages));
        }
        if text_doc(src.last()) matches Some(d) && pages[last].had_content_paragraphs {
            assert(pages_had_content(src, pages));
        }
    }
}

/// The statistics of a book are those of its text files' pages summed: for
/// any statistics that `split_document` reports for each text entry, the
/// counts are their sums, the book had text if some page had, and the
/// emptied pages are those whose page lost all its text, in order.
pub proof fn law_book_stats_are_page_sums(src: Seq<Entry>, lang: Lang, s: BookStats, pages: Seq<Stats>)
    requires
        book_stats(src, lang, s),
        pages.len() == src.len(),
        forall|i: int|
            0 <= i < src.len() ==> (text_doc(#[trigger] src[i]) matches Some(d) ==> split_stats(
                d,
                lang,
                pages[i],
            )),
    ensures
        s.paragraphs.jp_kept == page_sum(src, pages, |p: Stats| p.jp_kept as int),
        s.paragraphs.zh_kept == page_sum(src, pages, |p: Stats| p.zh_kept as int),
        s.paragraphs.neutral_kept == page_sum(src, pages, |p: Stats| p.neutral_kept as int),
        s.paragraphs.dropped == page_sum(src, pages, |p: Stats| p.dropped as int),
        s.paragraphs.had_content_paragraphs == pages_had_content(src, pages),
        s.empty_pages@.map_values(|n: String| n@) == emptied_names(src, pages),
{
    lemma_page_sums(src, lang, pages);
}

/// The total size of the entries' data.
pub open spec fn total_size(src: Seq<Entry>) -> nat
    decreases src.len(),
{
    if src.len() == 0 {
        0
    } else {
        total_size(src.drop_last()) + src.last().1@.len()
    }
}

/// The statistics of a whole book.
pub open spec fn book_stats(src: Seq<Entry>, lang: Lang, s: BookStats) -> bool {
    &&& s.paragraphs.jp_kept == (if lang == Lang::Ja { sum_original(src) } else { 0 })
    &&& s.paragraphs.zh_kept == (if lang == Lang::Zh { sum_translation(src) } else { 0 })
    &&& s.paragraphs.neutral_kept == sum_neutral(src)
    &&& s.paragraphs.dropped == (if lang == Lang::Ja {
        sum_translation(src)
    } else {
        sum_original(src)
    })
    &&& s.paragraphs.had_content_paragraphs == any_content(src)
    &&& s.empty_pages@.map_values(|n: String| n@) == emptied_pages(src, lang)
}

/// `std::str::from_utf8`, keeping only whether it succeeded.
#[verifier::external_body]
pub(crate) fn utf8_text(data: &[u8]) -> (r: Option<&str>)
    ensures
        r is Some <==> valid_utf8(data@),
        r matches Some(s) ==> s@ == decode_utf8(data@),
{
    std::str::from_utf8(data).ok()
}

/// The UTF-8 encoding of a string.
fn utf8_bytes(s: String) -> (r: Vec<u8>)
    ensures
        r@ == encode_utf8(s@),
{
    s.as_str().as_bytes_vec()
}

/// A copy of some bytes.
fn copy_bytes(data: &Vec<u8>) -> (r: Vec<u8>)
    ensures
        r@ == data@,
{
    vstd::slice::slice_to_vec(data.as_slice())
}

/// The identifier of the source: the book's identifier
/// (`<dc:identifier id="uid">`) in its first OPF; a fixed one when there is
/// no OPF or it has no such identifier.
pub fn original_identifier(source: &[Entry]) -> (r: String)
    ensures
        r@ == base_identifier(source@),
{
    let ghost p = opf_pred(source@);
    let opf_ext = chars_of(".opf");
    let mut i: usize = 0;
    while i < source.len()
        invariant
            i <= source.len(),
            p == opf_pred(source@),
            opf_ext@ == ".opf"@,
            forall|j: int| 0 <= j < i ==> !#[trigger] p(j),
        decreases source.len() - i,
    {
        if has_suffix(&chars_of(source[i].0.as_str()), &opf_ext) {
            proof {
                lemma_first_match_is(p, 0, i as int, source@.len() as int);
            }
            let found = match utf8_text(source[i].1.as_slice()) {
                None => None,
                Some(text) => uid_text_chars(&chars_of(text)),
            };
            return match found {
                Some(t) => to_string(&t),
                None => String::from_str("novelia-epub-splitter"),
            };
        }
        i += 1;
    }
    proof {
        lemma_first_match_skip(p, 0, i as int, source@.len() as int);
        lemma_first_match(p, i as int, source@.len() as int);
    }
    String::from_str("novelia-epub-splitter")
}

/// A document has no more characters than bytes.
proof fn lemma_encoded_len(cs: Seq<char>)
    ensures
        cs.len() <= encode_utf8(cs).len(),
    decreases cs.len(),
{
    if cs.len() > 0 {
        lemma_encoded_len(cs.drop_first());
    }
}

/// A document has no more paragraphs than characters.
proof fn lemma_para_bound(s: Seq<char>)
    ensures
        para_count(tokens(s)) <= s.len(),
{
    crate::markup::lemma_para_count_bound(s, 0);
}

/// The counts of a text file fit in its size.
proof fn lemma_doc_counts(e: Entry)
    ensures
        text_doc(e) matches Some(d) ==> original_count(tokens(d)) + translation_count(tokens(d))
            + neutral_count(tokens(d)) <= e.1@.len(),
{
    if let Some(d) = text_doc(e) {
        lemma_paragraph_kinds(tokens(d));
        lemma_para_bound(d);
        vstd::utf8::decode_utf8_encode_utf8(e.1@);
        lemma_encoded_len(d);
    }
}

proof fn lemma_sums_bounded(src: Seq<Entry>)
    ensures
        sum_original(src) + sum_translation(src) + sum_neutral(src) <= total_size(src),
    decreases src.len(),
{
    if src.len() > 0 {
        lemma_sums_bounded(src.drop_last());
        lemma_doc_counts(src.last());
    }
}

/// Builds the entries of the edition of `lang`, in the order of the source.
///
/// Text files are split by language, the OPF and the NCX are rewritten, and
/// everything else (and every entry that is not UTF-8) is copied unchanged.
pub fn build(source: &[Entry], lang: Lang) -> (r: (Vec<Entry>, BookStats))
    requires
        total_size(source@) <= usize::MAX,
    ensures
        r.0@.len() == source@.len(),
        forall|i: int|
            0 <= i < source@.len() ==> (#[trigger] r.0@[i]).0@ == source@[i].0@ && r.0@[i].1@
                == converted(source@[i], lang, base_identifier(source@)),
        book_stats(source@, lang, r.1),
{
    let base_id = original_identifier(source);
    let base_chars = chars_of(base_id.as_str());
    let mut out: Vec<Entry> = Vec::new();
    let mut stats = BookStats { paragraphs: Stats::default(), empty_pages: Vec::new() };
    let mut i: usize = 0;
    proof {
        assert(source@.take(0) =~= Seq::<Entry>::empty());
        assert(stats.empty_pages@.map_values(|n: String| n@) =~= Seq::<Seq<char>>::empty());
    }
    while i < source.len()
        invariant
            i <= source.len(),
            total_size(source@) <= usize::MAX,
            base_chars@ == base_identifier(source@),
            out@.len() == i,
            forall|j: int|
                0 <= j < i ==> (#[trigger] out@[j]).0@ == source@[j].0@ && out@[j].1@ == converted(
                    source@[j],
                    lang,
                    base_identifier(source@),
                ),
            book_stats(source@.take(i as int), lang, stats),
        decreases source.len() - i,
    {
        let ghost prefix = source@.take(i + 1);
        proof {
            assert(prefix.drop_last() =~= source@.take(i as int));
            assert(prefix.last() == source@[i as int]);
            lemma_sums_bounded(prefix);
            lemma_total_size_prefix(source@, i + 1);
            lemma_doc_counts(source@[i as int]);
        }
        let name = &source[i].0;
        let data = &source[i].1;
        let new_data = match utf8_text(data.as_slice()) {
            None => copy_bytes(data),
            Some(text) => match classify(name.as_str()) {
                Kind::Text => {
                    let (doc, page) = split_document(text, lang);
                    proof {
                        lemma_paragraph_kinds(tokens(text@));
                    }
                    stats.absorb(name, &page);
                    utf8_bytes(doc)
                },
                Kind::Opf => utf8_bytes(
                    to_string(&rewrite_opf_chars(&chars_of(text), lang, &base_chars)),
                ),
                Kind::Ncx => utf8_bytes(to_string(&rewrite_ncx_chars(&chars_of(text), lang))),
                Kind::Passthrough => copy_bytes(data),
            },
        };
        out.push((name.clone(), new_data));
        proof {
            assert(stats.empty_pages@.map_values(|n: String| n@) =~= emptied_pages(prefix, lang));
        }
        i += 1;
    }
    assert(source@.take(source@.len() as int) =~= source@);
    (out, stats)
}

proof fn lemma_total_size_prefix(src: Seq<Entry>, n: int)
    requires
        0 <= n <= src.len(),
    ensures
        total_size(src.take(n)) <= total_size(src),
    decreases src.len(),
{
    if n < src.len() {
        assert(src.drop_last().take(n) =~= src.take(n));
        lemma_total_size_prefix(src.drop_last(), n);
    } else {
        assert(src.take(n) =~= src);
    }
}

} // verus!
