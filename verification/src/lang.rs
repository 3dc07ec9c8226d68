//! The two languages the splitter produces, and everything that depends on the
//! language alone (file-name suffix, `dc:language`, `xml:lang`).
use vstd::prelude::*;

use crate::text;

verus! {

/// A target language of the split.
#[derive(Clone, Copy, Debug, PartialEq, Eq, Structural)]
pub enum Lang {
    /// The Japanese original.
    Ja,
    /// The Chinese translation.
    Zh,
}

impl Lang {
    /// Both languages, in the order the books are produced.
    pub const ALL: [Lang; 2] = [Lang::Ja, Lang::Zh];

    /// The suffix of the output file name (`book.ja.epub`).
    pub open spec fn tag_view(self) -> Seq<char> {
        match self {
            Lang::Ja => seq!['j', 'a'],
            Lang::Zh => seq!['z', 'h'],
        }
    }

    /// The language tag written to `dc:language` and `xml:lang`.
    pub open spec fn dc_language_view(self) -> Seq<char> {
        match self {
            Lang::Ja => seq!['j', 'a'],
            Lang::Zh => seq!['z', 'h', '-', 'C', 'N'],
        }
    }

    /// The other language.
    pub open spec fn other(self) -> Lang {
        match self {
            Lang::Ja => Lang::Zh,
            Lang::Zh => Lang::Ja,
        }
    }

    /// The suffix of the output file name, such as `book.ja.epub`.
    pub fn tag(self) -> (r: &'static str)
        ensures
            r@ == self.tag_view(),
    {
        proof {
            reveal_strlit("ja");
            reveal_strlit("zh");
        }
        match self {
            Lang::Ja => "ja",
            Lang::Zh => "zh",
        }
    }

    /// The standard tag of the language: the `dc:language` of the OPF and the
    /// `xml:lang` of the XHTML files.
    pub fn dc_language(self) -> (r: &'static str)
        ensures
            r@ == self.dc_language_view(),
    {
        proof {
            reveal_strlit("ja");
            reveal_strlit("zh-CN");
        }
        match self {
            Lang::Ja => "ja",
            Lang::Zh => "zh-CN",
        }
    }
}

/// A Japanese kana: hiragana U+3041..U+3096, katakana U+30A1..U+30FA, or the
/// prolonged sound mark U+30FC.
pub open spec fn is_kana(c: char) -> bool {
    ('\u{3041}' <= c && c <= '\u{3096}') || ('\u{30A1}' <= c && c <= '\u{30FA}') || c == '\u{30FC}'
}

/// Some character of `s` is a kana.
pub open spec fn has_kana(s: Seq<char>) -> bool {
    exists|i: int| 0 <= i < s.len() && #[trigger] is_kana(s[i])
}

/// `is_kana` on one character.
pub fn kana_char(c: char) -> (r: bool)
    ensures
        r == is_kana(c),
{
    ('\u{3041}' <= c && c <= '\u{3096}') || ('\u{30A1}' <= c && c <= '\u{30FA}') || c == '\u{30FC}'
}

/// Whether the characters contain a kana.
pub fn has_kana_chars(s: &Vec<char>) -> (r: bool)
    ensures
        r == has_kana(s@),
{
    let mut i: usize = 0;
    while i < s.len()
        invariant
            i <= s.len(),
            forall|j: int| 0 <= j < i ==> !#[trigger] is_kana(s@[j]),
        decreases s.len() - i,
    {
        if kana_char(s[i]) {
            return true;
        }
        i += 1;
    }
    false
}

/// Whether the text contains Japanese kana.
///
/// A heuristic for untranslated Japanese in a Chinese paragraph: Chinese
/// translations legitimately keep some Japanese proper names, so callers must
/// not treat a hit as a failure by itself.
pub fn contains_kana(text: &str) -> (r: bool)
    ensures
        r == has_kana(text@),
{
    let chars = text::chars_of(text);
    has_kana_chars(&chars)
}

} // verus!
