# novelia_epub_bilingual_splitter

Splits an EPUB that interleaves a Japanese original with its Chinese
translation, paragraph by paragraph, into two single-language EPUBs
(`book.ja.epub` and `book.zh.epub`).

The two languages are told apart by inline style alone: a paragraph whose
open tag sets `opacity` below 1 is the original, one without it is the
translation, and a paragraph that holds only an image or a blank line
belongs to both books.

## Layout

- `src/` — the library, written in Verus. Every function has its contract;
  the library's own functions are verified, while the small wrappers around
  the `zip` crate and two standard-library calls (`external_body`) are
  trusted: their contracts state what those crates do, and Verus takes them
  on trust.
  - `text` — searching, replacing, trimming and ordering text, with the
    model of each operation as a spec function over `Seq<char>`.
  - `number` — whether a CSS number is below one, as `f32` parsing decides.
  - `lang` — the two target languages.
  - `markup` — cutting a document into `<p>` elements, the fading style,
    reading and replacing the text of an element.
  - `split` — which paragraphs each edition keeps.
  - `metadata` — `xml:lang`, chapter headings, OPF and NCX rewriting.
  - `pipeline` — one edition built from the source entries.
  - `epub` — the ZIP container, through the `zip` crate.
  - `audit` — a finished edition read back and checked.
  - `paths` — which EPUB to read and what the editions are called.
- `tests/` — tests of the library.
- `app/` — the command-line program: arguments, files, printing.
