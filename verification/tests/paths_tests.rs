use novelia_epub_bilingual_splitter::lang::Lang;
use novelia_epub_bilingual_splitter::paths::{
    is_epub, is_generated, output_path, resolve_source, SourceError,
};

#[test]
fn output_path_appends_language_tag() {
    let source = "books/カイブツ×カノジョ.epub";
    assert_eq!(output_path(source, Lang::Ja), "books/カイブツ×カノジョ.ja.epub");
    assert_eq!(output_path(source, Lang::Zh), "books/カイブツ×カノジョ.zh.epub");
}

#[test]
fn own_outputs_are_not_treated_as_sources() {
    assert!(is_generated("book.ja.epub"));
    assert!(is_generated("book.zh.epub"));
    assert!(!is_generated("book.epub"));
    assert!(!is_generated("jp-zh.カイブツ×カノジョ.epub"));
}

#[test]
fn output_path_handles_odd_names() {
    assert_eq!(output_path("book", Lang::Zh), "book.zh.epub");
    assert_eq!(output_path("a/b.c.epub", Lang::Ja), "a/b.c.ja.epub");
    assert_eq!(output_path(".hidden", Lang::Ja), ".hidden.ja.epub");
    assert_eq!(output_path("", Lang::Ja), "output.ja.epub");
    assert_eq!(output_path("dir/", Lang::Zh), "dir.zh.epub");
    assert_eq!(output_path("dir/..", Lang::Zh), "dir/../output.zh.epub");
}

#[test]
fn output_path_reads_paths_as_std_path_does() {
    assert_eq!(output_path("./x.epub", Lang::Zh), "./x.zh.epub");
    assert_eq!(output_path("/b.epub", Lang::Ja), "/b.ja.epub");
    assert_eq!(output_path("a//b.epub", Lang::Ja), "a/b.ja.epub");
    assert_eq!(output_path("a/./b.epub", Lang::Ja), "a/b.ja.epub");
    assert_eq!(output_path("a/b.epub/.", Lang::Zh), "a/b.zh.epub");
    assert_eq!(output_path(".", Lang::Ja), "./output.ja.epub");
    assert_eq!(output_path("/", Lang::Ja), "/output.ja.epub");
    assert!(is_generated("x.ja.epub/"));
    assert!(is_epub("book.epub/"));
    assert!(!is_epub(".."));
    assert!(!is_generated("/"));
}

#[test]
fn outputs_are_recognised_as_generated_epubs() {
    for lang in Lang::ALL {
        let out = output_path("books/x.epub", lang);
        assert!(is_generated(&out));
        assert!(is_epub(&out));
    }
}

#[test]
fn epub_extension_is_case_insensitive() {
    assert!(is_epub("./book.epub"));
    assert!(is_epub("BOOK.EPUB"));
    assert!(!is_epub("book.epub.zip"));
    assert!(!is_epub(".epub"), "只有点开头的名字没有扩展名");
    assert!(!is_epub("book"));
    assert!(!is_epub("dir.epub/book"));
}

#[test]
fn explicit_path_wins_over_discovery() {
    let source = resolve_source(Some("whatever.epub".to_string()), Vec::new()).unwrap();
    assert_eq!(source.path, "whatever.epub");
    assert!(source.alternatives.is_empty());
}

fn listing(entries: &[(&str, bool)]) -> Vec<(String, bool)> {
    entries.iter().map(|(p, f)| (p.to_string(), *f)).collect()
}

#[test]
fn discovery_takes_the_first_epub_by_name() {
    let found = resolve_source(
        None,
        listing(&[
            ("./c.epub", true),
            ("./book.zh.epub", true),
            ("./a.EPUB", true),
            ("./notes.txt", true),
            ("./b.epub", true),
            ("./dir.epub", false),
            ("./book.ja.epub", true),
        ]),
    )
    .unwrap();
    assert_eq!(found.path, "./a.EPUB");
    assert_eq!(found.alternatives, vec!["./b.epub".to_string(), "./c.epub".to_string()]);
}

#[test]
fn discovery_without_an_epub_is_an_error() {
    let err = resolve_source(
        None,
        listing(&[("./book.zh.epub", true), ("./x.txt", true), ("./d.epub", false)]),
    )
    .err()
    .unwrap();
    assert!(matches!(err, SourceError::NoEpub));
    assert_eq!(err.message(), "当前目录下没有 .epub 文件，请将路径作为第一个参数传入");
    assert!(resolve_source(None, Vec::new()).is_err());
}

#[test]
fn discovery_orders_names_by_character() {
    let found = resolve_source(
        None,
        listing(&[("./カ.epub", true), ("./z.epub", true), ("./a.epub", true), ("./ab.epub", true)]),
    )
    .unwrap();
    assert_eq!(found.path, "./a.epub");
    assert_eq!(
        found.alternatives,
        vec!["./ab.epub".to_string(), "./z.epub".to_string(), "./カ.epub".to_string()]
    );
}

fn std_output_path(source: &str, lang: Lang) -> String {
    let p = std::path::Path::new(source);
    let stem = p
        .file_stem()
        .map(|s| s.to_string_lossy().into_owned())
        .unwrap_or_else(|| "output".into());
    p.with_file_name(format!("{stem}.{}.epub", lang.tag()))
        .to_string_lossy()
        .into_owned()
}

fn std_is_epub(path: &str) -> bool {
    std::path::Path::new(path)
        .extension()
        .and_then(|ext| ext.to_str())
        .is_some_and(|ext| ext.eq_ignore_ascii_case("epub"))
}

fn std_is_generated(path: &str) -> bool {
    let name = std::path::Path::new(path).file_name().unwrap_or_default().to_string_lossy();
    Lang::ALL.iter().any(|lang| name.ends_with(&format!(".{}.epub", lang.tag())))
}

const ODD_PATHS: [&str; 34] = [
    "books/x.epub", "x", "", ".", "..", "/", "//", "./", "./x.epub", ".//x.epub", "a//b.epub",
    "a/./b.epub", "a/b.epub/.", "a/b/", "a/..", "/a", "///a.b.c", ".hidden", "a/.hidden", "..a",
    "a..", "x.", ".x.", "a/b/../c.epub", "./.", "/.", "a/./", "...", "x.ja.epub/", "a/.ja.epub",
    "./book.EPUB", ".epub", "dir.epub/book", "a/b.zh.epub//.",
];

#[test]
fn output_path_agrees_with_std_path() {
    for s in ODD_PATHS {
        for lang in Lang::ALL {
            assert_eq!(output_path(s, lang), std_output_path(s, lang), "{s:?}");
        }
    }
}

#[test]
fn recognition_agrees_with_std_path() {
    for s in ODD_PATHS {
        assert_eq!(is_epub(s), std_is_epub(s), "{s:?}");
        assert_eq!(is_generated(s), std_is_generated(s), "{s:?}");
    }
}
