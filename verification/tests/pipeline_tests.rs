use novelia_epub_bilingual_splitter::lang::Lang;
use novelia_epub_bilingual_splitter::pipeline::{build, classify, original_identifier, Kind};
use novelia_epub_bilingual_splitter::Entry;

fn source() -> Vec<Entry> {
    vec![
        ("mimetype".into(), b"application/epub+zip".to_vec()),
        (
            "OEBPS/content.opf".into(),
            "<dc:title>原書</dc:title><dc:language>zh-CN</dc:language><dc:identifier id=\"uid\">999</dc:identifier>"
            .as_bytes()
            .to_vec(),
        ),
        (
            "OEBPS/Text/a.xhtml".into(),
            "<html xml:lang=\"ja\"><body><p style=\"opacity:0.4;\">日本語</p><p>中文</p></body></html>"
            .as_bytes()
            .to_vec(),
        ),
        ("OEBPS/Images/a.jpeg".into(), vec![0xFF, 0xD8, 0xFF, 0xE0, 0x00]),
    ]
}

fn find<'a>(entries: &'a [Entry], name: &str) -> &'a [u8] {
    &entries
        .iter()
        .find(|(n, _)| n == name)
        .unwrap_or_else(|| panic!("缺少条目 {name}"))
        .1
}

#[test]
fn keeps_every_entry_in_order() {
    let src = source();
    for lang in Lang::ALL {
        let (out, _) = build(&src, lang);
        assert_eq!(out.len(), src.len(), "条目数不能变");
        let names: Vec<_> = out.iter().map(|(n, _)| n.as_str()).collect();
        let expected: Vec<_> = src.iter().map(|(n, _)| n.as_str()).collect();
        assert_eq!(names, expected, "条目顺序必须保持不变");
    }
}

#[test]
fn passes_binary_entries_through_untouched() {
    let src = source();
    let (out, _) = build(&src, Lang::Ja);
    assert_eq!(find(&out, "OEBPS/Images/a.jpeg"), &[0xFF, 0xD8, 0xFF, 0xE0, 0x00]);
    assert_eq!(find(&out, "mimetype"), b"application/epub+zip");
}

#[test]
fn splits_text_and_rewrites_metadata() {
    let src = source();

    let (ja, stats) = build(&src, Lang::Ja);
    let text = String::from_utf8_lossy(find(&ja, "OEBPS/Text/a.xhtml")).into_owned();
    assert!(text.contains("日本語"));
    assert!(!text.contains("中文"));
    let opf = String::from_utf8_lossy(find(&ja, "OEBPS/content.opf")).into_owned();
    assert!(opf.contains("<dc:language>ja</dc:language>"));
    assert_eq!(stats.paragraphs.jp_kept, 1);
    assert_eq!(stats.paragraphs.dropped, 1);

    let (zh, stats) = build(&src, Lang::Zh);
    let text = String::from_utf8_lossy(find(&zh, "OEBPS/Text/a.xhtml")).into_owned();
    assert!(text.contains("中文"));
    assert!(!text.contains("日本語"));
    assert_eq!(stats.paragraphs.zh_kept, 1);
}

#[test]
fn reports_pages_without_the_target_language() {
    let src: Vec<Entry> = vec![(
        "OEBPS/Text/jp_only.xhtml".into(),
        "<p style=\"opacity:0.4;\">日本語だけ</p>".as_bytes().to_vec(),
    )];
    let (_, stats) = build(&src, Lang::Zh);
    assert_eq!(stats.empty_pages, vec!["OEBPS/Text/jp_only.xhtml"]);

    let (_, stats) = build(&src, Lang::Ja);
    assert!(stats.empty_pages.is_empty());
}

#[test]
fn works_without_an_opf() {
    let src: Vec<Entry> = vec![("OEBPS/Text/a.xhtml".into(), b"<p>hi</p>".to_vec())];
    let (out, _) = build(&src, Lang::Ja);
    assert_eq!(out.len(), 1);
    assert_eq!(original_identifier(&src), "novelia-epub-splitter");
}

#[test]
fn the_identifier_comes_from_the_first_opf() {
    let src = source();
    assert_eq!(original_identifier(&src), "999");
    let (ja, _) = build(&src, Lang::Ja);
    let (zh, _) = build(&src, Lang::Zh);
    let ja_opf = String::from_utf8_lossy(find(&ja, "OEBPS/content.opf")).into_owned();
    let zh_opf = String::from_utf8_lossy(find(&zh, "OEBPS/content.opf")).into_owned();
    assert!(ja_opf.contains("<dc:identifier id=\"uid\">999-ja</dc:identifier>"));
    assert!(zh_opf.contains("<dc:identifier id=\"uid\">999-zh</dc:identifier>"));
}

#[test]
fn entries_are_classified_by_their_extension() {
    assert!(matches!(classify("a/b.xhtml"), Kind::Text));
    assert!(matches!(classify("b.html"), Kind::Text));
    assert!(matches!(classify("content.opf"), Kind::Opf));
    assert!(matches!(classify("toc.ncx"), Kind::Ncx));
    assert!(matches!(classify("style.css"), Kind::Passthrough));
    assert!(matches!(classify("xhtml"), Kind::Passthrough));
}

#[test]
fn text_that_is_not_utf8_is_copied_unchanged() {
    let src: Vec<Entry> = vec![("OEBPS/Text/bad.xhtml".into(), vec![b'<', b'p', b'>', 0xFF, b'<'])];
    let (out, stats) = build(&src, Lang::Zh);
    assert_eq!(out[0].1, vec![b'<', b'p', b'>', 0xFF, b'<']);
    assert_eq!(stats.paragraphs.paragraphs(), 0);
}

#[test]
fn the_identifier_is_the_uid_one() {
    let src: Vec<Entry> = vec![(
        "content.opf".into(),
        "<dc:identifier opf:scheme=\"ISBN\">978</dc:identifier><dc:identifier id=\"uid\"> abc </dc:identifier>"
            .as_bytes()
            .to_vec(),
    )];
    assert_eq!(original_identifier(&src), "abc");
    let isbn_only: Vec<Entry> = vec![(
        "content.opf".into(),
        "<dc:identifier opf:scheme=\"ISBN\">978</dc:identifier>".as_bytes().to_vec(),
    )];
    assert_eq!(original_identifier(&isbn_only), "novelia-epub-splitter");
}
