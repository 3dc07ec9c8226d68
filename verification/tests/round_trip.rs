//! End to end: split, write into memory, read back and check.

use novelia_epub_bilingual_splitter::audit::{self, Report};
use novelia_epub_bilingual_splitter::epub;
use novelia_epub_bilingual_splitter::lang::Lang;
use novelia_epub_bilingual_splitter::markup::element_text;
use novelia_epub_bilingual_splitter::pipeline::{self, BookStats};
use novelia_epub_bilingual_splitter::Entry;

fn split_and_audit(source: &[Entry], lang: Lang) -> (Vec<Entry>, BookStats, Report) {
    let (archive, stats) = pipeline::build(source, lang);
    let bytes = epub::write(&archive).expect("写出归档");
    let report = audit::inspect(bytes.clone(), lang).expect("回读自检");
    let mut reread = epub::read(bytes).expect("重新读取");
    // 写出时 mimetype 总在最前；源归档里没有时读回会多出这一条。
    if !archive.iter().any(|(n, _)| n == "mimetype") {
        assert_eq!(reread.remove(0).0, "mimetype");
    }
    assert_eq!(reread, archive, "写回再读出的内容必须与写入时一致");
    (archive, stats, report)
}

fn body_of(entries: &[Entry]) -> String {
    entries
        .iter()
        .filter(|(name, _)| name.ends_with(".xhtml"))
        .map(|(_, data)| String::from_utf8_lossy(data).into_owned())
        .collect::<Vec<_>>()
        .join(" ")
}

fn opf_of(entries: &[Entry]) -> String {
    entries
        .iter()
        .find(|(name, _)| name.ends_with(".opf"))
        .map(|(_, data)| String::from_utf8_lossy(data).into_owned())
        .expect("产物里应该有 OPF")
}

#[test]
fn splits_a_synthetic_book_end_to_end() {
    let source: Vec<Entry> = vec![
        ("mimetype".into(), b"application/epub+zip".to_vec()),
        (
            "META-INF/container.xml".into(),
            br#"<container><rootfiles><rootfile full-path="OEBPS/content.opf"/></rootfiles></container>"#
                .to_vec(),
        ),
        (
            "OEBPS/content.opf".into(),
            "<package><metadata><dc:title>试验书</dc:title><dc:language>zh-CN</dc:language><dc:identifier id=\"uid\">12345</dc:identifier></metadata><manifest/><spine/></package>"
            .as_bytes()
            .to_vec(),
        ),
        (
            "OEBPS/Text/chapter.xhtml".into(),
            "<html xml:lang=\"ja\" class=\"vrtl\"><head><title>试验书</title></head><body><h2 class=\"gfont\">一章</h2><p style=\"opacity:0.4;\">むかしむかし、<ruby>昔<rt>むかし</rt></ruby>々々。</p><p>从前从前。</p><p><br /></p><p style=\"opacity:0.4;\">おわり。</p><p>完。</p></body></html>"
            .as_bytes()
            .to_vec(),
        ),
        (
            "OEBPS/Text/images.xhtml".into(),
            b"<html xml:lang=\"ja\"><body class=\"image-page\"><p><img src=\"../Images/a.jpeg\"/></p></body></html>"
                .to_vec(),
        ),
        ("OEBPS/Images/a.jpeg".into(), vec![0xFF, 0xD8, 0xFF, 0xE0, 0x00, 0x10]),
    ];

    let mut identifiers = Vec::new();
    for lang in Lang::ALL {
        let (archive, stats, report) = split_and_audit(&source, lang);

        assert_eq!(archive.len(), source.len());
        assert!(report.is_spec_compliant());
        assert!(report.is_clean(), "[{}] 自检应通过", lang.tag());
        assert!(stats.empty_pages.is_empty());

        assert_eq!(report.content_paragraphs, 2);
        assert_eq!(report.neutral_paragraphs, 2, "空行 + 图片页");
        assert_eq!(stats.paragraphs.neutral_kept, 2);
        assert_eq!(report.paragraphs_total(), 4);

        let body = body_of(&archive);
        let opf = opf_of(&archive);
        let image = archive
            .iter()
            .find(|(n, _)| n.ends_with("a.jpeg"))
            .expect("图片必须被复制过来");
        assert_eq!(image.1, vec![0xFF, 0xD8, 0xFF, 0xE0, 0x00, 0x10], "二进制要原样保留");

        assert!(body.contains("<img"), "图片页两本都要有");
        match lang {
            Lang::Ja => {
                assert!(body.contains("むかしむかし"));
                assert!(body.contains("おわり。"));
                assert!(body.contains("<ruby>"), "注音要保留");
                assert!(!body.contains("从前从前。"));
                assert!(opf.contains("<dc:language>ja</dc:language>"));
                assert!(opf.contains("12345-ja"));
            }
            Lang::Zh => {
                assert!(body.contains("从前从前。"));
                assert!(body.contains("完。"));
                assert!(!body.contains("むかしむかし"));
                assert!(!body.contains("<ruby>"), "中文版不该有注音");
                assert!(body.contains("xml:lang=\"zh-CN\""));
                assert!(body.contains(">第一章</h2>"), "章标题要汉化");
                assert!(opf.contains("<dc:language>zh-CN</dc:language>"));
                assert!(opf.contains("12345-zh"));
            }
        }
        identifiers.push(element_text(&opf, "dc:identifier").unwrap());
    }
    assert_ne!(identifiers[0], identifiers[1], "两本书的 identifier 必须不同");
}
