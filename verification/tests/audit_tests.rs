use novelia_epub_bilingual_splitter::audit::{inspect, Report};
use novelia_epub_bilingual_splitter::epub::{self, ArchiveError};
use novelia_epub_bilingual_splitter::lang::Lang;
use novelia_epub_bilingual_splitter::epub::Entry;

const SUSPECT_SAMPLES: usize = 10;
const SAMPLE_CHARS: usize = 60;

fn audit(entries: Vec<Entry>, lang: Lang) -> Report {
    let bytes = epub::write(&entries).unwrap();
    inspect(bytes, lang).unwrap()
}

fn book(body: &str) -> Vec<Entry> {
    vec![("OEBPS/Text/a.xhtml".into(), body.as_bytes().to_vec())]
}

#[test]
fn clean_output_passes_every_check() {
    let report = audit(book("<body><p>你好，世界。</p><p><br /></p></body>"), Lang::Zh);
    assert!(report.is_spec_compliant());
    assert!(report.is_clean());
    assert!(report.fatal_issues().is_empty());
    assert!(report.warnings().is_empty());
    assert_eq!(report.content_paragraphs, 1, "空行不算正文");
    assert_eq!(report.entries, 2, "mimetype + 一个正文");
}

#[test]
fn detects_leftover_fading_style() {
    let report = audit(book("<p style=\"opacity:0.4;\">日本語</p>"), Lang::Ja);
    assert_eq!(report.fading_style_leaks, 1);
    assert!(!report.is_clean());
    assert!(!report.fatal_issues().is_empty(), "残留淡化样式是致命问题");
}

#[test]
fn a_few_legitimate_japanese_names_are_only_a_warning() {
    let body = "<p>你竟然在ダンTV的在线人数排行榜上排名第一了！</p><p>我慌忙看了看ダンTV的主页。</p><p>负责插画的とくまろ老师。</p><p>这里是一段普通的中文。</p>";
    let report = audit(book(body), Lang::Zh);
    assert_eq!(report.suspect_count, 3);
    assert!(report.misclassified_pages.is_empty(), "零星命中不算整页判错");
    assert!(report.fatal_issues().is_empty(), "不该判为致命");
    assert_eq!(report.warnings().len(), 1, "但要有提示");
    assert!(report.suspect_samples.len() <= SUSPECT_SAMPLES);
    assert!(!report.is_clean());
}

#[test]
fn a_page_that_went_to_the_wrong_language_is_fatal() {
    let mut body = String::new();
    for i in 0..6 {
        body.push_str(&format!("<p>日本語の段落その{i}。</p>"));
    }
    let report = audit(book(&body), Lang::Zh);
    assert_eq!(report.misclassified_pages, vec!["OEBPS/Text/a.xhtml"]);
    assert!(!report.fatal_issues().is_empty(), "整页判错必须致命");
}

#[test]
fn tiny_pages_are_not_reported_as_misclassified() {
    let report = audit(book("<p>日本語だけ</p>"), Lang::Zh);
    assert_eq!(report.suspect_count, 1);
    assert!(report.misclassified_pages.is_empty());
}

#[test]
fn japanese_text_is_not_a_leak_in_the_japanese_edition() {
    let report = audit(book("<p>日本語</p>"), Lang::Ja);
    assert_eq!(report.suspect_count, 0);
    assert!(report.is_clean());
}

#[test]
fn suspect_samples_are_flattened_and_truncated() {
    let long = format!("<p>ダンTV{}　带换行\n的文本</p>", "文".repeat(200));
    let report = audit(book(&long), Lang::Zh);
    let sample = &report.suspect_samples[0];
    assert!(sample.ends_with('…'), "过长要截断：{sample}");
    assert!(!sample.contains('\n'), "样例要压平空白");
    assert!(sample.chars().count() <= SAMPLE_CHARS + 1);
}

#[test]
fn counts_only_real_paragraphs() {
    let report = audit(book("<p>甲</p><p><br /></p><p><img src=\"a.jpeg\"/></p>"), Lang::Zh);
    assert_eq!(report.content_paragraphs, 1);
    assert_eq!(report.neutral_paragraphs, 2, "空行 + 图片页");
    assert_eq!(report.paragraphs_total(), 3);
}

#[test]
fn messages_have_their_exact_wording() {
    let report = Report {
        entries: 1,
        first_entry: "a.xhtml".to_string(),
        first_entry_is_stored: false,
        content_paragraphs: 0,
        neutral_paragraphs: 0,
        fading_style_leaks: 12,
        suspect_count: 3,
        suspect_samples: vec!["甲".to_string()],
        misclassified_pages: vec!["a.xhtml".to_string(), "b.xhtml".to_string()],
    };
    assert_eq!(
        report.fatal_issues(),
        vec![
            "mimetype 不是第一个条目或未压缩（实际首条目为 a.xhtml）".to_string(),
            "产物里还有 12 段带淡化样式，日文版会整本显示为灰色".to_string(),
            "以下页面疑似整页判错（判别式在这些页上可能失效）：a.xhtml, b.xhtml".to_string(),
        ]
    );
    assert_eq!(
        report.warnings(),
        vec![
            "3 段正文含日文假名，可能是译本里保留的专有名词，也可能是漏翻\n      · 甲\n      … 另有 2 段未列出"
                .to_string()
        ]
    );
}

#[test]
fn at_most_ten_samples_are_kept() {
    let mut body = String::new();
    for i in 0..12 {
        body.push_str(&format!("<p>かな{i}</p>"));
    }
    let report = audit(book(&body), Lang::Zh);
    assert_eq!(report.suspect_count, 12);
    assert_eq!(report.suspect_samples.len(), 10);
    assert_eq!(report.suspect_samples[0], "かな0");
    assert_eq!(report.misclassified_pages, vec!["OEBPS/Text/a.xhtml"]);
}

#[test]
fn a_text_entry_that_is_not_utf8_is_an_error() {
    let entries: Vec<Entry> = vec![("OEBPS/Text/a.xhtml".into(), vec![0xFF, 0xFE])];
    let bytes = epub::write(&entries).unwrap();
    match inspect(bytes, Lang::Ja) {
        Err(ArchiveError::NotText(name)) => assert_eq!(name, "OEBPS/Text/a.xhtml"),
        other => panic!("expected NotText, got {:?}", other.map(|r| r.entries)),
    }
}

#[test]
fn an_archive_without_entries_is_an_error() {
    let empty = zip::ZipWriter::new(std::io::Cursor::new(Vec::new()))
        .finish()
        .unwrap()
        .into_inner();
    assert!(matches!(inspect(empty, Lang::Zh), Err(ArchiveError::Empty)));
}

#[test]
fn bytes_that_are_not_a_zip_are_an_error() {
    assert!(matches!(inspect(b"not a zip".to_vec(), Lang::Zh), Err(ArchiveError::Zip(_))));
}

#[test]
fn binary_entries_are_not_read_as_text() {
    let entries: Vec<Entry> = vec![
        ("OEBPS/Images/a.jpeg".into(), vec![0xFF, 0xD8, 0xFF]),
        ("OEBPS/Text/a.xhtml".into(), "<p>好</p>".as_bytes().to_vec()),
    ];
    let report = audit(entries, Lang::Zh);
    assert_eq!(report.entries, 3);
    assert_eq!(report.content_paragraphs, 1);
}

#[test]
fn a_third_of_the_page_suspect_is_not_misjudged() {
    let body = "<p>日本語の一。</p><p>日本語の二。</p><p>中文三。</p><p>中文四。</p><p>中文五。</p><p>中文六。</p>";
    let report = audit(book(body), Lang::Zh);
    assert_eq!(report.content_paragraphs, 6);
    assert_eq!(report.suspect_count, 2);
    assert!(report.misclassified_pages.is_empty());
    let body = "<p>日本語の一。</p><p>日本語の二。</p><p>日本語の三。</p><p>中文四。</p><p>中文五。</p><p>中文六。</p>";
    let report = audit(book(body), Lang::Zh);
    assert_eq!(report.misclassified_pages, vec!["OEBPS/Text/a.xhtml"]);
}

/// Marks the named file of an archive as encrypted in its central directory
/// record, so that `zip` lists it but refuses to open it without a password.
fn mark_encrypted(bytes: &mut [u8], name: &str) {
    let mut pos = 0;
    while pos + 46 <= bytes.len() {
        if bytes[pos..pos + 4] == [0x50, 0x4b, 0x01, 0x02] {
            let len = u16::from_le_bytes([bytes[pos + 28], bytes[pos + 29]]) as usize;
            if &bytes[pos + 46..pos + 46 + len] == name.as_bytes() {
                bytes[pos + 8] |= 1;
                return;
            }
        }
        pos += 1;
    }
    panic!("no central record for {name}");
}

#[test]
fn every_entry_is_opened_even_when_it_is_not_text() {
    let mut entries = book("<body><p>你好</p></body>");
    entries.push(("OEBPS/Images/a.jpeg".into(), vec![0xFF, 0xD8, 0xFF, 0xE0, 0x00]));
    let mut bytes = epub::write(&entries).unwrap();
    assert!(inspect(bytes.clone(), Lang::Zh).is_ok());
    mark_encrypted(&mut bytes, "OEBPS/Images/a.jpeg");
    assert!(matches!(inspect(bytes.clone(), Lang::Zh), Err(ArchiveError::Zip(_))));
    assert!(matches!(epub::read(bytes), Err(ArchiveError::Zip(_))));
}
