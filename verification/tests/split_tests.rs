use novelia_epub_bilingual_splitter::lang::Lang;
use novelia_epub_bilingual_splitter::split::{split_document, Stats};

const FADING: &str = "opacity:0.4;";

const SAMPLE: &str = "<html xmlns=\"http://www.w3.org/1999/xhtml\" xml:lang=\"ja\" class=\"vrtl\"><head><title>カイブツ×カノジョ</title></head><body><h2 class=\"gfont font-120per\">一章</h2><p style=\"opacity:0.4;\">こんにちは、<ruby>世<rt>よ</rt></ruby>界。</p><p>你好，世界。</p><p><br /></p><p><img class=\"fit\" src=\"../Images/a.jpeg\" alt=\"\"/></p></body></html>";

#[test]
fn japanese_edition_keeps_original_text_without_fading() {
    let (ja, stats) = split_document(SAMPLE, Lang::Ja);
    assert!(ja.contains("こんにちは"));
    assert!(ja.contains("<ruby>"), "日文版必须保留注音");
    assert!(!ja.contains("你好"), "日文版不该有中文译文");
    assert!(!ja.contains(FADING), "日文版必须去掉淡化样式，否则整本是灰的");
    assert_eq!(stats.jp_kept, 1);
    assert_eq!(stats.zh_kept, 0);
    assert_eq!(stats.dropped, 1);
    assert!(ja.contains("<img"));
    assert!(ja.contains("<br />"));
    assert_eq!(stats.neutral_kept, 2);
    assert!(stats.had_content_paragraphs);
    assert!(!stats.is_empty_page());
}

#[test]
fn split_chinese_edition_drops_furigana_and_rewrites_metadata() {
    let (zh, stats) = split_document(SAMPLE, Lang::Zh);
    assert!(zh.contains("你好，世界。"));
    assert!(!zh.contains("こんにちは"), "中文版不该有日文原文");
    assert!(!zh.contains("<ruby>"), "中文版不该有日文注音");
    assert!(zh.contains("xml:lang=\"zh-CN\""), "lang 属性要改写");
    assert!(zh.contains(">第一章</h2>"), "中文版章标题要汉化");
    assert!(!zh.contains(FADING));
    assert_eq!(stats.zh_kept, 1);
    assert_eq!(stats.jp_kept, 0);
    assert_eq!(stats.dropped, 1);
}

#[test]
fn paragraph_count_is_conserved() {
    let total = 4;
    for lang in Lang::ALL {
        let (_, stats) = split_document(SAMPLE, lang);
        assert_eq!(stats.paragraphs() + stats.dropped, total, "[{}] 段落总数不守恒", lang.tag());
        assert_eq!(stats.neutral_kept, 2);
    }
}

#[test]
fn image_only_page_is_not_an_empty_page() {
    let page = "<body><p><img src=\"a.jpeg\" alt=\"\"/></p></body>";
    for lang in Lang::ALL {
        let (out, stats) = split_document(page, lang);
        assert!(out.contains("<img"), "图片页两本都要有");
        assert!(!stats.had_content_paragraphs, "图片页本来就没有正文");
        assert!(!stats.is_empty_page(), "原本就没有正文，不算被清空");
    }
}

#[test]
fn page_keeping_only_blank_lines_counts_as_emptied() {
    let page = "<p style=\"opacity:0.4;\">日本語だけ</p><p><br /></p>";
    let (_, stats) = split_document(page, Lang::Zh);
    assert_eq!(stats.neutral_kept, 1);
    assert_eq!(stats.jp_kept, 0);
    assert!(stats.is_empty_page());
}

#[test]
fn page_without_the_target_language_is_reported() {
    let page = "<p style=\"opacity:0.4;\">日本語だけ</p>";
    let (_, stats) = split_document(page, Lang::Zh);
    assert!(stats.is_empty_page());
    assert_eq!(stats.dropped, 1);

    let (_, stats) = split_document(page, Lang::Ja);
    assert!(!stats.is_empty_page());
    assert_eq!(stats.jp_kept, 1);
}

#[test]
fn stats_accumulate_across_pages() {
    let (_, a) = split_document(SAMPLE, Lang::Ja);
    let mut total = Stats::default();
    total.add(&a);
    total.add(&a);
    assert_eq!(total.jp_kept, 2);
    assert_eq!(total.neutral_kept, 4);
    assert_eq!(total.dropped, 2);
    assert!(total.had_content_paragraphs);
    assert_eq!(total.paragraphs(), 6);
}

#[test]
fn empty_document_is_still_valid() {
    let (out, stats) = split_document("", Lang::Ja);
    assert!(out.is_empty());
    assert!(!stats.had_content_paragraphs);
    assert!(!stats.is_empty_page());
}

#[test]
fn fading_is_removed_but_other_attributes_stay() {
    let page = "<p id=\"page_171\" class=\"class_s2t\" style=\"opacity:0.4;\">原文</p><p id=\"x\">译文</p>";
    let (ja, _) = split_document(page, Lang::Ja);
    assert_eq!(ja, "<p id=\"page_171\" class=\"class_s2t\">原文</p>");
    let (zh, _) = split_document(page, Lang::Zh);
    assert_eq!(zh, "<p id=\"x\">译文</p>");
}

#[test]
fn the_editions_are_complementary() {
    let (_, ja) = split_document(SAMPLE, Lang::Ja);
    let (_, zh) = split_document(SAMPLE, Lang::Zh);
    assert_eq!(ja.jp_kept, zh.dropped);
    assert_eq!(zh.zh_kept, ja.dropped);
    assert_eq!(ja.neutral_kept, zh.neutral_kept);
}

#[test]
fn any_opacity_below_one_marks_the_original() {
    let page = "<p style=\"opacity: .5\">原文</p><p style=\"opacity:1\">译文</p>";
    let (ja, stats) = split_document(page, Lang::Ja);
    assert_eq!(ja, "<p>原文</p>");
    assert_eq!(stats.jp_kept, 1);
    assert_eq!(stats.dropped, 1);
}
