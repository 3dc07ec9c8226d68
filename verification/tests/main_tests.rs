use novelia_epub_bilingual_splitter::lang::Lang;
use novelia_epub_bilingual_splitter::metadata::rewrite_opf;
use novelia_epub_bilingual_splitter::split::split_document;

const FADING: &str = "opacity:0.4;";

const SAMPLE: &str = "<html xmlns=\"http://www.w3.org/1999/xhtml\" xml:lang=\"ja\" class=\"vrtl\"><head><title>カイブツ×カノジョ</title></head><body><h2 class=\"gfont font-120per\">一章</h2><p style=\"opacity:0.4;\">こんにちは、<ruby>世<rt>よ</rt></ruby>界。</p><p>你好，世界。</p><p><br /></p><p><img class=\"fit\" src=\"../Images/a.jpeg\" alt=\"\"/></p></body></html>";

#[test]
fn japanese_edition_keeps_only_original_text_without_fading() {
    let (ja, stats) = split_document(SAMPLE, Lang::Ja);
    assert!(ja.contains("こんにちは"));
    assert!(ja.contains("<ruby>"), "日文版必须保留注音");
    assert!(!ja.contains("你好"), "日文版不该有中文译文");
    assert!(!ja.contains(FADING), "日文版必须去掉淡化样式，否则整本是灰的");
    assert_eq!(stats.jp_kept, 1);
    assert_eq!(stats.dropped, 1);
    assert!(ja.contains("<img"));
    assert!(ja.contains("<br />"));
    assert_eq!(stats.neutral_kept, 2);
}

#[test]
fn main_chinese_edition_drops_furigana_and_rewrites_metadata() {
    let (zh, stats) = split_document(SAMPLE, Lang::Zh);
    assert!(zh.contains("你好，世界。"));
    assert!(!zh.contains("こんにちは"), "中文版不该有日文原文");
    assert!(!zh.contains("<ruby>"), "中文版不该有日文注音");
    assert!(zh.contains("xml:lang=\"zh-CN\""), "lang 属性要改写");
    assert!(zh.contains(">第一章</h2>"), "中文版章标题要汉化");
    assert!(!zh.contains(FADING));
    assert_eq!(stats.zh_kept, 1);
}

#[test]
fn main_heading_translation_does_not_double_apply() {
    let (zh, _) = split_document(SAMPLE, Lang::Zh);
    assert!(!zh.contains("第一第一章"));
    assert_eq!(zh.matches("第一章").count(), 1);
}

#[test]
fn opf_gets_distinct_ids_and_correct_language() {
    let opf = "<dc:title>\n   カイブツ×カノジョ (講談社ラノベ文庫)\n  </dc:title><dc:language>\n   zh-CN\n  </dc:language><dc:identifier id=\"uid\">\n   4153338049\n  </dc:identifier>";
    let ja = rewrite_opf(opf, Lang::Ja, "4153338049");
    let zh = rewrite_opf(opf, Lang::Zh, "4153338049");
    assert!(ja.contains("<dc:language>ja</dc:language>"));
    assert!(zh.contains("<dc:language>zh-CN</dc:language>"));
    assert!(ja.contains("4153338049-ja"));
    assert!(zh.contains("4153338049-zh"));
    assert!(zh.contains("凯物×女友"));
    assert_ne!(ja, zh);
}

#[test]
fn tokenizer_keeps_truncated_tail() {
    let (out, _) = split_document("<div><p>你好</p><p>截断", Lang::Zh);
    assert!(out.contains("你好"));
    assert!(out.contains("截断"), "不完整的尾部要原样保留");
}

#[test]
fn split_output_is_exact() {
    let (zh, _) = split_document(SAMPLE, Lang::Zh);
    assert_eq!(
        zh,
        "<html xmlns=\"http://www.w3.org/1999/xhtml\" xml:lang=\"zh-CN\" class=\"vrtl\"><head><title>カイブツ×カノジョ</title></head><body><h2 class=\"gfont font-120per\">第一章</h2><p>你好，世界。</p><p><br /></p><p><img class=\"fit\" src=\"../Images/a.jpeg\" alt=\"\"/></p></body></html>"
    );
}
