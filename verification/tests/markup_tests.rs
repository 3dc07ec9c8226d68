use novelia_epub_bilingual_splitter::markup::{
    element_text, has_fading_style, is_neutral_para, replace_element_text, strip_fading_style,
    tokenize, Segment,
};

fn paras(doc: &str) -> Vec<(String, String)> {
    tokenize(doc)
        .into_iter()
        .filter_map(|s| match s {
            Segment::Para { open, inner } => Some((open, inner)),
            Segment::Raw(_) => None,
        })
        .collect()
}

#[test]
fn tokenize_splits_paragraphs_and_keeps_the_rest_raw() {
    let doc = "<body><h2>一章</h2><p>甲</p><p>乙</p></body>";
    let segments = tokenize(doc);
    assert!(matches!(&segments[0], Segment::Raw(t) if t == "<body><h2>一章</h2>"));
    assert!(matches!(&segments[1], Segment::Para { inner, .. } if inner == "甲"));
    assert!(matches!(&segments[2], Segment::Raw(t) if t.is_empty()));
    assert!(matches!(&segments[3], Segment::Para { inner, .. } if inner == "乙"));
    assert!(matches!(&segments[4], Segment::Raw(t) if t == "</body>"));
}

#[test]
fn tokenize_preserves_the_open_tag_verbatim() {
    let doc = "<p style=\"opacity:0.4;\">原文</p>";
    let (open, inner) = paras(doc).remove(0);
    assert_eq!(open, "<p style=\"opacity:0.4;\">");
    assert!(has_fading_style(&open));
    assert_eq!(inner, "原文");
}

#[test]
fn tokenize_does_not_treat_pre_as_a_paragraph() {
    let segments = tokenize("<pre>代码</pre>");
    assert_eq!(segments.len(), 1);
    assert!(matches!(&segments[0], Segment::Raw(t) if t == "<pre>代码</pre>"));
}

#[test]
fn tokenize_keeps_an_unclosed_tail() {
    let segments = tokenize("<p>完整</p><p>被截断");
    let last = segments.last().unwrap();
    assert!(matches!(last, Segment::Raw(t) if t == "<p>被截断"));
}

#[test]
fn tokenize_handles_paragraphs_inside_containers() {
    let doc = "<div class=\"main\"><div class=\"start-4em\"><p>甲</p></div></div>";
    assert_eq!(paras(doc).len(), 1);
    let raw: String = tokenize(doc)
        .into_iter()
        .filter_map(|s| match s {
            Segment::Raw(t) => Some(t),
            Segment::Para { .. } => None,
        })
        .collect();
    assert!(raw.contains("start-4em"));
    assert!(raw.contains("</div></div>"));
}

#[test]
fn tokenize_keeps_text_between_a_skipped_tag_and_the_next_paragraph() {
    // `<pre>` 之后的文字必须留在 Raw 里，不能被吞掉。
    let segments = tokenize("<pre>x</pre><p>甲</p>");
    assert!(matches!(&segments[0], Segment::Raw(t) if t == "<pre>x</pre>"));
    assert!(matches!(&segments[1], Segment::Para { open, inner } if open == "<p>" && inner == "甲"));
    assert!(matches!(&segments[2], Segment::Raw(t) if t.is_empty()));
    assert_eq!(segments.len(), 3);
}

#[test]
fn tokenize_of_an_empty_document_is_one_empty_raw_segment() {
    let segments = tokenize("");
    assert_eq!(segments.len(), 1);
    assert!(matches!(&segments[0], Segment::Raw(t) if t.is_empty()));
}

#[test]
fn tokenize_accepts_whitespace_after_the_tag_name() {
    let (open, inner) = paras("<p\tclass=\"a\">甲</p>").remove(0);
    assert_eq!(open, "<p\tclass=\"a\">");
    assert_eq!(inner, "甲");
}

#[test]
fn neutral_paras_are_images_and_blank_lines() {
    assert!(is_neutral_para("<img class=\"fit\" src=\"a.jpeg\" alt=\"\"/>"));
    assert!(is_neutral_para("<br />"));
    assert!(is_neutral_para("  "));
    assert!(!is_neutral_para("你好"));
    assert!(!is_neutral_para("　空から、何かが落ちてきた。"));
}

#[test]
fn neutral_paras_accept_the_tight_line_break_and_full_width_spaces() {
    assert!(is_neutral_para("<br/>"));
    assert!(is_neutral_para("\u{3000}<br />\n"));
    assert!(!is_neutral_para("<br>"));
}

#[test]
fn element_text_reads_and_trims() {
    let doc = "<dc:language>\n   zh-CN\n  </dc:language>";
    assert_eq!(element_text(doc, "dc:language").unwrap(), "zh-CN");
    assert_eq!(element_text(doc, "dc:title"), None);
}

#[test]
fn element_text_accepts_attributes_on_the_open_tag() {
    assert_eq!(
        element_text("<dc:title id=\"id\">书名</dc:title>", "dc:title").unwrap(),
        "书名"
    );
    assert_eq!(
        element_text("<dc:identifier id=\"BookId\">42</dc:identifier>", "dc:identifier").unwrap(),
        "42"
    );
}

#[test]
fn element_text_does_not_match_a_longer_tag_name() {
    assert_eq!(element_text("<dc:titleX>甲</dc:titleX>", "dc:title"), None);
}

#[test]
fn element_text_needs_the_closing_tag() {
    assert_eq!(element_text("<dc:title>甲", "dc:title"), None);
    assert_eq!(element_text("<dc:title", "dc:title"), None);
}

#[test]
fn replace_element_text_reports_a_missing_element() {
    let doc = "<dc:language>zh-CN</dc:language>";
    assert_eq!(
        replace_element_text(doc, "dc:language", "ja").unwrap(),
        "<dc:language>ja</dc:language>"
    );
    assert_eq!(replace_element_text(doc, "dc:bogus", "x"), None);
}

#[test]
fn replace_element_text_keeps_the_open_tag_attributes() {
    assert_eq!(
        replace_element_text("<dc:title id=\"id\">旧</dc:title>", "dc:title", "新").unwrap(),
        "<dc:title id=\"id\">新</dc:title>"
    );
}

#[test]
fn reading_an_element_gives_back_what_was_written() {
    let doc = "<a><dc:title id=\"t\">旧</dc:title><dc:title>二</dc:title></a>";
    let written = replace_element_text(doc, "dc:title", "  新书名 ").unwrap();
    assert_eq!(element_text(&written, "dc:title").unwrap(), "新书名");
    assert!(written.ends_with("<dc:title>二</dc:title></a>"), "只改第一个元素");
}

#[test]
fn fading_style_is_detected_by_the_opacity_value() {
    assert!(has_fading_style("<p style=\"opacity:0.4;\">"));
    assert!(has_fading_style("<p style=\"opacity: 0.5\">"), "淡化多少因书而异");
    assert!(has_fading_style("<p style=\"OPACITY:0.4\">"), "属性名大小写不敏感");
    assert!(has_fading_style("<p style=\"opacity:0.4 !important\">"));
    assert!(
        has_fading_style("<p id=\"page_171\" class=\"class_s2t\" style=\"opacity:0.4;\">"),
        "淡化声明可以和别的属性共存"
    );
}

#[test]
fn non_fading_paragraphs_are_not_flagged() {
    assert!(!has_fading_style("<p>"));
    assert!(!has_fading_style("<p class=\"class_s2t\">"));
    assert!(!has_fading_style("<p style=\"opacity:1;\">"), "不透明不算淡化");
    assert!(!has_fading_style("<p style=\"opacity:1.0\">"));
    assert!(!has_fading_style("<p style=\"color:red;\">"), "别的属性不能被误判");
}

#[test]
fn opacity_values_are_read_as_numbers() {
    // 与按 32 位浮点数解析后再和 1 比较的结果一致。
    assert!(has_fading_style("<p style=\"opacity:.5\">"));
    assert!(has_fading_style("<p style=\"opacity:4e-1\">"));
    assert!(has_fading_style("<p style=\"opacity:0\">"));
    assert!(has_fading_style("<p style=\"opacity:-1\">"));
    assert!(has_fading_style("<p style=\"opacity:-inf\">"));
    assert!(has_fading_style("<p style=\"opacity:+0.9999999\">"));
    assert!(!has_fading_style("<p style=\"opacity:0.99999999\">"), "舍入后等于 1");
    assert!(!has_fading_style("<p style=\"opacity:0.1e1\">"));
    assert!(!has_fading_style("<p style=\"opacity:inf\">"));
    assert!(!has_fading_style("<p style=\"opacity:NaN\">"));
    assert!(!has_fading_style("<p style=\"opacity:40%\">"), "不是数字就不算");
    assert!(!has_fading_style("<p style=\"opacity:\">"));
    assert!(!has_fading_style("<p style=\"opacity:.\">"));
    assert!(!has_fading_style("<p style=\"opacity:1e\">"));
}

#[test]
fn the_style_attribute_needs_a_closing_quote() {
    assert!(!has_fading_style("<p style=\"opacity:0.4;>"));
    assert!(has_fading_style("<p style='opacity:0.4'>"));
    assert!(!has_fading_style("<p style=opacity:0.4>"), "没有引号不算属性值");
}

#[test]
fn stripping_fading_style_keeps_every_other_attribute() {
    assert_eq!(
        strip_fading_style("<p id=\"page_171\" class=\"class_s2t\" style=\"opacity:0.4;\">"),
        "<p id=\"page_171\" class=\"class_s2t\">"
    );
    assert_eq!(
        strip_fading_style("<p class=\"pius2\" style=\"opacity:0.4;\">"),
        "<p class=\"pius2\">"
    );
    assert_eq!(strip_fading_style("<p style=\"opacity:0.4;\">"), "<p>");
}

#[test]
fn stripping_keeps_other_style_declarations() {
    assert_eq!(
        strip_fading_style("<p style=\"color:red; opacity:0.4;\">"),
        "<p style=\"color:red\">"
    );
    assert_eq!(
        strip_fading_style("<p style='opacity:0.4;text-align:center'>"),
        "<p style='text-align:center'>"
    );
}

#[test]
fn stripping_a_paragraph_without_fading_changes_nothing() {
    for open in ["<p>", "<p class=\"x\">", "<p style=\"opacity:1;\">", "<p>"] {
        assert_eq!(strip_fading_style(open), open);
    }
}

#[test]
fn stripping_is_idempotent() {
    let once = strip_fading_style("<p id=\"a\" style=\"opacity:0.4;\">");
    assert_eq!(strip_fading_style(&once), once, "去一次和去两次结果必须相同");
}

#[test]
fn stripping_joins_the_remaining_declarations() {
    assert_eq!(
        strip_fading_style("<p style=\" color : red ;opacity:0.4; margin:0 \">"),
        "<p style=\"color : red; margin:0\">"
    );
    let once = strip_fading_style("<p style=\"a:b;opacity:.1;c:d\">");
    assert_eq!(once, "<p style=\"a:b; c:d\">");
    assert_eq!(strip_fading_style(&once), once);
}

#[test]
fn a_second_fading_attribute_goes_on_the_second_pass() {
    let once = strip_fading_style("<p style=\"opacity:0.4\" style=\"opacity:0.3\">");
    assert_eq!(once, "<p style=\"opacity:0.3\">");
    assert_eq!(strip_fading_style(&once), "<p>");
}

#[test]
fn stripping_twice_keeps_the_remaining_declarations() {
    let once = strip_fading_style("<p class=\"x\" style='opacity:0.4; color:red;; margin:0'>");
    assert_eq!(once, "<p class=\"x\" style='color:red; margin:0'>");
    assert_eq!(strip_fading_style(&once), once);
}

#[test]
fn written_element_text_reads_back_trimmed() {
    let doc = "<metadata><dc:title id=\"t\">旧</dc:title><dc:title>二</dc:title></metadata>";
    let written = replace_element_text(doc, "dc:title", "  新的书名 ").unwrap();
    assert_eq!(
        written,
        "<metadata><dc:title id=\"t\">  新的书名 </dc:title><dc:title>二</dc:title></metadata>"
    );
    assert_eq!(element_text(&written, "dc:title").as_deref(), Some("新的书名"));
}

#[test]
fn element_text_skips_a_longer_tag_name_to_the_real_element() {
    let doc = "<dc:titleX>甲</dc:titleX><dc:title>乙</dc:title>";
    assert_eq!(element_text(doc, "dc:title").as_deref(), Some("乙"));
    assert_eq!(
        replace_element_text(doc, "dc:title", "丙").as_deref(),
        Some("<dc:titleX>甲</dc:titleX><dc:title>丙</dc:title>")
    );
}

#[test]
fn removing_a_style_attribute_can_join_the_text_around_it_into_another() {
    let once = strip_fading_style("<p data=sty style=\"opacity:0.4\"le=\"opacity:0.3\">");
    assert_eq!(once, "<p data=style=\"opacity:0.3\">");
    assert!(has_fading_style(&once));
    assert_eq!(strip_fading_style(&once), "<p data=>");
}
