use novelia_epub_bilingual_splitter::lang::Lang;
use novelia_epub_bilingual_splitter::metadata::{rewrite_ncx, rewrite_opf, rewrite_raw};

const OPF: &str = "<dc:title>\n   カイブツ×カノジョ (講談社ラノベ文庫)\n  </dc:title><dc:language>\n   zh-CN\n  </dc:language><dc:identifier id=\"uid\">\n   4153338049\n  </dc:identifier><meta name=\"primary-writing-mode\" content=\"horizontal-lr\" /><reference type=\"toc\" title=\"目次\" href=\"Text/part0005.xhtml\" />";

#[test]
fn opf_gets_correct_language_title_and_distinct_ids() {
    let ja = rewrite_opf(OPF, Lang::Ja, "4153338049");
    let zh = rewrite_opf(OPF, Lang::Zh, "4153338049");

    assert!(ja.contains("<dc:language>ja</dc:language>"), "源书写死 zh-CN，日文版必须改回来");
    assert!(zh.contains("<dc:language>zh-CN</dc:language>"));
    assert!(zh.contains("凯物×女友"));
    assert!(ja.contains("4153338049-ja"));
    assert!(zh.contains("4153338049-zh"));
    assert_ne!(ja, zh);
}

#[test]
fn opf_fixes_the_contradictory_writing_mode() {
    for lang in Lang::ALL {
        let out = rewrite_opf(OPF, lang, "id");
        assert!(out.contains("content=\"vertical-rl\""));
        assert!(!out.contains("horizontal-lr"));
    }
}

#[test]
fn opf_translates_the_guide_title_only_for_chinese() {
    assert!(rewrite_opf(OPF, Lang::Zh, "id").contains("title=\"目录\""));
    assert!(rewrite_opf(OPF, Lang::Ja, "id").contains("title=\"目次\""));
}

#[test]
fn opf_output_is_exact() {
    let zh = rewrite_opf(OPF, Lang::Zh, " 4153338049\n");
    assert_eq!(
        zh,
        "<dc:title>凯物×女友</dc:title><dc:language>zh-CN</dc:language><dc:identifier id=\"uid\">4153338049-zh</dc:identifier><meta name=\"primary-writing-mode\" content=\"vertical-rl\" /><reference type=\"toc\" title=\"目录\" href=\"Text/part0005.xhtml\" />"
    );
}

#[test]
fn opf_without_an_identifier_gets_one() {
    let opf = "<metadata><dc:title>书</dc:title></metadata>";
    assert_eq!(
        rewrite_opf(opf, Lang::Ja, "x"),
        "<metadata><dc:title>カイブツ×カノジョ (講談社ラノベ文庫)</dc:title><dc:identifier id=\"uid\">x-ja</dc:identifier></metadata>"
    );
    // 连 </metadata> 都没有时不做任何插入。
    assert_eq!(rewrite_opf("<package/>", Lang::Zh, "x"), "<package/>");
}

#[test]
fn japanese_edition_raw_text_is_untouched() {
    let raw = "<html xml:lang=\"ja\"><h2 class=\"g\">一章</h2>";
    assert_eq!(rewrite_raw(raw, Lang::Ja), raw);
}

#[test]
fn japanese_edition_relabels_a_chinese_language_attribute() {
    assert_eq!(
        rewrite_raw("<html xml:lang=\"zh-CN\"><title>一章</title>", Lang::Ja),
        "<html xml:lang=\"ja\"><title>一章</title>"
    );
}

#[test]
fn chinese_edition_keeps_the_title_of_each_file() {
    assert_eq!(
        rewrite_raw("<html xml:lang=\"ja\"><head><title>第三話</title></head>", Lang::Zh),
        "<html xml:lang=\"zh-CN\"><head><title>第三話</title></head>"
    );
}

#[test]
fn metadata_heading_translation_does_not_double_apply() {
    let out = rewrite_raw("<h2 class=\"g\">一章</h2>", Lang::Zh);
    assert_eq!(out, "<h2 class=\"g\">第一章</h2>");
    assert_eq!(out.matches("第一章").count(), 1);
    assert_eq!(out.matches("第一第一章").count(), 0);
}

#[test]
fn headings_are_rewritten_at_every_level() {
    let out = rewrite_raw("<h2>幕間</h2><h3>あとがき</h3>", Lang::Zh);
    assert!(out.contains(">间章</h2>"));
    assert!(out.contains(">后记</h3>"));
}

#[test]
fn every_heading_of_the_table_is_translated() {
    let src = "<h2>プロローグ</h2><h2>エピローグ</h2><h3>二章</h3><h3>三章</h3><h2>四章</h2><h2>五章</h2><h3>六章</h3><h4>一章</h4>";
    assert_eq!(
        rewrite_raw(src, Lang::Zh),
        "<h2>序章</h2><h2>终章</h2><h3>第二章</h3><h3>第三章</h3><h2>第四章</h2><h2>第五章</h2><h3>第六章</h3><h4>一章</h4>"
    );
}

#[test]
fn full_width_numbers_in_headings_are_left_alone() {
    let out = rewrite_raw("<h3 class=\"font-100per\">１</h3>", Lang::Zh);
    assert!(out.contains(">１</h3>"));
}

#[test]
fn ncx_gets_chinese_labels_and_titles() {
    let ncx = "<ncx xml:lang=\"ja\"><docTitle>\n<text>カイブツ×カノジョ</text>\n</docTitle><navPoint><navLabel><text>目次</text></navLabel></navPoint><navPoint><navLabel><text>奥付</text></navLabel></navPoint></ncx>";
    let zh = rewrite_ncx(ncx, Lang::Zh);
    assert!(zh.contains("xml:lang=\"zh-CN\""));
    assert!(zh.contains("<text>目录</text>"));
    assert!(zh.contains("<text>版权页</text>"));
    assert!(zh.contains("凯物×女友"));
    assert!(!zh.contains("目次"));

    let ja = rewrite_ncx(ncx, Lang::Ja);
    assert!(ja.contains("<text>目次</text>"));
    assert!(ja.contains("カイブツ×カノジョ (講談社ラノベ文庫)"));
}

#[test]
fn book_titles_are_fixed_per_language() {
    assert_eq!(Lang::Ja.book_title(), "カイブツ×カノジョ (講談社ラノベ文庫)");
    assert_eq!(Lang::Zh.book_title(), "凯物×女友");
}

#[test]
fn opf_sets_the_uid_identifier_not_the_first_one() {
    let opf = "<metadata><dc:identifier opf:scheme=\"ISBN\">9784063815</dc:identifier><dc:identifier id=\"uid\">abc</dc:identifier></metadata>";
    assert_eq!(
        rewrite_opf(opf, Lang::Zh, "abc"),
        "<metadata><dc:identifier opf:scheme=\"ISBN\">9784063815</dc:identifier><dc:identifier id=\"uid\">abc-zh</dc:identifier></metadata>"
    );
    assert_eq!(
        rewrite_opf(opf, Lang::Ja, "abc"),
        "<metadata><dc:identifier opf:scheme=\"ISBN\">9784063815</dc:identifier><dc:identifier id=\"uid\">abc-ja</dc:identifier></metadata>"
    );
}

#[test]
fn opf_with_only_an_isbn_gets_a_uid_identifier() {
    let opf = "<metadata><dc:identifier opf:scheme=\"ISBN\">978</dc:identifier></metadata>";
    assert_eq!(
        rewrite_opf(opf, Lang::Ja, "x"),
        "<metadata><dc:identifier opf:scheme=\"ISBN\">978</dc:identifier><dc:identifier id=\"uid\">x-ja</dc:identifier></metadata>"
    );
}

#[test]
fn heading_rows_do_not_match_across_overlapping_headings() {
    // The two `>一章</h2>` overlap in their `>`; like `str::replace`, only the
    // first is replaced, so a second pass still finds one.
    let once = rewrite_raw(">一章</h2>一章</h2>", Lang::Zh);
    assert_eq!(once, ">第一章</h2>一章</h2>");
    assert_eq!(rewrite_raw(&once, Lang::Zh), ">第一章</h2>第一章</h2>");
    // A well-formed heading is translated once and stays translated.
    let heading = rewrite_raw("<h2>一章</h2><h3>幕間</h3>", Lang::Zh);
    assert_eq!(heading, "<h2>第一章</h2><h3>间章</h3>");
    assert_eq!(rewrite_raw(&heading, Lang::Zh), heading);
}
