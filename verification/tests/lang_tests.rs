use novelia_epub_bilingual_splitter::lang::{contains_kana, Lang};

#[test]
fn detects_kana() {
    assert!(contains_kana("こんにちは"), "平假名");
    assert!(contains_kana("カイブツ"), "片假名");
    assert!(contains_kana("コーヒー"), "长音符也算");
    assert!(contains_kana("「……っ、」"), "促音");
}

#[test]
fn does_not_flag_chinese_as_japanese() {
    assert!(!contains_kana("你好，世界。"));
    assert!(!contains_kana("凱物×女友"), "汉字不是假名");
    assert!(!contains_kana("「……骗人的吧……？」"));
    assert!(!contains_kana("二〇一五年二月一日发行"));
}

#[test]
fn chinese_translations_may_legitimately_keep_japanese_names() {
    assert!(contains_kana("你竟然在ダンTV的在线人数排行榜上排名第一了！"));
    assert!(contains_kana("负责插画的とくまろ老师。"));
}

#[test]
fn every_language_has_a_distinct_tag() {
    let tags: Vec<_> = Lang::ALL.iter().map(|l| l.tag()).collect();
    let langs: Vec<_> = Lang::ALL.iter().map(|l| l.dc_language()).collect();
    assert_ne!(tags[0], tags[1], "两个产物文件名必须不同，否则会互相覆盖");
    assert_ne!(langs[0], langs[1]);
}

#[test]
fn language_tags_have_their_exact_values() {
    assert_eq!(Lang::Ja.tag(), "ja");
    assert_eq!(Lang::Zh.tag(), "zh");
    assert_eq!(Lang::Ja.dc_language(), "ja");
    assert_eq!(Lang::Zh.dc_language(), "zh-CN");
}

#[test]
fn kana_boundaries_are_exact() {
    assert!(contains_kana("\u{3041}"));
    assert!(contains_kana("\u{3096}"));
    assert!(!contains_kana("\u{3040}"));
    assert!(!contains_kana("\u{3097}"));
    assert!(contains_kana("\u{30A1}"));
    assert!(contains_kana("\u{30FA}"));
    assert!(!contains_kana("\u{30FB}"), "中点不算假名");
    assert!(contains_kana("\u{30FC}"));
    assert!(!contains_kana(""));
}
