use std::io::{Cursor, Write};

use novelia_epub_bilingual_splitter::epub;
use novelia_epub_bilingual_splitter::epub::Entry;
use zip::write::SimpleFileOptions;
use zip::{CompressionMethod, ZipArchive, ZipWriter};

fn sample() -> Vec<Entry> {
    vec![
        ("mimetype".into(), b"application/epub+zip".to_vec()),
        ("META-INF/container.xml".into(), b"<container/>".to_vec()),
        ("OEBPS/Text/a.xhtml".into(), "<p>你好</p>".as_bytes().to_vec()),
    ]
}

#[test]
fn round_trips_entries_in_order() {
    let bytes = epub::write(&sample()).unwrap();
    let entries = epub::read(bytes).unwrap();
    assert_eq!(entries, sample(), "读写一圈后条目与顺序都必须不变");
}

#[test]
fn mimetype_is_first_and_uncompressed() {
    let bytes = epub::write(&sample()).unwrap();
    let mut archive = ZipArchive::new(Cursor::new(bytes)).unwrap();
    let first = archive.by_index(0).unwrap();
    assert_eq!(first.name(), "mimetype");
    assert_eq!(
        first.compression(),
        CompressionMethod::Stored,
        "mimetype 必须不压缩，否则不符合 EPUB 规范"
    );
}

#[test]
fn mimetype_is_not_written_twice() {
    let bytes = epub::write(&sample()).unwrap();
    let mut archive = ZipArchive::new(Cursor::new(bytes)).unwrap();
    let count = (0..archive.len())
        .filter(|i| archive.by_index(*i).unwrap().name() == "mimetype")
        .count();
    assert_eq!(count, 1);
}

#[test]
fn directory_entries_are_skipped() {
    let mut out = Cursor::new(Vec::new());
    {
        let mut zip = ZipWriter::new(&mut out);
        let opts = SimpleFileOptions::default();
        zip.add_directory("OEBPS/", opts).unwrap();
        zip.start_file("OEBPS/a.xhtml", opts).unwrap();
        zip.write_all(b"x").unwrap();
        zip.finish().unwrap();
    }
    let entries = epub::read(out.into_inner()).unwrap();
    assert_eq!(entries.len(), 1);
    assert_eq!(entries[0].0, "OEBPS/a.xhtml");
}

#[test]
fn mimetype_is_added_when_missing() {
    let entries: Vec<Entry> = vec![("OEBPS/a.xhtml".into(), b"<p>x</p>".to_vec())];
    let back = epub::read(epub::write(&entries).unwrap()).unwrap();
    assert_eq!(
        back,
        vec![
            ("mimetype".to_string(), b"application/epub+zip".to_vec()),
            ("OEBPS/a.xhtml".to_string(), b"<p>x</p>".to_vec()),
        ]
    );
}

#[test]
fn a_given_mimetype_is_replaced_by_the_standard_one() {
    let entries: Vec<Entry> = vec![
        ("a.txt".into(), b"a".to_vec()),
        ("mimetype".into(), b"text/plain".to_vec()),
    ];
    let back = epub::read(epub::write(&entries).unwrap()).unwrap();
    assert_eq!(back[0], ("mimetype".to_string(), b"application/epub+zip".to_vec()));
    assert_eq!(back[1], ("a.txt".to_string(), b"a".to_vec()));
    assert_eq!(back.len(), 2);
}

#[test]
fn garbage_is_not_an_archive() {
    assert!(matches!(epub::read(b"not a zip".to_vec()), Err(epub::ArchiveError::Zip(_))));
}

#[test]
fn repeated_names_are_refused_by_zip() {
    let entries: Vec<Entry> = vec![
        ("OEBPS/a.xhtml".into(), b"1".to_vec()),
        ("OEBPS/a.xhtml".into(), b"2".to_vec()),
    ];
    assert!(matches!(epub::write(&entries), Err(epub::ArchiveError::Zip(_))));
}

#[test]
fn an_overlong_name_is_refused_before_zip_sees_it() {
    let name = "a".repeat(65536);
    let entries: Vec<Entry> = vec![(name.clone(), b"1".to_vec())];
    match epub::write(&entries) {
        Err(epub::ArchiveError::NameTooLong(n)) => assert_eq!(n, name),
        _ => panic!("expected NameTooLong"),
    }
    let fits: Vec<Entry> = vec![("a".repeat(65535), b"1".to_vec())];
    let back = epub::read(epub::write(&fits).unwrap()).unwrap();
    assert_eq!(back[1], fits[0]);
}

#[test]
fn the_first_overlong_name_is_the_one_reported() {
    let long = "b".repeat(65536);
    // A repeated name after the long one is never reached.
    let entries: Vec<Entry> = vec![
        ("OEBPS/a.xhtml".into(), b"1".to_vec()),
        (long.clone(), b"2".to_vec()),
        ("c".repeat(70000), b"3".to_vec()),
        ("OEBPS/a.xhtml".into(), b"4".to_vec()),
    ];
    match epub::write(&entries) {
        Err(epub::ArchiveError::NameTooLong(n)) => assert_eq!(n, long),
        _ => panic!("expected NameTooLong"),
    }
    // A step that zip refuses before the long name comes first.
    let refused_first: Vec<Entry> = vec![
        ("OEBPS/a.xhtml".into(), b"1".to_vec()),
        ("OEBPS/a.xhtml".into(), b"2".to_vec()),
        (long, b"3".to_vec()),
    ];
    assert!(matches!(epub::write(&refused_first), Err(epub::ArchiveError::Zip(_))));
}
