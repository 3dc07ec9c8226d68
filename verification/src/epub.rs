//! The EPUB container: an EPUB is a ZIP archive, read in and written out
//! whole. This layer does not look inside the entries.
//!
//! The archive format itself is the `zip` crate's; this module states what
//! the library relies on of it and builds reading and writing on that.
use std::io::{Cursor, Read, Write};

use vstd::prelude::*;
use vstd::utf8::encode_utf8;
use zip::result::ZipError;
use zip::write::SimpleFileOptions;
use zip::{CompressionMethod, ZipArchive, ZipWriter};

use crate::text::{chars_of, first_match, lemma_first_match, lemma_first_match_is};

verus! {

/// An entry of the archive: its name and its bytes.
pub type Entry = (String, Vec<u8>);

// ------------------------------------------------------------------ the zip crate

#[verifier::external_type_specification]
#[verifier::external_body]
#[verifier::reject_recursive_types(R)]
pub struct ExZipArchive<R>(ZipArchive<R>);

/// An archive being built in memory. `ZipWriter` is bound by `Write + Seek`,
/// traits that the declaration of an outside type cannot carry here, so the
/// writer is held as a private field of this opaque struct.
#[verifier::external_body]
pub struct ArchiveWriter {
    inner: ZipWriter<Cursor<Vec<u8>>>,
}

#[verifier::external_type_specification]
#[verifier::external_body]
pub struct ExZipError(ZipError);

#[verifier::external_type_specification]
#[verifier::external_body]
#[verifier::reject_recursive_types(T)]
pub struct ExCursor<T>(Cursor<T>);

/// A file of an archive as the library sees it: its name, whether it is
/// stored uncompressed, and its (decompressed) bytes.
pub type ZipFileView = (Seq<char>, bool, Seq<u8>);

/// The files of an open archive, in the archive's order.
pub uninterp spec fn archive_files(a: ZipArchive<Cursor<Vec<u8>>>) -> Seq<ZipFileView>;

/// The bytes an open archive reads from.
pub uninterp spec fn archive_source(a: ZipArchive<Cursor<Vec<u8>>>) -> Seq<u8>;

/// The files that an archive opened on these bytes holds.
pub uninterp spec fn zip_contents(bytes: Seq<u8>) -> Seq<ZipFileView>;

/// `ZipArchive::new` accepts these bytes as an archive.
pub uninterp spec fn zip_opens(bytes: Seq<u8>) -> bool;

/// `ZipArchive::by_index` opens the file at index `i` of the archive on
/// these bytes.
pub uninterp spec fn entry_opens(bytes: Seq<u8>, i: int) -> bool;

/// The file at index `i` of the archive on these bytes opens and reads out
/// whole.
pub uninterp spec fn entry_reads(bytes: Seq<u8>, i: int) -> bool;

/// The files written so far to an archive being built, in order.
pub uninterp spec fn writer_files(w: ArchiveWriter) -> Seq<ZipFileView>;

/// No call on the archive being built has failed so far.
pub uninterp spec fn writer_intact(w: ArchiveWriter) -> bool;

/// `ZipWriter::start_file` accepts a new file with this name and method
/// after these files.
pub uninterp spec fn start_accepted(files: Seq<ZipFileView>, name: Seq<char>, stored: bool) -> bool;

/// Writing these bytes to the last of these files is accepted.
pub uninterp spec fn write_accepted(files: Seq<ZipFileView>, data: Seq<u8>) -> bool;

/// `ZipWriter::finish` completes an archive of these files.
pub uninterp spec fn finish_accepted(files: Seq<ZipFileView>) -> bool;

/// The archive on these bytes opens, and every one of its files opens and
/// reads out.
pub open spec fn zip_readable(bytes: Seq<u8>) -> bool {
    zip_opens(bytes) && forall|i: int|
        0 <= i < zip_contents(bytes).len() ==> #[trigger] entry_opens(bytes, i) && entry_reads(bytes, i)
}

/// What `read` needs of the archive on these bytes: it opens, every file
/// opens, and every file that is not a directory reads out.
pub open spec fn epub_readable(bytes: Seq<u8>) -> bool {
    zip_opens(bytes) && forall|i: int|
        0 <= i < zip_contents(bytes).len() ==> #[trigger] entry_opens(bytes, i) && (!is_dir_name(
            zip_contents(bytes)[i].0,
        ) ==> entry_reads(bytes, i))
}

/// `ZipArchive::new` over the bytes: it succeeds exactly when the bytes are
/// an archive it accepts, and the archive opened holds the files that the
/// bytes encode.
#[verifier::external_body]
pub(crate) fn archive_open(bytes: Vec<u8>) -> (r: Result<ZipArchive<Cursor<Vec<u8>>>, ZipError>)
    ensures
        r is Ok <==> zip_opens(bytes@),
        r matches Ok(a) ==> archive_files(a) == zip_contents(bytes@) && archive_source(a) == bytes@,
{
    ZipArchive::new(Cursor::new(bytes))
}

/// `ZipArchive::len`: the number of files.
#[verifier::external_body]
pub(crate) fn archive_len(a: &ZipArchive<Cursor<Vec<u8>>>) -> (n: usize)
    ensures
        n == archive_files(*a).len(),
{
    a.len()
}

/// `ZipArchive::by_index`, without reading the data: the file's name and
/// whether it is stored uncompressed. It succeeds exactly when `zip` opens
/// that file; it changes neither what the archive holds nor the bytes it
/// reads from. Why it failed is not stated.
#[verifier::external_body]
pub(crate) fn archive_probe(a: &mut ZipArchive<Cursor<Vec<u8>>>, i: usize) -> (r: Result<
    (String, bool),
    ZipError,
>)
    requires
        i < archive_files(*old(a)).len(),
    ensures
        archive_files(*final(a)) == archive_files(*old(a)),
        archive_source(*final(a)) == archive_source(*old(a)),
        r is Ok <==> entry_opens(archive_source(*old(a)), i as int),
        r matches Ok(e) ==> e.0@ == archive_files(*old(a))[i as int].0 && e.1 == archive_files(
            *old(a),
        )[i as int].1,
{
    let file = a.by_index(i)?;
    Ok((file.name().to_string(), file.compression() == CompressionMethod::Stored))
}

/// `ZipArchive::by_index`, read out: the file's name, whether it is stored
/// uncompressed, and all its bytes (`Read::read_to_end`). It succeeds exactly
/// when that file of the archive reads out; reading changes neither what the
/// archive holds nor the bytes it reads from. Why a read failed is not stated.
#[verifier::external_body]
pub(crate) fn archive_entry(a: &mut ZipArchive<Cursor<Vec<u8>>>, i: usize) -> (r: Result<
    (String, bool, Vec<u8>),
    ZipError,
>)
    requires
        i < archive_files(*old(a)).len(),
    ensures
        archive_files(*final(a)) == archive_files(*old(a)),
        archive_source(*final(a)) == archive_source(*old(a)),
        r is Ok <==> entry_reads(archive_source(*old(a)), i as int),
        r matches Ok(e) ==> (e.0@, e.1, e.2@) == archive_files(*old(a))[i as int],
{
    let mut file = a.by_index(i)?;
    let name = file.name().to_string();
    let stored = file.compression() == CompressionMethod::Stored;
    let mut data = Vec::new();
    file.read_to_end(&mut data)?;
    Ok((name, stored, data))
}

/// `ZipWriter::new` over an empty buffer: no files yet.
#[verifier::external_body]
fn writer_new() -> (w: ArchiveWriter)
    ensures
        writer_files(w) == Seq::<ZipFileView>::empty(),
        writer_intact(w),
{
    ArchiveWriter { inner: ZipWriter::new(Cursor::new(Vec::new())) }
}

/// `ZipWriter::start_file`, stored or deflated. On success a new empty file
/// with that name and method follows the others. It fails when a file of
/// that name was written before. A name of 65,536 bytes or more makes `zip`
/// panic, so none is passed.
#[verifier::external_body]
fn writer_start(w: &mut ArchiveWriter, name: &str, stored: bool) -> (r: Result<
    (),
    ZipError,
>)
    requires
        writer_intact(*old(w)),
        name.len() <= 65535,
    ensures
        r is Ok <==> start_accepted(writer_files(*old(w)), name@, stored),
        (exists|j: int| 0 <= j < writer_files(*old(w)).len() && #[trigger] writer_files(*old(w))[j].0
            == name@) ==> r is Err,
        r is Ok ==> writer_intact(*final(w)) && writer_files(*final(w)) == writer_files(
            *old(w),
        ).push((name@, stored, Seq::<u8>::empty())),
{
    let method = if stored {
        CompressionMethod::Stored
    } else {
        CompressionMethod::Deflated
    };
    w.inner.start_file(name, SimpleFileOptions::default().compression_method(method))
}

/// `Write::write_all` on the archive: on success the bytes are added to the
/// file started last.
#[verifier::external_body]
fn writer_write(w: &mut ArchiveWriter, data: &[u8]) -> (r: Result<(), ZipError>)
    requires
        writer_intact(*old(w)),
        writer_files(*old(w)).len() > 0,
    ensures
        r is Ok <==> write_accepted(writer_files(*old(w)), data@),
        r is Ok ==> writer_intact(*final(w)) && writer_files(*final(w)) == ({
            let f = writer_files(*old(w));
            let last = f.last();
            f.update(f.len() - 1, (last.0, last.1, last.2 + data@))
        }),
{
    w.inner.write_all(data).map_err(ZipError::Io)
}

/// `ZipWriter::finish`, with the buffer taken out: on success the bytes hold
/// the files that were written, and `zip` reads them back.
#[verifier::external_body]
fn writer_finish(w: ArchiveWriter) -> (r: Result<Vec<u8>, ZipError>)
    requires
        writer_intact(w),
    ensures
        r is Ok <==> finish_accepted(writer_files(w)),
        r matches Ok(b) ==> zip_contents(b@) == writer_files(w) && zip_readable(b@),
{
    w.inner.finish().map(|c| c.into_inner())
}

// ------------------------------------------------------------------ the library

/// Why an archive could not be read or written.
#[derive(Debug)]
pub enum ArchiveError {
    /// The ZIP layer failed.
    Zip(ZipError),
    /// A text entry is not UTF-8.
    NotText(String),
    /// The archive has no entry at all.
    Empty,
    /// The counts do not fit in a `usize`.
    TooLarge,
    /// An entry's name is 65,536 bytes long or more, longer than ZIP allows.
    NameTooLong(String),
}

/// The model of the archive's entries: names and bytes.
pub open spec fn entry_views(es: Seq<Entry>) -> Seq<(Seq<char>, Seq<u8>)> {
    es.map_values(|e: Entry| (e.0@, e.1@))
}

/// A name that ZIP reads as a directory (it ends with `/` or `\`).
pub open spec fn is_dir_name(name: Seq<char>) -> bool {
    name.len() > 0 && (name.last() == '/' || name.last() == '\\')
}

/// The files of an archive that are not directories, as entries.
pub open spec fn listed(files: Seq<ZipFileView>) -> Seq<(Seq<char>, Seq<u8>)>
    decreases files.len(),
{
    if files.len() == 0 {
        Seq::empty()
    } else {
        let rest = listed(files.drop_last());
        let f = files.last();
        if is_dir_name(f.0) {
            rest
        } else {
            rest.push((f.0, f.2))
        }
    }
}

pub open spec fn mimetype_name() -> Seq<char> {
    "mimetype"@
}

pub open spec fn mimetype_bytes() -> Seq<u8> {
    encode_utf8("application/epub+zip"@)
}

/// The files an EPUB holds for the given entries: first `mimetype`, stored,
/// then every entry but a `mimetype`, deflated, in order.
pub open spec fn epub_files(es: Seq<(Seq<char>, Seq<u8>)>) -> Seq<ZipFileView>
    decreases es.len(),
{
    if es.len() == 0 {
        seq![(mimetype_name(), true, mimetype_bytes())]
    } else {
        let rest = epub_files(es.drop_last());
        let e = es.last();
        if e.0 == mimetype_name() {
            rest
        } else {
            rest.push((e.0, false, e.1))
        }
    }
}

/// The entries other than `mimetype`, in order.
pub open spec fn without_mimetype(es: Seq<(Seq<char>, Seq<u8>)>) -> Seq<(Seq<char>, Seq<u8>)>
    decreases es.len(),
{
    if es.len() == 0 {
        Seq::empty()
    } else if es.last().0 == mimetype_name() {
        without_mimetype(es.drop_last())
    } else {
        without_mimetype(es.drop_last()).push(es.last())
    }
}

/// An EPUB written from some entries reads back as `mimetype`, with its
/// standard content, followed by the other entries in their order. An entry
/// named as a directory would be written but not read back, so none is.
pub proof fn law_written_epub_reads_back(es: Seq<(Seq<char>, Seq<u8>)>)
    requires
        forall|k: int| 0 <= k < es.len() ==> !is_dir_name(#[trigger] es[k].0),
    ensures
        listed(epub_files(es)) == seq![(mimetype_name(), mimetype_bytes())] + without_mimetype(es),
    decreases es.len(),
{
    if es.len() == 0 {
        reveal_strlit("mimetype");
        let f = epub_files(es);
        assert(f.drop_last() =~= Seq::<ZipFileView>::empty());
        assert(!is_dir_name(mimetype_name()));
        assert(listed(f.drop_last()) =~= Seq::<(Seq<char>, Seq<u8>)>::empty());
        assert(f.last() == (mimetype_name(), true, mimetype_bytes()));
        assert(listed(f) =~= seq![(mimetype_name(), mimetype_bytes())]);
    } else {
        let rest = es.drop_last();
        assert forall|k: int| 0 <= k < rest.len() implies !is_dir_name(#[trigger] rest[k].0) by {
            assert(rest[k] == es[k]);
        }
        law_written_epub_reads_back(rest);
        let e = es.last();
        if e.0 != mimetype_name() {
            let f = epub_files(es);
            assert(f.drop_last() =~= epub_files(rest));
            assert(!is_dir_name(es[es.len() - 1].0));
        }
    }
}

/// In every EPUB written, `mimetype` is the first file, stored uncompressed
/// with its standard content, and no other file has that name.
pub proof fn law_mimetype_first_and_once(es: Seq<(Seq<char>, Seq<u8>)>)
    ensures
        epub_files(es).len() > 0,
        epub_files(es)[0] == (mimetype_name(), true, mimetype_bytes()),
        forall|k: int| 0 < k < epub_files(es).len() ==> #[trigger] epub_files(es)[k].0 != mimetype_name(),
    decreases es.len(),
{
    if es.len() > 0 {
        law_mimetype_first_and_once(es.drop_last());
        let rest = epub_files(es.drop_last());
        if es.last().0 != mimetype_name() {
            assert forall|k: int| 0 < k < epub_files(es).len() implies #[trigger] epub_files(es)[k].0
                != mimetype_name() by {
                if k < rest.len() {
                    assert(epub_files(es)[k] == rest[k]);
                }
            }
        }
    }
}

/// The bytes that `write` gives for some entries read back with `read`: the
/// archive opens, every file opens and reads out, and the entries come back as
/// `mimetype` with its standard content followed by the other entries in
/// their order. An entry named as a directory would be written but not read
/// back, so none is.
pub proof fn law_write_then_read(entries: Seq<Entry>, bytes: Seq<u8>)
    requires
        zip_contents(bytes) == epub_files(entry_views(entries)),
        zip_readable(bytes),
        forall|k: int| 0 <= k < entries.len() ==> !is_dir_name(#[trigger] entries[k].0@),
    ensures
        epub_readable(bytes),
        listed(zip_contents(bytes)) == seq![(mimetype_name(), mimetype_bytes())] + without_mimetype(
            entry_views(entries),
        ),
{
    let es = entry_views(entries);
    assert forall|k: int| 0 <= k < es.len() implies !is_dir_name(#[trigger] es[k].0) by {
        assert(es[k].0 == entries[k].0@);
    }
    law_written_epub_reads_back(es);
    assert forall|i: int| 0 <= i < zip_contents(bytes).len() implies #[trigger] entry_opens(bytes, i)
        && (!is_dir_name(zip_contents(bytes)[i].0) ==> entry_reads(bytes, i)) by {
        assert(entry_opens(bytes, i) && entry_reads(bytes, i));
    }
}

fn is_dir_entry(name: &String) -> (r: bool)
    ensures
        r == is_dir_name(name@),
{
    let v = chars_of(name.as_str());
    v.len() > 0 && (v[v.len() - 1] == '/' || v[v.len() - 1] == '\\')
}

/// Reads every entry of an EPUB, skipping directories, in the archive's order.
///
/// Every file is opened; a directory is then skipped without reading its
/// data. It succeeds exactly when `zip` opens the archive and every file,
/// and reads every file that is not a directory; it fails only with the ZIP
/// layer's error.
pub fn read(archive: Vec<u8>) -> (r: Result<Vec<Entry>, ArchiveError>)
    ensures
        r is Ok <==> epub_readable(archive@),
        r matches Ok(es) ==> entry_views(es@) == listed(zip_contents(archive@)),
        r matches Err(e) ==> e is Zip,
{
    let ghost bytes = archive@;
    let mut a = match archive_open(archive) {
        Ok(a) => a,
        Err(e) => return Err(ArchiveError::Zip(e)),
    };
    let ghost files = archive_files(a);
    let n = archive_len(&a);
    let mut out: Vec<Entry> = Vec::new();
    let mut i: usize = 0;
    while i < n
        invariant
            i <= n,
            n == files.len(),
            files == archive_files(a),
            files == zip_contents(bytes),
            bytes == archive@,
            bytes == archive_source(a),
            zip_opens(bytes),
            forall|j: int|
                0 <= j < i ==> #[trigger] entry_opens(bytes, j) && (!is_dir_name(files[j].0)
                    ==> entry_reads(bytes, j)),
            entry_views(out@) == listed(files.take(i as int)),
        decreases n - i,
    {
        let (name, _stored) = match archive_probe(&mut a, i) {
            Ok(e) => e,
            Err(e) => return Err(ArchiveError::Zip(e)),
        };
        proof {
            assert(files.take(i + 1).drop_last() =~= files.take(i as int));
        }
        if !is_dir_entry(&name) {
            let (_, _, data) = match archive_entry(&mut a, i) {
                Ok(e) => e,
                Err(e) => return Err(ArchiveError::Zip(e)),
            };
            assert(entry_reads(bytes, i as int));
            out.push((name, data));
        }
        proof {
            assert(entry_views(out@) =~= listed(files.take(i + 1)));
            assert forall|j: int| 0 <= j < i + 1 implies #[trigger] entry_opens(bytes, j) && (
            !is_dir_name(files[j].0) ==> entry_reads(bytes, j)) by {
                if j < i {
                    assert(entry_opens(bytes, j));
                }
            }
        }
        i += 1;
    }
    assert(files.take(n as int) =~= files);
    Ok(out)
}

/// Whether the name is `mimetype`.
fn is_mimetype(name: &String) -> (r: bool)
    ensures
        r == (name@ == mimetype_name()),
{
    let v = chars_of(name.as_str());
    let m = chars_of("mimetype");
    let r = v.len() == m.len() && crate::text::matches_here(&v, &m, 0);
    proof {
        assert(v@.subrange(0, v@.len() as int) =~= v@);
    }
    r
}

/// Every step of writing these entries is accepted by `zip`: `mimetype`
/// with its content, then each other entry started and written after the
/// files before it.
pub open spec fn steps_accepted(es: Seq<(Seq<char>, Seq<u8>)>) -> bool
    decreases es.len(),
{
    if es.len() == 0 {
        start_accepted(Seq::empty(), mimetype_name(), true) && write_accepted(
            seq![(mimetype_name(), true, Seq::<u8>::empty())],
            mimetype_bytes(),
        )
    } else {
        let rest = es.drop_last();
        let e = es.last();
        steps_accepted(rest) && (e.0 == mimetype_name() || (start_accepted(
            epub_files(rest),
            e.0,
            false,
        ) && write_accepted(epub_files(rest).push((e.0, false, Seq::<u8>::empty())), e.1)))
    }
}

/// The name of entry `k` fits in ZIP (under 65,536 bytes), or it is a
/// `mimetype` entry, which is not written.
pub open spec fn name_fits_at(es: Seq<Entry>, k: int) -> bool {
    es[k].0@ != mimetype_name() ==> encode_utf8(es[k].0@).len() <= 65535
}

/// Every entry's name fits in ZIP.
pub open spec fn names_fit(es: Seq<Entry>) -> bool {
    forall|k: int| 0 <= k < es.len() ==> #[trigger] name_fits_at(es, k)
}

pub open spec fn long_name_pred(es: Seq<Entry>) -> spec_fn(int) -> bool {
    |k: int| !name_fits_at(es, k)
}

/// The first entry whose name does not fit in ZIP, if any.
pub open spec fn first_long_name(es: Seq<Entry>) -> Option<int> {
    first_match(long_name_pred(es), 0, es.len() as int)
}

/// A step refused before any name that does not fit rules out `NameTooLong`:
/// the writing up to the first long name is not accepted.
proof fn lemma_refused_before_long(entries: Seq<Entry>, m: int)
    requires
        0 <= m <= entries.len(),
        forall|k: int| 0 <= k < m ==> #[trigger] name_fits_at(entries, k),
        !steps_accepted(entry_views(entries).take(m)),
    ensures
        !(first_long_name(entries) matches Some(k) && steps_accepted(entry_views(entries).take(k))),
{
    let views = entry_views(entries);
    lemma_first_match(long_name_pred(entries), 0, entries.len() as int);
    if let Some(k) = first_long_name(entries) {
        assert(long_name_pred(entries)(k));
        if k < m {
            assert(name_fits_at(entries, k));
        }
        if steps_accepted(views.take(k)) {
            lemma_steps_prefix(views.take(k), m);
            assert(views.take(k).take(m) =~= views.take(m));
        }
    }
}

/// Two entries other than `mimetype` share a name.
pub open spec fn names_repeat(es: Seq<(Seq<char>, Seq<u8>)>) -> bool {
    exists|j: int, k: int|
        0 <= j < k < es.len() && #[trigger] es[j].0 == #[trigger] es[k].0 && es[k].0
            != mimetype_name()
}

/// A UTF-8 encoding takes at most four bytes a character.
proof fn lemma_encoded_len_bound(cs: Seq<char>)
    ensures
        encode_utf8(cs).len() <= 4 * cs.len(),
    decreases cs.len(),
{
    if cs.len() > 0 {
        lemma_encoded_len_bound(cs.drop_first());
    }
}

proof fn lemma_steps_prefix(es: Seq<(Seq<char>, Seq<u8>)>, k: int)
    requires
        0 <= k <= es.len(),
        steps_accepted(es),
    ensures
        steps_accepted(es.take(k)),
    decreases es.len(),
{
    if k < es.len() {
        assert(es.drop_last().take(k) =~= es.take(k));
        lemma_steps_prefix(es.drop_last(), k);
    } else {
        assert(es.take(k) =~= es);
    }
}

/// A step refused on the way makes the whole writing refused.
proof fn lemma_steps_refused(es: Seq<(Seq<char>, Seq<u8>)>, k: int)
    requires
        0 <= k <= es.len(),
        !steps_accepted(es.take(k)),
    ensures
        !steps_accepted(es),
{
    if steps_accepted(es) {
        lemma_steps_prefix(es, k);
    }
}

/// Every entry other than `mimetype` is among the files written for it.
proof fn lemma_written_names(es: Seq<(Seq<char>, Seq<u8>)>, j: int)
    requires
        0 <= j < es.len(),
        es[j].0 != mimetype_name(),
    ensures
        exists|m: int| 0 <= m < epub_files(es).len() && #[trigger] epub_files(es)[m].0 == es[j].0,
    decreases es.len(),
{
    let rest = es.drop_last();
    let f = epub_files(es);
    if j < es.len() - 1 {
        assert(rest[j] == es[j]);
        lemma_written_names(rest, j);
        let m = choose|m: int| 0 <= m < epub_files(rest).len() && #[trigger] epub_files(rest)[m].0
            == rest[j].0;
        if es.last().0 != mimetype_name() {
            assert(f[m] == epub_files(rest)[m]);
        }
        assert(f[m].0 == es[j].0);
    } else {
        assert(f[f.len() - 1].0 == es[j].0);
    }
}

/// Writes an EPUB.
///
/// `mimetype` is the first entry and is stored uncompressed, as the EPUB
/// specification requires; a `mimetype` among the given entries is not
/// written a second time. The other entries are deflated, in order.
///
/// The first name of 65,536 bytes or more gives `NameTooLong` once the
/// entries before it are written. Otherwise it succeeds
/// exactly when `zip` accepts every step, which it does not when two entries
/// share a name; it fails only with the ZIP layer's error. What it writes
/// reads back.
pub fn write(entries: &[Entry]) -> (r: Result<Vec<u8>, ArchiveError>)
    ensures
        r is Ok <==> names_fit(entries@) && steps_accepted(entry_views(entries@))
            && finish_accepted(epub_files(entry_views(entries@))),
        r matches Ok(b) ==> zip_contents(b@) == epub_files(entry_views(entries@)) && zip_readable(
            b@,
        ),
        names_repeat(entry_views(entries@)) ==> r is Err,
        r matches Err(e) ==> e is Zip || e is NameTooLong,
        (r matches Err(ArchiveError::NameTooLong(_))) <==> (first_long_name(entries@) matches Some(k)
            && steps_accepted(entry_views(entries@).take(k))),
        r matches Err(ArchiveError::NameTooLong(n)) ==> n@ == entries@[first_long_name(
            entries@,
        )->0].0@,
{
    let ghost views = entry_views(entries@);
    let mut w = writer_new();
    let mime_name = "mimetype";
    proof {
        reveal_strlit("mimetype");
        lemma_encoded_len_bound(mime_name@);
        assert(views.take(0) =~= Seq::<(Seq<char>, Seq<u8>)>::empty());
    }
    assert(mime_name@ == mimetype_name());
    if let Err(e) = writer_start(&mut w, mime_name, true) {
        proof {
            lemma_steps_refused(views, 0);
            lemma_refused_before_long(entries@, 0);
        }
        return Err(ArchiveError::Zip(e));
    }
    let mime = "application/epub+zip";
    if let Err(e) = writer_write(&mut w, mime.as_bytes()) {
        proof {
            lemma_steps_refused(views, 0);
            lemma_refused_before_long(entries@, 0);
        }
        return Err(ArchiveError::Zip(e));
    }
    proof {
        assert(writer_files(w) =~= epub_files(views.take(0)));
    }
    let mut i: usize = 0;
    while i < entries.len()
        invariant
            i <= entries.len(),
            views == entry_views(entries@),
            writer_intact(w),
            writer_files(w) == epub_files(views.take(i as int)),
            steps_accepted(views.take(i as int)),
            forall|k: int| 0 <= k < i ==> #[trigger] name_fits_at(entries@, k),
            !names_repeat(views.take(i as int)),
        decreases entries.len() - i,
    {
        let ghost pre = views.take(i as int);
        let ghost cur = views.take(i + 1);
        proof {
            assert(cur.drop_last() =~= pre);
            assert(cur.last() == (entries@[i as int].0@, entries@[i as int].1@));
        }
        let name = &entries[i].0;
        let data = &entries[i].1;
        if !is_mimetype(name) {
            if name.as_str().as_bytes().len() > 65535 {
                proof {
                    assert(!name_fits_at(entries@, i as int));
                    assert(!names_fit(entries@));
                    let p = long_name_pred(entries@);
                    assert(p(i as int));
                    assert forall|j: int| 0 <= j < i implies !#[trigger] p(j) by {
                        assert(name_fits_at(entries@, j));
                    }
                    lemma_first_match_is(p, 0, i as int, entries@.len() as int);
                }
                return Err(ArchiveError::NameTooLong(name.clone()));
            }
            if let Err(e) = writer_start(&mut w, name.as_str(), false) {
                proof {
                    lemma_steps_refused(views, i + 1);
                    assert(name_fits_at(entries@, i as int));
                    lemma_refused_before_long(entries@, i + 1);
                }
                return Err(ArchiveError::Zip(e));
            }
            proof {
                assert forall|j: int| 0 <= j < i && pre[j].0 != mimetype_name() implies pre[j].0
                    != name@ by {
                    lemma_written_names(pre, j);
                }
            }
            if let Err(e) = writer_write(&mut w, data.as_slice()) {
                proof {
                    lemma_steps_refused(views, i + 1);
                    assert(name_fits_at(entries@, i as int));
                    lemma_refused_before_long(entries@, i + 1);
                }
                return Err(ArchiveError::Zip(e));
            }
            proof {
                assert(writer_files(w) =~= epub_files(cur));
            }
        }
        proof {
            assert(name_fits_at(entries@, i as int));
            if names_repeat(cur) {
                let (j, k) = choose|j: int, k: int|
                    0 <= j < k < cur.len() && #[trigger] cur[j].0 == #[trigger] cur[k].0 && cur[k].0
                        != mimetype_name();
                if k < i {
                    assert(pre[j] == cur[j] && pre[k] == cur[k]);
                    assert(names_repeat(pre));
                } else {
                    assert(cur[j] == pre[j]);
                }
            }
        }
        i += 1;
    }
    proof {
        assert(views.take(entries@.len() as int) =~= views);
        lemma_first_match(long_name_pred(entries@), 0, entries@.len() as int);
        if let Some(k) = first_long_name(entries@) {
            assert(long_name_pred(entries@)(k));
            assert(name_fits_at(entries@, k));
        }
    }
    match writer_finish(w) {
        Ok(b) => Ok(b),
        Err(e) => Err(ArchiveError::Zip(e)),
    }
}

} // verus!
