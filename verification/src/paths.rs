//! File locations: which EPUB to read, and what the editions are called.
//!
//! Paths are text here, read the way `std::path::Path` reads a Unix path;
//! nothing in this module touches the file system.
use vstd::prelude::*;

use crate::lang::Lang;
use vstd::relations::sorted_by;
use vstd::seq_lib::lemma_sorted_unique;

use crate::text::{
    chars_of, ends_with, equal_ignore_case, eq_ignore_case, has_suffix,
    lemma_text_le_connected, lemma_text_le_transitive, lemma_text_order, push_all, slice,
    string_views, text_le, text_le_exec, to_string,
};

verus! {

/// The index of the last `c` in `s[..end]`, or -1.
pub open spec fn last_index(s: Seq<char>, c: char, end: int) -> int
    decreases end,
{
    if end <= 0 {
        -1
    } else if s[end - 1] == c {
        end - 1
    } else {
        last_index(s, c, end - 1)
    }
}

/// `last_index` lies in `[-1, end)`.
pub proof fn lemma_last_index_below(s: Seq<char>, c: char, end: int)
    ensures
        -1 <= last_index(s, c, end) < if end > 0 {
            end
        } else {
            0
        },
    decreases end,
{
    if end > 0 && s[end - 1] != c {
        lemma_last_index_below(s, c, end - 1);
    }
}

proof fn lemma_last_index(s: Seq<char>, c: char, end: int)
    requires
        end <= s.len(),
    ensures
        -1 <= last_index(s, c, end) < if end < 0 { 0 } else { end },
        last_index(s, c, end) >= 0 ==> s[last_index(s, c, end)] == c,
        forall|j: int| last_index(s, c, end) < j < end ==> s[j] != c,
    decreases end,
{
    if end > 0 && s[end - 1] != c {
        lemma_last_index(s, c, end - 1);
    }
}

/// An index holding `c` (or -1) with no `c` after it up to `end` is the last.
proof fn lemma_last_index_is(s: Seq<char>, c: char, end: int, j: int)
    requires
        -1 <= j < end <= s.len(),
        j >= 0 ==> s[j] == c,
        forall|i: int| j < i < end ==> s[i] != c,
    ensures
        last_index(s, c, end) == j,
    decreases end,
{
    if end - 1 > j {
        lemma_last_index_is(s, c, end - 1, j);
    }
}

/// `last_index(s, c, end)`, with `None` for -1.
fn last_index_exec(s: &Vec<char>, c: char, end: usize) -> (r: Option<usize>)
    requires
        end <= s.len(),
    ensures
        match r {
            Some(i) => last_index(s@, c, end as int) == i && i < end,
            None => last_index(s@, c, end as int) == -1,
        },
{
    let mut e = end;
    while e > 0 && s[e - 1] != c
        invariant
            e <= end <= s.len(),
            last_index(s@, c, e as int) == last_index(s@, c, end as int),
        decreases e,
    {
        e -= 1;
    }
    if e == 0 {
        None
    } else {
        Some(e - 1)
    }
}

// ------------------------------------------------------------------ path components

/// Where the components after the start of a path begin: past a leading
/// root `/`, or past a leading `.` that is a component of its own.
pub open spec fn body_start(p: Seq<char>) -> int {
    if p.len() > 0 && p[0] == '/' {
        1
    } else if p.len() > 0 && p[0] == '.' && (p.len() == 1 || p[1] == '/') {
        1
    } else {
        0
    }
}

/// A piece between separators that names nothing: empty (from a doubled or
/// trailing `/`) or `.`.
pub open spec fn blank(piece: Seq<char>) -> bool {
    piece.len() == 0 || piece == seq!['.']
}

/// The end of the last piece of `p[..end]` that is not blank, or -1.
pub open spec fn name_end(p: Seq<char>, end: int) -> int
    decreases end,
{
    if end <= 0 {
        -1
    } else {
        let k = last_index(p, '/', end);
        if blank(p.subrange(k + 1, end)) {
            if k < 0 {
                -1
            } else {
                proof {
                    lemma_last_index_below(p, '/', end);
                }
                name_end(p, k)
            }
        } else {
            end
        }
    }
}

/// Where the file name of a path is (`Path::file_name`): the index of the
/// separator before it (-1 if none) and its end. A path whose last piece is
/// `..`, or whose pieces are all blank, has no file name.
pub open spec fn name_span(p: Seq<char>) -> Option<(int, int)> {
    let e = name_end(p, p.len() as int);
    if e < 0 {
        None
    } else {
        let k = last_index(p, '/', e);
        if p.subrange(k + 1, e) == seq!['.', '.'] {
            None
        } else {
            Some((k, e))
        }
    }
}

/// The file name of a path, if it has one.
pub open spec fn file_name(p: Seq<char>) -> Option<Seq<char>> {
    match name_span(p) {
        None => None,
        Some((k, e)) => Some(p.subrange(k + 1, e)),
    }
}

/// The length of `p[..len]` once the blank pieces at its end are dropped,
/// never cutting into the start of the path.
pub open spec fn trim_back_len(p: Seq<char>, len: int, start: int) -> int
    decreases len,
{
    if len <= start || start < 0 {
        len
    } else {
        let k = last_index(p, '/', len);
        let from = if k >= start {
            k + 1
        } else {
            start
        };
        let next = if k >= start {
            k
        } else {
            start
        };
        if blank(p.subrange(from, len)) {
            proof {
                lemma_last_index_below(p, '/', len);
                assert(0 <= next < len);
            }
            trim_back_len(p, next, start)
        } else {
            len
        }
    }
}

/// What is left of a path when the file name after the separator `k` is
/// taken off (`PathBuf::pop`).
pub open spec fn parent_of(p: Seq<char>, k: int) -> Seq<char> {
    let st = body_start(p);
    p.subrange(0, trim_back_len(p, if k > st { k } else { st }, st))
}

/// A relative name appended to a path (`PathBuf::push`), with a separator
/// between them when the path does not already end in one.
pub open spec fn joined(base: Seq<char>, name: Seq<char>) -> Seq<char> {
    if base.len() > 0 && base.last() != '/' {
        base + seq!['/'] + name
    } else {
        base + name
    }
}

/// A file name without a stem: empty, `.` or `..`.
pub open spec fn nameless(name: Seq<char>) -> bool {
    name.len() == 0 || name == seq!['.'] || name == seq!['.', '.']
}

/// The stem of a file name (`Path::file_stem`): the name without its last
/// extension; a name whose only dot comes first has no extension.
pub open spec fn stem(name: Seq<char>) -> Seq<char> {
    let d = last_index(name, '.', name.len() as int);
    if d <= 0 {
        name
    } else {
        name.subrange(0, d)
    }
}

/// The extension of a file name (`Path::extension`), if it has one.
pub open spec fn extension(name: Seq<char>) -> Option<Seq<char>> {
    let d = last_index(name, '.', name.len() as int);
    if nameless(name) || d <= 0 {
        None
    } else {
        Some(name.subrange(d + 1, name.len() as int))
    }
}

/// `.tag.epub`: the end of the name of an edition.
pub open spec fn edition_suffix(lang: Lang) -> Seq<char> {
    seq!['.'] + lang.tag_view() + seq!['.', 'e', 'p', 'u', 'b']
}

/// The path of an edition (`Path::with_file_name`): the source's file name
/// replaced by its stem with the language tag (`book.epub` →
/// `book.zh.epub`). A path without a file name gets `output.<tag>.epub`
/// appended.
pub open spec fn output_path_of(source: Seq<char>, lang: Lang) -> Seq<char> {
    match name_span(source) {
        None => joined(source, seq!['o', 'u', 't', 'p', 'u', 't'] + edition_suffix(lang)),
        Some((k, e)) => joined(
            parent_of(source, k),
            stem(source.subrange(k + 1, e)) + edition_suffix(lang),
        ),
    }
}

/// One of this program's own editions, by the end of its file name.
pub open spec fn generated(path: Seq<char>) -> bool {
    match file_name(path) {
        Some(n) => ends_with(n, edition_suffix(Lang::Ja)) || ends_with(n, edition_suffix(Lang::Zh)),
        None => false,
    }
}

/// The path names an EPUB: its extension is `epub` in any ASCII case.
pub open spec fn epub_path(path: Seq<char>) -> bool {
    match file_name(path) {
        Some(n) => match extension(n) {
            Some(ext) => eq_ignore_case(ext, seq!['e', 'p', 'u', 'b']),
            None => false,
        },
        None => false,
    }
}

proof fn lemma_name_end(p: Seq<char>, end: int)
    requires
        end <= p.len(),
    ensures
        name_end(p, end) == -1 || 0 < name_end(p, end) <= end,
        name_end(p, end) > 0 ==> !blank(
            p.subrange(last_index(p, '/', name_end(p, end)) + 1, name_end(p, end)),
        ),
    decreases end,
{
    if end > 0 {
        lemma_last_index(p, '/', end);
        let k = last_index(p, '/', end);
        if blank(p.subrange(k + 1, end)) && k >= 0 {
            lemma_name_end(p, k);
        }
    }
}

fn body_start_exec(s: &Vec<char>) -> (r: usize)
    ensures
        r == body_start(s@),
        r <= s.len(),
{
    if s.len() > 0 && s[0] == '/' {
        1
    } else if s.len() > 0 && s[0] == '.' && (s.len() == 1 || s[1] == '/') {
        1
    } else {
        0
    }
}

fn is_blank(s: &Vec<char>, a: usize, b: usize) -> (r: bool)
    requires
        a <= b <= s.len(),
    ensures
        r == blank(s@.subrange(a as int, b as int)),
{
    let r = b == a || (b == a + 1 && s[a] == '.');
    proof {
        if b == a + 1 && s@[a as int] == '.' {
            assert(s@.subrange(a as int, b as int) =~= seq!['.']);
        }
        if s@.subrange(a as int, b as int) == seq!['.'] {
            assert(s@.subrange(a as int, b as int)[0] == s@[a as int]);
        }
    }
    r
}

/// Where the file name of a path starts and ends.
fn name_span_exec(s: &Vec<char>) -> (r: Option<(usize, usize)>)
    ensures
        match r {
            Some((a, e)) => a <= e <= s.len() && name_span(s@) == Some((a - 1, e as int)),
            None => name_span(s@) is None,
        },
{
    let mut end = s.len();
    loop
        invariant
            end <= s.len(),
            name_end(s@, end as int) == name_end(s@, s.len() as int),
        decreases end,
    {
        if end == 0 {
            return None;
        }
        let k = last_index_exec(s, '/', end);
        proof {
            lemma_last_index(s@, '/', end as int);
        }
        let from = match k {
            Some(k) => k + 1,
            None => 0,
        };
        if !is_blank(s, from, end) {
            proof {
                lemma_last_index(s@, '/', end as int);
            }
            let piece_is_dots = end - from == 2 && s[from] == '.' && s[from + 1] == '.';
            proof {
                let piece = s@.subrange(from as int, end as int);
                if piece_is_dots {
                    assert(piece =~= seq!['.', '.']);
                }
                if piece == seq!['.', '.'] {
                    assert(piece[0] == s@[from as int] && piece[1] == s@[from + 1]);
                }
            }
            if piece_is_dots {
                return None;
            }
            return Some((from, end));
        }
        match k {
            None => {
                return None;
            },
            Some(k) => {
                end = k;
            },
        }
    }
}

/// `trim_back_len` on characters.
fn trim_back_exec(s: &Vec<char>, len: usize, start: usize) -> (r: usize)
    requires
        len <= s.len(),
    ensures
        r == trim_back_len(s@, len as int, start as int),
        r <= len,
{
    let mut n = len;
    while n > start
        invariant
            n <= len <= s.len(),
            trim_back_len(s@, n as int, start as int) == trim_back_len(s@, len as int, start as int),
        decreases n,
    {
        let k = last_index_exec(s, '/', n);
        proof {
            lemma_last_index(s@, '/', n as int);
        }
        let mut from = start;
        let mut cut = start;
        if let Some(k) = k {
            if k >= start {
                from = k + 1;
                cut = k;
            }
        }
        if !is_blank(s, from, n) {
            return n;
        }
        n = cut;
    }
    n
}

/// `joined` on characters.
fn join_exec(base: Vec<char>, name: &Vec<char>) -> (r: Vec<char>)
    ensures
        r@ == joined(base@, name@),
{
    let mut out = base;
    if out.len() > 0 && out[out.len() - 1] != '/' {
        out.push('/');
    }
    push_all(&mut out, name);
    out
}

fn suffix_exec(lang: Lang) -> (r: Vec<char>)
    ensures
        r@ == edition_suffix(lang),
{
    let mut v = vec!['.'];
    push_all(&mut v, &chars_of(lang.tag()));
    push_all(&mut v, &vec!['.', 'e', 'p', 'u', 'b']);
    assert(v@ =~= edition_suffix(lang));
    v
}

/// The stem of a file name on characters.
fn stem_exec(name: &Vec<char>) -> (r: Vec<char>)
    ensures
        r@ == stem(name@),
{
    let d = last_index_exec(name, '.', name.len());
    proof {
        lemma_last_index(name@, '.', name@.len() as int);
        assert(name@.subrange(0, name@.len() as int) =~= name@);
    }
    match d {
        Some(d) => if d == 0 {
            slice(name, 0, name.len())
        } else {
            slice(name, 0, d)
        },
        None => slice(name, 0, name.len()),
    }
}

/// The path of an edition: `book.epub` → `book.zh.epub`, beside the source.
pub fn output_path(source: &str, lang: Lang) -> (r: String)
    ensures
        r@ == output_path_of(source@, lang),
{
    let s = chars_of(source);
    let mut name: Vec<char>;
    let base: Vec<char>;
    match name_span_exec(&s) {
        None => {
            base = slice(&s, 0, s.len());
            name = vec!['o', 'u', 't', 'p', 'u', 't'];
            proof {
                assert(s@.subrange(0, s@.len() as int) =~= s@);
            }
        },
        Some((a, e)) => {
            let st = body_start_exec(&s);
            let cut = if a == 0 {
                st
            } else if a - 1 > st {
                a - 1
            } else {
                st
            };
            let n = trim_back_exec(&s, cut, st);
            base = slice(&s, 0, n);
            name = stem_exec(&slice(&s, a, e));
        },
    }
    push_all(&mut name, &suffix_exec(lang));
    let out = join_exec(base, &name);
    proof {
        if let Some((k, e)) = name_span(source@) {
            assert(name@ =~= stem(source@.subrange(k + 1, e)) + edition_suffix(lang));
        } else {
            assert(name@ =~= seq!['o', 'u', 't', 'p', 'u', 't'] + edition_suffix(lang));
        }
    }
    to_string(&out)
}

/// The file name of a path, if it has one, on characters.
fn file_name_exec(s: &Vec<char>) -> (r: Option<Vec<char>>)
    ensures
        match r {
            Some(n) => file_name(s@) == Some(n@),
            None => file_name(s@) is None,
        },
{
    match name_span_exec(s) {
        None => None,
        Some((a, e)) => Some(slice(s, a, e)),
    }
}

/// The path is one of this program's own editions (`*.ja.epub`,
/// `*.zh.epub`), which must not be taken for a source: a second run would
/// split its own output.
pub fn is_generated(path: &str) -> (r: bool)
    ensures
        r == generated(path@),
{
    match file_name_exec(&chars_of(path)) {
        None => false,
        Some(n) => has_suffix(&n, &suffix_exec(Lang::Ja)) || has_suffix(&n, &suffix_exec(Lang::Zh)),
    }
}

/// The path names an EPUB file (extension `epub`, any case).
pub fn is_epub(path: &str) -> (r: bool)
    ensures
        r == epub_path(path@),
{
    let name = match file_name_exec(&chars_of(path)) {
        None => return false,
        Some(n) => n,
    };
    if name.len() == 0 || (name.len() == 1 && name[0] == '.') || (name.len() == 2 && name[0] == '.'
        && name[1] == '.') {
        proof {
            if name@.len() == 1 {
                assert(name@ =~= seq!['.']);
            }
            if name@.len() == 2 {
                assert(name@ =~= seq!['.', '.']);
            }
        }
        return false;
    }
    proof {
        if name@.len() == 1 {
            assert(name@ != seq!['.'] ==> name@[0] != '.');
        }
        assert(name@ != seq!['.']) by {
            if name@ == seq!['.'] {
                assert(name@.len() == 1 && name@[0] == '.');
            }
        }
        assert(name@ != seq!['.', '.']) by {
            if name@ == seq!['.', '.'] {
                assert(name@.len() == 2 && name@[0] == '.' && name@[1] == '.');
            }
        }
    }
    let d = match last_index_exec(&name, '.', name.len()) {
        Some(d) => d,
        None => return false,
    };
    proof {
        lemma_last_index(name@, '.', name@.len() as int);
    }
    if d == 0 {
        return false;
    }
    let ext = slice(&name, d + 1, name.len());
    equal_ignore_case(&ext, &vec!['e', 'p', 'u', 'b'])
}

// ------------------------------------------------------------------ choosing the source

/// The input chosen, and the other EPUBs found beside it.
pub struct Source {
    pub path: String,
    /// EPUBs found at the same time but not chosen: a caller can suggest
    /// naming one of them on the command line.
    pub alternatives: Vec<String>,
}

/// Why no input could be chosen.
#[derive(Debug)]
pub enum SourceError {
    /// No path was given and the directory holds no EPUB to split.
    NoEpub,
}

/// The message when no EPUB is found.
pub open spec fn no_epub_text() -> Seq<char> {
    "当前目录下没有 .epub 文件，请将路径作为第一个参数传入"@
}

impl SourceError {
    /// The message for the user.
    pub fn message(&self) -> (r: String)
        ensures
            r@ == no_epub_text(),
    {
        to_string(&chars_of("当前目录下没有 .epub 文件，请将路径作为第一个参数传入"))
    }
}

/// A directory entry that can be split: a regular file named as an EPUB
/// that is not one of this program's editions.
pub open spec fn candidate(entry: (Seq<char>, bool)) -> bool {
    entry.1 && epub_path(entry.0) && !generated(entry.0)
}

/// A directory listing as text: each path with whether it is a regular file.
pub open spec fn listing_view(listing: Seq<(String, bool)>) -> Seq<(Seq<char>, bool)> {
    listing.map_values(|e: (String, bool)| (e.0@, e.1))
}

/// The paths of the candidates of a listing, in the listing's order.
pub open spec fn candidates(listing: Seq<(Seq<char>, bool)>) -> Seq<Seq<char>>
    decreases listing.len(),
{
    if listing.len() == 0 {
        Seq::empty()
    } else if candidate(listing.last()) {
        candidates(listing.drop_last()).push(listing.last().0)
    } else {
        candidates(listing.drop_last())
    }
}

/// Texts in ascending order.
pub open spec fn ascending(s: Seq<Seq<char>>) -> bool {
    forall|a: int, b: int| 0 <= a < b < s.len() ==> text_le(#[trigger] s[a], #[trigger] s[b])
}

/// The chosen path followed by the alternatives.
pub open spec fn found_paths(s: Source) -> Seq<Seq<char>> {
    seq![s.path@] + string_views(s.alternatives@)
}

/// Two ascending sequences of the same texts are equal: the contract of
/// [`resolve_source`] fixes the chosen path and the alternatives.
pub proof fn lemma_ascending_unique(x: Seq<Seq<char>>, y: Seq<Seq<char>>)
    requires
        ascending(x),
        ascending(y),
        x.to_multiset() == y.to_multiset(),
    ensures
        x == y,
{
    let le = |a: Seq<char>, b: Seq<char>| text_le(a, b);
    lemma_text_order();
    assert(sorted_by(x, le)) by {
        assert forall|i: int, j: int| 0 <= i < j < x.len() implies #[trigger] le(x[i], x[j]) by {
            assert(text_le(x[i], x[j]));
        }
    }
    assert(sorted_by(y, le)) by {
        assert forall|i: int, j: int| 0 <= i < j < y.len() implies #[trigger] le(y[i], y[j]) by {
            assert(text_le(y[i], y[j]));
        }
    }
    lemma_sorted_unique(x, y, le);
}

/// Inserts `x` into an ascending vector, after the entries not above it.
fn insert_ascending(v: &mut Vec<String>, x: String)
    requires
        ascending(string_views(old(v)@)),
    ensures
        ascending(string_views(final(v)@)),
        string_views(final(v)@).to_multiset() == string_views(old(v)@).to_multiset().insert(x@),
{
    let ghost s = string_views(v@);
    let mut j: usize = 0;
    while j < v.len() && text_le_exec(v[j].as_str(), x.as_str())
        invariant
            j <= v.len(),
            s == string_views(v@),
            ascending(s),
            forall|k: int| 0 <= k < j ==> text_le(#[trigger] s[k], x@),
        decreases v.len() - j,
    {
        j += 1;
    }
    proof {
        if j < s.len() {
            lemma_text_le_connected(s[j as int], x@);
            assert forall|k: int| j <= k < s.len() implies text_le(x@, #[trigger] s[k]) by {
                if k > j {
                    assert(text_le(s[j as int], s[k]));
                    lemma_text_le_transitive(x@, s[j as int], s[k]);
                }
            }
        }
    }
    let ghost xv = x@;
    v.insert(j, x);
    proof {
        let t = string_views(v@);
        assert(t =~= s.insert(j as int, xv));
        assert forall|a: int, b: int| 0 <= a < b < t.len() implies text_le(#[trigger] t[a], #[trigger] t[b]) by {
            if b < j {
                assert(t[a] == s[a] && t[b] == s[b]);
            } else if b == j {
                assert(t[a] == s[a]);
            } else if a < j {
                assert(t[a] == s[a] && t[b] == s[b - 1]);
                lemma_text_le_transitive(s[a], xv, s[b - 1]);
            } else if a == j {
                assert(t[b] == s[b - 1]);
            } else {
                assert(t[a] == s[a - 1] && t[b] == s[b - 1]);
            }
        }
        broadcast use vstd::seq_lib::group_to_multiset_ensures;
    }
}

/// Decides which EPUB to read: the path given, if any; otherwise the first,
/// in the order of their text, of the regular files of the listing that are
/// named as EPUBs and are not this program's editions. The others found are
/// the alternatives, in the same order.
///
/// `listing` holds the entries of the current directory, each path with
/// whether it is a regular file; it is not looked at when a path is given.
pub fn resolve_source(explicit: Option<String>, listing: Vec<(String, bool)>) -> (r: Result<
    Source,
    SourceError,
>)
    ensures
        match explicit {
            Some(p) => r matches Ok(s) && s.path@ == p@ && s.alternatives@.len() == 0,
            None => match r {
                Ok(s) => {
                    &&& ascending(found_paths(s))
                    &&& found_paths(s).to_multiset() == candidates(
                        listing_view(listing@),
                    ).to_multiset()
                },
                Err(e) => candidates(listing_view(listing@)).len() == 0,
            },
        },
{
    if let Some(path) = explicit {
        return Ok(Source { path, alternatives: Vec::new() });
    }
    let ghost lv = listing_view(listing@);
    let mut found: Vec<String> = Vec::new();
    let mut i: usize = 0;
    proof {
        assert(lv.take(0) =~= Seq::<(Seq<char>, bool)>::empty());
        assert(string_views(found@) =~= Seq::<Seq<char>>::empty());
    }
    while i < listing.len()
        invariant
            explicit is None,
            i <= listing.len(),
            lv == listing_view(listing@),
            ascending(string_views(found@)),
            string_views(found@).to_multiset() == candidates(lv.take(i as int)).to_multiset(),
        decreases listing.len() - i,
    {
        let name = listing[i].0.as_str();
        if listing[i].1 && is_epub(name) && !is_generated(name) {
            insert_ascending(&mut found, listing[i].0.clone());
        }
        proof {
            assert(lv.take(i + 1).drop_last() =~= lv.take(i as int));
            assert(lv.take(i + 1).last() == lv[i as int]);
            broadcast use vstd::seq_lib::group_to_multiset_ensures;
        }
        i += 1;
    }
    proof {
        assert(lv.take(listing@.len() as int) =~= lv);
        broadcast use vstd::seq_lib::group_to_multiset_ensures;
    }
    if found.len() == 0 {
        proof {
            broadcast use vstd::seq_lib::group_to_multiset_ensures;

            assert(string_views(found@).len() == 0);
            assert(string_views(found@).to_multiset().len() == 0);
        }
        return Err(SourceError::NoEpub);
    }
    let ghost all = string_views(found@);
    let path = found.remove(0);
    let s = Source { path, alternatives: found };
    proof {
        assert(found_paths(s) =~= all);
    }
    Ok(s)
}

/// A name with no separator, appended to a path, is its file name.
proof fn lemma_file_name_of_joined(base: Seq<char>, name: Seq<char>)
    requires
        forall|i: int| 0 <= i < name.len() ==> name[i] != '/',
        !blank(name),
        name != seq!['.', '.'],
    ensures
        file_name(joined(base, name)) == Some(name),
{
    let x = if base.len() > 0 && base.last() != '/' {
        base + seq!['/']
    } else {
        base
    };
    let out = x + name;
    assert(out =~= joined(base, name));
    assert(x.len() == 0 || x.last() == '/');
    if x.len() > 0 {
        assert(out[x.len() - 1] == x.last());
    }
    assert forall|i: int| x.len() - 1 < i < out.len() implies out[i] != '/' by {
        assert(out[i] == name[i - x.len()]);
    }
    lemma_last_index_is(out, '/', out.len() as int, x.len() - 1);
    assert(out.subrange(x.len() as int, out.len() as int) =~= name);
    assert(name_end(out, out.len() as int) == out.len());
}

/// A name that ends with an edition's suffix is the name of an edition and
/// of an EPUB.
proof fn lemma_edition_name(front: Seq<char>, lang: Lang)
    ensures
        ({
            let name = front + edition_suffix(lang);
            &&& ends_with(name, edition_suffix(Lang::Ja)) || ends_with(name, edition_suffix(Lang::Zh))
            &&& extension(name) == Some(seq!['e', 'p', 'u', 'b'])
            &&& !blank(name) && name != seq!['.', '.']
            &&& forall|i: int| front.len() <= i < name.len() ==> name[i] != '/'
        }),
{
    let suf = edition_suffix(lang);
    let name = front + suf;
    assert(name.subrange(name.len() - suf.len(), name.len() as int) =~= suf);
    if lang == Lang::Ja {
        assert(ends_with(name, edition_suffix(Lang::Ja)));
    } else {
        assert(ends_with(name, edition_suffix(Lang::Zh)));
    }
    let dot = name.len() - 5;
    assert(name[dot] == '.');
    assert forall|i: int| dot < i < name.len() implies name[i] != '.' by {
        assert(name[i] == suf[i - front.len()]);
    }
    lemma_last_index_is(name, '.', name.len() as int, dot);
    assert(name.len() >= 8);
    assert(name != seq!['.']);
    assert(name.subrange(dot + 1, name.len() as int) =~= seq!['e', 'p', 'u', 'b']);
    assert forall|i: int| front.len() <= i < name.len() implies name[i] != '/' by {
        assert(name[i] == suf[i - front.len()]);
    }
}

/// The name of an edition is recognised as an edition and as an EPUB: a
/// second run does not take it for a source to split.
pub proof fn law_outputs_are_recognised(source: Seq<char>, lang: Lang)
    ensures
        generated(output_path_of(source, lang)),
        epub_path(output_path_of(source, lang)),
{
    let front = match name_span(source) {
        None => seq!['o', 'u', 't', 'p', 'u', 't'],
        Some((k, e)) => {
            lemma_name_end(source, source.len() as int);
            lemma_last_index(source, '/', e);
            let piece = source.subrange(k + 1, e);
            lemma_last_index(piece, '.', piece.len() as int);
            assert forall|i: int| 0 <= i < stem(piece).len() implies stem(piece)[i] != '/' by {
                assert(stem(piece)[i] == piece[i]);
                assert(piece[i] == source[k + 1 + i]);
            }
            stem(piece)
        },
    };
    let name = front + edition_suffix(lang);
    lemma_edition_name(front, lang);
    assert forall|i: int| 0 <= i < name.len() implies name[i] != '/' by {
        if i < front.len() {
            assert(name[i] == front[i]);
        }
    }
    let base = match name_span(source) {
        None => source,
        Some((k, e)) => parent_of(source, k),
    };
    assert(output_path_of(source, lang) == joined(base, name));
    lemma_file_name_of_joined(base, name);
}

/// The two editions of a source get different paths, so neither overwrites
/// the other.
pub proof fn law_editions_have_distinct_paths(source: Seq<char>)
    ensures
        output_path_of(source, Lang::Ja) != output_path_of(source, Lang::Zh),
{
    let front = match name_span(source) {
        None => seq!['o', 'u', 't', 'p', 'u', 't'],
        Some((k, e)) => stem(source.subrange(k + 1, e)),
    };
    let base = match name_span(source) {
        None => source,
        Some((k, e)) => parent_of(source, k),
    };
    let ja = front + edition_suffix(Lang::Ja);
    let zh = front + edition_suffix(Lang::Zh);
    let x = if base.len() > 0 && base.last() != '/' {
        base + seq!['/']
    } else {
        base
    };
    assert(output_path_of(source, Lang::Ja) =~= x + ja);
    assert(output_path_of(source, Lang::Zh) =~= x + zh);
    let i = (x.len() + front.len() + 1) as int;
    assert((x + ja)[i] == 'j');
    assert((x + zh)[i] == 'z');
}

} // verus!
