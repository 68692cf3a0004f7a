//! Obsidian vaults: which files are notes or attachments, the links and references a note
//! holds, whether a link resolves against the vault's file index, and the integrity report.
use vstd::prelude::*;

use crate::paths::extension;
use crate::paths::file_name;
use crate::paths::last_index;
use crate::paths::last_index_of;
use crate::paths::lemma_last_index_of;
use crate::paths::path_extension;
use crate::paths::path_file_name;
use crate::paths::path_file_stem;
use crate::paths::file_stem;
use crate::note::opt_view;
use crate::order::by_text_key;
use crate::order::lemma_by_text_key;
use crate::order::lemma_sort_by;
use crate::order::sort_by;
use crate::order::sort_by_text_keys;
use crate::order::sorted_by;
use crate::text::before_char;
use crate::text::before_char_chars;
use crate::text::chars_of;
use crate::text::find_chars;
use crate::text::find_from;
use crate::text::lemma_find_from;
use crate::text::lowercase;
use crate::text::lowercase_chars;
use crate::text::starts_with;
use crate::text::starts_with_chars;
use crate::text::string_of;
use crate::text::trim;
use crate::text::trim_chars;

verus! {

/// The views of a list of strings.
pub open spec fn string_views(v: Seq<String>) -> Seq<Seq<char>> {
    v.map_values(|s: String| s@)
}

/// Whether `a` and `b` hold the same characters.
pub fn same_chars(a: &[char], b: &[char]) -> (r: bool)
    ensures
        r == (a@ == b@),
{
    if a.len() != b.len() {
        return false;
    }
    let mut i: usize = 0;
    while i < a.len()
        invariant
            i <= a@.len(),
            a@.len() == b@.len(),
            forall|k: int| 0 <= k < i ==> a@[k] == b@[k],
        decreases a@.len() - i,
    {
        if a[i] != b[i] {
            return false;
        }
        i = i + 1;
    }
    proof {
        assert(a@ =~= b@);
    }
    true
}

pub(crate) fn is_one_of(s: &[char], options: &[&str]) -> (r: bool)
    ensures
        r == exists|i: int| 0 <= i < options@.len() && s@ == #[trigger] options@[i]@,
{
    let mut i: usize = 0;
    while i < options.len()
        invariant
            i <= options@.len(),
            forall|k: int| 0 <= k < i ==> s@ != #[trigger] options@[k]@,
        decreases options@.len() - i,
    {
        let o = chars_of(options[i]);
        if same_chars(s, o.as_slice()) {
            return true;
        }
        i = i + 1;
    }
    false
}

// ---------------------------------------------------------------------------
// Kinds of files
// ---------------------------------------------------------------------------

/// The extensions of note files.
pub open spec fn note_exts() -> Seq<Seq<char>> {
    seq!["md"@, "markdown"@, "txt"@]
}

/// The extensions of common attachment files.
pub open spec fn attachment_exts() -> Seq<Seq<char>> {
    seq![
        "png"@,
        "jpg"@,
        "jpeg"@,
        "gif"@,
        "bmp"@,
        "svg"@,
        "webp"@,
        "mp3"@,
        "mp4"@,
        "wav"@,
        "ogg"@,
        "pdf"@,
        "zip"@,
        "tar"@,
        "gz"@,
    ]
}

/// The extensions of images shown inline.
pub open spec fn image_exts() -> Seq<Seq<char>> {
    seq!["png"@, "jpg"@, "jpeg"@, "gif"@, "bmp"@, "webp"@, "svg"@, "tiff"@, "heic"@]
}

/// The path has an extension whose lower-case form is one of `exts`.
pub open spec fn has_ext_in(path: Seq<char>, exts: Seq<Seq<char>>) -> bool {
    extension(path) matches Some(e) && exts.contains(lowercase(e))
}

fn ext_in(path: &str, exts: &[&str]) -> (r: bool)
    ensures
        r == (extension(path@) matches Some(e) && exists|i: int|
            0 <= i < exts@.len() && lowercase(e) == #[trigger] exts@[i]@),
{
    let p = chars_of(path);
    match path_extension(p.as_slice()) {
        Some(e) => {
            let low = lowercase_chars(e.as_slice());
            is_one_of(low.as_slice(), exts)
        },
        None => false,
    }
}

/// Whether the path names a note (`.md`, `.markdown` or `.txt`, in any case).
pub fn is_note_file(path: &str) -> (r: bool)
    ensures
        r == has_ext_in(path@, note_exts()),
{
    let r = ext_in(path, &["md", "markdown", "txt"]);
    proof {
        reveal_strlit("md");
        reveal_strlit("markdown");
        reveal_strlit("txt");
        if let Some(e) = extension(path@) {
            let l = lowercase(e);
            if note_exts().contains(l) {
                let i = choose|i: int| 0 <= i < note_exts().len() && note_exts()[i] == l;
                assert(i == 0 || i == 1 || i == 2);
            }
        }
    }
    r
}

/// Whether the path names a common attachment file (images, audio, video, PDF, archives).
pub fn is_attachment_file(path: &str) -> (r: bool)
    ensures
        r == has_ext_in(path@, attachment_exts()),
{
    let r = ext_in(
        path,
        &[
            "png",
            "jpg",
            "jpeg",
            "gif",
            "bmp",
            "svg",
            "webp",
            "mp3",
            "mp4",
            "wav",
            "ogg",
            "pdf",
            "zip",
            "tar",
            "gz",
        ],
    );
    proof {
        if let Some(e) = extension(path@) {
            let l = lowercase(e);
            if attachment_exts().contains(l) {
                let i = choose|i: int| 0 <= i < attachment_exts().len() && attachment_exts()[i] == l;
                assert(0 <= i < 15);
            }
        }
    }
    r
}

/// Whether the reference names an image shown inline.
pub fn is_image_reference(reference: &str) -> (r: bool)
    ensures
        r == has_ext_in(reference@, image_exts()),
{
    let r = ext_in(reference, &["png", "jpg", "jpeg", "gif", "bmp", "webp", "svg", "tiff", "heic"]);
    proof {
        if let Some(e) = extension(reference@) {
            let l = lowercase(e);
            if image_exts().contains(l) {
                let i = choose|i: int| 0 <= i < image_exts().len() && image_exts()[i] == l;
                assert(0 <= i < 9);
            }
        }
    }
    r
}

// ---------------------------------------------------------------------------
// Links and references in a note
// ---------------------------------------------------------------------------

/// The file a wiki reference names: what precedes its first `|` (alias) and then its first
/// `#` (heading), trimmed.
pub open spec fn link_part(reference: Seq<char>) -> Seq<char> {
    trim(before_char(before_char(reference, '|'), '#'))
}

/// The wiki references `[[...]]` of `s` from index `i` on, each as its `link_part`. A scan that
/// finds `[[` takes what precedes the next `]]` and goes on after it; without a closing `]]` it
/// goes on at the next character.
pub open spec fn wiki_parts_from(s: Seq<char>, i: int) -> Seq<Seq<char>>
    decreases s.len() - i,
{
    if i < 0 || i + 1 >= s.len() {
        Seq::empty()
    } else if s[i] == '[' && s[i + 1] == '[' {
        match find_from(s, "]]"@, i + 2) {
            Some(e) => {
                proof {
                    lemma_find_from(s, "]]"@, i + 2);
                    reveal_strlit("]]");
                }
                seq![link_part(s.subrange(i + 2, e))] + wiki_parts_from(s, e + 2)
            },
            None => wiki_parts_from(s, i + 1),
        }
    } else {
        wiki_parts_from(s, i + 1)
    }
}

/// The non-empty members of `s`, in order.
pub open spec fn non_empty(s: Seq<Seq<char>>) -> Seq<Seq<char>>
    decreases s.len(),
{
    if s.len() == 0 {
        s
    } else if s.last().len() > 0 {
        non_empty(s.drop_last()).push(s.last())
    } else {
        non_empty(s.drop_last())
    }
}

/// The targets of the wiki links `[[target]]` (and embeds `![[target]]`) of a note.
pub open spec fn wiki_link_targets(content: Seq<char>) -> Seq<Seq<char>> {
    non_empty(wiki_parts_from(content, 0))
}

/// What lies between each `](` and the next `)` in `s` from index `from` on, trimmed; the scan
/// stops at the first `](` without a later `)`.
pub open spec fn md_paths_from(s: Seq<char>, from: int) -> Seq<Seq<char>>
    decreases s.len() + 1 - from,
{
    if from < 0 || from > s.len() {
        Seq::empty()
    } else {
        match find_from(s, "]("@, from) {
            None => Seq::empty(),
            Some(st) => {
                proof {
                    lemma_find_from(s, "]("@, from);
                    reveal_strlit("](");
                }
                match find_from(s, ")"@, st + 2) {
                    None => Seq::empty(),
                    Some(e) => {
                        proof {
                            lemma_find_from(s, ")"@, st + 2);
                        }
                        seq![trim(s.subrange(st + 2, e))] + md_paths_from(s, e + 1)
                    },
                }
            },
        }
    }
}

/// A markdown link path that may name a file of the vault: not empty, not a web address.
pub open spec fn is_local_path(p: Seq<char>) -> bool {
    p.len() > 0 && !starts_with(p, "http"@)
}

/// The targets among markdown link paths: local ones that are not anchors.
pub open spec fn md_targets(paths: Seq<Seq<char>>) -> Seq<Seq<char>>
    decreases paths.len(),
{
    if paths.len() == 0 {
        paths
    } else {
        let p = paths.last();
        let rest = md_targets(paths.drop_last());
        if is_local_path(p) && !starts_with(p, "#"@) {
            rest.push(p)
        } else {
            rest
        }
    }
}

/// The targets of the markdown links `[text](path)` of a note: local paths that are not
/// anchors.
pub open spec fn md_link_targets(content: Seq<char>) -> Seq<Seq<char>> {
    md_targets(md_paths_from(content, 0))
}

fn views_push(v: &mut Vec<String>, s: String)
    ensures
        string_views(final(v)@) == string_views(old(v)@).push(s@),
{
    let ghost before = v@;
    v.push(s);
    proof {
        assert(string_views(v@) =~= string_views(before).push(s@));
    }
}

/// The `link_part`s of every wiki reference of `s`, in order.
fn wiki_parts(s: &[char]) -> (r: Vec<Vec<char>>)
    ensures
        r@.map_values(|v: Vec<char>| v@) == wiki_parts_from(s@, 0),
{
    let close = chars_of("]]");
    proof {
        reveal_strlit("]]");
    }
    let n = s.len();
    let mut out: Vec<Vec<char>> = Vec::new();
    let mut i: usize = 0;
    proof {
        assert(out@.map_values(|v: Vec<char>| v@) + wiki_parts_from(s@, 0) =~= wiki_parts_from(s@, 0));
    }
    while i < n && n - i > 1
        invariant
            n == s@.len(),
            i <= n,
            close@ == "]]"@,
            close@.len() == 2,
            out@.map_values(|v: Vec<char>| v@) + wiki_parts_from(s@, i as int) == wiki_parts_from(
                s@,
                0,
            ),
        decreases n - i,
    {
        if s[i] == '[' && s[i + 1] == '[' {
            proof {
                lemma_find_from(s@, close@, i + 2);
            }
            match find_chars(s, close.as_slice(), i + 2) {
                Some(e) => {
                    let inner = vstd::slice::slice_subrange(s, i + 2, e);
                    let a = before_char_chars(inner, '|');
                    let b = before_char_chars(a.as_slice(), '#');
                    let part = trim_chars(b.as_slice());
                    let ghost before = out@.map_values(|v: Vec<char>| v@);
                    out.push(part);
                    proof {
                        assert(inner@ =~= s@.subrange(i + 2, e as int));
                        assert(out@.map_values(|v: Vec<char>| v@) =~= before.push(
                            link_part(s@.subrange(i + 2, e as int)),
                        ));
                        assert(before.push(link_part(s@.subrange(i + 2, e as int))) + wiki_parts_from(
                            s@,
                            e + 2,
                        ) =~= before + (seq![link_part(s@.subrange(i + 2, e as int))] + wiki_parts_from(
                            s@,
                            e + 2,
                        )));
                    }
                    i = e + 2;
                    continue ;
                },
                None => {},
            }
        }
        i = i + 1;
    }
    proof {
        assert(wiki_parts_from(s@, i as int) =~= Seq::<Seq<char>>::empty());
        assert(out@.map_values(|v: Vec<char>| v@) + Seq::<Seq<char>>::empty() =~= out@.map_values(
            |v: Vec<char>| v@,
        ));
    }
    out
}

/// Wiki-link targets: `[[target]]` and `![[target]]`, without alias or heading, trimmed, empty
/// ones left out.
pub fn extract_wiki_link_targets(content: &str) -> (r: Vec<String>)
    ensures
        string_views(r@) == wiki_link_targets(content@),
{
    let s = chars_of(content);
    let parts = wiki_parts(s.as_slice());
    let ghost pv = parts@.map_values(|v: Vec<char>| v@);
    let mut out: Vec<String> = Vec::new();
    let mut i: usize = 0;
    proof {
        assert(pv.take(0) =~= Seq::<Seq<char>>::empty());
        assert(string_views(out@) =~= Seq::<Seq<char>>::empty());
    }
    while i < parts.len()
        invariant
            pv == parts@.map_values(|v: Vec<char>| v@),
            i <= parts@.len(),
            string_views(out@) == non_empty(pv.take(i as int)),
        decreases parts@.len() - i,
    {
        proof {
            assert(pv.take(i + 1).drop_last() =~= pv.take(i as int));
            assert(pv.take(i + 1).last() == parts@[i as int]@);
        }
        if parts[i].len() > 0 {
            views_push(&mut out, string_of(parts[i].as_slice()));
        }
        i = i + 1;
    }
    proof {
        assert(pv.take(i as int) =~= pv);
    }
    out
}

/// The trimmed text between each `](` and the next `)`, in order.
fn md_paths(s: &[char]) -> (r: Vec<Vec<char>>)
    ensures
        r@.map_values(|v: Vec<char>| v@) == md_paths_from(s@, 0),
{
    let open = chars_of("](");
    let close = chars_of(")");
    proof {
        reveal_strlit("](");
        reveal_strlit(")");
    }
    let n = s.len();
    let mut out: Vec<Vec<char>> = Vec::new();
    let mut from: usize = 0;
    proof {
        assert(out@.map_values(|v: Vec<char>| v@) + md_paths_from(s@, 0) =~= md_paths_from(s@, 0));
    }
    loop
        invariant
            n == s@.len(),
            from <= n,
            open@ == "]("@,
            close@ == ")"@,
            open@.len() == 2,
            close@.len() == 1,
            out@.map_values(|v: Vec<char>| v@) + md_paths_from(s@, from as int) == md_paths_from(
                s@,
                0,
            ),
        ensures
            out@.map_values(|v: Vec<char>| v@) == md_paths_from(s@, 0),
        decreases n + 1 - from,
    {
        proof {
            lemma_find_from(s@, open@, from as int);
        }
        match find_chars(s, open.as_slice(), from) {
            None => {
                proof {
                    assert(out@.map_values(|v: Vec<char>| v@) + Seq::<Seq<char>>::empty()
                        =~= out@.map_values(|v: Vec<char>| v@));
                }
                break ;
            },
            Some(st) => {
                proof {
                    lemma_find_from(s@, close@, st + 2);
                }
                match find_chars(s, close.as_slice(), st + 2) {
                    None => {
                        proof {
                            assert(out@.map_values(|v: Vec<char>| v@) + Seq::<Seq<char>>::empty()
                                =~= out@.map_values(|v: Vec<char>| v@));
                        }
                        break ;
                    },
                    Some(e) => {
                        let inner = vstd::slice::slice_subrange(s, st + 2, e);
                        let p = trim_chars(inner);
                        let ghost before = out@.map_values(|v: Vec<char>| v@);
                        out.push(p);
                        proof {
                            assert(inner@ =~= s@.subrange(st + 2, e as int));
                            assert(out@.map_values(|v: Vec<char>| v@) =~= before.push(
                                trim(s@.subrange(st + 2, e as int)),
                            ));
                            assert(before.push(trim(s@.subrange(st + 2, e as int))) + md_paths_from(
                                s@,
                                e + 1,
                            ) =~= before + (seq![trim(s@.subrange(st + 2, e as int))]
                                + md_paths_from(s@, e + 1)));
                        }
                        from = e + 1;
                    },
                }
            },
        }
    }
    out
}

/// Markdown link targets: `[text](path)` paths, trimmed, leaving out empty ones, web
/// addresses and anchors.
pub fn extract_md_link_targets(content: &str) -> (r: Vec<String>)
    ensures
        string_views(r@) == md_link_targets(content@),
{
    let s = chars_of(content);
    let paths = md_paths(s.as_slice());
    let ghost pv = paths@.map_values(|v: Vec<char>| v@);
    let http = chars_of("http");
    let hash = chars_of("#");
    let mut out: Vec<String> = Vec::new();
    let mut i: usize = 0;
    proof {
        assert(pv.take(0) =~= Seq::<Seq<char>>::empty());
        assert(string_views(out@) =~= Seq::<Seq<char>>::empty());
    }
    while i < paths.len()
        invariant
            pv == paths@.map_values(|v: Vec<char>| v@),
            http@ == "http"@,
            hash@ == "#"@,
            i <= paths@.len(),
            string_views(out@) == md_targets(pv.take(i as int)),
        decreases paths@.len() - i,
    {
        proof {
            assert(pv.take(i + 1).drop_last() =~= pv.take(i as int));
            assert(pv.take(i + 1).last() == paths@[i as int]@);
        }
        let p = paths[i].as_slice();
        if p.len() > 0 && !starts_with_chars(p, http.as_slice()) && !starts_with_chars(p, hash.as_slice()) {
            views_push(&mut out, string_of(p));
        }
        i = i + 1;
    }
    proof {
        assert(pv.take(i as int) =~= pv);
    }
    out
}

/// The references a wiki part adds: the part, and the part without its last extension.
pub open spec fn wiki_refs(parts: Seq<Seq<char>>) -> Seq<Seq<char>>
    decreases parts.len(),
{
    if parts.len() == 0 {
        Seq::empty()
    } else {
        let p = parts.last();
        let rest = wiki_refs(parts.drop_last());
        if p.len() == 0 {
            rest
        } else {
            match last_index_of(p, '.') {
                Some(k) => rest.push(p).push(p.take(k)),
                None => rest.push(p),
            }
        }
    }
}

/// The references a markdown link path adds: the file name of a local path.
pub open spec fn md_refs(paths: Seq<Seq<char>>) -> Seq<Seq<char>>
    decreases paths.len(),
{
    if paths.len() == 0 {
        Seq::empty()
    } else {
        let p = paths.last();
        let rest = md_refs(paths.drop_last());
        if is_local_path(p) {
            match file_name(p) {
                Some(f) => rest.push(f),
                None => rest,
            }
        } else {
            rest
        }
    }
}

/// The file references of a note: each wiki reference (with and without its extension), then
/// the file name of each local markdown link path.
pub open spec fn references(content: Seq<char>) -> Seq<Seq<char>> {
    wiki_refs(wiki_parts_from(content, 0)) + md_refs(md_paths_from(content, 0))
}

/// Adds the file references of a note to `refs`.
pub fn extract_references(content: &str, refs: &mut Vec<String>)
    ensures
        string_views(final(refs)@) == string_views(old(refs)@) + references(content@),
{
    let ghost start = string_views(refs@);
    let s = chars_of(content);
    let parts = wiki_parts(s.as_slice());
    let ghost pv = parts@.map_values(|v: Vec<char>| v@);
    let mut i: usize = 0;
    proof {
        assert(pv.take(0) =~= Seq::<Seq<char>>::empty());
        assert(start + Seq::<Seq<char>>::empty() =~= start);
    }
    while i < parts.len()
        invariant
            pv == parts@.map_values(|v: Vec<char>| v@),
            i <= parts@.len(),
            string_views(refs@) == start + wiki_refs(pv.take(i as int)),
        decreases parts@.len() - i,
    {
        proof {
            assert(pv.take(i + 1).drop_last() =~= pv.take(i as int));
            assert(pv.take(i + 1).last() == parts@[i as int]@);
        }
        let p = parts[i].as_slice();
        if p.len() > 0 {
            views_push(refs, string_of(p));
            proof {
                lemma_last_index_of(p@, '.');
            }
            match last_index(p, '.') {
                Some(k) => {
                    let stem = vstd::slice::slice_subrange(p, 0, k);
                    proof {
                        assert(stem@ =~= p@.take(k as int));
                    }
                    views_push(refs, string_of(stem));
                },
                None => {},
            }
        }
        proof {
            assert(string_views(refs@) =~= start + wiki_refs(pv.take(i + 1)));
        }
        i = i + 1;
    }
    proof {
        assert(pv.take(i as int) =~= pv);
    }
    let ghost mid = string_views(refs@);
    let paths = md_paths(s.as_slice());
    let ghost qv = paths@.map_values(|v: Vec<char>| v@);
    let http = chars_of("http");
    let mut j: usize = 0;
    proof {
        assert(qv.take(0) =~= Seq::<Seq<char>>::empty());
        assert(mid + Seq::<Seq<char>>::empty() =~= mid);
    }
    while j < paths.len()
        invariant
            qv == paths@.map_values(|v: Vec<char>| v@),
            http@ == "http"@,
            j <= paths@.len(),
            string_views(refs@) == mid + md_refs(qv.take(j as int)),
        decreases paths@.len() - j,
    {
        proof {
            assert(qv.take(j + 1).drop_last() =~= qv.take(j as int));
            assert(qv.take(j + 1).last() == paths@[j as int]@);
        }
        let p = paths[j].as_slice();
        if p.len() > 0 && !starts_with_chars(p, http.as_slice()) {
            match path_file_name(p) {
                Some(f) => {
                    views_push(refs, string_of(f.as_slice()));
                },
                None => {},
            }
        }
        proof {
            assert(string_views(refs@) =~= mid + md_refs(qv.take(j + 1)));
        }
        j = j + 1;
    }
    proof {
        assert(qv.take(j as int) =~= qv);
        assert(string_views(refs@) =~= start + references(content@));
    }
}

// ---------------------------------------------------------------------------
// The vault's file index and link resolution
// ---------------------------------------------------------------------------

/// `s` with every backslash turned into a slash.
pub open spec fn forward_slashes(s: Seq<char>) -> Seq<char> {
    s.map_values(|c: char| if c == '\\' { '/' } else { c })
}

fn forward_slashes_chars(s: &[char]) -> (r: Vec<char>)
    ensures
        r@ == forward_slashes(s@),
{
    let mut out: Vec<char> = Vec::new();
    let mut i: usize = 0;
    while i < s.len()
        invariant
            i <= s@.len(),
            out@ == forward_slashes(s@.take(i as int)),
        decreases s@.len() - i,
    {
        let c = s[i];
        out.push(if c == '\\' { '/' } else { c });
        i = i + 1;
        proof {
            assert(out@ =~= forward_slashes(s@.take(i as int)));
        }
    }
    proof {
        assert(s@.take(i as int) =~= s@);
    }
    out
}

/// The file names, stems and vault-relative paths of a vault's files.
pub struct VaultIndex {
    file_names: Vec<String>,
    file_stems: Vec<String>,
    relative_paths: Vec<String>,
}

/// What a `VaultIndex` holds.
pub struct IndexView {
    pub names: Set<Seq<char>>,
    pub stems: Set<Seq<char>>,
    pub relative: Set<Seq<char>>,
}

impl View for VaultIndex {
    type V = IndexView;

    closed spec fn view(&self) -> IndexView {
        IndexView {
            names: string_views(self.file_names@).to_set(),
            stems: string_views(self.file_stems@).to_set(),
            relative: string_views(self.relative_paths@).to_set(),
        }
    }
}

/// The relative paths a file adds to the index: the path with forward slashes, and that
/// without what follows its last dot.
pub open spec fn relative_entries(rel: Seq<char>) -> Set<Seq<char>> {
    let r = forward_slashes(rel);
    match last_index_of(r, '.') {
        Some(k) => set![r, r.take(k)],
        None => set![r],
    }
}

/// The name a lookup goes by: the text, or the empty text when there is none.
pub open spec fn or_empty(o: Option<Seq<char>>) -> Seq<char> {
    match o {
        Some(s) => s,
        None => Seq::empty(),
    }
}

/// The index after a file at `path` is added, with its vault-relative path when given.
pub open spec fn indexed(idx: IndexView, path: Seq<char>, relative: Option<Seq<char>>) -> IndexView {
    IndexView {
        names: idx.names.insert(or_empty(file_name(path))),
        stems: idx.stems.insert(or_empty(file_stem(path))),
        relative: match relative {
            Some(r) => idx.relative + relative_entries(r),
            None => idx.relative,
        },
    }
}

/// A link resolves to a file once the file is indexed: by its name, by its stem, and by its
/// vault-relative path; and what resolved before still does.
pub proof fn law_indexed_files_resolve(idx: IndexView, path: Seq<char>, relative: Option<Seq<char>>, t: Seq<char>)
    ensures
        resolves_in(indexed(idx, path, relative), or_empty(file_name(path))),
        resolves_in(indexed(idx, path, relative), or_empty(file_stem(path))),
        relative matches Some(r) ==> resolves_in(indexed(idx, path, relative), r),
        resolves_in(idx, t) ==> resolves_in(indexed(idx, path, relative), t),
{
    match relative {
        Some(r) => {
            let rv = forward_slashes(r);
            match last_index_of(rv, '.') {
                Some(k) => assert(relative_entries(r).contains(rv)),
                None => assert(relative_entries(r).contains(rv)),
            }
        },
        None => {},
    }
}

/// Whether `target` resolves against the index: as a file name or stem anywhere in the vault,
/// as a relative path (with forward slashes), or as either with `.md` added.
pub open spec fn resolves_in(idx: IndexView, target: Seq<char>) -> bool {
    let n = forward_slashes(target);
    ||| idx.names.contains(target)
    ||| idx.stems.contains(target)
    ||| idx.relative.contains(n)
    ||| idx.names.contains(n + ".md"@)
    ||| idx.relative.contains(n + ".md"@)
}

fn holds(v: &Vec<String>, s: &[char]) -> (r: bool)
    ensures
        r == string_views(v@).to_set().contains(s@),
{
    let mut i: usize = 0;
    while i < v.len()
        invariant
            i <= v@.len(),
            forall|k: int| 0 <= k < i ==> v@[k]@ != s@,
        decreases v@.len() - i,
    {
        let c = chars_of(v[i].as_str());
        if same_chars(c.as_slice(), s) {
            proof {
                assert(string_views(v@)[i as int] == s@);
            }
            return true;
        }
        i = i + 1;
    }
    proof {
        if string_views(v@).to_set().contains(s@) {
            let k = choose|k: int| 0 <= k < string_views(v@).len() && string_views(v@)[k] == s@;
            assert(v@[k]@ == s@);
        }
    }
    false
}

fn set_push(v: &mut Vec<String>, s: String)
    ensures
        string_views(final(v)@).to_set() == string_views(old(v)@).to_set().insert(s@),
{
    let ghost before = string_views(v@);
    views_push(v, s);
    proof {
        assert(string_views(v@).to_set() =~= before.to_set().insert(s@)) by {
            assert forall|x: Seq<char>| #[trigger] string_views(v@).to_set().contains(x) implies before.to_set().insert(s@).contains(x) by {
                let k = choose|k: int| 0 <= k < string_views(v@).len() && string_views(v@)[k] == x;
                if k < before.len() {
                    assert(before[k] == x);
                }
            }
            assert forall|x: Seq<char>| #[trigger] before.to_set().insert(s@).contains(x) implies string_views(v@).to_set().contains(x) by {
                if x == s@ {
                    assert(string_views(v@)[before.len() as int] == x);
                } else {
                    let k = choose|k: int| 0 <= k < before.len() && before[k] == x;
                    assert(string_views(v@)[k] == x);
                }
            }
        }
    }
}

impl VaultIndex {
    /// An empty index.
    pub fn new() -> (r: Self)
        ensures
            r@.names == Set::<Seq<char>>::empty(),
            r@.stems == Set::<Seq<char>>::empty(),
            r@.relative == Set::<Seq<char>>::empty(),
    {
        let r = VaultIndex { file_names: Vec::new(), file_stems: Vec::new(), relative_paths: Vec::new() };
        proof {
            assert(string_views(r.file_names@).to_set() =~= Set::<Seq<char>>::empty());
            assert(string_views(r.file_stems@).to_set() =~= Set::<Seq<char>>::empty());
            assert(string_views(r.relative_paths@).to_set() =~= Set::<Seq<char>>::empty());
        }
        r
    }

    /// Adds a file found at `path`, whose path relative to the vault root is `relative` when
    /// the path lies under the root: its file name and stem (empty when the path has none),
    /// and its relative path with and without its extension.
    pub fn add_file(&mut self, path: &str, relative: Option<&str>)
        ensures
            final(self)@.names == old(self)@.names.insert(or_empty(file_name(path@))),
            final(self)@.stems == old(self)@.stems.insert(or_empty(file_stem(path@))),
            final(self)@.relative == match relative {
                Some(r) => old(self)@.relative + relative_entries(r@),
                None => old(self)@.relative,
            },
            final(self)@ == indexed(old(self)@, path@, match relative {
                Some(r) => Some(r@),
                None => None,
            }),
    {
        let p = chars_of(path);
        let fname = match path_file_name(p.as_slice()) {
            Some(f) => string_of(f.as_slice()),
            None => String::new(),
        };
        let stem = match path_file_stem(p.as_slice()) {
            Some(f) => string_of(f.as_slice()),
            None => String::new(),
        };
        set_push(&mut self.file_names, fname);
        set_push(&mut self.file_stems, stem);
        match relative {
            Some(rel) => {
                let rc = chars_of(rel);
                let r = forward_slashes_chars(rc.as_slice());
                let ghost before = string_views(self.relative_paths@).to_set();
                set_push(&mut self.relative_paths, string_of(r.as_slice()));
                proof {
                    lemma_last_index_of(r@, '.');
                }
                match last_index(r.as_slice(), '.') {
                    Some(k) => {
                        let head = vstd::slice::slice_subrange(r.as_slice(), 0, k);
                        proof {
                            assert(head@ =~= r@.take(k as int));
                        }
                        set_push(&mut self.relative_paths, string_of(head));
                        proof {
                            assert(string_views(self.relative_paths@).to_set() =~= before
                                + relative_entries(rel@));
                        }
                    },
                    None => {
                        proof {
                            assert(string_views(self.relative_paths@).to_set() =~= before
                                + relative_entries(rel@));
                        }
                    },
                }
            },
            None => {},
        }
    }

    /// Whether `target` resolves against the index (see `resolves_in`).
    pub fn resolves(&self, target: &str) -> (r: bool)
        ensures
            r == resolves_in(self@, target@),
    {
        let t = chars_of(target);
        if holds(&self.file_names, t.as_slice()) || holds(&self.file_stems, t.as_slice()) {
            return true;
        }
        let n = forward_slashes_chars(t.as_slice());
        if holds(&self.relative_paths, n.as_slice()) {
            return true;
        }
        let mut with_md = n.clone();
        let md = chars_of(".md");
        let mut k: usize = 0;
        while k < md.len()
            invariant
                k <= md@.len(),
                with_md@ == n@ + md@.take(k as int),
            decreases md@.len() - k,
        {
            with_md.push(md[k]);
            k = k + 1;
            proof {
                assert(with_md@ =~= n@ + md@.take(k as int));
            }
        }
        proof {
            assert(md@.take(k as int) =~= md@);
        }
        holds(&self.file_names, with_md.as_slice()) || holds(&self.relative_paths, with_md.as_slice())
    }
}

// ---------------------------------------------------------------------------
// Integrity report
// ---------------------------------------------------------------------------

/// A single issue found during vault integrity checking.
#[derive(Debug)]
pub enum IntegrityIssue {
    /// A `[[link]]` or `[text](path)` that doesn't resolve to any file.
    BrokenLink { source_note: String, link_target: String },
    /// An attachment file not referenced by any note.
    UnlinkedAttachment { path: String },
}

/// Result of a full vault integrity check.
#[derive(Debug)]
pub struct IntegrityResult {
    pub issues: Vec<IntegrityIssue>,
    pub notes_scanned: usize,
    pub attachments_scanned: usize,
    pub broken_links: usize,
    pub unlinked_attachments: usize,
}

/// How many of `s` are broken links.
pub open spec fn broken_count(s: Seq<IntegrityIssue>) -> nat
    decreases s.len(),
{
    if s.len() == 0 {
        0
    } else {
        broken_count(s.drop_last()) + if s.last() is BrokenLink {
            1nat
        } else {
            0nat
        }
    }
}

/// A link of a note that the vault's index does not resolve: the target to look for on disk,
/// and how the report shows it.
pub struct LinkCandidate {
    pub target: String,
    pub shown: String,
}

/// The links of a note that the index does not resolve, as (target, shown form) pairs: wiki
/// links first, shown as `[[target]]`, then markdown links, shown as written.
pub open spec fn unresolved(idx: IndexView, content: Seq<char>) -> Seq<(Seq<char>, Seq<char>)> {
    unresolved_wiki(idx, wiki_link_targets(content)) + unresolved_md(idx, md_link_targets(content))
}

/// The wiki targets of `ts` that the index does not resolve, each with its shown form.
pub open spec fn unresolved_wiki(idx: IndexView, ts: Seq<Seq<char>>) -> Seq<(Seq<char>, Seq<char>)>
    decreases ts.len(),
{
    if ts.len() == 0 {
        Seq::empty()
    } else {
        let rest = unresolved_wiki(idx, ts.drop_last());
        let t = ts.last();
        if resolves_in(idx, t) {
            rest
        } else {
            rest.push((t, "[["@ + t + "]]"@))
        }
    }
}

/// The markdown targets of `ts` that the index does not resolve, each shown as written.
pub open spec fn unresolved_md(idx: IndexView, ts: Seq<Seq<char>>) -> Seq<(Seq<char>, Seq<char>)>
    decreases ts.len(),
{
    if ts.len() == 0 {
        Seq::empty()
    } else {
        let rest = unresolved_md(idx, ts.drop_last());
        let t = ts.last();
        if resolves_in(idx, t) {
            rest
        } else {
            rest.push((t, t))
        }
    }
}

/// The views of candidate links.
pub open spec fn candidate_views(s: Seq<LinkCandidate>) -> Seq<(Seq<char>, Seq<char>)> {
    s.map_values(|c: LinkCandidate| (c.target@, c.shown@))
}

fn push_candidate(v: &mut Vec<LinkCandidate>, target: String, shown: String)
    ensures
        candidate_views(final(v)@) == candidate_views(old(v)@).push((target@, shown@)),
{
    let ghost before = v@;
    let ghost t = target@;
    let ghost sh = shown@;
    v.push(LinkCandidate { target, shown });
    proof {
        assert(candidate_views(v@) =~= candidate_views(before).push((t, sh)));
    }
}

/// The links of a note (content `content`) that the index does not resolve; each still
/// resolves when the file it names exists relative to the note's folder or the vault root.
pub fn unresolved_links(content: &str, index: &VaultIndex) -> (r: Vec<LinkCandidate>)
    ensures
        candidate_views(r@) == unresolved(index@, content@),
{
    let wiki = extract_wiki_link_targets(content);
    let md = extract_md_link_targets(content);
    let ghost wv = string_views(wiki@);
    let ghost mv = string_views(md@);
    let open = chars_of("[[");
    let close = chars_of("]]");
    let mut out: Vec<LinkCandidate> = Vec::new();
    let mut i: usize = 0;
    proof {
        assert(wv.take(0) =~= Seq::<Seq<char>>::empty());
        assert(candidate_views(out@) =~= Seq::<(Seq<char>, Seq<char>)>::empty());
    }
    while i < wiki.len()
        invariant
            wv == string_views(wiki@),
            open@ == "[["@,
            close@ == "]]"@,
            i <= wiki@.len(),
            candidate_views(out@) == unresolved_wiki(index@, wv.take(i as int)),
        decreases wiki@.len() - i,
    {
        proof {
            assert(wv.take(i + 1).drop_last() =~= wv.take(i as int));
            assert(wv.take(i + 1).last() == wiki@[i as int]@);
        }
        let t = wiki[i].as_str();
        if !index.resolves(t) {
            let tc = chars_of(t);
            let mut shown: Vec<char> = open.clone();
            crate::text::extend_chars(&mut shown, tc.as_slice());
            crate::text::extend_chars(&mut shown, close.as_slice());
            push_candidate(&mut out, string_of(tc.as_slice()), string_of(shown.as_slice()));
        }
        i = i + 1;
    }
    proof {
        assert(wv.take(i as int) =~= wv);
    }
    let ghost mid = candidate_views(out@);
    let mut j: usize = 0;
    proof {
        assert(mv.take(0) =~= Seq::<Seq<char>>::empty());
        assert(mid + Seq::<(Seq<char>, Seq<char>)>::empty() =~= mid);
    }
    while j < md.len()
        invariant
            mv == string_views(md@),
            j <= md@.len(),
            candidate_views(out@) == mid + unresolved_md(index@, mv.take(j as int)),
        decreases md@.len() - j,
    {
        proof {
            assert(mv.take(j + 1).drop_last() =~= mv.take(j as int));
            assert(mv.take(j + 1).last() == md@[j as int]@);
        }
        let t = md[j].as_str();
        if !index.resolves(t) {
            let tc = chars_of(t);
            push_candidate(&mut out, string_of(tc.as_slice()), string_of(tc.as_slice()));
        }
        proof {
            assert(candidate_views(out@) =~= mid + unresolved_md(index@, mv.take(j + 1)));
        }
        j = j + 1;
    }
    proof {
        assert(mv.take(j as int) =~= mv);
    }
    out
}

/// The attachments among `paths` whose file name is not among the references `refs`.
pub open spec fn unlinked(paths: Seq<Seq<char>>, refs: Set<Seq<char>>) -> Seq<Seq<char>>
    decreases paths.len(),
{
    if paths.len() == 0 {
        Seq::empty()
    } else {
        let rest = unlinked(paths.drop_last(), refs);
        let p = paths.last();
        if refs.contains(or_empty(file_name(p))) {
            rest
        } else {
            rest.push(p)
        }
    }
}

/// The attachments (by path) whose file name no note references.
pub fn unlinked_attachments(attachments: &Vec<String>, refs: &Vec<String>) -> (r: Vec<String>)
    ensures
        string_views(r@) == unlinked(string_views(attachments@), string_views(refs@).to_set()),
{
    let ghost av = string_views(attachments@);
    let mut out: Vec<String> = Vec::new();
    let mut i: usize = 0;
    proof {
        assert(av.take(0) =~= Seq::<Seq<char>>::empty());
        assert(string_views(out@) =~= Seq::<Seq<char>>::empty());
    }
    while i < attachments.len()
        invariant
            av == string_views(attachments@),
            i <= attachments@.len(),
            string_views(out@) == unlinked(av.take(i as int), string_views(refs@).to_set()),
        decreases attachments@.len() - i,
    {
        proof {
            assert(av.take(i + 1).drop_last() =~= av.take(i as int));
            assert(av.take(i + 1).last() == attachments@[i as int]@);
        }
        let p = chars_of(attachments[i].as_str());
        let fname: Vec<char> = match path_file_name(p.as_slice()) {
            Some(f) => f,
            None => Vec::new(),
        };
        if !holds(refs, fname.as_slice()) {
            views_push(&mut out, string_of(p.as_slice()));
        }
        i = i + 1;
    }
    proof {
        assert(av.take(i as int) =~= av);
    }
    out
}

impl IntegrityResult {
    /// The report for `issues`, found among `notes_scanned` notes and `attachments_scanned`
    /// other files: the counts of each kind of issue follow from the list.
    pub fn from_issues(issues: Vec<IntegrityIssue>, notes_scanned: usize, attachments_scanned: usize) -> (r: Self)
        ensures
            r.issues@ == issues@,
            r.notes_scanned == notes_scanned,
            r.attachments_scanned == attachments_scanned,
            r.broken_links == broken_count(issues@),
            r.unlinked_attachments == issues@.len() - broken_count(issues@),
    {
        let mut broken: usize = 0;
        let mut i: usize = 0;
        while i < issues.len()
            invariant
                i <= issues@.len(),
                broken == broken_count(issues@.take(i as int)),
                broken <= i,
            decreases issues@.len() - i,
        {
            proof {
                assert(issues@.take(i + 1).drop_last() =~= issues@.take(i as int));
            }
            match &issues[i] {
                IntegrityIssue::BrokenLink { .. } => {
                    broken = broken + 1;
                },
                IntegrityIssue::UnlinkedAttachment { .. } => {},
            }
            i = i + 1;
        }
        proof {
            assert(issues@.take(i as int) =~= issues@);
        }
        let unlinked_count = issues.len() - broken;
        IntegrityResult {
            issues,
            notes_scanned,
            attachments_scanned,
            broken_links: broken,
            unlinked_attachments: unlinked_count,
        }
    }
}

/// Result of attachment analysis.
#[derive(Debug)]
pub struct AttachmentAnalysis {
    pub total_attachments: usize,
    pub linked_attachments: usize,
    pub unlinked: Vec<String>,
}

impl AttachmentAnalysis {
    /// The analysis of the attachments `all` (by path) against the references `refs` of every
    /// note.
    pub fn from_parts(all: &Vec<String>, refs: &Vec<String>) -> (r: Self)
        ensures
            r.total_attachments == all@.len(),
            string_views(r.unlinked@) == unlinked(string_views(all@), string_views(refs@).to_set()),
            r.linked_attachments == all@.len() - r.unlinked@.len(),
    {
        let unlinked = unlinked_attachments(all, refs);
        proof {
            lemma_unlinked_len(string_views(all@), string_views(refs@).to_set());
            assert(string_views(unlinked@).len() == unlinked@.len());
        }
        let linked = all.len() - unlinked.len();
        AttachmentAnalysis { total_attachments: all.len(), linked_attachments: linked, unlinked }
    }
}

proof fn lemma_unlinked_len(paths: Seq<Seq<char>>, refs: Set<Seq<char>>)
    ensures
        unlinked(paths, refs).len() <= paths.len(),
    decreases paths.len(),
{
    if paths.len() > 0 {
        lemma_unlinked_len(paths.drop_last(), refs);
    }
}

// ---------------------------------------------------------------------------
// Inline images in a note's preview
// ---------------------------------------------------------------------------

/// The path the table gives for `r`: that of its first entry for `r`.
pub open spec fn lookup(table: Seq<(Seq<char>, Seq<char>)>, r: Seq<char>) -> Option<Seq<char>>
    decreases table.len(),
{
    if table.len() == 0 {
        None
    } else if table[0].0 == r {
        Some(table[0].1)
    } else {
        lookup(table.drop_first(), r)
    }
}

/// The image file a reference stands for: none unless it names an image, else what the table
/// gives for it.
pub open spec fn image_for(table: Seq<(Seq<char>, Seq<char>)>, r: Seq<char>) -> Option<Seq<char>> {
    if has_ext_in(r, image_exts()) {
        lookup(table, r)
    } else {
        None
    }
}

/// The line that stands for an inline image in a preview.
pub open spec fn image_marker(path: Seq<char>) -> Seq<char> {
    "__INLINE_IMAGE__:"@ + path + "\n"@
}

/// The wiki embed `![[reference]]` at `i`, when there is one whose reference resolves: the image
/// and where the text goes on.
pub open spec fn wiki_embed_at(s: Seq<char>, i: int, table: Seq<(Seq<char>, Seq<char>)>) -> Option<
    (Seq<char>, int),
> {
    if 0 <= i && i + 3 < s.len() && s[i] == '!' && s[i + 1] == '[' && s[i + 2] == '[' {
        match find_from(s, "]]"@, i + 3) {
            Some(e) => match image_for(table, link_part(s.subrange(i + 3, e))) {
                Some(p) => Some((p, e + 2)),
                None => None,
            },
            None => None,
        }
    } else {
        None
    }
}

/// The markdown embed `![alt](path)` at `i`, when there is one whose local path resolves: the
/// image and where the text goes on.
pub open spec fn md_embed_at(s: Seq<char>, i: int, table: Seq<(Seq<char>, Seq<char>)>) -> Option<
    (Seq<char>, int),
> {
    if 0 <= i && i + 1 < s.len() && s[i] == '!' && s[i + 1] == '[' {
        match find_from(s, "]("@, i + 2) {
            Some(b) => match find_from(s, ")"@, b + 2) {
                Some(pe) => {
                    let path = trim(s.subrange(b + 2, pe));
                    if starts_with(path, "http"@) {
                        None
                    } else {
                        match image_for(table, path) {
                            Some(p) => Some((p, pe + 1)),
                            None => None,
                        }
                    }
                },
                None => None,
            },
            None => None,
        }
    } else {
        None
    }
}

pub proof fn lemma_embed_advances(s: Seq<char>, i: int, table: Seq<(Seq<char>, Seq<char>)>)
    requires
        0 <= i,
    ensures
        wiki_embed_at(s, i, table) matches Some((p, n)) ==> i < n <= s.len(),
        md_embed_at(s, i, table) matches Some((p, n)) ==> i < n <= s.len(),
{
    reveal_strlit("]]");
    reveal_strlit("](");
    reveal_strlit(")");
    lemma_find_from(s, "]]"@, i + 3);
    lemma_find_from(s, "]("@, i + 2);
    if let Some(b) = find_from(s, "]("@, i + 2) {
        lemma_find_from(s, ")"@, b + 2);
    }
}

/// The preview text of `s` from `i` on: every embed `![[reference]]` or `![alt](path)` whose
/// reference names an image the table resolves is replaced by that image's marker line; all
/// other text is kept.
pub open spec fn embeds_from(s: Seq<char>, i: int, table: Seq<(Seq<char>, Seq<char>)>) -> Seq<char>
    decreases s.len() - i,
{
    if i < 0 || i >= s.len() {
        Seq::empty()
    } else {
        proof {
            lemma_embed_advances(s, i, table);
        }
        match wiki_embed_at(s, i, table) {
            Some((p, n)) => image_marker(p) + embeds_from(s, n, table),
            None => match md_embed_at(s, i, table) {
                Some((p, n)) => image_marker(p) + embeds_from(s, n, table),
                None => seq![s[i]] + embeds_from(s, i + 1, table),
            },
        }
    }
}

/// The views of a resolution table.
pub open spec fn table_views(t: Seq<(String, String)>) -> Seq<(Seq<char>, Seq<char>)> {
    t.map_values(|e: (String, String)| (e.0@, e.1@))
}

fn lookup_exec(table: &Vec<(String, String)>, r: &[char]) -> (o: Option<Vec<char>>)
    ensures
        match o {
            Some(p) => lookup(table_views(table@), r@) == Some(p@),
            None => lookup(table_views(table@), r@) is None,
        },
{
    let ghost tv = table_views(table@);
    let mut i: usize = 0;
    proof {
        assert(tv.skip(0) =~= tv);
    }
    while i < table.len()
        invariant
            tv == table_views(table@),
            i <= table@.len(),
            lookup(tv, r@) == lookup(tv.skip(i as int), r@),
        decreases table@.len() - i,
    {
        proof {
            assert(tv.skip(i as int).drop_first() =~= tv.skip(i + 1));
            assert(tv.skip(i as int)[0] == (table@[i as int].0@, table@[i as int].1@));
        }
        let k = chars_of(table[i].0.as_str());
        if same_chars(k.as_slice(), r) {
            return Some(chars_of(table[i].1.as_str()));
        }
        i = i + 1;
    }
    None
}

fn image_for_exec(table: &Vec<(String, String)>, r: &[char]) -> (o: Option<Vec<char>>)
    ensures
        match o {
            Some(p) => image_for(table_views(table@), r@) == Some(p@),
            None => image_for(table_views(table@), r@) is None,
        },
{
    let rs = string_of(r);
    if is_image_reference(rs.as_str()) {
        lookup_exec(table, r)
    } else {
        None
    }
}

fn wiki_embed_exec(s: &[char], i: usize, table: &Vec<(String, String)>) -> (o: Option<(Vec<char>, usize)>)
    requires
        i < s@.len(),
    ensures
        match o {
            Some((p, n)) => wiki_embed_at(s@, i as int, table_views(table@)) == Some((p@, n as int)),
            None => wiki_embed_at(s@, i as int, table_views(table@)) is None,
        },
{
    let n = s.len();
    if !(n - i > 3 && s[i] == '!' && s[i + 1] == '[' && s[i + 2] == '[') {
        return None;
    }
    let close = chars_of("]]");
    proof {
        reveal_strlit("]]");
        lemma_find_from(s@, close@, i + 3);
    }
    match find_chars(s, close.as_slice(), i + 3) {
        Some(e) => {
            let inner = vstd::slice::slice_subrange(s, i + 3, e);
            let a = before_char_chars(inner, '|');
            let b = before_char_chars(a.as_slice(), '#');
            let part = trim_chars(b.as_slice());
            proof {
                assert(inner@ =~= s@.subrange(i + 3, e as int));
            }
            match image_for_exec(table, part.as_slice()) {
                Some(p) => Some((p, e + 2)),
                None => None,
            }
        },
        None => None,
    }
}

fn md_embed_exec(s: &[char], i: usize, table: &Vec<(String, String)>) -> (o: Option<(Vec<char>, usize)>)
    requires
        i < s@.len(),
    ensures
        match o {
            Some((p, n)) => md_embed_at(s@, i as int, table_views(table@)) == Some((p@, n as int)),
            None => md_embed_at(s@, i as int, table_views(table@)) is None,
        },
{
    let n = s.len();
    if !(n - i > 1 && s[i] == '!' && s[i + 1] == '[') {
        return None;
    }
    let open = chars_of("](");
    let close = chars_of(")");
    let http = chars_of("http");
    proof {
        reveal_strlit("](");
        reveal_strlit(")");
        lemma_find_from(s@, open@, i + 2);
    }
    match find_chars(s, open.as_slice(), i + 2) {
        Some(b) => {
            proof {
                lemma_find_from(s@, close@, b + 2);
            }
            match find_chars(s, close.as_slice(), b + 2) {
                Some(pe) => {
                    let inner = vstd::slice::slice_subrange(s, b + 2, pe);
                    let path = trim_chars(inner);
                    proof {
                        assert(inner@ =~= s@.subrange(b + 2, pe as int));
                    }
                    if starts_with_chars(path.as_slice(), http.as_slice()) {
                        None
                    } else {
                        match image_for_exec(table, path.as_slice()) {
                            Some(p) => Some((p, pe + 1)),
                            None => None,
                        }
                    }
                },
                None => None,
            }
        },
        None => None,
    }
}

/// Replaces `![[file]]` and `![alt](path)` embeds of images with `__INLINE_IMAGE__:{path}`
/// marker lines; `table` gives the file each image reference resolves to (references it does
/// not list are left as written). All other text is kept.
pub fn resolve_image_embeds(content: &str, table: &Vec<(String, String)>) -> (r: String)
    ensures
        r@ == embeds_from(content@, 0, table_views(table@)),
{
    let s = chars_of(content);
    let ghost tv = table_views(table@);
    let prefix = chars_of("__INLINE_IMAGE__:");
    let n = s.len();
    let mut out: Vec<char> = Vec::new();
    let mut i: usize = 0;
    proof {
        assert(out@ + embeds_from(s@, 0, tv) =~= embeds_from(s@, 0, tv));
    }
    while i < n
        invariant
            n == s@.len(),
            s@ == content@,
            tv == table_views(table@),
            prefix@ == "__INLINE_IMAGE__:"@,
            i <= n,
            out@ + embeds_from(s@, i as int, tv) == embeds_from(s@, 0, tv),
        decreases n - i,
    {
        proof {
            lemma_embed_advances(s@, i as int, tv);
            reveal_strlit("\n");
        }
        let ghost before = out@;
        match wiki_embed_exec(s.as_slice(), i, table) {
            Some((p, next)) => {
                crate::text::extend_chars(&mut out, prefix.as_slice());
                crate::text::extend_chars(&mut out, p.as_slice());
                out.push('\n');
                proof {
                    assert(out@ =~= before + image_marker(p@));
                    assert(before + (image_marker(p@) + embeds_from(s@, next as int, tv)) =~= out@
                        + embeds_from(s@, next as int, tv));
                }
                i = next;
            },
            None => match md_embed_exec(s.as_slice(), i, table) {
                Some((p, next)) => {
                    crate::text::extend_chars(&mut out, prefix.as_slice());
                    crate::text::extend_chars(&mut out, p.as_slice());
                    out.push('\n');
                    proof {
                        assert(out@ =~= before + image_marker(p@));
                        assert(before + (image_marker(p@) + embeds_from(s@, next as int, tv))
                            =~= out@ + embeds_from(s@, next as int, tv));
                    }
                    i = next;
                },
                None => {
                    out.push(s[i]);
                    proof {
                        assert(before + (seq![s@[i as int]] + embeds_from(s@, i + 1, tv)) =~= out@
                            + embeds_from(s@, i + 1, tv));
                    }
                    i = i + 1;
                },
            },
        }
    }
    proof {
        assert(out@ + Seq::<char>::empty() =~= out@);
    }
    string_of(out.as_slice())
}

/// The image reference of a wiki embed `![[...]]` at `i`, whether or not it resolves.
pub open spec fn wiki_embed_ref(s: Seq<char>, i: int) -> Option<Seq<char>> {
    if 0 <= i && i + 3 < s.len() && s[i] == '!' && s[i + 1] == '[' && s[i + 2] == '[' {
        match find_from(s, "]]"@, i + 3) {
            Some(e) => {
                let r = link_part(s.subrange(i + 3, e));
                if has_ext_in(r, image_exts()) {
                    Some(r)
                } else {
                    None
                }
            },
            None => None,
        }
    } else {
        None
    }
}

/// The image path of a markdown embed `![alt](path)` at `i`, whether or not it resolves.
pub open spec fn md_embed_ref(s: Seq<char>, i: int) -> Option<Seq<char>> {
    if 0 <= i && i + 1 < s.len() && s[i] == '!' && s[i + 1] == '[' {
        match find_from(s, "]("@, i + 2) {
            Some(b) => match find_from(s, ")"@, b + 2) {
                Some(pe) => {
                    let path = trim(s.subrange(b + 2, pe));
                    if !starts_with(path, "http"@) && has_ext_in(path, image_exts()) {
                        Some(path)
                    } else {
                        None
                    }
                },
                None => None,
            },
            None => None,
        }
    } else {
        None
    }
}

/// The text, if any.
pub open spec fn opt_seq(o: Option<Seq<char>>) -> Seq<Seq<char>> {
    match o {
        Some(r) => seq![r],
        None => Seq::empty(),
    }
}

/// Every image reference of an embed at index `i` or later, in order.
pub open spec fn embed_refs_from(s: Seq<char>, i: int) -> Seq<Seq<char>>
    decreases s.len() - i,
{
    if i < 0 || i >= s.len() {
        Seq::empty()
    } else {
        opt_seq(wiki_embed_ref(s, i)) + opt_seq(md_embed_ref(s, i)) + embed_refs_from(s, i + 1)
    }
}

/// The characters held, if any.
pub open spec fn opt_chars(o: Option<Vec<char>>) -> Option<Seq<char>> {
    match o {
        Some(v) => Some(v@),
        None => None,
    }
}

fn push_opt(out: &mut Vec<String>, o: Option<Vec<char>>)
    ensures
        string_views(final(out)@) == string_views(old(out)@) + opt_seq(opt_chars(o)),
{
    let ghost before = string_views(out@);
    match o {
        Some(v) => {
            views_push(out, string_of(v.as_slice()));
            proof {
                assert(string_views(out@) =~= before + seq![v@]);
            }
        },
        None => {
            proof {
                assert(before + Seq::<Seq<char>>::empty() =~= before);
            }
        },
    }
}

/// The image references of every embed in `content` (`![[...]]` and `![alt](path)`), in order:
/// those a preview may show, to be resolved to files for `resolve_image_embeds`.
pub fn embed_references(content: &str) -> (r: Vec<String>)
    ensures
        string_views(r@) == embed_refs_from(content@, 0),
{
    let s = chars_of(content);
    let n = s.len();
    let mut out: Vec<String> = Vec::new();
    let mut i: usize = 0;
    proof {
        assert(string_views(out@) + embed_refs_from(s@, 0) =~= embed_refs_from(s@, 0));
    }
    while i < n
        invariant
            n == s@.len(),
            s@ == content@,
            i <= n,
            string_views(out@) + embed_refs_from(s@, i as int) == embed_refs_from(s@, 0),
        decreases n - i,
    {
        let ghost before = string_views(out@);
        let w = wiki_embed_ref_exec(s.as_slice(), i);
        let m = md_embed_ref_exec(s.as_slice(), i);
        let ghost wv = opt_chars(w);
        let ghost mv = opt_chars(m);
        push_opt(&mut out, w);
        push_opt(&mut out, m);
        proof {
            assert(before + (opt_seq(wv) + opt_seq(mv) + embed_refs_from(s@, i + 1)) =~= string_views(
                out@,
            ) + embed_refs_from(s@, i + 1));
        }
        i = i + 1;
    }
    proof {
        assert(string_views(out@) + Seq::<Seq<char>>::empty() =~= string_views(out@));
    }
    out
}

fn wiki_embed_ref_exec(s: &[char], i: usize) -> (o: Option<Vec<char>>)
    requires
        i < s@.len(),
    ensures
        match o {
            Some(r) => wiki_embed_ref(s@, i as int) == Some(r@),
            None => wiki_embed_ref(s@, i as int) is None,
        },
{
    let n = s.len();
    if !(n - i > 3 && s[i] == '!' && s[i + 1] == '[' && s[i + 2] == '[') {
        return None;
    }
    let close = chars_of("]]");
    proof {
        reveal_strlit("]]");
        lemma_find_from(s@, close@, i + 3);
    }
    match find_chars(s, close.as_slice(), i + 3) {
        Some(e) => {
            let inner = vstd::slice::slice_subrange(s, i + 3, e);
            let a = before_char_chars(inner, '|');
            let b = before_char_chars(a.as_slice(), '#');
            let part = trim_chars(b.as_slice());
            proof {
                assert(inner@ =~= s@.subrange(i + 3, e as int));
            }
            let ps = string_of(part.as_slice());
            if is_image_reference(ps.as_str()) {
                Some(part)
            } else {
                None
            }
        },
        None => None,
    }
}

fn md_embed_ref_exec(s: &[char], i: usize) -> (o: Option<Vec<char>>)
    requires
        i < s@.len(),
    ensures
        match o {
            Some(r) => md_embed_ref(s@, i as int) == Some(r@),
            None => md_embed_ref(s@, i as int) is None,
        },
{
    let n = s.len();
    if !(n - i > 1 && s[i] == '!' && s[i + 1] == '[') {
        return None;
    }
    let open = chars_of("](");
    let close = chars_of(")");
    let http = chars_of("http");
    proof {
        reveal_strlit("](");
        reveal_strlit(")");
        lemma_find_from(s@, open@, i + 2);
    }
    match find_chars(s, open.as_slice(), i + 2) {
        Some(b) => {
            proof {
                lemma_find_from(s@, close@, b + 2);
            }
            match find_chars(s, close.as_slice(), b + 2) {
                Some(pe) => {
                    let inner = vstd::slice::slice_subrange(s, b + 2, pe);
                    let path = trim_chars(inner);
                    proof {
                        assert(inner@ =~= s@.subrange(b + 2, pe as int));
                    }
                    let ps = string_of(path.as_slice());
                    if !starts_with_chars(path.as_slice(), http.as_slice()) && is_image_reference(
                        ps.as_str(),
                    ) {
                        Some(path)
                    } else {
                        None
                    }
                },
                None => None,
            }
        },
        None => None,
    }
}

proof fn lemma_embed_refs_suffix(s: Seq<char>, i: int, j: int, r: Seq<char>)
    requires
        0 <= i <= j,
        embed_refs_from(s, j).contains(r),
    ensures
        embed_refs_from(s, i).contains(r),
    decreases j - i,
{
    if i < j {
        lemma_embed_refs_suffix(s, i + 1, j, r);
        let a = opt_seq(wiki_embed_ref(s, i)) + opt_seq(md_embed_ref(s, i));
        let rest = embed_refs_from(s, i + 1);
        let k = choose|k: int| 0 <= k < rest.len() && #[trigger] rest[k] == r;
        assert((a + rest)[a.len() + k] == r);
    }
}

proof fn lemma_embeds_same(
    s: Seq<char>,
    i: int,
    t1: Seq<(Seq<char>, Seq<char>)>,
    t2: Seq<(Seq<char>, Seq<char>)>,
)
    requires
        0 <= i,
        forall|r: Seq<char>| #[trigger] embed_refs_from(s, i).contains(r) ==> lookup(t1, r) == lookup(t2, r),
    ensures
        embeds_from(s, i, t1) == embeds_from(s, i, t2),
    decreases s.len() - i,
{
    if i < s.len() {
        lemma_embed_advances(s, i, t1);
        lemma_embed_advances(s, i, t2);
        let a = opt_seq(wiki_embed_ref(s, i));
        let b = opt_seq(md_embed_ref(s, i));
        let all = embed_refs_from(s, i);
        assert(all == a + b + embed_refs_from(s, i + 1));
        if let Some(r) = wiki_embed_ref(s, i) {
            assert(all[0] == r);
            assert(all.contains(r));
        }
        if let Some(r) = md_embed_ref(s, i) {
            assert(all[a.len() as int] == r);
            assert(all.contains(r));
        }
        assert(wiki_embed_at(s, i, t1) == wiki_embed_at(s, i, t2));
        assert(md_embed_at(s, i, t1) == md_embed_at(s, i, t2));
        match wiki_embed_at(s, i, t1) {
            Some((p, n)) => {
                assert forall|r: Seq<char>| #[trigger] embed_refs_from(s, n).contains(r) implies lookup(t1, r) == lookup(t2, r) by {
                    lemma_embed_refs_suffix(s, i, n, r);
                }
                lemma_embeds_same(s, n, t1, t2);
            },
            None => match md_embed_at(s, i, t1) {
                Some((p, n)) => {
                    assert forall|r: Seq<char>| #[trigger] embed_refs_from(s, n).contains(r) implies lookup(t1, r) == lookup(t2, r) by {
                        lemma_embed_refs_suffix(s, i, n, r);
                    }
                    lemma_embeds_same(s, n, t1, t2);
                },
                None => {
                    assert forall|r: Seq<char>| #[trigger] embed_refs_from(s, i + 1).contains(r) implies lookup(t1, r) == lookup(t2, r) by {
                        lemma_embed_refs_suffix(s, i, i + 1, r);
                    }
                    lemma_embeds_same(s, i + 1, t1, t2);
                },
            },
        }
    }
}

/// A preview depends on the resolution table only through the references `embed_references`
/// lists: two tables that agree on those give the same preview.
pub proof fn law_preview_needs_only_listed_references(
    content: Seq<char>,
    t1: Seq<(Seq<char>, Seq<char>)>,
    t2: Seq<(Seq<char>, Seq<char>)>,
)
    requires
        forall|r: Seq<char>| #[trigger] embed_refs_from(content, 0).contains(r) ==> lookup(t1, r) == lookup(t2, r),
    ensures
        embeds_from(content, 0, t1) == embeds_from(content, 0, t2),
{
    lemma_embeds_same(content, 0, t1, t2);
}

// ---------------------------------------------------------------------------
// Searching for vaults
// ---------------------------------------------------------------------------

/// Live progress of a vault search.
#[derive(Debug)]
pub struct ScanProgress {
    pub folders_searched: usize,
    pub current_path: String,
}

/// A directory entry, as the vault search needs it.
pub struct DirEntryInfo {
    /// The entry's full path.
    pub path: String,
    /// The entry's file name.
    pub name: String,
    pub is_dir: bool,
    /// Whether the entry is a directory holding a `.obsidian` directory.
    pub is_vault: bool,
}

/// A pending step of the depth-first search: a directory to search with the depth left
/// (searched only while that is positive), or a vault found.
pub enum Step {
    Visit(String, u32),
    Found(String),
}

/// What a `Step` holds.
pub enum StepView {
    Visit(Seq<char>, u32),
    Found(Seq<char>),
}

/// The view of a step.
pub open spec fn step_view(s: Step) -> StepView {
    match s {
        Step::Visit(d, k) => StepView::Visit(d@, k),
        Step::Found(p) => StepView::Found(p@),
    }
}

/// The views of a list of steps.
pub open spec fn step_views(s: Seq<Step>) -> Seq<StepView> {
    s.map_values(|x: Step| step_view(x))
}

/// Directories the search never enters (large or irrelevant ones).
pub open spec fn skipped_dirs() -> Seq<Seq<char>> {
    seq![
        "Library"@,
        "node_modules"@,
        ".Trash"@,
        ".git"@,
        ".cargo"@,
        ".rustup"@,
        ".npm"@,
        ".cache"@,
        "Applications"@,
        "Pictures"@,
        "Music"@,
        "Movies"@,
        ".local"@,
        "go"@,
        ".docker"@,
        "target"@,
        "build"@,
        "dist"@,
        "vendor"@,
    ]
}

/// What an entry of a directory searched with `depth` left adds: nothing for files and hidden
/// entries, the vault itself for a vault (it is not searched further), nothing for a skipped
/// directory, and otherwise the directory, to search with one less depth.
pub open spec fn entry_step(e: DirEntryInfo, depth: u32) -> Option<StepView> {
    if !e.is_dir || starts_with(e.name@, "."@) {
        None
    } else if e.is_vault {
        Some(StepView::Found(e.path@))
    } else if skipped_dirs().contains(e.name@) {
        None
    } else {
        Some(StepView::Visit(e.path@, (depth - 1) as u32))
    }
}

/// The steps the entries add, in the order of the entries.
pub open spec fn entry_steps(entries: Seq<DirEntryInfo>, depth: u32) -> Seq<StepView>
    decreases entries.len(),
{
    if entries.len() == 0 {
        Seq::empty()
    } else {
        let rest = entry_steps(entries.drop_first(), depth);
        match entry_step(entries.first(), depth) {
            Some(st) => seq![st] + rest,
            None => rest,
        }
    }
}

/// The pending steps after taking every vault found and dropping every exhausted directory
/// from the top of the stack (its last element), with the vaults then found.
pub open spec fn settle(pending: Seq<StepView>, found: Seq<Seq<char>>) -> (Seq<StepView>, Seq<
    Seq<char>,
>)
    decreases pending.len(),
{
    if pending.len() == 0 {
        (pending, found)
    } else {
        match pending.last() {
            StepView::Found(p) => settle(pending.drop_last(), found.push(p)),
            StepView::Visit(d, k) => if k == 0 {
                settle(pending.drop_last(), found)
            } else {
                (pending, found)
            },
        }
    }
}

/// A depth-first search for vaults, driven by its caller: `next_dir` names the directory to
/// list next, `visit` takes that listing, and `into_vaults` gives the vaults found.
pub struct VaultScan {
    pending: Vec<Step>,
    found: Vec<String>,
    depth: u32,
    pub progress: ScanProgress,
}

/// What a `VaultScan` holds.
pub struct ScanView {
    pub pending: Seq<StepView>,
    pub found: Seq<Seq<char>>,
    pub depth: u32,
    pub folders_searched: usize,
    pub current_path: Seq<char>,
}

impl View for VaultScan {
    type V = ScanView;

    closed spec fn view(&self) -> ScanView {
        ScanView {
            pending: step_views(self.pending@),
            found: string_views(self.found@),
            depth: self.depth,
            folders_searched: self.progress.folders_searched,
            current_path: self.progress.current_path@,
        }
    }
}

/// The counter after one more directory searched (it wraps around at the top of `usize`).
pub open spec fn counted(n: usize) -> usize {
    if n < usize::MAX {
        (n + 1) as usize
    } else {
        0
    }
}

/// The directory a search hands out next, if any, and the search after it: vaults on top of the
/// stack are taken and exhausted directories dropped, then the directory on top is taken.
pub open spec fn scan_next(v: ScanView) -> (Option<Seq<char>>, ScanView) {
    let (p, f) = settle(v.pending, v.found);
    if p.len() == 0 {
        (None, ScanView { pending: p, found: f, ..v })
    } else {
        match p.last() {
            StepView::Visit(d, k) => (
                Some(d),
                ScanView {
                    pending: p.drop_last(),
                    found: f,
                    depth: k,
                    folders_searched: counted(v.folders_searched),
                    current_path: d,
                },
            ),
            StepView::Found(_) => (None, v),
        }
    }
}

/// The search after it takes the listing of the directory it handed out.
pub open spec fn scan_visit(v: ScanView, entries: Seq<DirEntryInfo>) -> ScanView {
    ScanView { pending: v.pending + entry_steps(entries, v.depth).reverse(), ..v }
}

/// The search after at most `fuel` directories, each listed as `listing` gives it.
pub open spec fn scan_run(v: ScanView, listing: spec_fn(Seq<char>) -> Seq<DirEntryInfo>, fuel: nat) -> ScanView
    decreases fuel,
{
    if fuel == 0 {
        v
    } else {
        match scan_next(v) {
            (None, w) => w,
            (Some(d), w) => scan_run(scan_visit(w, listing(d)), listing, (fuel - 1) as nat),
        }
    }
}

/// How many directories that run enters.
pub open spec fn dirs_entered(v: ScanView, listing: spec_fn(Seq<char>) -> Seq<DirEntryInfo>, fuel: nat) -> nat
    decreases fuel,
{
    if fuel == 0 {
        0
    } else {
        match scan_next(v) {
            (None, _) => 0,
            (Some(d), w) => 1 + dirs_entered(scan_visit(w, listing(d)), listing, (fuel - 1) as nat),
        }
    }
}

/// The counter after `n` more directories searched.
pub open spec fn counted_times(c: usize, n: nat) -> usize
    decreases n,
{
    if n == 0 {
        c
    } else {
        counted(counted_times(c, (n - 1) as nat))
    }
}

/// Two searches on the same course: the same pending steps, vaults found and depth.
pub open spec fn same_course(a: ScanView, b: ScanView) -> bool {
    a.pending == b.pending && a.found == b.found && a.depth == b.depth
}

/// The stack `settle` leaves has a directory with depth left on top, or is empty.
proof fn lemma_settle_top(pending: Seq<StepView>, found: Seq<Seq<char>>)
    ensures
        settle(pending, found).0.len() > 0 ==> (settle(pending, found).0.last() matches StepView::Visit(_, k)
            && k > 0),
    decreases pending.len(),
{
    if pending.len() > 0 {
        match pending.last() {
            StepView::Found(p) => lemma_settle_top(pending.drop_last(), found.push(p)),
            StepView::Visit(_, k) => if k == 0 {
                lemma_settle_top(pending.drop_last(), found)
            },
        }
    }
}

proof fn lemma_run_course(
    a: ScanView,
    b: ScanView,
    listing: spec_fn(Seq<char>) -> Seq<DirEntryInfo>,
    fuel: nat,
)
    requires
        same_course(a, b),
    ensures
        same_course(scan_run(a, listing, fuel), scan_run(b, listing, fuel)),
        dirs_entered(a, listing, fuel) == dirs_entered(b, listing, fuel),
        scan_run(a, listing, fuel).folders_searched == counted_times(
            a.folders_searched,
            dirs_entered(a, listing, fuel),
        ),
    decreases fuel,
{
    if fuel > 0 {
        match (scan_next(a), scan_next(b)) {
            ((Some(d), w), (Some(_), x)) => {
                lemma_run_course(scan_visit(w, listing(d)), scan_visit(x, listing(d)), listing, (fuel - 1) as nat);
                lemma_counted_times(a.folders_searched, dirs_entered(scan_visit(w, listing(d)), listing, (fuel - 1) as nat));
            },
            _ => {},
        }
    }
}

proof fn lemma_counted_times(c: usize, n: nat)
    ensures
        counted_times(counted(c), n) == counted(counted_times(c, n)),
    decreases n,
{
    if n > 0 {
        lemma_counted_times(c, (n - 1) as nat);
    }
}

/// Reporting progress does not steer the vault search: two searches on the same course, whatever
/// their counters and current paths, hand out the same directories, find the same vaults and
/// end on the same course after any number of directories listed alike; the counter of each has
/// gone up by one for every directory entered.
pub proof fn law_progress_does_not_steer_scan(
    a: ScanView,
    b: ScanView,
    listing: spec_fn(Seq<char>) -> Seq<DirEntryInfo>,
    fuel: nat,
)
    requires
        same_course(a, b),
    ensures
        scan_next(a).0 == scan_next(b).0,
        same_course(scan_next(a).1, scan_next(b).1),
        same_course(scan_run(a, listing, fuel), scan_run(b, listing, fuel)),
        scan_run(a, listing, fuel).found == scan_run(b, listing, fuel).found,
        dirs_entered(a, listing, fuel) == dirs_entered(b, listing, fuel),
        scan_run(a, listing, fuel).folders_searched == counted_times(
            a.folders_searched,
            dirs_entered(a, listing, fuel),
        ),
        scan_run(b, listing, fuel).folders_searched == counted_times(
            b.folders_searched,
            dirs_entered(a, listing, fuel),
        ),
{
    lemma_run_course(a, b, listing, fuel);
    lemma_run_course(b, a, listing, fuel);
}

/// The order vault paths are listed in: the code-point order of their lower-case forms.
pub open spec fn by_lower_path() -> spec_fn(Seq<char>, Seq<char>) -> bool {
    by_text_key(|p: Seq<char>| lowercase(p))
}

impl VaultScan {
    /// A search of `root` down to `max_depth` levels.
    pub fn new(root: &str, max_depth: u32) -> (r: Self)
        ensures
            r@.pending == seq![StepView::Visit(root@, max_depth)],
            r@.found == Seq::<Seq<char>>::empty(),
            r@.depth == 0,
            r@.folders_searched == 0,
            r@.current_path == Seq::<char>::empty(),
    {
        let mut pending: Vec<Step> = Vec::new();
        pending.push(Step::Visit(string_of(chars_of(root).as_slice()), max_depth));
        let r = VaultScan {
            pending,
            found: Vec::new(),
            depth: 0,
            progress: ScanProgress { folders_searched: 0, current_path: String::new() },
        };
        proof {
            assert(step_views(r.pending@) =~= seq![StepView::Visit(root@, max_depth)]);
            assert(string_views(r.found@) =~= Seq::<Seq<char>>::empty());
        }
        r
    }

    /// The next directory to list, if any: vaults on top of the stack are taken and exhausted
    /// directories dropped first. Handing out a directory counts it as searched.
    pub fn next_dir(&mut self) -> (r: Option<String>)
        ensures
            r matches Some(d) ==> {
                &&& settle(old(self)@.pending, old(self)@.found).0.len() > 0
                &&& settle(old(self)@.pending, old(self)@.found).0.last() == StepView::Visit(
                    d@,
                    final(self)@.depth,
                )
                &&& final(self)@.depth > 0
                &&& final(self)@.pending == settle(old(self)@.pending, old(self)@.found).0.drop_last()
                &&& final(self)@.found == settle(old(self)@.pending, old(self)@.found).1
                &&& final(self)@.folders_searched == if old(self)@.folders_searched < usize::MAX {
                    old(self)@.folders_searched + 1
                } else {
                    0
                }
                &&& final(self)@.current_path == d@
            },
            r is None ==> {
                &&& settle(old(self)@.pending, old(self)@.found).0.len() == 0
                &&& final(self)@.pending == Seq::<StepView>::empty()
                &&& final(self)@.found == settle(old(self)@.pending, old(self)@.found).1
                &&& final(self)@.depth == old(self)@.depth
                &&& final(self)@.folders_searched == old(self)@.folders_searched
                &&& final(self)@.current_path == old(self)@.current_path
            },
            (opt_view(r), final(self)@) == scan_next(old(self)@),
    {
        let ghost start = self@;
        proof {
            lemma_settle_top(start.pending, start.found);
        }
        loop
            invariant
                start == old(self)@,
                settle(self@.pending, self@.found) == settle(start.pending, start.found),
                self@.depth == start.depth,
                self@.folders_searched == start.folders_searched,
                self@.current_path == start.current_path,
            decreases self@.pending.len(),
        {
            let ghost pv = self@.pending;
            let ghost fv = self@.found;
            proof {
                assert(pv.len() == self.pending@.len());
            }
            match self.pending.pop() {
                None => {
                    proof {
                        assert(step_views(self.pending@) =~= pv);
                    }
                    return None;
                },
                Some(Step::Found(p)) => {
                    proof {
                        assert(step_views(self.pending@) =~= pv.drop_last());
                        assert(pv.last() == StepView::Found(p@));
                    }
                    views_push(&mut self.found, p);
                },
                Some(Step::Visit(d, k)) => {
                    proof {
                        assert(step_views(self.pending@) =~= pv.drop_last());
                        assert(pv.last() == StepView::Visit(d@, k));
                        if k > 0 {
                            assert(settle(pv, fv) == (pv, fv));
                            assert(pv.len() > 0);
                        }
                    }
                    if k > 0 {
                        self.depth = k;
                        self.progress.folders_searched = self.progress.folders_searched.wrapping_add(1);
                        self.progress.current_path = d.clone();
                        return Some(d);
                    }
                },
            }
        }
    }

    /// Takes the listing of the directory `next_dir` handed out: the steps its entries add go
    /// on the stack, so that the first entry's is taken next.
    pub fn visit(&mut self, entries: Vec<DirEntryInfo>)
        requires
            old(self)@.depth > 0,
        ensures
            final(self)@.pending == old(self)@.pending + entry_steps(entries@, old(self)@.depth).reverse(),
            final(self)@.found == old(self)@.found,
            final(self)@.depth == old(self)@.depth,
            final(self)@.folders_searched == old(self)@.folders_searched,
            final(self)@.current_path == old(self)@.current_path,
            final(self)@ == scan_visit(old(self)@, entries@),
    {
        let ghost start = self@;
        let ghost ev = entries@;
        let depth = self.depth;
        let mut entries = entries;
        let dot = chars_of(".");
        proof {
            assert(ev.skip(ev.len() as int) =~= Seq::<DirEntryInfo>::empty());
            assert(entry_steps(Seq::<DirEntryInfo>::empty(), depth).reverse() =~= Seq::<StepView>::empty());
            assert(start.pending + Seq::<StepView>::empty() =~= start.pending);
        }
        while entries.len() > 0
            invariant
                depth == start.depth,
                depth > 0,
                dot@ == "."@,
                entries@ == ev.take(entries@.len() as int),
                entries@.len() <= ev.len(),
                self@.found == start.found,
                self@.depth == start.depth,
                self@.folders_searched == start.folders_searched,
                self@.current_path == start.current_path,
                self@.pending == start.pending + entry_steps(ev.skip(entries@.len() as int), depth).reverse(),
            decreases entries@.len(),
        {
            let ghost k = entries@.len() as int;
            let e = entries.pop().unwrap();
            proof {
                assert(e == ev[k - 1]);
                assert(entries@ =~= ev.take(k - 1));
            }
            let ghost before = self@.pending;
            let name = chars_of(e.name.as_str());
            if e.is_dir && !starts_with_chars(name.as_slice(), dot.as_slice()) {
                if e.is_vault {
                    self.pending.push(Step::Found(e.path));
                } else if !is_one_of(
                    name.as_slice(),
                    &[
                        "Library",
                        "node_modules",
                        ".Trash",
                        ".git",
                        ".cargo",
                        ".rustup",
                        ".npm",
                        ".cache",
                        "Applications",
                        "Pictures",
                        "Music",
                        "Movies",
                        ".local",
                        "go",
                        ".docker",
                        "target",
                        "build",
                        "dist",
                        "vendor",
                    ],
                ) {
                    self.pending.push(Step::Visit(e.path, depth - 1));
                }
            }
            proof {
                let suffix = ev.skip(k - 1);
                assert(suffix.drop_first() =~= ev.skip(k));
                assert(suffix.first() == e);
                if e.is_dir && !starts_with(e.name@, "."@) && !e.is_vault {
                    if skipped_dirs().contains(e.name@) {
                        let m = choose|m: int| 0 <= m < skipped_dirs().len() && skipped_dirs()[m] == e.name@;
                        assert(0 <= m < 19);
                    }
                }
                let a = entry_steps(ev.skip(k), depth);
                match entry_step(e, depth) {
                    Some(st) => {
                        assert(self@.pending =~= before.push(st));
                        assert((seq![st] + a).reverse() =~= a.reverse().push(st));
                    },
                    None => {
                        assert(self@.pending =~= before);
                    },
                }
            }
        }
        proof {
            assert(ev.skip(0) =~= ev);
        }
    }

    /// The vaults found, in the code-point order of their lower-case paths (stable).
    pub fn into_vaults(self) -> (r: Vec<String>)
        ensures
            string_views(r@) == sort_by(self@.found, by_lower_path()),
    {
        let found = self.found;
        let ghost fv = string_views(found@);
        let mut keys: Vec<Vec<char>> = Vec::new();
        let mut i: usize = 0;
        while i < found.len()
            invariant
                i <= found@.len(),
                keys@.len() == i,
                forall|j: int| 0 <= j < i ==> #[trigger] keys@[j]@ == lowercase(found@[j]@),
            decreases found@.len() - i,
        {
            let c = chars_of(found[i].as_str());
            keys.push(lowercase_chars(c.as_slice()));
            i = i + 1;
        }
        let r = sort_by_text_keys::<String, Seq<char>>(
            found,
            keys,
            Ghost(|s: String| s@),
            Ghost(|p: Seq<char>| lowercase(p)),
        );
        proof {
            assert(string_views(r@) =~= r@.map_values(|s: String| s@));
        }
        r
    }
}

/// The vaults a search lists come in the code-point order of their lower-case paths, each found
/// vault as often as it was found.
pub proof fn law_vaults_sorted(found: Seq<Seq<char>>)
    ensures
        sorted_by(sort_by(found, by_lower_path()), by_lower_path()),
        sort_by(found, by_lower_path()).to_multiset() == found.to_multiset(),
{
    lemma_by_text_key(|p: Seq<char>| lowercase(p));
    lemma_sort_by(found, by_lower_path());
}

/// The pending steps report only `good` vaults.
pub open spec fn found_steps_good(pending: Seq<StepView>, good: spec_fn(Seq<char>) -> bool) -> bool {
    forall|i: int| 0 <= i < pending.len() ==> (#[trigger] pending[i] matches StepView::Found(p) ==> good(p))
}

proof fn lemma_entry_steps_good(entries: Seq<DirEntryInfo>, depth: u32, good: spec_fn(Seq<char>) -> bool)
    requires
        forall|i: int|
            0 <= i < entries.len() && (#[trigger] entries[i]).is_dir && entries[i].is_vault ==> good(
                entries[i].path@,
            ),
    ensures
        found_steps_good(entry_steps(entries, depth), good),
    decreases entries.len(),
{
    if entries.len() > 0 {
        let rest = entries.drop_first();
        assert forall|i: int|
            0 <= i < rest.len() && (#[trigger] rest[i]).is_dir && rest[i].is_vault implies good(rest[i].path@) by {
            assert(rest[i] == entries[i + 1]);
        }
        lemma_entry_steps_good(rest, depth, good);
        let r = entry_steps(rest, depth);
        match entry_step(entries.first(), depth) {
            Some(st) => {
                assert(entries.first() == entries[0]);
                assert forall|i: int| 0 <= i < (seq![st] + r).len() implies (#[trigger] (seq![st] + r)[i]
                    matches StepView::Found(p) ==> good(p)) by {
                    if i > 0 {
                        assert((seq![st] + r)[i] == r[i - 1]);
                    }
                }
            },
            None => {},
        }
    }
}

proof fn lemma_settle_good(pending: Seq<StepView>, found: Seq<Seq<char>>, good: spec_fn(Seq<char>) -> bool)
    requires
        found_steps_good(pending, good),
        forall|i: int| 0 <= i < found.len() ==> good(#[trigger] found[i]),
    ensures
        found_steps_good(settle(pending, found).0, good),
        forall|i: int| 0 <= i < settle(pending, found).1.len() ==> good(#[trigger] settle(pending, found).1[i]),
    decreases pending.len(),
{
    if pending.len() > 0 {
        let d = pending.drop_last();
        assert forall|i: int| 0 <= i < d.len() implies (#[trigger] d[i] matches StepView::Found(p) ==> good(p)) by {
            assert(d[i] == pending[i]);
        }
        match pending.last() {
            StepView::Found(p) => {
                assert(pending[pending.len() - 1] == pending.last());
                assert forall|i: int| 0 <= i < found.push(p).len() implies good(#[trigger] found.push(p)[i]) by {
                    if i < found.len() {
                        assert(found.push(p)[i] == found[i]);
                    }
                }
                lemma_settle_good(d, found.push(p), good);
            },
            StepView::Visit(_, k) => {
                if k == 0 {
                    lemma_settle_good(d, found, good);
                }
            },
        }
    }
}

/// The vault search only reports directories it was shown as vaults: for any property `good`
/// that holds of every vault directory in a listing (and of what the search holds already), the
/// steps the listing adds, and the steps and vaults after the search moves on, keep to it.
pub proof fn law_scan_reports_listed_vaults(
    entries: Seq<DirEntryInfo>,
    depth: u32,
    pending: Seq<StepView>,
    found: Seq<Seq<char>>,
    good: spec_fn(Seq<char>) -> bool,
)
    requires
        forall|i: int|
            0 <= i < entries.len() && (#[trigger] entries[i]).is_dir && entries[i].is_vault ==> good(
                entries[i].path@,
            ),
        found_steps_good(pending, good),
        forall|i: int| 0 <= i < found.len() ==> good(#[trigger] found[i]),
    ensures
        found_steps_good(entry_steps(entries, depth), good),
        found_steps_good(settle(pending + entry_steps(entries, depth).reverse(), found).0, good),
        forall|i: int|
            0 <= i < settle(pending + entry_steps(entries, depth).reverse(), found).1.len() ==> good(
                #[trigger] settle(pending + entry_steps(entries, depth).reverse(), found).1[i],
            ),
{
    lemma_entry_steps_good(entries, depth, good);
    let st = entry_steps(entries, depth);
    let all = pending + st.reverse();
    assert forall|i: int| 0 <= i < all.len() implies (#[trigger] all[i] matches StepView::Found(p) ==> good(p)) by {
        if i < pending.len() {
            assert(all[i] == pending[i]);
        } else {
            assert(all[i] == st.reverse()[i - pending.len()]);
            assert(st.reverse()[i - pending.len()] == st[st.len() - 1 - (i - pending.len())]);
        }
    }
    lemma_settle_good(all, found, good);
}

} // verus!
