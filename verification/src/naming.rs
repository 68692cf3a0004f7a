//! Naming the files of an export: note titles, unique note and attachment file names,
//! attachment names, and the links that embed or point to attachments.
use vstd::prelude::*;

use crate::note::is_reserved_name_char;
use crate::note::keep_name_chars;
use crate::note::sanitized_name;
use crate::note::sanitize_filename;
use crate::paths::extension;
use crate::paths::file_name;
use crate::paths::file_stem;
use crate::paths::last_index;
use crate::paths::last_index_of;
use crate::paths::lemma_last_index_of;
use crate::paths::path_extension;
use crate::paths::path_file_name;
use crate::paths::path_file_stem;
use crate::text::before_char;
use crate::text::before_char_chars;
use crate::text::chars_of;
use crate::text::contains_chars;
use crate::text::contains_seq;
use crate::text::decimal;
use crate::text::extend_chars;
use crate::text::is_cc;
use crate::text::is_control;
use crate::text::lowercase;
use crate::text::lowercase_chars;
use crate::text::push_decimal;
use crate::text::string_of;
use crate::text::to_lowercase;
use crate::vault::or_empty;
use crate::vault::same_chars;
use crate::vault::string_views;

verus! {

// ---------------------------------------------------------------------------
// Sets of names
// ---------------------------------------------------------------------------

/// A set of names.
pub struct NameSet {
    names: Vec<String>,
}

impl View for NameSet {
    type V = Set<Seq<char>>;

    closed spec fn view(&self) -> Set<Seq<char>> {
        string_views(self.names@).to_set()
    }
}

impl NameSet {
    /// The empty set.
    pub fn new() -> (r: Self)
        ensures
            r@ == Set::<Seq<char>>::empty(),
    {
        let r = NameSet { names: Vec::new() };
        proof {
            assert(string_views(r.names@).to_set() =~= Set::<Seq<char>>::empty());
        }
        r
    }

    /// Whether the set holds `name`.
    pub fn contains(&self, name: &[char]) -> (r: bool)
        ensures
            r == self@.contains(name@),
    {
        let mut i: usize = 0;
        while i < self.names.len()
            invariant
                i <= self.names@.len(),
                forall|k: int| 0 <= k < i ==> self.names@[k]@ != name@,
            decreases self.names@.len() - i,
        {
            let c = chars_of(self.names[i].as_str());
            if same_chars(c.as_slice(), name) {
                proof {
                    assert(string_views(self.names@)[i as int] == name@);
                }
                return true;
            }
            i = i + 1;
        }
        proof {
            if string_views(self.names@).to_set().contains(name@) {
                let k = choose|k: int|
                    0 <= k < string_views(self.names@).len() && string_views(self.names@)[k] == name@;
                assert(self.names@[k]@ == name@);
            }
        }
        false
    }

    /// Adds `name`.
    pub fn insert(&mut self, name: String)
        ensures
            final(self)@ == old(self)@.insert(name@),
    {
        let ghost before = string_views(self.names@);
        let ghost n = name@;
        self.names.push(name);
        proof {
            let after = string_views(self.names@);
            assert(after =~= before.push(n));
            assert forall|x: Seq<char>| #[trigger] after.to_set().contains(x) implies before.to_set().insert(n).contains(x) by {
                let k = choose|k: int| 0 <= k < after.len() && after[k] == x;
                if k < before.len() {
                    assert(before[k] == x);
                }
            }
            assert forall|x: Seq<char>| #[trigger] before.to_set().insert(n).contains(x) implies after.to_set().contains(x) by {
                if x == n {
                    assert(after[before.len() as int] == x);
                } else {
                    let k = choose|k: int| 0 <= k < before.len() && before[k] == x;
                    assert(after[k] == x);
                }
            }
            assert(after.to_set() =~= before.to_set().insert(n));
        }
    }
}

// ---------------------------------------------------------------------------
// Unique names
// ---------------------------------------------------------------------------

/// A name split at its last dot: what precedes it, and the dot with what follows
/// (`str::rsplit_once('.')`); a name without a dot has no extension part.
pub open spec fn split_ext(base: Seq<char>) -> (Seq<char>, Seq<char>) {
    match last_index_of(base, '.') {
        Some(k) => (base.take(k), base.skip(k)),
        None => (base, Seq::empty()),
    }
}

/// The `k`-th name tried for `stem` and `ext`: the name itself, then `stem_1.ext`,
/// `stem_2.ext`, ...
pub open spec fn candidate(stem: Seq<char>, ext: Seq<char>, k: nat) -> Seq<char> {
    if k == 0 {
        stem + ext
    } else {
        stem + "_"@ + decimal(k) + ext
    }
}

/// The name was refused: its lower-case form is already used, or `taken` reported it taken.
pub open spec fn refused<F: Fn(&str) -> bool>(used: Set<Seq<char>>, taken: F, name: Seq<char>) -> bool {
    ||| used.contains(lowercase(name))
    ||| exists|s: &str| s@ == name && #[trigger] taken.ensures((s,), true)
}

/// How many names are tried before giving up.
pub const MAX_TRIES: u32 = 4294967295;

/// What a unique-name search gives: the first candidate neither used nor taken, now recorded
/// as used (in lower case); or nothing when every candidate up to `MAX_TRIES` was refused.
pub open spec fn unique_name_spec<F: Fn(&str) -> bool>(
    stem: Seq<char>,
    ext: Seq<char>,
    old_used: Set<Seq<char>>,
    new_used: Set<Seq<char>>,
    taken: F,
    r: Option<String>,
) -> bool {
    match r {
        Some(name) => exists|k: nat|
            {
                &&& name@ == #[trigger] candidate(stem, ext, k)
                &&& forall|j: nat| j < k ==> refused(old_used, taken, #[trigger] candidate(stem, ext, j))
                &&& !old_used.contains(lowercase(name@))
                &&& exists|s: &str| s@ == name@ && #[trigger] taken.ensures((s,), false)
                &&& new_used == old_used.insert(lowercase(name@))
            },
        None => {
            &&& forall|j: nat| j < MAX_TRIES ==> refused(old_used, taken, #[trigger] candidate(stem, ext, j))
            &&& new_used == old_used
        },
    }
}

fn candidate_name(stem: &[char], ext: &[char], k: u32) -> (r: String)
    ensures
        r@ == candidate(stem@, ext@, k as nat),
{
    let mut out: Vec<char> = Vec::new();
    extend_chars(&mut out, stem);
    if k > 0 {
        out.push('_');
        push_decimal(&mut out, k as u64);
        proof {
            reveal_strlit("_");
        }
    }
    extend_chars(&mut out, ext);
    proof {
        if k > 0 {
            assert(out@ =~= stem@ + "_"@ + decimal(k as nat) + ext@);
        } else {
            assert(out@ =~= stem@ + ext@);
        }
    }
    string_of(out.as_slice())
}

/// The first of `stem + ext`, `stem_1 + ext`, `stem_2 + ext`, ... whose lower-case form is not
/// in `used` and that `taken` does not report taken; its lower-case form is added to `used`.
pub fn unique_name<F: Fn(&str) -> bool>(stem: &[char], ext: &[char], used: &mut NameSet, taken: &F) -> (r:
    Option<String>)
    requires
        forall|s: &str| #[trigger] taken.requires((s,)),
    ensures
        unique_name_spec(stem@, ext@, old(used)@, final(used)@, *taken, r),
{
    let ghost u0 = used@;
    let mut name = candidate_name(stem, ext, 0);
    let mut counter: u32 = 1;
    loop
        invariant
            forall|s: &str| #[trigger] taken.requires((s,)),
            used@ == u0,
            u0 == old(used)@,
            1 <= counter,
            name@ == candidate(stem@, ext@, (counter - 1) as nat),
            forall|j: nat| j < counter - 1 ==> refused(u0, *taken, #[trigger] candidate(stem@, ext@, j)),
        decreases MAX_TRIES - counter,
    {
        let low = to_lowercase(name.as_str());
        let low_chars = chars_of(low.as_str());
        let ghost cur = (counter - 1) as nat;
        let in_use = used.contains(low_chars.as_slice());
        let is_taken = if in_use {
            true
        } else {
            taken(name.as_str())
        };
        if !is_taken {
            used.insert(low);
            proof {
                assert(name@ == candidate(stem@, ext@, cur));
            }
            return Some(name);
        }
        proof {
            assert(refused(u0, *taken, candidate(stem@, ext@, cur)));
        }
        if counter == MAX_TRIES {
            return None;
        }
        name = candidate_name(stem, ext, counter);
        counter = counter + 1;
    }
}

fn split_ext_chars(base: &[char]) -> (r: (Vec<char>, Vec<char>))
    ensures
        (r.0@, r.1@) == split_ext(base@),
{
    proof {
        lemma_last_index_of(base@, '.');
    }
    match last_index(base, '.') {
        Some(k) => {
            let n = base.len();
            let stem = vstd::slice::slice_subrange(base, 0, k);
            let ext = vstd::slice::slice_subrange(base, k, n);
            proof {
                assert(stem@ =~= base@.take(k as int));
                assert(ext@ =~= base@.skip(k as int));
            }
            (vstd::slice::slice_to_vec(stem), vstd::slice::slice_to_vec(ext))
        },
        None => (vstd::slice::slice_to_vec(base), Vec::new()),
    }
}

/// A unique file name for a note file named `base` in a folder whose used names are `used`;
/// `taken` reports whether a name already exists there.
pub fn unique_filename<F: Fn(&str) -> bool>(base: &str, used: &mut NameSet, taken: &F) -> (r: Option<String>)
    requires
        forall|s: &str| #[trigger] taken.requires((s,)),
    ensures
        unique_name_spec(split_ext(base@).0, split_ext(base@).1, old(used)@, final(used)@, *taken, r),
{
    let b = chars_of(base);
    let (stem, ext) = split_ext_chars(b.as_slice());
    unique_name(stem.as_slice(), ext.as_slice(), used, taken)
}

/// Names handed out one after the other from the same record never clash: the second differs
/// from the first even ignoring case, since the first is recorded as used.
pub proof fn law_names_handed_out_differ<F: Fn(&str) -> bool, G: Fn(&str) -> bool>(
    stem1: Seq<char>,
    ext1: Seq<char>,
    stem2: Seq<char>,
    ext2: Seq<char>,
    used0: Set<Seq<char>>,
    used1: Set<Seq<char>>,
    used2: Set<Seq<char>>,
    taken1: F,
    taken2: G,
    first: Option<String>,
    second: Option<String>,
)
    requires
        unique_name_spec(stem1, ext1, used0, used1, taken1, first),
        unique_name_spec(stem2, ext2, used1, used2, taken2, second),
        first is Some,
        second is Some,
    ensures
        lowercase(first->0@) != lowercase(second->0@),
        used2.contains(lowercase(first->0@)),
        used2.contains(lowercase(second->0@)),
{
}

/// The extension to use for an attachment of type `uti` that has no name.
pub open spec fn uti_extension(uti: Seq<char>) -> Seq<char> {
    let u = lowercase(uti);
    if contains_seq(u, "jpeg"@) || contains_seq(u, "jpg"@) {
        ".jpg"@
    } else if contains_seq(u, "png"@) {
        ".png"@
    } else if contains_seq(u, "gif"@) {
        ".gif"@
    } else if contains_seq(u, "pdf"@) {
        ".pdf"@
    } else if contains_seq(u, "heic"@) {
        ".heic"@
    } else {
        ".bin"@
    }
}

/// The extension for an attachment of the given type identifier.
pub fn uti_to_extension(uti: &str) -> (r: &'static str)
    ensures
        r@ == uti_extension(uti@),
{
    let low = to_lowercase(uti);
    let u = chars_of(low.as_str());
    if contains_chars(u.as_slice(), chars_of("jpeg").as_slice()) || contains_chars(
        u.as_slice(),
        chars_of("jpg").as_slice(),
    ) {
        ".jpg"
    } else if contains_chars(u.as_slice(), chars_of("png").as_slice()) {
        ".png"
    } else if contains_chars(u.as_slice(), chars_of("gif").as_slice()) {
        ".gif"
    } else if contains_chars(u.as_slice(), chars_of("pdf").as_slice()) {
        ".pdf"
    } else if contains_chars(u.as_slice(), chars_of("heic").as_slice()) {
        ".heic"
    } else {
        ".bin"
    }
}

/// The name an attachment is first tried under: `base`, or `attachment` with the type's
/// extension when `base` is empty.
pub open spec fn attachment_base(base: Seq<char>, uti: Seq<char>) -> Seq<char> {
    if base.len() == 0 {
        "attachment"@ + uti_extension(uti)
    } else {
        base
    }
}

/// A unique file name in the attachments folder for an attachment named `base` (of type
/// `type_uti`); `used` holds the names used so far, `taken` reports whether a name already
/// exists in the folder.
pub fn unique_attachment_name<F: Fn(&str) -> bool>(
    base: &str,
    type_uti: &str,
    used: &mut NameSet,
    taken: &F,
) -> (r: Option<String>)
    requires
        forall|s: &str| #[trigger] taken.requires((s,)),
    ensures
        unique_name_spec(
            split_ext(attachment_base(base@, type_uti@)).0,
            split_ext(attachment_base(base@, type_uti@)).1,
            old(used)@,
            final(used)@,
            *taken,
            r,
        ),
{
    let bc = chars_of(base);
    let mut b: Vec<char> = Vec::new();
    if bc.len() == 0 {
        extend_chars(&mut b, chars_of("attachment").as_slice());
        extend_chars(&mut b, chars_of(uti_to_extension(type_uti)).as_slice());
    } else {
        extend_chars(&mut b, bc.as_slice());
    }
    proof {
        if base@.len() == 0 {
            assert(b@ =~= "attachment"@ + uti_extension(type_uti@));
        } else {
            assert(b@ =~= base@);
        }
    }
    let (stem, ext) = split_ext_chars(b.as_slice());
    unique_name(stem.as_slice(), ext.as_slice(), used, taken)
}

// ---------------------------------------------------------------------------
// Attachment names and links
// ---------------------------------------------------------------------------

/// An attachment's file name made safe: only its final path component, without reserved and
/// control characters, or `attachment` when nothing is left.
pub open spec fn safe_attachment_name(name: Seq<char>) -> Seq<char> {
    let kept = keep_name_chars(or_empty(file_name(name)));
    if kept.len() == 0 {
        "attachment"@
    } else {
        kept
    }
}

fn keep_name_chars_exec(s: &[char]) -> (r: Vec<char>)
    ensures
        r@ == keep_name_chars(s@),
{
    let mut out: Vec<char> = Vec::new();
    let mut i: usize = 0;
    while i < s.len()
        invariant
            i <= s@.len(),
            out@ == keep_name_chars(s@.take(i as int)),
        decreases s@.len() - i,
    {
        proof {
            assert(s@.take(i + 1).drop_last() =~= s@.take(i as int));
        }
        let c = s[i];
        if !(c == '<' || c == '>' || c == ':' || c == '"' || c == '/' || c == '\\' || c == '|' || c
            == '?' || c == '*') && !is_control(c) {
            out.push(c);
        }
        i = i + 1;
    }
    proof {
        assert(s@.take(i as int) =~= s@);
    }
    out
}

/// Sanitizes an attachment file name: strips directory components, reserved and control
/// characters.
pub fn sanitize_attachment_name(name: &str) -> (r: String)
    ensures
        r@ == safe_attachment_name(name@),
{
    let n = chars_of(name);
    let last: Vec<char> = match path_file_name(n.as_slice()) {
        Some(f) => f,
        None => Vec::new(),
    };
    let kept = keep_name_chars_exec(last.as_slice());
    if kept.len() == 0 {
        "attachment".to_string()
    } else {
        string_of(kept.as_slice())
    }
}

/// Words in a type identifier that mark media Obsidian embeds.
pub open spec fn embed_type_words() -> Seq<Seq<char>> {
    seq![
        "image"@,
        "jpeg"@,
        "png"@,
        "gif"@,
        "heic"@,
        "tiff"@,
        "bmp"@,
        "webp"@,
        "video"@,
        "movie"@,
        "quicktime"@,
        "mpeg"@,
        "mp4"@,
        "avi"@,
        "audio"@,
        "mp3"@,
        "aac"@,
        "wav"@,
        "m4a"@,
        "ogg"@,
        "pdf"@,
    ]
}

/// File extensions of media Obsidian embeds.
pub open spec fn embed_exts() -> Seq<Seq<char>> {
    seq![
        "jpg"@,
        "jpeg"@,
        "png"@,
        "gif"@,
        "webp"@,
        "heic"@,
        "tiff"@,
        "tif"@,
        "bmp"@,
        "svg"@,
        "mov"@,
        "mp4"@,
        "m4v"@,
        "avi"@,
        "mkv"@,
        "webm"@,
        "mp3"@,
        "m4a"@,
        "aac"@,
        "wav"@,
        "ogg"@,
        "flac"@,
        "pdf"@,
    ]
}

/// Whether an attachment is embedded (`![[...]]`) rather than linked (`[[...]]`): its type
/// identifier names images, video, audio or PDF, or its file name has such an extension.
pub open spec fn embeddable(uti: Seq<char>, filename: Seq<char>) -> bool {
    ||| exists|i: int|
        0 <= i < embed_type_words().len() && contains_seq(lowercase(uti), #[trigger] embed_type_words()[i])
    ||| embed_exts().contains(lowercase(or_empty(extension(filename))))
}

fn any_contained(s: &[char], words: &[&str]) -> (r: bool)
    ensures
        r == exists|i: int| 0 <= i < words@.len() && contains_seq(s@, #[trigger] words@[i]@),
{
    let mut i: usize = 0;
    while i < words.len()
        invariant
            i <= words@.len(),
            forall|k: int| 0 <= k < i ==> !contains_seq(s@, #[trigger] words@[k]@),
        decreases words@.len() - i,
    {
        let w = chars_of(words[i]);
        if contains_chars(s, w.as_slice()) {
            return true;
        }
        i = i + 1;
    }
    false
}

fn one_of(s: &[char], words: &[&str]) -> (r: bool)
    ensures
        r == exists|i: int| 0 <= i < words@.len() && s@ == #[trigger] words@[i]@,
{
    let mut i: usize = 0;
    while i < words.len()
        invariant
            i <= words@.len(),
            forall|k: int| 0 <= k < i ==> s@ != #[trigger] words@[k]@,
        decreases words@.len() - i,
    {
        let w = chars_of(words[i]);
        if same_chars(s, w.as_slice()) {
            return true;
        }
        i = i + 1;
    }
    false
}

/// Whether an attachment should be embedded (`![[...]]`) rather than linked (`[[...]]`):
/// Obsidian embeds images, video, audio, and PDFs.
pub fn is_embeddable_attachment(type_uti: &str, filename: &str) -> (r: bool)
    ensures
        r == embeddable(type_uti@, filename@),
{
    let low = to_lowercase(type_uti);
    let u = chars_of(low.as_str());
    let words = [
        "image",
        "jpeg",
        "png",
        "gif",
        "heic",
        "tiff",
        "bmp",
        "webp",
        "video",
        "movie",
        "quicktime",
        "mpeg",
        "mp4",
        "avi",
        "audio",
        "mp3",
        "aac",
        "wav",
        "m4a",
        "ogg",
        "pdf",
    ];
    let by_type = any_contained(u.as_slice(), &words);
    proof {
        assert forall|i: int| 0 <= i < 21 implies #[trigger] embed_type_words()[i] == words@[i]@ by {}
        if by_type {
            let i = choose|i: int| 0 <= i < words@.len() && contains_seq(u@, #[trigger] words@[i]@);
            assert(contains_seq(lowercase(type_uti@), embed_type_words()[i]));
        } else {
            assert forall|i: int| 0 <= i < embed_type_words().len() implies !contains_seq(
                lowercase(type_uti@),
                #[trigger] embed_type_words()[i],
            ) by {
                assert(embed_type_words()[i] == words@[i]@);
            }
        }
    }
    if by_type {
        return true;
    }
    let f = chars_of(filename);
    let ext: Vec<char> = match path_extension(f.as_slice()) {
        Some(e) => e,
        None => Vec::new(),
    };
    let le = lowercase_chars(ext.as_slice());
    let exts = [
        "jpg",
        "jpeg",
        "png",
        "gif",
        "webp",
        "heic",
        "tiff",
        "tif",
        "bmp",
        "svg",
        "mov",
        "mp4",
        "m4v",
        "avi",
        "mkv",
        "webm",
        "mp3",
        "m4a",
        "aac",
        "wav",
        "ogg",
        "flac",
        "pdf",
    ];
    let r = one_of(le.as_slice(), &exts);
    proof {
        assert forall|i: int| 0 <= i < 23 implies #[trigger] embed_exts()[i] == exts@[i]@ by {}
        if r {
            let i = choose|i: int| 0 <= i < exts@.len() && le@ == #[trigger] exts@[i]@;
            assert(embed_exts()[i] == le@);
        } else {
            if embed_exts().contains(le@) {
                let i = choose|i: int| 0 <= i < embed_exts().len() && embed_exts()[i] == le@;
                assert(exts@[i]@ == le@);
            }
        }
    }
    r
}

/// The name an attachment is saved under, before it is made unique: the database name (with
/// the source file's extension added when it has none), or else the source file's name; made
/// safe; and for HEIC/HEIF sources, which are converted, the stem with `.jpg`.
pub open spec fn attachment_dest_base(src_path: Seq<char>, db_name: Seq<char>) -> Seq<char> {
    let src_ext = or_empty(extension(src_path));
    let preferred = if db_name.len() > 0 {
        if or_empty(extension(db_name)).len() == 0 && src_ext.len() > 0 {
            db_name + "."@ + src_ext
        } else {
            db_name
        }
    } else {
        or_empty(file_name(src_path))
    };
    let safe = safe_attachment_name(preferred);
    if is_heic_source(src_path) {
        or_empty(file_stem(safe)) + ".jpg"@
    } else {
        safe
    }
}

/// Whether the source file is a HEIC/HEIF image (by its extension, in any case).
pub open spec fn is_heic_source(src_path: Seq<char>) -> bool {
    let e = lowercase(or_empty(extension(src_path)));
    e == "heic"@ || e == "heif"@
}

fn opt_or_empty(o: Option<Vec<char>>) -> (r: Vec<char>)
    ensures
        r@ == match o {
            Some(v) => v@,
            None => Seq::<char>::empty(),
        },
{
    match o {
        Some(v) => v,
        None => Vec::new(),
    }
}

/// Whether the source file is a HEIC/HEIF image, which is converted to JPEG.
pub fn is_heic_file(src_path: &str) -> (r: bool)
    ensures
        r == is_heic_source(src_path@),
{
    let p = chars_of(src_path);
    let e = opt_or_empty(path_extension(p.as_slice()));
    let le = lowercase_chars(e.as_slice());
    same_chars(le.as_slice(), chars_of("heic").as_slice()) || same_chars(
        le.as_slice(),
        chars_of("heif").as_slice(),
    )
}

/// The name an attachment copied from `src_path`, named `db_name` in the database, is saved
/// under before it is made unique.
pub fn attachment_base_name(src_path: &str, db_name: &str) -> (r: String)
    ensures
        r@ == attachment_dest_base(src_path@, db_name@),
{
    let p = chars_of(src_path);
    let d = chars_of(db_name);
    let src_ext = opt_or_empty(path_extension(p.as_slice()));
    let mut preferred: Vec<char> = Vec::new();
    if d.len() > 0 {
        let db_ext = opt_or_empty(path_extension(d.as_slice()));
        extend_chars(&mut preferred, d.as_slice());
        if db_ext.len() == 0 && src_ext.len() > 0 {
            preferred.push('.');
            extend_chars(&mut preferred, src_ext.as_slice());
        }
    } else {
        let f = opt_or_empty(path_file_name(p.as_slice()));
        extend_chars(&mut preferred, f.as_slice());
    }
    proof {
        reveal_strlit(".");
        if d@.len() > 0 && or_empty(extension(d@)).len() == 0 && src_ext@.len() > 0 {
            assert(preferred@ =~= d@ + "."@ + src_ext@);
        } else if d@.len() > 0 {
            assert(preferred@ =~= d@);
        } else {
            assert(preferred@ =~= or_empty(file_name(p@)));
        }
    }
    let safe = sanitize_attachment_name(string_of(preferred.as_slice()).as_str());
    if is_heic_file(src_path) {
        let sc = chars_of(safe.as_str());
        let mut out = opt_or_empty(path_file_stem(sc.as_slice()));
        extend_chars(&mut out, chars_of(".jpg").as_slice());
        string_of(out.as_slice())
    } else {
        safe
    }
}

/// The Obsidian link to an attachment saved as `folder/name`: an embed `![[...]]` for media,
/// a plain link `[[...]]` otherwise.
pub open spec fn attachment_link_text(folder: Seq<char>, name: Seq<char>, uti: Seq<char>) -> Seq<
    char,
> {
    if embeddable(uti, name) {
        "![["@ + folder + "/"@ + name + "]]"@
    } else {
        "[["@ + folder + "/"@ + name + "]]"@
    }
}

/// The link to an attachment saved as `folder/name`, of type `type_uti`.
pub fn attachment_link(folder: &str, name: &str, type_uti: &str) -> (r: String)
    ensures
        r@ == attachment_link_text(folder@, name@, type_uti@),
{
    let mut out: Vec<char> = Vec::new();
    let embed = is_embeddable_attachment(type_uti, name);
    if embed {
        out.push('!');
    }
    extend_chars(&mut out, chars_of("[[").as_slice());
    extend_chars(&mut out, chars_of(folder).as_slice());
    out.push('/');
    extend_chars(&mut out, chars_of(name).as_slice());
    extend_chars(&mut out, chars_of("]]").as_slice());
    proof {
        reveal_strlit("![[");
        reveal_strlit("[[");
        reveal_strlit("/");
        if embed {
            assert(out@ =~= "![["@ + folder@ + "/"@ + name@ + "]]"@);
        } else {
            assert(out@ =~= "[["@ + folder@ + "/"@ + name@ + "]]"@);
        }
    }
    string_of(out.as_slice())
}

// ---------------------------------------------------------------------------
// Note file names
// ---------------------------------------------------------------------------

/// The first line of `s` (`str::lines().next()`): what precedes the first line feed, without a
/// carriage return that ends it; none for the empty text.
pub open spec fn first_line(s: Seq<char>) -> Option<Seq<char>> {
    if s.len() == 0 {
        None
    } else {
        let l = before_char(s, '\n');
        if l.len() < s.len() && l.len() > 0 && l.last() == '\r' {
            Some(l.drop_last())
        } else {
            Some(l)
        }
    }
}

/// The title a note's file is named after: its title, else its snippet, else `Untitled`; at
/// most its first 50 characters; its first line (`Untitled` when that leaves nothing).
pub open spec fn note_title(title: Option<Seq<char>>, snippet: Option<Seq<char>>) -> Seq<char> {
    let t = match title {
        Some(t) => t,
        None => match snippet {
            Some(s) => s,
            None => "Untitled"@,
        },
    };
    let cut = if t.len() > 50 {
        t.take(50)
    } else {
        t
    };
    match first_line(cut) {
        Some(l) => l,
        None => "Untitled"@,
    }
}

proof fn lemma_before_char_len(s: Seq<char>, c: char)
    ensures
        before_char(s, c).len() <= s.len(),
        before_char(s, c).len() < s.len() ==> s[before_char(s, c).len() as int] == c,
        before_char(s, c) == s.take(before_char(s, c).len() as int),
    decreases s.len(),
{
    if s.len() > 0 && s[0] != c {
        lemma_before_char_len(s.drop_first(), c);
        assert(before_char(s, c) =~= s.take(before_char(s, c).len() as int));
    } else if s.len() > 0 {
        assert(before_char(s, c) =~= s.take(0));
    }
}

/// The title a note's file is named after (see `note_title`).
pub fn note_file_title(title: Option<&str>, snippet: Option<&str>) -> (r: String)
    ensures
        r@ == note_title(
            match title {
                Some(t) => Some(t@),
                None => None,
            },
            match snippet {
                Some(s) => Some(s@),
                None => None,
            },
        ),
{
    let t: Vec<char> = match title {
        Some(t) => chars_of(t),
        None => match snippet {
            Some(s) => chars_of(s),
            None => chars_of("Untitled"),
        },
    };
    let cut: Vec<char> = if t.len() > 50 {
        vstd::slice::slice_to_vec(vstd::slice::slice_subrange(t.as_slice(), 0, 50))
    } else {
        t
    };
    if cut.len() == 0 {
        return "Untitled".to_string();
    }
    let l = before_char_chars(cut.as_slice(), '\n');
    proof {
        lemma_before_char_len(cut@, '\n');
    }
    let line: Vec<char> = if l.len() < cut.len() && l.len() > 0 && l[l.len() - 1] == '\r' {
        let n = l.len();
        vstd::slice::slice_to_vec(vstd::slice::slice_subrange(l.as_slice(), 0, n - 1))
    } else {
        l
    };
    proof {
        if t@.len() > 50 {
            assert(cut@ =~= t@.take(50));
        }
        if l@.len() < cut@.len() && l@.len() > 0 && l@.last() == '\r' {
            assert(line@ =~= l@.drop_last());
        }
    }
    string_of(line.as_slice())
}

/// The base file name of a note's Markdown file: its sanitized title with `.md`.
pub fn note_file_base(title: Option<&str>, snippet: Option<&str>) -> (r: String)
    ensures
        r@ == sanitized_name(
            note_title(
                match title {
                    Some(t) => Some(t@),
                    None => None,
                },
                match snippet {
                    Some(s) => Some(s@),
                    None => None,
                },
            ),
        ) + ".md"@,
{
    let t = note_file_title(title, snippet);
    let safe = sanitize_filename(t.as_str());
    let mut out = chars_of(safe.as_str());
    extend_chars(&mut out, chars_of(".md").as_slice());
    string_of(out.as_slice())
}

} // verus!
