//! Finding the file of an Apple Notes attachment on disk: the directories that may hold it,
//! and a depth-first search of such a directory for its first real content file, driven by a
//! caller that lists directories.
use vstd::prelude::*;

use crate::paths::extension;
use crate::paths::path_extension;
use crate::text::chars_of;
use crate::text::lowercase;
use crate::text::lowercase_chars;
use crate::text::starts_with;
use crate::text::starts_with_chars;
use crate::text::string_of;
use crate::vault::is_one_of;
use crate::vault::or_empty;
use crate::vault::same_chars;
use crate::vault::string_views;

verus! {

// ---------------------------------------------------------------------------
// Where an attachment may be
// ---------------------------------------------------------------------------

/// `dir/name`.
pub open spec fn joined(dir: Seq<char>, name: Seq<char>) -> Seq<char> {
    dir + "/"@ + name
}

/// The directories that may hold the file of attachment `uuid`, in the order they are
/// searched: for each account directory, its `Media`, `FallbackImages` and `Previews`
/// directories for the attachment; then the notes container's own `Media` directory for it,
/// and, when `with_root_fallback`, its `FallbackImages` one.
pub open spec fn attachment_dirs_spec(
    base: Seq<char>,
    accounts: Seq<Seq<char>>,
    uuid: Seq<char>,
    with_root_fallback: bool,
) -> Seq<Seq<char>> {
    account_dirs(accounts, uuid) + seq![joined(joined(base, "Media"@), uuid)] + (if with_root_fallback {
        seq![joined(joined(base, "FallbackImages"@), uuid)]
    } else {
        Seq::empty()
    })
}

/// The directories of the accounts that may hold attachment `uuid`.
pub open spec fn account_dirs(accounts: Seq<Seq<char>>, uuid: Seq<char>) -> Seq<Seq<char>>
    decreases accounts.len(),
{
    if accounts.len() == 0 {
        Seq::empty()
    } else {
        let a = accounts.last();
        account_dirs(accounts.drop_last(), uuid) + seq![
            joined(joined(a, "Media"@), uuid),
            joined(joined(a, "FallbackImages"@), uuid),
            joined(joined(a, "Previews"@), uuid),
        ]
    }
}

fn join_exec(dir: &[char], name: &str) -> (r: Vec<char>)
    ensures
        r@ == joined(dir@, name@),
{
    let mut out = vstd::slice::slice_to_vec(dir);
    out.push('/');
    let n = chars_of(name);
    let mut i: usize = 0;
    let ghost start = out@;
    while i < n.len()
        invariant
            i <= n@.len(),
            out@ == start + n@.take(i as int),
        decreases n@.len() - i,
    {
        out.push(n[i]);
        i = i + 1;
        proof {
            assert(out@ =~= start + n@.take(i as int));
        }
    }
    proof {
        assert(n@.take(i as int) =~= n@);
        reveal_strlit("/");
        assert(out@ =~= dir@ + "/"@ + name@);
    }
    out
}

/// The directories to search for the file of attachment `uuid` (see `attachment_dirs_spec`);
/// `accounts` are the paths of the entries of the notes container's `Accounts` directory.
pub fn attachment_dirs(base: &str, accounts: &Vec<String>, uuid: &str, with_root_fallback: bool) -> (r: Vec<String>)
    ensures
        string_views(r@) == attachment_dirs_spec(base@, string_views(accounts@), uuid@, with_root_fallback),
{
    let ghost av = string_views(accounts@);
    let mut out: Vec<String> = Vec::new();
    let mut i: usize = 0;
    proof {
        assert(av.take(0) =~= Seq::<Seq<char>>::empty());
        assert(string_views(out@) =~= Seq::<Seq<char>>::empty());
    }
    while i < accounts.len()
        invariant
            i <= accounts@.len(),
            av == string_views(accounts@),
            string_views(out@) == account_dirs(av.take(i as int), uuid@),
        decreases accounts@.len() - i,
    {
        proof {
            assert(av.take(i + 1).drop_last() =~= av.take(i as int));
            assert(av.take(i + 1).last() == accounts@[i as int]@);
        }
        let a = chars_of(accounts[i].as_str());
        let ghost before = string_views(out@);
        let m = join_exec(join_exec(a.as_slice(), "Media").as_slice(), uuid);
        let f = join_exec(join_exec(a.as_slice(), "FallbackImages").as_slice(), uuid);
        let p = join_exec(join_exec(a.as_slice(), "Previews").as_slice(), uuid);
        let ghost (mv, fv, pv) = (m@, f@, p@);
        out.push(string_of(m.as_slice()));
        out.push(string_of(f.as_slice()));
        out.push(string_of(p.as_slice()));
        i = i + 1;
        proof {
            assert(string_views(out@) =~= before + seq![mv, fv, pv]);
        }
    }
    proof {
        assert(av.take(i as int) =~= av);
    }
    let b = chars_of(base);
    let ghost before = string_views(out@);
    let m = join_exec(join_exec(b.as_slice(), "Media").as_slice(), uuid);
    let ghost mv = m@;
    out.push(string_of(m.as_slice()));
    if with_root_fallback {
        let f = join_exec(join_exec(b.as_slice(), "FallbackImages").as_slice(), uuid);
        let ghost fv = f@;
        out.push(string_of(f.as_slice()));
        proof {
            assert(string_views(out@) =~= before + seq![mv] + seq![fv]);
        }
    } else {
        proof {
            assert(string_views(out@) =~= before + seq![mv] + Seq::<Seq<char>>::empty());
        }
    }
    out
}

// ---------------------------------------------------------------------------
// Searching a directory
// ---------------------------------------------------------------------------

/// A directory entry, as the file search needs it.
#[derive(Debug)]
pub struct FileEntry {
    pub path: String,
    pub name: String,
    pub is_file: bool,
    pub is_dir: bool,
}

/// What a file entry holds.
pub struct FileEntryView {
    pub path: Seq<char>,
    pub name: Seq<char>,
    pub is_file: bool,
    pub is_dir: bool,
}

/// The view of a file entry.
pub open spec fn file_entry_view(e: FileEntry) -> FileEntryView {
    FileEntryView { path: e.path@, name: e.name@, is_file: e.is_file, is_dir: e.is_dir }
}

/// The views of file entries.
pub open spec fn file_entry_views(es: Seq<FileEntry>) -> Seq<FileEntryView> {
    es.map_values(|e: FileEntry| file_entry_view(e))
}

/// macOS bookkeeping files, never an attachment: `.DS_Store` and names starting with `._`.
pub open spec fn is_metadata_name(name: Seq<char>) -> bool {
    name == ".DS_Store"@ || starts_with(name, "._"@)
}

/// The endings (in lower case) of the files preferred as an attachment's content.
pub open spec fn media_exts() -> Seq<Seq<char>> {
    seq![
        "jpg"@, "jpeg"@, "png"@, "gif"@, "heic"@, "heif"@, "tiff"@, "tif"@, "bmp"@, "webp"@,
        "svg"@, "pdf"@, "mov"@, "mp4"@, "m4v"@, "m4a"@, "mp3"@, "aac"@, "wav"@,
    ]
}

/// Whether the file at `path` is a media file: its extension, in lower case, is a media one.
pub open spec fn is_media_path(path: Seq<char>) -> bool {
    media_exts().contains(lowercase(or_empty(extension(path))))
}

/// A directory being searched: the entries not looked at yet, the first plain file seen (the
/// answer when no media file turns up), and the depth it was searched with.
pub struct FrameView {
    pub entries: Seq<FileEntryView>,
    pub fallback: Option<Seq<char>>,
    pub depth: u32,
}

/// What a search does next: list a directory (to search with the given depth), or it is over
/// with its answer.
pub enum SearchOutcome {
    Ask(Seq<char>, u32),
    Finished(Option<Seq<char>>),
}

/// How much work the frames still hold.
pub open spec fn frames_measure(fs: Seq<FrameView>) -> nat
    decreases fs.len(),
{
    if fs.len() == 0 {
        0
    } else {
        frames_measure(fs.drop_last()) + fs.last().entries.len() + 1
    }
}

/// The search carried on from the frames until it needs a directory listed or is over. In
/// the directory on top, entries are taken in order: a metadata file is passed over; a media
/// file is the answer; another file is remembered as the fallback if it is the first; a
/// subdirectory is searched with one less depth (not at all when that is none), its answer
/// being the answer when it has one. A directory whose entries are done answers its fallback;
/// when it has none, the search goes on in the directory above.
pub open spec fn settle(fs: Seq<FrameView>) -> (Seq<FrameView>, SearchOutcome)
    decreases frames_measure(fs),
{
    if fs.len() == 0 {
        (fs, SearchOutcome::Finished(None))
    } else {
        let top = fs.last();
        let below = fs.drop_last();
        proof {
            assert(fs =~= below.push(top));
            lemma_measure_push(below, top);
        }
        if top.entries.len() == 0 {
            match top.fallback {
                Some(p) => (below, SearchOutcome::Finished(Some(p))),
                None => if below.len() == 0 {
                    (below, SearchOutcome::Finished(None))
                } else {
                    settle(below)
                },
            }
        } else {
            let e = top.entries[0];
            let top2 = FrameView { entries: top.entries.drop_first(), ..top };
            let fs2 = below.push(top2);
            proof {
                lemma_measure_push(below, top2);
                lemma_measure_push(below, FrameView {
                    fallback: if top.fallback is None { Some(e.path) } else { top.fallback },
                    ..top2
                });
            }
            if e.is_file {
                if is_metadata_name(e.name) {
                    settle(fs2)
                } else if is_media_path(e.path) {
                    (fs2, SearchOutcome::Finished(Some(e.path)))
                } else {
                    settle(below.push(FrameView {
                        fallback: if top.fallback is None { Some(e.path) } else { top.fallback },
                        ..top2
                    }))
                }
            } else if e.is_dir {
                if top.depth <= 1 {
                    settle(fs2)
                } else {
                    (fs2, SearchOutcome::Ask(e.path, (top.depth - 1) as u32))
                }
            } else {
                settle(fs2)
            }
        }
    }
}

/// What the search asks of its caller.
#[derive(Debug)]
pub enum SearchStep {
    /// List this directory (`None` when it is not a readable directory), then call `answer`.
    List(String),
    /// The search is over: the file found, if any.
    Done(Option<String>),
}

struct Frame {
    entries: Vec<FileEntry>,
    next: usize,
    fallback: Option<String>,
    depth: u32,
}

/// The view of an optional string.
pub open spec fn opt_string_view(o: Option<String>) -> Option<Seq<char>> {
    match o {
        Some(s) => Some(s@),
        None => None,
    }
}

spec fn frame_view(f: Frame) -> FrameView {
    FrameView {
        entries: file_entry_views(f.entries@).skip(f.next as int),
        fallback: opt_string_view(f.fallback),
        depth: f.depth,
    }
}

spec fn frame_views(fs: Seq<Frame>) -> Seq<FrameView> {
    fs.map_values(|f: Frame| frame_view(f))
}

/// A depth-first search of a directory for its first real content file (see `settle`).
pub struct FileSearch {
    frames: Vec<Frame>,
    asked: Option<(String, u32)>,
    result: Option<Option<String>>,
}

/// What a file search holds: the directories under way, the directory it waits to have listed
/// (with the depth to search it with), and its answer once it is over.
pub struct FileSearchView {
    pub frames: Seq<FrameView>,
    pub asked: Option<(Seq<char>, u32)>,
    pub result: Option<Option<Seq<char>>>,
}

impl FileSearch {
    pub closed spec fn view(&self) -> FileSearchView {
        FileSearchView {
            frames: frame_views(self.frames@),
            asked: match self.asked {
                Some((d, k)) => Some((d@, k)),
                None => None,
            },
            result: match self.result {
                Some(r) => Some(opt_string_view(r)),
                None => None,
            },
        }
    }

    closed spec fn wf(&self) -> bool {
        &&& (self.asked is Some) != (self.result is Some)
        &&& forall|i: int| 0 <= i < self.frames@.len() ==> (#[trigger] self.frames@[i]).next <= self.frames@[i].entries@.len()
    }

    /// Whether the search is in a consistent state (waiting for a listing, or over).
    pub closed spec fn well_formed(&self) -> bool {
        self.wf()
    }

    /// A search of `dir` down to `max_depth` levels (none at all when that is zero).
    pub fn new(dir: &str, max_depth: u32) -> (r: Self)
        ensures
            r.well_formed(),
            r@.frames == Seq::<FrameView>::empty(),
            max_depth > 0 ==> r@.asked == Some((dir@, max_depth)) && r@.result is None,
            max_depth == 0 ==> r@.asked is None && r@.result == Some(None::<Seq<char>>),
    {
        let d = string_of(chars_of(dir).as_slice());
        let r = if max_depth > 0 {
            FileSearch { frames: Vec::new(), asked: Some((d, max_depth)), result: None }
        } else {
            FileSearch { frames: Vec::new(), asked: None, result: Some(None) }
        };
        proof {
            assert(frame_views(r.frames@) =~= Seq::<FrameView>::empty());
        }
        r
    }

    /// What the search asks next: a directory to list, or its answer.
    pub fn next(&self) -> (r: SearchStep)
        requires
            self.well_formed(),
        ensures
            match r {
                SearchStep::List(d) => (self@.asked matches Some((p, _)) && p == d@),
                SearchStep::Done(f) => self@.result == Some(opt_string_view(f)),
            },
    {
        match &self.result {
            Some(r) => SearchStep::Done(
                match r {
                    Some(s) => Some(s.clone()),
                    None => None,
                },
            ),
            None => match &self.asked {
                Some((d, _)) => SearchStep::List(d.clone()),
                None => SearchStep::Done(None),
            },
        }
    }

    /// Takes the listing of the directory asked for (`None` when it is not a readable
    /// directory, which answers nothing) and carries the search on.
    pub fn answer(&mut self, listing: Option<Vec<FileEntry>>)
        requires
            old(self).well_formed(),
            old(self)@.asked is Some,
        ensures
            final(self).well_formed(),
            ({
                let depth = (old(self)@.asked->0).1;
                let fs1 = match listing {
                    Some(es) => old(self)@.frames.push(
                        FrameView { entries: file_entry_views(es@), fallback: None, depth },
                    ),
                    None => old(self)@.frames,
                };
                let (fs2, out) = settle(fs1);
                &&& final(self)@.frames == fs2
                &&& match out {
                    SearchOutcome::Ask(p, d) => final(self)@.asked == Some((p, d)) && final(self)@.result is None,
                    SearchOutcome::Finished(f) => final(self)@.asked is None && final(self)@.result == Some(f),
                }
            }),
    {
        let depth = match &self.asked {
            Some((_, k)) => *k,
            None => 0,
        };
        match listing {
            Some(es) => {
                let ghost before = frame_views(self.frames@);
                let ghost ev = file_entry_views(es@);
                let f = Frame { entries: es, next: 0, fallback: None, depth };
                self.frames.push(f);
                proof {
                    assert(ev.skip(0) =~= ev);
                    assert(frame_views(self.frames@) =~= before.push(FrameView { entries: ev, fallback: None, depth }));
                }
            },
            None => {},
        }
        self.asked = None;
        self.settle_exec();
    }

    fn settle_exec(&mut self)
        requires
            old(self).asked is None,
            old(self).result is None,
            forall|i: int| 0 <= i < old(self).frames@.len() ==> (#[trigger] old(self).frames@[i]).next <= old(self).frames@[i].entries@.len(),
        ensures
            final(self).wf(),
            ({
                let (fs2, out) = settle(frame_views(old(self).frames@));
                &&& final(self)@.frames == fs2
                &&& match out {
                    SearchOutcome::Ask(p, d) => final(self)@.asked == Some((p, d)) && final(self)@.result is None,
                    SearchOutcome::Finished(f) => final(self)@.asked is None && final(self)@.result == Some(f),
                }
            }),
    {
        let ghost goal = settle(frame_views(self.frames@));
        loop
            invariant
                self.asked is None,
                self.result is None,
                forall|i: int| 0 <= i < self.frames@.len() ==> (#[trigger] self.frames@[i]).next <= self.frames@[i].entries@.len(),
                settle(frame_views(self.frames@)) == goal,
                goal == settle(frame_views(old(self).frames@)),
            decreases frames_measure(frame_views(self.frames@)),
        {
            let ghost fv = frame_views(self.frames@);
            if self.frames.len() == 0 {
                self.result = Some(None);
                proof {
                    assert(fv =~= Seq::<FrameView>::empty());
                    assert(goal == (fv, SearchOutcome::Finished(None::<Seq<char>>)));
                    assert(self@.frames == goal.0);
                }
                return;
            }
            let mut top = self.frames.pop().unwrap();
            let ghost below = frame_views(self.frames@);
            proof {
                assert(fv.drop_last() =~= below);
                assert(fv.last() == frame_view(top));
                lemma_measure_push(below, frame_view(top));
            }
            if top.next >= top.entries.len() {
                proof {
                    assert(frame_view(top).entries.len() == 0);
                }
                match top.fallback {
                    Some(p) => {
                        proof {
                            assert(goal == (below, SearchOutcome::Finished(Some(p@))));
                        }
                        self.result = Some(Some(p));
                        proof {
                            assert(self@.frames == goal.0);
                        }
                        return;
                    },
                    None => {
                        if self.frames.len() == 0 {
                            proof {
                                assert(goal == (below, SearchOutcome::Finished(None::<Seq<char>>)));
                            }
                            self.result = Some(None);
                            proof {
                                assert(self@.frames == goal.0);
                            }
                            return;
                        }
                    },
                }
            } else {
                let k = top.next;
                let ghost ev = file_entry_views(top.entries@);
                let ghost e = ev[k as int];
                proof {
                    assert(e == file_entry_view(top.entries@[k as int]));
                    assert(frame_view(top).entries[0] == e);
                    assert(ev.skip(k + 1) =~= ev.skip(k as int).drop_first());
                }
                let is_file = top.entries[k].is_file;
                let is_dir = top.entries[k].is_dir;
                top.next = k + 1;
                if is_file {
                    let meta = metadata_name(top.entries[k].name.as_str());
                    if meta {
                        self.frames.push(top);
                    } else if media_path(top.entries[k].path.as_str()) {
                        let found = top.entries[k].path.clone();
                        self.frames.push(top);
                        proof {
                            assert(frame_views(self.frames@) =~= below.push(frame_view(self.frames@.last())));
                        }
                        self.result = Some(Some(found));
                        return;
                    } else {
                        if top.fallback.is_none() {
                            top.fallback = Some(top.entries[k].path.clone());
                        }
                        self.frames.push(top);
                    }
                } else if is_dir && top.depth > 1 {
                    let sub = top.entries[k].path.clone();
                    let d = top.depth - 1;
                    self.frames.push(top);
                    proof {
                        assert(frame_views(self.frames@) =~= below.push(frame_view(self.frames@.last())));
                    }
                    self.asked = Some((sub, d));
                    return;
                } else {
                    self.frames.push(top);
                }
                proof {
                    assert(frame_views(self.frames@) =~= below.push(frame_view(self.frames@.last())));
                    lemma_measure_push(below, frame_view(self.frames@.last()));
                }
            }
        }
    }
}

pub proof fn lemma_measure_push(fs: Seq<FrameView>, f: FrameView)
    ensures
        frames_measure(fs.push(f)) == frames_measure(fs) + f.entries.len() + 1,
{
    assert(fs.push(f).drop_last() =~= fs);
}

/// The frames promise only `good` answers: each fallback is good, and so is the path of every
/// entry still to be looked at that is a file and not a metadata file.
pub open spec fn frames_good(fs: Seq<FrameView>, good: spec_fn(Seq<char>) -> bool) -> bool {
    forall|i: int|
        0 <= i < fs.len() ==> {
            &&& ((#[trigger] fs[i]).fallback matches Some(p) ==> good(p))
            &&& forall|j: int|
                0 <= j < fs[i].entries.len() && (#[trigger] fs[i].entries[j]).is_file
                    && !is_metadata_name(fs[i].entries[j].name) ==> good(fs[i].entries[j].path)
        }
}

/// The search only ever answers a file it was shown that is no metadata file: for any property
/// `good` that holds of every such file listed so far (and of the fallbacks remembered), it
/// holds of the answer, and of what the frames then promise.
pub proof fn law_search_answers_a_listed_file(fs: Seq<FrameView>, good: spec_fn(Seq<char>) -> bool)
    requires
        frames_good(fs, good),
    ensures
        frames_good(settle(fs).0, good),
        settle(fs).1 matches SearchOutcome::Finished(Some(p)) ==> good(p),
    decreases frames_measure(fs),
{
    if fs.len() > 0 {
        let top = fs.last();
        let below = fs.drop_last();
        assert(fs =~= below.push(top));
        lemma_measure_push(below, top);
        assert(frames_good(below, good)) by {
            assert forall|i: int| 0 <= i < below.len() implies #[trigger] below[i] == fs[i] by {}
        }
        if top.entries.len() == 0 {
            if top.fallback is None && below.len() > 0 {
                law_search_answers_a_listed_file(below, good);
            }
        } else {
            let e = top.entries[0];
            let top2 = FrameView { entries: top.entries.drop_first(), ..top };
            let fs2 = below.push(top2);
            lemma_measure_push(below, top2);
            assert(fs[fs.len() - 1] == top);
            assert(frames_good(fs2, good)) by {
                assert forall|i: int| 0 <= i < fs2.len() implies {
                    &&& ((#[trigger] fs2[i]).fallback matches Some(p) ==> good(p))
                    &&& forall|j: int|
                        0 <= j < fs2[i].entries.len() && (#[trigger] fs2[i].entries[j]).is_file
                            && !is_metadata_name(fs2[i].entries[j].name) ==> good(fs2[i].entries[j].path)
                } by {
                    if i < below.len() {
                        assert(fs2[i] == fs[i]);
                    } else {
                        assert(fs2[i] == top2);
                        assert forall|j: int|
                            0 <= j < top2.entries.len() && (#[trigger] top2.entries[j]).is_file
                                && !is_metadata_name(top2.entries[j].name) implies good(top2.entries[j].path) by {
                            assert(top2.entries[j] == top.entries[j + 1]);
                            assert(fs[fs.len() - 1].entries[j + 1] == top.entries[j + 1]);
                        }
                    }
                }
            }
            if e.is_file {
                if is_metadata_name(e.name) {
                    law_search_answers_a_listed_file(fs2, good);
                } else if is_media_path(e.path) {
                    assert(fs[fs.len() - 1].entries[0] == e);
                } else {
                    assert(fs[fs.len() - 1].entries[0] == e);
                    let f3 = FrameView {
                        fallback: if top.fallback is None {
                            Some(e.path)
                        } else {
                            top.fallback
                        },
                        ..top2
                    };
                    let fs3 = below.push(f3);
                    lemma_measure_push(below, f3);
                    assert(frames_good(fs3, good)) by {
                        assert forall|i: int| 0 <= i < fs3.len() implies {
                            &&& ((#[trigger] fs3[i]).fallback matches Some(p) ==> good(p))
                            &&& forall|j: int|
                                0 <= j < fs3[i].entries.len() && (#[trigger] fs3[i].entries[j]).is_file
                                    && !is_metadata_name(fs3[i].entries[j].name) ==> good(fs3[i].entries[j].path)
                        } by {
                            if i < below.len() {
                                assert(fs3[i] == fs2[i]);
                            } else {
                                assert(fs3[i] == f3);
                                assert(f3.entries == fs2[i].entries);
                            }
                        }
                    }
                    law_search_answers_a_listed_file(fs3, good);
                }
            } else if e.is_dir {
                if top.depth <= 1 {
                    law_search_answers_a_listed_file(fs2, good);
                }
            } else {
                law_search_answers_a_listed_file(fs2, good);
            }
        }
    }
}

fn metadata_name(name: &str) -> (b: bool)
    ensures
        b == is_metadata_name(name@),
{
    let n = chars_of(name);
    same_chars(n.as_slice(), chars_of(".DS_Store").as_slice()) || starts_with_chars(
        n.as_slice(),
        chars_of("._").as_slice(),
    )
}

fn media_path(path: &str) -> (b: bool)
    ensures
        b == is_media_path(path@),
{
    let p = chars_of(path);
    let e = match path_extension(p.as_slice()) {
        Some(e) => e,
        None => Vec::new(),
    };
    let low = lowercase_chars(e.as_slice());
    let exts = [
        "jpg", "jpeg", "png", "gif", "heic", "heif", "tiff", "tif", "bmp", "webp", "svg", "pdf",
        "mov", "mp4", "m4v", "m4a", "mp3", "aac", "wav",
    ];
    let r = is_one_of(low.as_slice(), &exts);
    proof {
        assert(exts@.map_values(|s: &str| s@) =~= media_exts());
        if r {
            let i = choose|i: int| 0 <= i < exts@.len() && low@ == #[trigger] exts@[i]@;
            assert(media_exts()[i] == low@);
        } else {
            assert forall|i: int| 0 <= i < media_exts().len() implies media_exts()[i] != low@ by {
                assert(media_exts()[i] == exts@[i]@);
            }
        }
    }
    r
}

} // verus!
