//! Decisions taken while walking directories: what an entry of a vault becomes in the tree,
//! which subdirectories a folder picker lists, and the order of a vault's configuration files.
use vstd::prelude::*;

use crate::order::by_text_key;
use crate::order::sort_by;
use crate::order::sort_by_text_keys;
use crate::paths::file_stem;
use crate::paths::path_file_stem;
use crate::text::chars_of;
use crate::text::starts_with;
use crate::text::starts_with_chars;
use crate::text::string_of;
use crate::vault::has_ext_in;
use crate::vault::is_note_file;
use crate::vault::note_exts;
use crate::vault::or_empty;
use crate::vault::string_views;
use crate::vault::DirEntryInfo;

verus! {

/// What an entry of a vault's directory becomes in its tree.
#[derive(Debug)]
pub enum VaultEntry {
    /// A hidden entry (its name starts with a dot): left out.
    Hidden,
    /// A directory: a folder, kept when it holds anything.
    Folder,
    /// A note, shown by its file stem.
    Note(String),
    /// Any other file.
    Attachment,
}

/// What a `VaultEntry` holds.
pub enum VaultEntryView {
    Hidden,
    Folder,
    Note(Seq<char>),
    Attachment,
}

/// The view of a vault entry.
pub open spec fn vault_entry_view(e: VaultEntry) -> VaultEntryView {
    match e {
        VaultEntry::Hidden => VaultEntryView::Hidden,
        VaultEntry::Folder => VaultEntryView::Folder,
        VaultEntry::Note(n) => VaultEntryView::Note(n@),
        VaultEntry::Attachment => VaultEntryView::Attachment,
    }
}

/// What the entry named `name` at `path` becomes: hidden entries are left out, directories
/// are folders, note files are notes named by their stem, and other files attachments.
pub open spec fn vault_entry_spec(name: Seq<char>, path: Seq<char>, is_dir: bool) -> VaultEntryView {
    if starts_with(name, "."@) {
        VaultEntryView::Hidden
    } else if is_dir {
        VaultEntryView::Folder
    } else if has_ext_in(path, note_exts()) {
        VaultEntryView::Note(or_empty(file_stem(path)))
    } else {
        VaultEntryView::Attachment
    }
}

/// What a directory entry becomes in a vault's tree (see `vault_entry_spec`).
pub fn vault_entry(name: &str, path: &str, is_dir: bool) -> (r: VaultEntry)
    ensures
        vault_entry_view(r) == vault_entry_spec(name@, path@, is_dir),
{
    let n = chars_of(name);
    if starts_with_chars(n.as_slice(), chars_of(".").as_slice()) {
        VaultEntry::Hidden
    } else if is_dir {
        VaultEntry::Folder
    } else if is_note_file(path) {
        let p = chars_of(path);
        let stem = match path_file_stem(p.as_slice()) {
            Some(s) => s,
            None => Vec::new(),
        };
        VaultEntry::Note(string_of(stem.as_slice()))
    } else {
        VaultEntry::Attachment
    }
}

/// Whether a folder picker lists the entry: a directory whose name does not start with a dot.
pub open spec fn listed_subdir(e: DirEntryInfo) -> bool {
    e.is_dir && !starts_with(e.name@, "."@)
}

/// The entries a folder picker lists, in order.
pub open spec fn listed(entries: Seq<DirEntryInfo>) -> Seq<DirEntryInfo>
    decreases entries.len(),
{
    if entries.len() == 0 {
        entries
    } else if listed_subdir(entries.last()) {
        listed(entries.drop_last()).push(entries.last())
    } else {
        listed(entries.drop_last())
    }
}

/// Entries by the code-point order of their names (paths in one directory compare so).
pub open spec fn by_entry_name() -> spec_fn(DirEntryInfo, DirEntryInfo) -> bool {
    by_text_key(|e: DirEntryInfo| e.name@)
}

/// The paths a folder picker lists for a directory's entries: its subdirectories that are not
/// hidden, by name.
pub open spec fn subdir_paths(entries: Seq<DirEntryInfo>) -> Seq<Seq<char>> {
    sort_by(listed(entries), by_entry_name()).map_values(|e: DirEntryInfo| e.path@)
}

/// The subdirectories a folder picker lists (see `subdir_paths`).
pub fn visible_subdirs(entries: Vec<DirEntryInfo>) -> (r: Vec<String>)
    ensures
        string_views(r@) == subdir_paths(entries@),
{
    let ghost ev = entries@;
    let mut kept: Vec<DirEntryInfo> = Vec::new();
    let mut keys: Vec<Vec<char>> = Vec::new();
    let mut rev = crate::order::into_reversed(entries);
    let ghost mut i: int = 0;
    proof {
        assert(ev.take(0) =~= Seq::<DirEntryInfo>::empty());
    }
    while rev.len() > 0
        invariant
            0 <= i <= ev.len(),
            rev@ == ev.skip(i).reverse(),
            kept@ == listed(ev.take(i)),
            keys@.len() == kept@.len(),
            forall|j: int| 0 <= j < kept@.len() ==> #[trigger] keys@[j]@ == kept@[j].name@,
        decreases rev@.len(),
    {
        let e = rev.pop().unwrap();
        proof {
            assert(ev.skip(i).reverse().last() == ev[i]);
            assert(ev.take(i + 1).drop_last() =~= ev.take(i));
            assert(ev.take(i + 1).last() == ev[i]);
            assert(ev.skip(i + 1).reverse() =~= ev.skip(i).reverse().drop_last());
        }
        let hidden = starts_with_chars(chars_of(e.name.as_str()).as_slice(), chars_of(".").as_slice());
        if e.is_dir && !hidden {
            keys.push(chars_of(e.name.as_str()));
            kept.push(e);
        }
        proof {
            i = i + 1;
        }
    }
    proof {
        assert(ev.take(i) =~= ev);
    }
    let sorted = sort_by_text_keys::<DirEntryInfo, DirEntryInfo>(
        kept,
        keys,
        Ghost(|e: DirEntryInfo| e),
        Ghost(|e: DirEntryInfo| e.name@),
    );
    proof {
        assert(sorted@.map_values(|e: DirEntryInfo| e) =~= sorted@);
        assert(listed(ev).map_values(|e: DirEntryInfo| e) =~= listed(ev));
    }
    let mut out: Vec<String> = Vec::new();
    let mut k: usize = 0;
    while k < sorted.len()
        invariant
            k <= sorted@.len(),
            string_views(out@) == sorted@.take(k as int).map_values(|e: DirEntryInfo| e.path@),
        decreases sorted@.len() - k,
    {
        let p = string_of(chars_of(sorted[k].path.as_str()).as_slice());
        let ghost before = string_views(out@);
        out.push(p);
        k = k + 1;
        proof {
            assert(sorted@.take(k as int).drop_last() =~= sorted@.take(k - 1));
            assert(string_views(out@) =~= before.push(sorted@[k - 1].path@));
            assert(string_views(out@) =~= sorted@.take(k as int).map_values(|e: DirEntryInfo| e.path@));
        }
    }
    proof {
        assert(sorted@.take(k as int) =~= sorted@);
    }
    out
}

/// A configuration file of a vault (a file of its `.obsidian` directory) and what it holds.
#[derive(Debug)]
pub struct ConfigFile {
    pub name: String,
    pub content: String,
}

/// Configuration files by the code-point order of their names.
pub open spec fn by_config_name() -> spec_fn(ConfigFile, ConfigFile) -> bool {
    by_text_key(|f: ConfigFile| f.name@)
}

/// A vault's configuration files in the order they are shown: by name (stable).
pub fn sort_config_files(files: Vec<ConfigFile>) -> (r: Vec<ConfigFile>)
    ensures
        r@ == sort_by(files@, by_config_name()),
{
    let mut keys: Vec<Vec<char>> = Vec::new();
    let mut i: usize = 0;
    while i < files.len()
        invariant
            i <= files@.len(),
            keys@.len() == i,
            forall|j: int| 0 <= j < i ==> #[trigger] keys@[j]@ == files@[j].name@,
        decreases files@.len() - i,
    {
        keys.push(chars_of(files[i].name.as_str()));
        i = i + 1;
    }
    let ghost fv = files@;
    let r = sort_by_text_keys::<ConfigFile, ConfigFile>(
        files,
        keys,
        Ghost(|f: ConfigFile| f),
        Ghost(|f: ConfigFile| f.name@),
    );
    proof {
        assert(r@.map_values(|f: ConfigFile| f) =~= r@);
        assert(fv.map_values(|f: ConfigFile| f) =~= fv);
    }
    r
}

} // verus!
