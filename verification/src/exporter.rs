//! An export run: its configuration, its log, and where each Apple Notes folder goes in the
//! output (its path relative to the output root).
use vstd::prelude::*;

use crate::note::sanitized_name;
use crate::note::sanitize_filename;
use crate::order::by_text_key;
use crate::order::sort_by;
use crate::order::sort_by_text_keys;
use crate::text::chars_of;
use crate::text::decimal;
use crate::text::extend_chars;
use crate::text::push_decimal;
use crate::text::string_of;
use crate::vault::string_views;

verus! {

// ---------------------------------------------------------------------------
// Configuration and log
// ---------------------------------------------------------------------------

/// Configuration for an export run.
pub struct ExportConfig {
    pub output_dir: String,
    pub attachments_folder: String,
    /// If set, only export notes in these folder PKs.
    pub folder_filter: Option<Vec<i64>>,
}

impl Default for ExportConfig {
    fn default() -> (r: Self)
        ensures
            r.output_dir@ == "."@,
            r.attachments_folder@ == "_attachments"@,
            r.folder_filter is None,
    {
        ExportConfig {
            output_dir: string_of(chars_of(".").as_slice()),
            attachments_folder: string_of(chars_of("_attachments").as_slice()),
            folder_filter: None,
        }
    }
}

/// Accumulated log and statistics from an export.
#[derive(Debug)]
pub struct ExportLog {
    pub lines: Vec<String>,
    pub notes_exported: usize,
    pub attachments_copied: usize,
    pub folders_created: usize,
    pub errors: usize,
    pub is_complete: bool,
}

/// `n + 1`, wrapping at the top of `usize`.
pub open spec fn bump(n: usize) -> usize {
    if n < usize::MAX {
        (n + 1) as usize
    } else {
        0
    }
}

impl ExportLog {
    /// An empty log.
    pub fn new() -> (r: Self)
        ensures
            r.lines@.len() == 0,
            r.notes_exported == 0,
            r.attachments_copied == 0,
            r.folders_created == 0,
            r.errors == 0,
            !r.is_complete,
    {
        ExportLog {
            lines: Vec::new(),
            notes_exported: 0,
            attachments_copied: 0,
            folders_created: 0,
            errors: 0,
            is_complete: false,
        }
    }

    /// Adds a line.
    pub fn log(&mut self, msg: String)
        ensures
            string_views(final(self).lines@) == string_views(old(self).lines@).push(msg@),
            final(self).notes_exported == old(self).notes_exported,
            final(self).attachments_copied == old(self).attachments_copied,
            final(self).folders_created == old(self).folders_created,
            final(self).errors == old(self).errors,
            final(self).is_complete == old(self).is_complete,
    {
        let ghost before = string_views(self.lines@);
        let ghost m = msg@;
        self.lines.push(msg);
        proof {
            assert(string_views(self.lines@) =~= before.push(m));
        }
    }

    /// Adds an error line (`ERROR: ` and the message) and counts the error.
    pub fn error(&mut self, msg: String)
        ensures
            string_views(final(self).lines@) == string_views(old(self).lines@).push(
                "ERROR: "@ + msg@,
            ),
            final(self).errors == bump(old(self).errors),
            final(self).notes_exported == old(self).notes_exported,
            final(self).attachments_copied == old(self).attachments_copied,
            final(self).folders_created == old(self).folders_created,
            final(self).is_complete == old(self).is_complete,
    {
        let mut line = chars_of("ERROR: ");
        extend_chars(&mut line, chars_of(msg.as_str()).as_slice());
        self.log(string_of(line.as_slice()));
        self.errors = if self.errors < usize::MAX {
            self.errors + 1
        } else {
            0
        };
    }

    /// Closes the log: a blank line, a rule, `Export complete!` and the four totals, and marks
    /// the export complete.
    pub fn finish(&mut self)
        ensures
            string_views(final(self).lines@) == string_views(old(self).lines@) + summary_lines(
                old(self).folders_created,
                old(self).notes_exported,
                old(self).attachments_copied,
                old(self).errors,
            ),
            final(self).is_complete,
            final(self).notes_exported == old(self).notes_exported,
            final(self).attachments_copied == old(self).attachments_copied,
            final(self).folders_created == old(self).folders_created,
            final(self).errors == old(self).errors,
    {
        let ghost start = string_views(self.lines@);
        let folders = self.folders_created;
        let notes = self.notes_exported;
        let atts = self.attachments_copied;
        let errors = self.errors;
        self.log(String::new());
        self.log(string_of(chars_of("═══════════════════════════════════════════").as_slice()));
        self.log(string_of(chars_of("Export complete!").as_slice()));
        self.log(count_line("  Folders created: ", folders));
        self.log(count_line("  Notes exported:  ", notes));
        self.log(count_line("  Attachments:     ", atts));
        self.log(count_line("  Errors:          ", errors));
        self.is_complete = true;
        proof {
            assert(string_views(self.lines@) =~= start + summary_lines(folders, notes, atts, errors));
        }
    }
}

/// The closing lines of an export log.
pub open spec fn summary_lines(folders: usize, notes: usize, attachments: usize, errors: usize) -> Seq<
    Seq<char>,
> {
    seq![
        Seq::empty(),
        "═══════════════════════════════════════════"@,
        "Export complete!"@,
        "  Folders created: "@ + decimal(folders as nat),
        "  Notes exported:  "@ + decimal(notes as nat),
        "  Attachments:     "@ + decimal(attachments as nat),
        "  Errors:          "@ + decimal(errors as nat),
    ]
}

/// `label` followed by the decimal form of `n`.
pub fn count_line(label: &str, n: usize) -> (r: String)
    ensures
        r@ == label@ + decimal(n as nat),
{
    let mut out = chars_of(label);
    push_decimal(&mut out, n as u64);
    string_of(out.as_slice())
}

// ---------------------------------------------------------------------------
// Folder layout
// ---------------------------------------------------------------------------

/// A folder row of the notes database: its key, title and parent's key.
pub struct FolderRow {
    pub pk: i64,
    pub title: String,
    pub parent_pk: Option<i64>,
}

/// A folder of the export, with its path relative to the output root (e.g. `Work/Projects`;
/// empty for a folder no root leads to).
pub struct FolderInfo {
    pub pk: i64,
    pub title: String,
    pub parent_pk: Option<i64>,
    pub rel_path: String,
}

/// What a folder row holds.
pub open spec fn row_view(r: FolderRow) -> (i64, Seq<char>, Option<i64>) {
    (r.pk, r.title@, r.parent_pk)
}

/// The views of folder rows.
pub open spec fn row_views(rows: Seq<FolderRow>) -> Seq<(i64, Seq<char>, Option<i64>)> {
    rows.map_values(|r: FolderRow| row_view(r))
}

/// Some row has key `pk`.
pub open spec fn has_pk(rows: Seq<(i64, Seq<char>, Option<i64>)>, pk: i64) -> bool {
    exists|i: int| 0 <= i < rows.len() && (#[trigger] rows[i]).0 == pk
}

/// The last row with key `pk` (a later row for a key replaces an earlier one).
pub open spec fn row_of(rows: Seq<(i64, Seq<char>, Option<i64>)>, pk: i64) -> (i64, Seq<char>, Option<i64>)
    decreases rows.len(),
{
    if rows.len() == 0 {
        (pk, Seq::empty(), None)
    } else if rows.last().0 == pk {
        rows.last()
    } else {
        row_of(rows.drop_last(), pk)
    }
}

/// The keys of the rows, each once, in the order of their first row.
pub open spec fn distinct_pks(rows: Seq<(i64, Seq<char>, Option<i64>)>) -> Seq<i64>
    decreases rows.len(),
{
    if rows.len() == 0 {
        Seq::empty()
    } else {
        let rest = distinct_pks(rows.drop_last());
        if rest.contains(rows.last().0) {
            rest
        } else {
            rest.push(rows.last().0)
        }
    }
}

/// The folder `pk` hangs off a root within `fuel` steps up its parents: a root is a folder
/// without parent, or whose parent is no folder of the rows.
pub open spec fn reaches_root(rows: Seq<(i64, Seq<char>, Option<i64>)>, pk: i64, fuel: nat) -> bool
    decreases fuel,
{
    match row_of(rows, pk).2 {
        None => true,
        Some(p) => if !has_pk(rows, p) {
            true
        } else if fuel == 0 {
            false
        } else {
            reaches_root(rows, p, (fuel - 1) as nat)
        },
    }
}

/// The sanitized titles from the root down to `pk`, joined by `/`.
pub open spec fn chain_path(rows: Seq<(i64, Seq<char>, Option<i64>)>, pk: i64, fuel: nat) -> Seq<char>
    decreases fuel,
{
    let own = sanitized_name(row_of(rows, pk).1);
    match row_of(rows, pk).2 {
        None => own,
        Some(p) => if !has_pk(rows, p) || fuel == 0 {
            own
        } else {
            chain_path(rows, p, (fuel - 1) as nat) + "/"@ + own
        },
    }
}

/// The path of folder `pk` relative to the output root: the joined sanitized titles from its
/// root down, or empty when following its parents never reaches a root (a cycle).
pub open spec fn rel_path_of(rows: Seq<(i64, Seq<char>, Option<i64>)>, pk: i64) -> Seq<char> {
    let n = distinct_pks(rows).len();
    if reaches_root(rows, pk, n) {
        chain_path(rows, pk, n)
    } else {
        Seq::empty()
    }
}

/// The folder `f` is the one of the rows with key `pk`, with its path.
pub open spec fn is_folder_info(rows: Seq<(i64, Seq<char>, Option<i64>)>, pk: i64, f: FolderInfo) -> bool {
    &&& f.pk == pk
    &&& f.title@ == row_of(rows, pk).1
    &&& f.parent_pk == row_of(rows, pk).2
    &&& f.rel_path@ == rel_path_of(rows, pk)
}

proof fn lemma_row_of(rows: Seq<(i64, Seq<char>, Option<i64>)>, pk: i64)
    requires
        has_pk(rows, pk),
    ensures
        row_of(rows, pk).0 == pk,
        exists|i: int| 0 <= i < rows.len() && rows[i] == row_of(rows, pk),
    decreases rows.len(),
{
    if rows.last().0 != pk {
        let i = choose|i: int| 0 <= i < rows.len() && (#[trigger] rows[i]).0 == pk;
        assert(rows.drop_last()[i] == rows[i]);
        assert(has_pk(rows.drop_last(), pk));
        lemma_row_of(rows.drop_last(), pk);
        let j = choose|j: int| 0 <= j < rows.drop_last().len() && rows.drop_last()[j] == row_of(rows.drop_last(), pk);
        assert(rows[j] == rows.drop_last()[j]);
    } else {
        assert(rows[rows.len() - 1] == rows.last());
    }
}

fn find_row(rows: &Vec<FolderRow>, pk: i64) -> (r: Option<usize>)
    ensures
        match r {
            Some(i) => i < rows@.len() && row_views(rows@)[i as int] == row_of(row_views(rows@), pk)
                && has_pk(row_views(rows@), pk),
            None => !has_pk(row_views(rows@), pk),
        },
{
    let ghost rv = row_views(rows@);
    let mut i: usize = rows.len();
    proof {
        assert(rv.take(rv.len() as int) =~= rv);
    }
    while i > 0
        invariant
            rv == row_views(rows@),
            rv.len() == rows@.len(),
            i <= rows@.len(),
            row_of(rv, pk) == row_of(rv.take(i as int), pk),
            forall|j: int| i <= j < rv.len() ==> rv[j].0 != pk,
        decreases i,
    {
        proof {
            assert(rv.take(i as int).drop_last() =~= rv.take(i - 1));
            assert(rv.take(i as int).last() == rv[i - 1]);
        }
        if rows[i - 1].pk == pk {
            proof {
                assert(rv[i - 1] == row_view(rows@[i - 1]));
            }
            return Some(i - 1);
        }
        i = i - 1;
    }
    None
}

fn distinct_count(rows: &Vec<FolderRow>) -> (r: (Vec<i64>, usize))
    ensures
        r.0@ == distinct_pks(row_views(rows@)),
        r.1 == distinct_pks(row_views(rows@)).len(),
{
    let ghost rv = row_views(rows@);
    let mut pks: Vec<i64> = Vec::new();
    let mut i: usize = 0;
    proof {
        assert(rv.take(0) =~= Seq::<(i64, Seq<char>, Option<i64>)>::empty());
    }
    while i < rows.len()
        invariant
            rv == row_views(rows@),
            rv.len() == rows@.len(),
            i <= rows@.len(),
            pks@ == distinct_pks(rv.take(i as int)),
            pks@.len() <= i,
        decreases rows@.len() - i,
    {
        proof {
            assert(rv.take(i + 1).drop_last() =~= rv.take(i as int));
            assert(rv.take(i + 1).last() == rv[i as int]);
        }
        let pk = rows[i].pk;
        let mut k: usize = 0;
        let mut seen = false;
        while k < pks.len()
            invariant
                k <= pks@.len(),
                seen == exists|m: int| 0 <= m < k && pks@[m] == pk,
            decreases pks@.len() - k,
        {
            if pks[k] == pk {
                seen = true;
            }
            k = k + 1;
        }
        if !seen {
            pks.push(pk);
        }
        i = i + 1;
    }
    proof {
        assert(rv.take(i as int) =~= rv);
    }
    let n = pks.len();
    (pks, n)
}

/// Whether following the parents of `pk` reaches a root within `fuel` steps.
fn reaches_root_exec(rows: &Vec<FolderRow>, pk: i64, fuel: usize) -> (r: bool)
    ensures
        r == reaches_root(row_views(rows@), pk, fuel as nat),
{
    let ghost rv = row_views(rows@);
    let mut cur = pk;
    let mut left = fuel;
    loop
        invariant
            rv == row_views(rows@),
            reaches_root(rv, pk, fuel as nat) == reaches_root(rv, cur, left as nat),
        decreases left,
    {
        let parent = match find_row(rows, cur) {
            Some(i) => rows[i].parent_pk,
            None => None,
        };
        proof {
            if !has_pk(rv, cur) {
                assert(row_of(rv, cur).2 is None) by {
                    lemma_row_of_missing(rv, cur);
                }
            }
        }
        match parent {
            None => {
                return true;
            },
            Some(p) => {
                if find_row(rows, p).is_none() {
                    return true;
                }
                if left == 0 {
                    return false;
                }
                cur = p;
                left = left - 1;
            },
        }
    }
}

proof fn lemma_row_of_missing(rows: Seq<(i64, Seq<char>, Option<i64>)>, pk: i64)
    requires
        !has_pk(rows, pk),
    ensures
        row_of(rows, pk) == (pk, Seq::<char>::empty(), None::<i64>),
    decreases rows.len(),
{
    if rows.len() > 0 {
        assert(rows[rows.len() - 1] == rows.last());
        assert forall|i: int| 0 <= i < rows.drop_last().len() implies (#[trigger] rows.drop_last()[i]).0 != pk by {
            assert(rows.drop_last()[i] == rows[i]);
        }
        lemma_row_of_missing(rows.drop_last(), pk);
    }
}

/// The path from the root down to `pk`.
fn chain_path_exec(rows: &Vec<FolderRow>, pk: i64, fuel: usize) -> (r: Vec<char>)
    ensures
        r@ == chain_path(row_views(rows@), pk, fuel as nat),
    decreases fuel,
{
    let ghost rv = row_views(rows@);
    let (title, parent): (Vec<char>, Option<i64>) = match find_row(rows, pk) {
        Some(i) => (chars_of(rows[i].title.as_str()), rows[i].parent_pk),
        None => {
            proof {
                lemma_row_of_missing(rv, pk);
            }
            (Vec::new(), None)
        },
    };
    let own = chars_of(sanitize_filename(string_of(title.as_slice()).as_str()).as_str());
    match parent {
        None => own,
        Some(p) => {
            if find_row(rows, p).is_none() || fuel == 0 {
                own
            } else {
                let mut up = chain_path_exec(rows, p, fuel - 1);
                up.push('/');
                extend_chars(&mut up, own.as_slice());
                proof {
                    reveal_strlit("/");
                }
                up
            }
        },
    }
}

/// The export folders of the database's folder rows, in the order of each key's first row, a
/// later row for a key replacing an earlier one: each with its path relative to the output
/// root.
pub fn folder_layout(rows: &Vec<FolderRow>) -> (r: Vec<FolderInfo>)
    ensures
        r@.len() == distinct_pks(row_views(rows@)).len(),
        forall|k: int|
            0 <= k < r@.len() ==> is_folder_info(
                row_views(rows@),
                distinct_pks(row_views(rows@))[k],
                #[trigger] r@[k],
            ),
{
    let ghost rv = row_views(rows@);
    let (pks, n) = distinct_count(rows);
    let mut out: Vec<FolderInfo> = Vec::new();
    let mut k: usize = 0;
    while k < pks.len()
        invariant
            rv == row_views(rows@),
            pks@ == distinct_pks(rv),
            n == pks@.len(),
            k <= pks@.len(),
            out@.len() == k,
            forall|m: int| 0 <= m < k ==> is_folder_info(rv, pks@[m], #[trigger] out@[m]),
        decreases pks@.len() - k,
    {
        let pk = pks[k];
        let i = match find_row(rows, pk) {
            Some(i) => i,
            None => {
                proof {
                    lemma_distinct_has(rv, k as int);
                }
                return out;
            },
        };
        let rel: Vec<char> = if reaches_root_exec(rows, pk, n) {
            chain_path_exec(rows, pk, n)
        } else {
            Vec::new()
        };
        out.push(
            FolderInfo {
                pk,
                title: string_of(chars_of(rows[i].title.as_str()).as_slice()),
                parent_pk: rows[i].parent_pk,
                rel_path: string_of(rel.as_slice()),
            },
        );
        k = k + 1;
    }
    out
}

proof fn lemma_distinct_has(rows: Seq<(i64, Seq<char>, Option<i64>)>, k: int)
    requires
        0 <= k < distinct_pks(rows).len(),
    ensures
        has_pk(rows, distinct_pks(rows)[k]),
    decreases rows.len(),
{
    let rest = distinct_pks(rows.drop_last());
    if k < rest.len() {
        lemma_distinct_has(rows.drop_last(), k);
        let i = choose|i: int| 0 <= i < rows.drop_last().len() && (#[trigger] rows.drop_last()[i]).0 == rest[k];
        assert(rows[i] == rows.drop_last()[i]);
    } else {
        assert(rows[rows.len() - 1] == rows.last());
    }
}

/// The folders to export: all of them, or those whose key is in the filter.
pub open spec fn kept_by_filter(filter: Option<Seq<i64>>, pk: i64) -> bool {
    match filter {
        Some(f) => f.contains(pk),
        None => true,
    }
}

/// The folders the filter keeps, in order.
pub open spec fn filtered(folders: Seq<FolderInfo>, filter: Option<Seq<i64>>) -> Seq<FolderInfo>
    decreases folders.len(),
{
    if folders.len() == 0 {
        folders
    } else if kept_by_filter(filter, folders.last().pk) {
        filtered(folders.drop_last(), filter).push(folders.last())
    } else {
        filtered(folders.drop_last(), filter)
    }
}

/// The folders of `folders` the filter keeps (all when there is none), in order.
pub fn filter_folders(folders: Vec<FolderInfo>, filter: &Option<Vec<i64>>) -> (r: Vec<FolderInfo>)
    ensures
        r@ == filtered(
            folders@,
            match filter {
                Some(v) => Some(v@),
                None => None,
            },
        ),
{
    let ghost fv = match filter {
        Some(v) => Some(v@),
        None => None,
    };
    let ghost orig = folders@;
    let mut rev = crate::order::into_reversed(folders);
    let mut out: Vec<FolderInfo> = Vec::new();
    let ghost mut done: int = 0;
    proof {
        assert(orig.take(0) =~= Seq::<FolderInfo>::empty());
    }
    while rev.len() > 0
        invariant
            done + rev@.len() == orig.len(),
            0 <= done <= orig.len(),
            forall|i: int| 0 <= i < rev@.len() ==> rev@[i] == orig[orig.len() - 1 - i],
            out@ == filtered(orig.take(done), fv),
            fv == match filter {
                Some(v) => Some(v@),
                None => None::<Seq<i64>>,
            },
        decreases rev@.len(),
    {
        let f = rev.pop().unwrap();
        proof {
            assert(f == orig[done]);
            assert(orig.take(done + 1).drop_last() =~= orig.take(done));
            assert(orig.take(done + 1).last() == f);
        }
        let keep = match filter {
            Some(v) => {
                let mut found = false;
                let mut k: usize = 0;
                while k < v.len()
                    invariant
                        k <= v@.len(),
                        found == exists|m: int| 0 <= m < k && v@[m] == f.pk,
                    decreases v@.len() - k,
                {
                    if v[k] == f.pk {
                        found = true;
                    }
                    k = k + 1;
                }
                found
            },
            None => true,
        };
        if keep {
            out.push(f);
        }
        proof {
            done = done + 1;
        }
    }
    proof {
        assert(orig.take(done) =~= orig);
    }
    out
}

// ---------------------------------------------------------------------------
// Log lines of an export
// ---------------------------------------------------------------------------

/// The line that reports how many folders will be exported: of how many the filter named, when
/// there is a filter.
pub open spec fn folders_line_text(count: usize, filter_len: Option<usize>) -> Seq<char> {
    match filter_len {
        Some(n) => "  Exporting "@ + decimal(count as nat) + " of "@ + decimal(n as nat)
            + " folders (sub-tree)"@,
        None => "  Found "@ + decimal(count as nat) + " folders"@,
    }
}

/// The line that reports how many folders will be exported.
pub fn folders_line(count: usize, filter_len: Option<usize>) -> (r: String)
    ensures
        r@ == folders_line_text(count, filter_len),
{
    let mut out: Vec<char>;
    match filter_len {
        Some(n) => {
            out = chars_of("  Exporting ");
            push_decimal(&mut out, count as u64);
            extend_chars(&mut out, chars_of(" of ").as_slice());
            push_decimal(&mut out, n as u64);
            extend_chars(&mut out, chars_of(" folders (sub-tree)").as_slice());
        },
        None => {
            out = chars_of("  Found ");
            push_decimal(&mut out, count as u64);
            extend_chars(&mut out, chars_of(" folders").as_slice());
        },
    }
    proof {
        match filter_len {
            Some(n) => {
                assert(out@ =~= "  Exporting "@ + decimal(count as nat) + " of "@ + decimal(n as nat)
                    + " folders (sub-tree)"@);
            },
            None => {
                assert(out@ =~= "  Found "@ + decimal(count as nat) + " folders"@);
            },
        }
    }
    string_of(out.as_slice())
}

/// The line that counts the attachments of the database and those found on disk.
pub open spec fn attachment_count_text(total: usize, found: usize) -> Seq<char> {
    "  "@ + decimal(total as nat) + " attachments in DB, "@ + decimal(found as nat)
        + " files on disk, "@ + decimal((total - found) as nat) + " not found"@
}

/// The line that counts the attachments of the database and those found on disk.
pub fn attachment_count_line(total: usize, found: usize) -> (r: String)
    requires
        found <= total,
    ensures
        r@ == attachment_count_text(total, found),
{
    let mut out = chars_of("  ");
    push_decimal(&mut out, total as u64);
    extend_chars(&mut out, chars_of(" attachments in DB, ").as_slice());
    push_decimal(&mut out, found as u64);
    extend_chars(&mut out, chars_of(" files on disk, ").as_slice());
    push_decimal(&mut out, (total - found) as u64);
    extend_chars(&mut out, chars_of(" not found").as_slice());
    proof {
        assert(out@ =~= "  "@ + decimal(total as nat) + " attachments in DB, "@ + decimal(found as nat)
            + " files on disk, "@ + decimal((total - found) as nat) + " not found"@);
    }
    string_of(out.as_slice())
}

/// The line that starts a folder's part of the log.
pub open spec fn folder_line_text(rel_path: Seq<char>, notes: usize) -> Seq<char> {
    "Folder: "@ + rel_path + " ("@ + decimal(notes as nat) + " notes)"@
}

/// The line that starts a folder's part of the log.
pub fn folder_line(rel_path: &str, notes: usize) -> (r: String)
    ensures
        r@ == folder_line_text(rel_path@, notes),
{
    let mut out = chars_of("Folder: ");
    extend_chars(&mut out, chars_of(rel_path).as_slice());
    extend_chars(&mut out, chars_of(" (").as_slice());
    push_decimal(&mut out, notes as u64);
    extend_chars(&mut out, chars_of(" notes)").as_slice());
    proof {
        assert(out@ =~= "Folder: "@ + rel_path@ + " ("@ + decimal(notes as nat) + " notes)"@);
    }
    string_of(out.as_slice())
}

/// The line that reports a note written.
pub fn exported_line(filename: &str) -> (r: String)
    ensures
        r@ == "  Exported: "@ + filename@,
{
    let mut out = chars_of("  Exported: ");
    extend_chars(&mut out, chars_of(filename).as_slice());
    string_of(out.as_slice())
}

/// An attachment of the database whose file was not found on disk.
pub struct MissingAttachment {
    pub uuid: String,
    pub filename: String,
    pub type_uti: String,
}

/// The line for a missing attachment: its identifier and its file name (or, without one, its
/// type).
pub open spec fn missing_line(m: MissingAttachment) -> Seq<char> {
    "  "@ + m.uuid@ + "  ("@ + (if m.filename@.len() > 0 {
        m.filename@
    } else {
        m.type_uti@
    }) + ")"@
}

/// Missing attachments in the code-point order of their identifiers.
pub open spec fn by_uuid() -> spec_fn(MissingAttachment, MissingAttachment) -> bool {
    by_text_key(|m: MissingAttachment| m.uuid@)
}

/// The part of the log that lists missing attachments: nothing when none is missing, else a
/// blank line, a heading, and a line per attachment, by identifier.
pub open spec fn missing_section(missing: Seq<MissingAttachment>) -> Seq<Seq<char>> {
    if missing.len() == 0 {
        Seq::empty()
    } else {
        seq![Seq::empty(), "Missing attachments (no file on disk):"@] + sort_by(missing, by_uuid()).map_values(
            |m: MissingAttachment| missing_line(m),
        )
    }
}

/// The part of the log that lists missing attachments.
pub fn missing_attachment_lines(missing: Vec<MissingAttachment>) -> (r: Vec<String>)
    ensures
        string_views(r@) == missing_section(missing@),
{
    let ghost mv = missing@;
    if missing.len() == 0 {
        let r: Vec<String> = Vec::new();
        proof {
            assert(string_views(r@) =~= Seq::<Seq<char>>::empty());
        }
        return r;
    }
    let mut keys: Vec<Vec<char>> = Vec::new();
    let mut i: usize = 0;
    while i < missing.len()
        invariant
            i <= missing@.len(),
            keys@.len() == i,
            forall|j: int| 0 <= j < i ==> #[trigger] keys@[j]@ == missing@[j].uuid@,
        decreases missing@.len() - i,
    {
        keys.push(chars_of(missing[i].uuid.as_str()));
        i = i + 1;
    }
    let sorted = sort_by_text_keys::<MissingAttachment, MissingAttachment>(
        missing,
        keys,
        Ghost(|m: MissingAttachment| m),
        Ghost(|m: MissingAttachment| m.uuid@),
    );
    let ghost sv = sort_by(mv, by_uuid());
    proof {
        assert(sorted@.map_values(|m: MissingAttachment| m) =~= sorted@);
        assert(mv.map_values(|m: MissingAttachment| m) =~= mv);
    }
    let mut out: Vec<String> = Vec::new();
    out.push(String::new());
    out.push(string_of(chars_of("Missing attachments (no file on disk):").as_slice()));
    let mut k: usize = 0;
    proof {
        assert(string_views(out@) =~= seq![Seq::<char>::empty(), "Missing attachments (no file on disk):"@]
            + sv.take(0).map_values(|m: MissingAttachment| missing_line(m)));
    }
    while k < sorted.len()
        invariant
            sorted@ == sv,
            k <= sv.len(),
            string_views(out@) == seq![Seq::<char>::empty(), "Missing attachments (no file on disk):"@]
                + sv.take(k as int).map_values(|m: MissingAttachment| missing_line(m)),
        decreases sv.len() - k,
    {
        let m = &sorted[k];
        let mut line = chars_of("  ");
        extend_chars(&mut line, chars_of(m.uuid.as_str()).as_slice());
        extend_chars(&mut line, chars_of("  (").as_slice());
        let fname = chars_of(m.filename.as_str());
        if fname.len() > 0 {
            extend_chars(&mut line, fname.as_slice());
        } else {
            extend_chars(&mut line, chars_of(m.type_uti.as_str()).as_slice());
        }
        extend_chars(&mut line, chars_of(")").as_slice());
        let ghost before = string_views(out@);
        out.push(string_of(line.as_slice()));
        proof {
            assert(line@ =~= missing_line(sv[k as int]));
            assert(string_views(out@) =~= before.push(line@));
            assert(sv.take(k + 1).map_values(|m: MissingAttachment| missing_line(m)) =~= sv.take(
                k as int,
            ).map_values(|m: MissingAttachment| missing_line(m)).push(missing_line(sv[k as int])));
        }
        k = k + 1;
    }
    proof {
        assert(sv.take(k as int) =~= sv);
    }
    out
}


// ---------------------------------------------------------------------------
// Attachment files
// ---------------------------------------------------------------------------

/// The first of the options that is present.
pub open spec fn first_present(options: Seq<Option<Seq<char>>>) -> Option<Seq<char>>
    decreases options.len(),
{
    if options.len() == 0 {
        None
    } else {
        match options[0] {
            Some(s) => Some(s),
            None => first_present(options.drop_first()),
        }
    }
}

/// The file name an attachment is known by: the deepest media object's, else the media
/// object's, else the attachment's own file name, else its title, else nothing.
pub open spec fn attachment_file_name(
    media2: Option<Seq<char>>,
    media: Option<Seq<char>>,
    own: Option<Seq<char>>,
    title: Option<Seq<char>>,
) -> Seq<char> {
    match first_present(seq![media2, media, own, title]) {
        Some(s) => s,
        None => Seq::empty(),
    }
}

/// The file name an attachment is known by (see `attachment_file_name`).
pub fn known_file_name(
    media2: Option<String>,
    media: Option<String>,
    own: Option<String>,
    title: Option<String>,
) -> (r: String)
    ensures
        r@ == attachment_file_name(opt_string(media2), opt_string(media), opt_string(own), opt_string(title)),
{
    let ghost opts = seq![opt_string(media2), opt_string(media), opt_string(own), opt_string(title)];
    proof {
        assert(opts.drop_first() =~= seq![opt_string(media), opt_string(own), opt_string(title)]);
        assert(opts.drop_first().drop_first() =~= seq![opt_string(own), opt_string(title)]);
        assert(opts.drop_first().drop_first().drop_first() =~= seq![opt_string(title)]);
        assert(opts.drop_first().drop_first().drop_first().drop_first() =~= Seq::<Option<Seq<char>>>::empty());
        reveal_with_fuel(first_present, 5);
    }
    match media2 {
        Some(s) => s,
        None => match media {
            Some(s) => s,
            None => match own {
                Some(s) => s,
                None => match title {
                    Some(s) => s,
                    None => String::new(),
                },
            },
        },
    }
}

/// The view of an optional string.
pub open spec fn opt_string(o: Option<String>) -> Option<Seq<char>> {
    match o {
        Some(s) => Some(s@),
        None => None,
    }
}

/// The present identifiers among `ids`, in order.
pub open spec fn present_ids(ids: Seq<Option<Seq<char>>>) -> Seq<Seq<char>>
    decreases ids.len(),
{
    if ids.len() == 0 {
        Seq::empty()
    } else {
        match ids[0] {
            Some(s) => seq![s] + present_ids(ids.drop_first()),
            None => present_ids(ids.drop_first()),
        }
    }
}

fn push_present(out: &mut Vec<String>, id: Option<String>)
    ensures
        string_views(final(out)@) == string_views(old(out)@) + present_ids(seq![opt_string(id)]),
{
    let ghost before = string_views(out@);
    proof {
        assert(seq![opt_string(id)].drop_first() =~= Seq::<Option<Seq<char>>>::empty());
        reveal_with_fuel(present_ids, 2);
    }
    match id {
        Some(s) => {
            let ghost v = s@;
            out.push(s);
            proof {
                assert(string_views(out@) =~= before + seq![v]);
            }
        },
        None => {
            proof {
                assert(string_views(out@) =~= before + Seq::<Seq<char>>::empty());
            }
        },
    }
}

proof fn lemma_present_ids_concat(a: Seq<Option<Seq<char>>>, b: Seq<Option<Seq<char>>>)
    ensures
        present_ids(a + b) == present_ids(a) + present_ids(b),
    decreases a.len(),
{
    if a.len() == 0 {
        assert(a + b =~= b);
    } else {
        assert((a + b).drop_first() =~= a.drop_first() + b);
        lemma_present_ids_concat(a.drop_first(), b);
    }
}

/// The identifiers whose files are searched for, in order, until one is found: those given
/// that are present (the export tries the deepest media object's, the media object's, then
/// the attachment's own; a note's preview tries the media object's, the attachment's own, the
/// deepest media object's, then the one its number names).
pub fn search_ids(ids: Vec<Option<String>>) -> (r: Vec<String>)
    ensures
        string_views(r@) == present_ids(ids@.map_values(|o: Option<String>| opt_string(o))),
{
    let ghost iv = ids@.map_values(|o: Option<String>| opt_string(o));
    let mut out: Vec<String> = Vec::new();
    let mut rev = crate::order::into_reversed(ids);
    let ghost mut i: int = 0;
    proof {
        assert(iv.take(0) =~= Seq::<Option<Seq<char>>>::empty());
        assert(string_views(out@) =~= Seq::<Seq<char>>::empty());
        assert(rev@ =~= ids@.skip(0).reverse());
    }
    while rev.len() > 0
        invariant
            0 <= i <= ids@.len(),
            iv == ids@.map_values(|o: Option<String>| opt_string(o)),
            rev@ == ids@.skip(i).reverse(),
            string_views(out@) == present_ids(iv.take(i)),
        decreases rev@.len(),
    {
        let id = rev.pop().unwrap();
        proof {
            assert(ids@.skip(i).reverse().last() == ids@[i]);
            assert(ids@.skip(i + 1).reverse() =~= ids@.skip(i).reverse().drop_last());
            assert(iv.take(i + 1) =~= iv.take(i) + seq![opt_string(ids@[i])]);
            lemma_present_ids_concat(iv.take(i), seq![opt_string(ids@[i])]);
        }
        push_present(&mut out, id);
        proof {
            i = i + 1;
        }
    }
    proof {
        assert(iv.take(i) =~= iv);
    }
    out
}

/// With more steps allowed, a folder that hangs off a root within fewer still does.
proof fn lemma_reaches_root_more(rows: Seq<(i64, Seq<char>, Option<i64>)>, pk: i64, f: nat, g: nat)
    requires
        reaches_root(rows, pk, f),
        f <= g,
    ensures
        reaches_root(rows, pk, g),
    decreases f,
{
    match row_of(rows, pk).2 {
        None => {},
        Some(p) => if has_pk(rows, p) {
            lemma_reaches_root_more(rows, p, (f - 1) as nat, (g - 1) as nat);
        },
    }
}

/// The path of a folder that hangs off a root within `f` steps is the same with more steps.
proof fn lemma_chain_path_more(rows: Seq<(i64, Seq<char>, Option<i64>)>, pk: i64, f: nat, g: nat)
    requires
        reaches_root(rows, pk, f),
        f <= g,
    ensures
        chain_path(rows, pk, g) == chain_path(rows, pk, f),
    decreases f,
{
    match row_of(rows, pk).2 {
        None => {},
        Some(p) => if has_pk(rows, p) {
            lemma_chain_path_more(rows, p, (f - 1) as nat, (g - 1) as nat);
        },
    }
}

/// Export folders mirror the folder hierarchy: a folder whose parent is one of the folders lies
/// inside its parent's directory, its path being the parent's path, `/`, then its own sanitized
/// title; a folder with no parent among the folders lies at the output root, under its own
/// sanitized title. (A folder whose parents run in a loop gets no path.)
pub proof fn law_folder_paths_nest(rows: Seq<(i64, Seq<char>, Option<i64>)>, pk: i64)
    ensures
        ({
            let own = sanitized_name(row_of(rows, pk).1);
            match row_of(rows, pk).2 {
                Some(p) => if has_pk(rows, p) {
                    rel_path_of(rows, pk).len() > 0 ==> rel_path_of(rows, pk) == rel_path_of(rows, p) + "/"@ + own
                        && rel_path_of(rows, p).len() > 0
                } else {
                    rel_path_of(rows, pk) == own
                },
                None => rel_path_of(rows, pk) == own,
            }
        }),
{
    let n = distinct_pks(rows).len();
    match row_of(rows, pk).2 {
        None => {},
        Some(p) => if has_pk(rows, p) {
            if reaches_root(rows, pk, n) {
                lemma_reaches_root_more(rows, p, (n - 1) as nat, n);
                lemma_chain_path_more(rows, p, (n - 1) as nat, n);
                lemma_chain_path_nonempty(rows, p, n);
            }
        },
    }
}

/// A folder's path is never empty: it ends with the folder's own sanitized title.
proof fn lemma_chain_path_nonempty(rows: Seq<(i64, Seq<char>, Option<i64>)>, pk: i64, f: nat)
    ensures
        chain_path(rows, pk, f).len() > 0,
{
    crate::note::law_sanitized_names_are_safe(row_of(rows, pk).1);
}

} // verus!
