//! What the list screens show: the window of entries in view, the rows of the export
//! destination list, and the lines that count what was found.
use vstd::prelude::*;

use crate::markdown::repeat;
use crate::markdown::repeat_exec;
use crate::text::chars_of;
use crate::text::contains_chars;
use crate::text::contains_seq;
use crate::text::starts_with;
use crate::text::starts_with_chars;
use crate::tree::NodeKind;
use crate::text::decimal;
use crate::text::extend_chars;
use crate::text::push_decimal;
use crate::text::string_of;

verus! {

/// The first entry shown of a list `visible` lines high: when the selection is at or below
/// the lines shown from `scroll` on, the lines ending with it; else from `scroll`.
pub open spec fn window_start(selected: usize, scroll: usize, visible: usize) -> int {
    if selected >= scroll + visible {
        (if selected >= visible { selected - visible } else { 0 }) + 1
    } else {
        scroll as int
    }
}

/// The first entry a list `visible` lines high shows (see `window_start`).
pub fn list_window(selected: usize, scroll: usize, visible: usize) -> (r: usize)
    requires
        selected < usize::MAX,
    ensures
        r == window_start(selected, scroll, visible),
{
    if scroll <= usize::MAX - visible && selected >= scroll + visible {
        selected.saturating_sub(visible) + 1
    } else {
        scroll
    }
}

/// A row of the export destination list.
#[derive(Debug, Clone, Copy, PartialEq, Eq, Structural)]
pub enum DestRow {
    /// The vault found at `index`.
    Vault { index: usize, selected: bool },
    /// The rule between the vaults and the two entries after them.
    Divider,
    /// "Browse folders...".
    Browse { selected: bool },
    /// "Create new vault...".
    Create { selected: bool },
}

/// All the rows of a destination list of `count` vaults: the vaults, a rule when there are
/// any, then browsing and creating; `selected` counts the vaults, then browsing, then
/// creating (the rule is not selectable).
pub open spec fn dest_rows_all(count: usize, selected: usize) -> Seq<DestRow> {
    Seq::new(count as nat, |i: int| DestRow::Vault { index: i as usize, selected: i == selected })
        + (if count > 0 { seq![DestRow::Divider] } else { Seq::empty() })
        + seq![DestRow::Browse { selected: selected == count }, DestRow::Create { selected: selected == count + 1 }]
}

/// The smaller of two integers.
pub open spec fn min_of(a: int, b: int) -> int {
    if a < b { a } else { b }
}

/// The rows in view of a destination list `visible` lines high, scrolled as `window_start`
/// says.
pub open spec fn dest_rows_spec(count: usize, selected: usize, scroll: usize, visible: usize) -> Seq<DestRow> {
    let all = dest_rows_all(count, selected);
    let start = min_of(window_start(selected, scroll, visible), all.len() as int);
    all.subrange(start, min_of(start + visible, all.len() as int))
}

/// The rows in view of the export destination list (see `dest_rows_spec`).
pub fn dest_rows(count: usize, selected: usize, scroll: usize, visible: usize) -> (r: Vec<DestRow>)
    requires
        selected < usize::MAX,
        count <= usize::MAX - 3,
    ensures
        r@ == dest_rows_spec(count, selected, scroll, visible),
{
    let ghost all = dest_rows_all(count, selected);
    let mut rows: Vec<DestRow> = Vec::new();
    let mut i: usize = 0;
    while i < count
        invariant
            i <= count,
            rows@ == Seq::new(i as nat, |k: int| DestRow::Vault { index: k as usize, selected: k == selected }),
        decreases count - i,
    {
        rows.push(DestRow::Vault { index: i, selected: i == selected });
        i = i + 1;
        proof {
            assert(rows@ =~= Seq::new(i as nat, |k: int| DestRow::Vault { index: k as usize, selected: k == selected }));
        }
    }
    if count > 0 {
        rows.push(DestRow::Divider);
    }
    rows.push(DestRow::Browse { selected: selected == count });
    rows.push(DestRow::Create { selected: selected == count + 1 });
    proof {
        assert(rows@ =~= all);
    }
    let start0 = list_window(selected, scroll, visible);
    let n = rows.len();
    let start = if start0 < n { start0 } else { n };
    let end = if visible < n - start { start + visible } else { n };
    let window = vstd::slice::slice_subrange(rows.as_slice(), start, end);
    proof {
        assert(window@ =~= dest_rows_spec(count, selected, scroll, visible));
    }
    vstd::slice::slice_to_vec(window)
}

/// The header of the destination list: none found, or how many vaults were found.
pub open spec fn vault_summary_text(count: usize) -> Seq<char> {
    if count == 0 {
        "No Obsidian vaults found"@
    } else {
        "Found "@ + decimal(count as nat) + " Obsidian vault"@ + (if count == 1 { ""@ } else { "s"@ })
    }
}

/// The header of the destination list (see `vault_summary_text`).
pub fn vault_summary(count: usize) -> (r: String)
    ensures
        r@ == vault_summary_text(count),
{
    if count == 0 {
        return string_of(chars_of("No Obsidian vaults found").as_slice());
    }
    let mut out = chars_of("Found ");
    push_decimal(&mut out, count as u64);
    extend_chars(&mut out, chars_of(" Obsidian vault").as_slice());
    let tail = if count == 1 { chars_of("") } else { chars_of("s") };
    extend_chars(&mut out, tail.as_slice());
    string_of(out.as_slice())
}

/// The title of the frame that lists the vaults found.
pub open spec fn vaults_found_text(count: usize) -> Seq<char> {
    " "@ + decimal(count as nat) + " Obsidian Vault"@ + (if count == 1 { ""@ } else { "s"@ }) + " Found "@
}

/// The title of the frame that lists the vaults found (see `vaults_found_text`).
pub fn vaults_found_title(count: usize) -> (r: String)
    ensures
        r@ == vaults_found_text(count),
{
    let mut out = chars_of(" ");
    push_decimal(&mut out, count as u64);
    extend_chars(&mut out, chars_of(" Obsidian Vault").as_slice());
    let tail = if count == 1 { chars_of("") } else { chars_of("s") };
    extend_chars(&mut out, tail.as_slice());
    extend_chars(&mut out, chars_of(" Found ").as_slice());
    string_of(out.as_slice())
}

// ---------------------------------------------------------------------------
// Tree rows and log lines
// ---------------------------------------------------------------------------

/// The marks before a node's name in the tree: the fold arrow of a folder, then the mark of
/// its kind (a star for a pinned note).
pub open spec fn row_marks(kind: NodeKind, expanded: bool, pinned: bool) -> Seq<char> {
    match kind {
        NodeKind::Folder => (if expanded { "▼ "@ } else { "▶ "@ }) + "■ "@,
        NodeKind::Note => "  "@ + (if pinned { "★ "@ } else { "◇ "@ }),
        NodeKind::Attachment => "  "@ + "· "@,
        NodeKind::Divider => "  "@,
    }
}

/// What stands before a node's name on its tree line: two spaces per level of depth, then
/// its marks.
pub open spec fn row_prefix_text(depth: usize, kind: NodeKind, expanded: bool, pinned: bool) -> Seq<
    char,
> {
    repeat("  "@, depth as nat) + row_marks(kind, expanded, pinned)
}

/// The text before a node's name on its tree line (see `row_prefix_text`).
pub fn tree_row_prefix(depth: usize, kind: NodeKind, expanded: bool, pinned: bool) -> (r: String)
    ensures
        r@ == row_prefix_text(depth, kind, expanded, pinned),
{
    let mut out = repeat_exec("  ", depth);
    let arrow = match kind {
        NodeKind::Folder => if expanded {
            "▼ "
        } else {
            "▶ "
        },
        _ => "  ",
    };
    let mark = match kind {
        NodeKind::Folder => "■ ",
        NodeKind::Note => if pinned {
            "★ "
        } else {
            "◇ "
        },
        NodeKind::Attachment => "· ",
        NodeKind::Divider => "",
    };
    extend_chars(&mut out, chars_of(arrow).as_slice());
    extend_chars(&mut out, chars_of(mark).as_slice());
    proof {
        reveal_strlit("");
        assert(""@ =~= Seq::<char>::empty());
        assert(out@ =~= row_prefix_text(depth, kind, expanded, pinned));
    }
    string_of(out.as_slice())
}

/// How a line of the export log is shown.
#[derive(Debug, Clone, Copy, PartialEq, Eq, Structural)]
pub enum LogLineKind {
    Error,
    Exported,
    Folder,
    Summary,
    Plain,
}

/// The kind of a log line: an error, a note written, a folder started, the closing summary
/// (its rule or its heading), or anything else, checked in that order.
pub open spec fn log_line_kind_of(line: Seq<char>) -> LogLineKind {
    if starts_with(line, "ERROR:"@) {
        LogLineKind::Error
    } else if starts_with(line, "  Exported:"@) {
        LogLineKind::Exported
    } else if starts_with(line, "Folder:"@) {
        LogLineKind::Folder
    } else if contains_seq(line, "complete"@) || contains_seq(line, "═"@) {
        LogLineKind::Summary
    } else {
        LogLineKind::Plain
    }
}

/// The kind of a log line (see `log_line_kind_of`).
pub fn log_line_kind(line: &str) -> (r: LogLineKind)
    ensures
        r == log_line_kind_of(line@),
{
    let cs = chars_of(line);
    if starts_with_chars(cs.as_slice(), chars_of("ERROR:").as_slice()) {
        LogLineKind::Error
    } else if starts_with_chars(cs.as_slice(), chars_of("  Exported:").as_slice()) {
        LogLineKind::Exported
    } else if starts_with_chars(cs.as_slice(), chars_of("Folder:").as_slice()) {
        LogLineKind::Folder
    } else if contains_chars(cs.as_slice(), chars_of("complete").as_slice()) || contains_chars(
        cs.as_slice(),
        chars_of("═").as_slice(),
    ) {
        LogLineKind::Summary
    } else {
        LogLineKind::Plain
    }
}

} // verus!
