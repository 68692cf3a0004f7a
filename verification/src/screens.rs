//! The decisions of the screens other than the notes browser: choosing the source, picking an
//! Obsidian vault, choosing where to export, and reading the export log. Each takes the
//! screen's state and a key and gives the next state and what the caller should do.
use vstd::prelude::*;

use crate::nav::edit_name;
use crate::nav::is_down;
use crate::nav::is_up;
use crate::nav::list_down;
use crate::nav::list_up;
use crate::nav::results_scroll;
use crate::nav::vault_choice;
use crate::nav::wrapping_plus;
use crate::nav::Key;
use crate::nav::NoteSource;
use crate::nav::VaultChoice;
use crate::note::is_reserved_name_char;
use crate::text::chars_of;
use crate::text::is_cc;
use crate::text::string_of;
use crate::text::trim;
use crate::text::trim_chars;

verus! {

// ---------------------------------------------------------------------------
// Moving through a list
// ---------------------------------------------------------------------------

/// A list's selection and scroll offset after a key: up moves up (the offset following the
/// selection above it), down moves down unless the selection is on the last of `len`
/// entries; other keys leave them.
pub open spec fn list_move(selected: usize, scroll: usize, len: usize, key: Key) -> (usize, usize) {
    if is_up(key) {
        if selected > 0 {
            let s = (selected - 1) as usize;
            (s, if s < scroll { s } else { scroll })
        } else {
            (selected, scroll)
        }
    } else if is_down(key) {
        if len > 0 && selected < len - 1 {
            ((selected + 1) as usize, scroll)
        } else {
            (selected, scroll)
        }
    } else {
        (selected, scroll)
    }
}

fn list_key(selected: usize, scroll: usize, len: usize, key: Key) -> (r: (usize, usize))
    ensures
        r == list_move(selected, scroll, len, key),
{
    match key {
        Key::Up => list_up(selected, scroll),
        Key::Down => (list_down(selected, len), scroll),
        Key::Char(c) => {
            if c == 'k' {
                list_up(selected, scroll)
            } else if c == 'j' {
                (list_down(selected, len), scroll)
            } else {
                (selected, scroll)
            }
        },
        _ => (selected, scroll),
    }
}

// ---------------------------------------------------------------------------
// Choosing the source
// ---------------------------------------------------------------------------

/// The sources offered, in order.
pub open spec fn source_options() -> Seq<NoteSource> {
    seq![NoteSource::AppleNotes, NoteSource::Obsidian]
}

/// What the source screen asks its caller to do.
#[derive(Debug, Clone, Copy, PartialEq, Eq, Structural)]
pub enum SourceAction {
    Nothing,
    /// Open the notes of this source.
    Open(NoteSource),
    Quit,
}

/// The source screen's selection after a key, and what to do: up and down move through the
/// two sources, Enter opens the selected one, `q` and Esc quit. (Every key also clears the
/// screen's error line.)
pub open spec fn source_step(selected: usize, key: Key) -> (usize, SourceAction) {
    if is_up(key) {
        (if selected > 0 { (selected - 1) as usize } else { selected }, SourceAction::Nothing)
    } else if is_down(key) {
        (if selected < 1 { (selected + 1) as usize } else { selected }, SourceAction::Nothing)
    } else if key == Key::Enter {
        (selected, SourceAction::Open(source_options()[selected as int]))
    } else if key == Key::Char('q') || key == Key::Esc {
        (selected, SourceAction::Quit)
    } else {
        (selected, SourceAction::Nothing)
    }
}

/// The source screen's reaction to a key (see `source_step`); the selection is one of the two
/// sources.
pub fn source_key(selected: usize, key: Key) -> (r: (usize, SourceAction))
    requires
        selected < 2,
    ensures
        r == source_step(selected, key),
        r.0 < 2,
{
    let (s, _) = list_key(selected, 0, 2, key);
    if key == Key::Enter {
        let source = if selected == 0 { NoteSource::AppleNotes } else { NoteSource::Obsidian };
        (selected, SourceAction::Open(source))
    } else if key == Key::Char('q') || key == Key::Esc {
        (selected, SourceAction::Quit)
    } else {
        (s, SourceAction::Nothing)
    }
}

// ---------------------------------------------------------------------------
// Picking an Obsidian vault
// ---------------------------------------------------------------------------

/// What the vault picker asks its caller to do.
#[derive(Debug, Clone, Copy, PartialEq, Eq, Structural)]
pub enum FolderAction {
    Nothing,
    /// Open the entry at this index: as a vault when it is one, else by listing its folders.
    Open(usize),
    /// List the folders of the parent directory.
    Parent,
    /// Go back to the source selection.
    Back,
}

/// The vault picker's selection and scroll after a key over `count` entries, and what to do:
/// up and down move, Enter opens the selected entry (when there is one), Backspace and left
/// go to the parent directory, Esc goes back.
pub open spec fn folder_step(selected: usize, scroll: usize, count: usize, key: Key) -> (
    usize,
    usize,
    FolderAction,
) {
    let (s, o) = list_move(selected, scroll, count, key);
    if key == Key::Enter {
        (selected, scroll, if selected < count { FolderAction::Open(selected) } else { FolderAction::Nothing })
    } else if key == Key::Backspace || key == Key::Left {
        (selected, scroll, FolderAction::Parent)
    } else if key == Key::Esc {
        (selected, scroll, FolderAction::Back)
    } else {
        (s, o, FolderAction::Nothing)
    }
}

/// The vault picker's reaction to a key (see `folder_step`).
pub fn folder_key(selected: usize, scroll: usize, count: usize, key: Key) -> (r: (usize, usize, FolderAction))
    ensures
        r == folder_step(selected, scroll, count, key),
{
    let (s, o) = list_key(selected, scroll, count, key);
    match key {
        Key::Enter => (selected, scroll, if selected < count {
            FolderAction::Open(selected)
        } else {
            FolderAction::Nothing
        }),
        Key::Backspace | Key::Left => (selected, scroll, FolderAction::Parent),
        Key::Esc => (selected, scroll, FolderAction::Back),
        _ => (s, o, FolderAction::Nothing),
    }
}

/// The message the vault picker shows after entering a directory with `count` folders.
pub fn entered_message(count: usize) -> (r: Option<String>)
    ensures
        count == 0 ==> (r matches Some(m) && m@ == "No subdirectories found"@),
        count > 0 ==> r is None,
{
    if count == 0 {
        Some(string_of(chars_of("No subdirectories found").as_slice()))
    } else {
        None
    }
}

// ---------------------------------------------------------------------------
// Typing a name
// ---------------------------------------------------------------------------

/// The name being typed after a key, and the name submitted: Esc drops the input; Enter
/// submits it trimmed (dropping the input either way, nothing being submitted when it is
/// blank); other keys edit it.
pub open spec fn input_step(input: Seq<char>, key: Key) -> (Option<Seq<char>>, Option<Seq<char>>) {
    if key == Key::Esc {
        (None, None)
    } else if key == Key::Enter {
        let name = trim(input);
        (None, if name.len() > 0 { Some(name) } else { None })
    } else {
        (Some(edited(input, key)), None)
    }
}

/// The name after an editing key: an accepted character appended, the last removed by
/// Backspace.
pub open spec fn edited(input: Seq<char>, key: Key) -> Seq<char> {
    match key {
        Key::Char(c) => if !is_reserved_name_char(c) && !is_cc(c) {
            input.push(c)
        } else {
            input
        },
        Key::Backspace => if input.len() > 0 {
            input.drop_last()
        } else {
            input
        },
        _ => input,
    }
}

/// The view of an optional string.
pub open spec fn opt_view(o: Option<String>) -> Option<Seq<char>> {
    match o {
        Some(s) => Some(s@),
        None => None,
    }
}

/// A key typed into a name being entered (see `input_step`): the name is updated in place and
/// what was submitted is returned.
pub fn input_key(input: &mut Option<String>, key: Key) -> (submitted: Option<String>)
    requires
        *old(input) is Some,
    ensures
        (opt_view(*final(input)), opt_view(submitted)) == input_step((*old(input))->0@, key),
{
    match key {
        Key::Esc => {
            *input = None;
            None
        },
        Key::Enter => {
            let typed = match input {
                Some(s) => chars_of(s.as_str()),
                None => Vec::new(),
            };
            let name = trim_chars(typed.as_slice());
            *input = None;
            if name.len() > 0 {
                Some(string_of(name.as_slice()))
            } else {
                None
            }
        },
        _ => {
            let mut s = match input {
                Some(s) => s.clone(),
                None => String::new(),
            };
            let ghost before = (*old(input))->0@;
            proof {
                assert(s@ == before);
            }
            edit_name(&mut s, key);
            *input = Some(s);
            None
        },
    }
}

// ---------------------------------------------------------------------------
// Choosing where to export
// ---------------------------------------------------------------------------

/// What the export destination screens ask their caller to do.
#[derive(Debug)]
pub enum ExportAction {
    Nothing,
    /// Go back to the source selection (the scan is abandoned).
    BackToSource,
    /// Go back to the Apple Notes browser.
    BackToBrowser,
    /// Export into the vault found at this index.
    ExportToVault(usize),
    /// Browse folders for the destination.
    Browse,
    /// Create a vault of this name and export into it.
    CreateVault(String),
    /// Open the folder entry at this index.
    Enter(usize),
    /// List the folders of the parent directory.
    Parent,
    /// Export into the directory shown.
    ExportHere,
}

/// What an `ExportAction` holds.
pub enum ExportActionView {
    Nothing,
    BackToSource,
    BackToBrowser,
    ExportToVault(usize),
    Browse,
    CreateVault(Seq<char>),
    Enter(usize),
    Parent,
    ExportHere,
}

/// The view of an export action.
pub open spec fn export_action_view(a: ExportAction) -> ExportActionView {
    match a {
        ExportAction::Nothing => ExportActionView::Nothing,
        ExportAction::BackToSource => ExportActionView::BackToSource,
        ExportAction::BackToBrowser => ExportActionView::BackToBrowser,
        ExportAction::ExportToVault(i) => ExportActionView::ExportToVault(i),
        ExportAction::Browse => ExportActionView::Browse,
        ExportAction::CreateVault(n) => ExportActionView::CreateVault(n@),
        ExportAction::Enter(i) => ExportActionView::Enter(i),
        ExportAction::Parent => ExportActionView::Parent,
        ExportAction::ExportHere => ExportActionView::ExportHere,
    }
}

/// A destination screen's state: the selection, the scroll offset, and the name being typed.
#[derive(Debug)]
pub struct DestState {
    pub selected: usize,
    pub scroll: usize,
    pub input: Option<String>,
}

/// What a destination screen's state holds.
pub struct DestView {
    pub selected: usize,
    pub scroll: usize,
    pub input: Option<Seq<char>>,
}

/// The view of a destination screen's state.
pub open spec fn dest_view(s: DestState) -> DestView {
    DestView { selected: s.selected, scroll: s.scroll, input: opt_view(s.input) }
}

/// The vault list's reaction to a key, the scan having found `vaults` vaults (`None` while it
/// runs). While scanning only Esc and `q` act, going back to the source selection. While a
/// name is typed, the key goes to it, and a submitted name creates a vault. Otherwise up and
/// down move over the vaults and the two entries after them, Enter picks the selected entry
/// (a vault, browsing, or typing a new vault's name), Esc and `q` go back to the browser.
pub open spec fn vault_list_step(s: DestView, vaults: Option<usize>, key: Key) -> (DestView, ExportActionView) {
    match vaults {
        None => (s, if key == Key::Esc || key == Key::Char('q') {
            ExportActionView::BackToSource
        } else {
            ExportActionView::Nothing
        }),
        Some(count) => match s.input {
            Some(typed) => {
                let (next, submitted) = input_step(typed, key);
                (DestView { input: next, ..s }, match submitted {
                    Some(name) => ExportActionView::CreateVault(name),
                    None => ExportActionView::Nothing,
                })
            },
            None => {
                let (sel, off) = list_move(s.selected, s.scroll, (count + 2) as usize, key);
                if key == Key::Enter {
                    if s.selected < count {
                        (s, ExportActionView::ExportToVault(s.selected))
                    } else if s.selected == count {
                        (s, ExportActionView::Browse)
                    } else if s.selected == count + 1 {
                        (DestView { input: Some(Seq::empty()), ..s }, ExportActionView::Nothing)
                    } else {
                        (s, ExportActionView::Nothing)
                    }
                } else if key == Key::Esc || key == Key::Char('q') {
                    (s, ExportActionView::BackToBrowser)
                } else {
                    (DestView { selected: sel, scroll: off, ..s }, ExportActionView::Nothing)
                }
            },
        },
    }
}

/// The vault list's reaction to a key (see `vault_list_step`).
pub fn vault_list_key(s: &mut DestState, vaults: Option<usize>, key: Key) -> (a: ExportAction)
    requires
        vaults matches Some(c) ==> c <= usize::MAX - 2,
    ensures
        (dest_view(*final(s)), export_action_view(a)) == vault_list_step(dest_view(*old(s)), vaults, key),
{
    match vaults {
        None => {
            if key == Key::Esc || key == Key::Char('q') {
                ExportAction::BackToSource
            } else {
                ExportAction::Nothing
            }
        },
        Some(count) => {
            if s.input.is_some() {
                match input_key(&mut s.input, key) {
                    Some(name) => ExportAction::CreateVault(name),
                    None => ExportAction::Nothing,
                }
            } else {
                let total: usize = count + 2;
                match key {
                    Key::Enter => match vault_choice(s.selected, count) {
                        VaultChoice::Vault(i) => ExportAction::ExportToVault(i),
                        VaultChoice::Browse => ExportAction::Browse,
                        VaultChoice::Create => {
                            s.input = Some(String::new());
                            ExportAction::Nothing
                        },
                        VaultChoice::Nothing => ExportAction::Nothing,
                    },
                    Key::Esc => ExportAction::BackToBrowser,
                    _ => {
                        if key == Key::Char('q') {
                            ExportAction::BackToBrowser
                        } else {
                            let (sel, off) = list_key(s.selected, s.scroll, total, key);
                            s.selected = sel;
                            s.scroll = off;
                            ExportAction::Nothing
                        }
                    },
                }
            }
        },
    }
}

/// The folder browser's reaction to a key over `count` folders. While a name is typed, the key
/// goes to it, and a submitted name creates a vault in the directory shown. Otherwise up and
/// down move, Enter opens the selected folder (when there is one), Backspace and left go to the
/// parent directory, `x` exports into the directory shown, `n` starts typing a new vault's
/// name, Esc and `q` go back to the browser.
pub open spec fn dest_folder_step(s: DestView, count: usize, key: Key) -> (DestView, ExportActionView) {
    match s.input {
        Some(typed) => {
            let (next, submitted) = input_step(typed, key);
            (DestView { input: next, ..s }, match submitted {
                Some(name) => ExportActionView::CreateVault(name),
                None => ExportActionView::Nothing,
            })
        },
        None => {
            let (sel, off) = list_move(s.selected, s.scroll, count, key);
            if key == Key::Enter {
                (s, if s.selected < count { ExportActionView::Enter(s.selected) } else { ExportActionView::Nothing })
            } else if key == Key::Backspace || key == Key::Left {
                (s, ExportActionView::Parent)
            } else if key == Key::Char('x') {
                (s, ExportActionView::ExportHere)
            } else if key == Key::Char('n') {
                (DestView { input: Some(Seq::empty()), ..s }, ExportActionView::Nothing)
            } else if key == Key::Esc || key == Key::Char('q') {
                (s, ExportActionView::BackToBrowser)
            } else {
                (DestView { selected: sel, scroll: off, ..s }, ExportActionView::Nothing)
            }
        },
    }
}

/// The folder browser's reaction to a key (see `dest_folder_step`).
pub fn dest_folder_key(s: &mut DestState, count: usize, key: Key) -> (a: ExportAction)
    ensures
        (dest_view(*final(s)), export_action_view(a)) == dest_folder_step(dest_view(*old(s)), count, key),
{
    if s.input.is_some() {
        return match input_key(&mut s.input, key) {
            Some(name) => ExportAction::CreateVault(name),
            None => ExportAction::Nothing,
        };
    }
    match key {
        Key::Enter => {
            if s.selected < count {
                ExportAction::Enter(s.selected)
            } else {
                ExportAction::Nothing
            }
        },
        Key::Backspace | Key::Left => ExportAction::Parent,
        Key::Esc => ExportAction::BackToBrowser,
        Key::Char(c) => {
            if c == 'x' {
                ExportAction::ExportHere
            } else if c == 'n' {
                s.input = Some(String::new());
                ExportAction::Nothing
            } else if c == 'q' {
                ExportAction::BackToBrowser
            } else {
                let (sel, off) = list_key(s.selected, s.scroll, count, key);
                s.selected = sel;
                s.scroll = off;
                ExportAction::Nothing
            }
        },
        _ => {
            let (sel, off) = list_key(s.selected, s.scroll, count, key);
            s.selected = sel;
            s.scroll = off;
            ExportAction::Nothing
        },
    }
}

// ---------------------------------------------------------------------------
// The export log
// ---------------------------------------------------------------------------

/// The export log's scroll after a key over `line_count` lines, and whether the key leaves the
/// screen: Esc and `q` do once the export is complete; other keys scroll (see
/// `results_scroll`).
pub open spec fn log_step(scroll: usize, line_count: usize, complete: bool, key: Key) -> (int, bool) {
    if (key == Key::Esc || key == Key::Char('q')) && complete {
        (scroll as int, true)
    } else if is_up(key) {
        (if scroll >= 1 { scroll - 1 } else { 0 }, false)
    } else if is_down(key) {
        (if line_count > 0 && scroll < line_count - 1 { scroll + 1 } else { scroll as int }, false)
    } else if key == Key::PageUp {
        (if scroll >= 20 { scroll - 20 } else { 0 }, false)
    } else if key == Key::PageDown {
        let max: int = if line_count > 0 { line_count - 1 } else { 0 };
        (if wrapping_plus(scroll, 20) > max { max } else { wrapping_plus(scroll, 20) }, false)
    } else {
        (scroll as int, false)
    }
}

/// The export log's reaction to a key (see `log_step`).
pub fn log_key(scroll: usize, line_count: usize, complete: bool, key: Key) -> (r: (usize, bool))
    ensures
        (r.0 as int, r.1) == log_step(scroll, line_count, complete, key),
{
    if (key == Key::Esc || key == Key::Char('q')) && complete {
        (scroll, true)
    } else {
        (results_scroll(key, scroll, line_count), false)
    }
}

/// Where the export log scrolls while the export runs: to its last line.
pub fn follow_log(line_count: usize) -> (r: usize)
    ensures
        r == (if line_count > 0 { line_count - 1 } else { 0 }),
{
    line_count.saturating_sub(1)
}

} // verus!
