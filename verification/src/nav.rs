//! How the screens react to keys: moving a selection through a list or the tree, scrolling,
//! typing a name, and the decisions of the notes browser.
use vstd::prelude::*;

use crate::note::is_reserved_name_char;
use crate::text::is_cc;
use crate::text::is_control;
use crate::tree::collect_folder_pks;
use crate::tree::flat_views;
use crate::tree::folder_pks;
use crate::tree::get_node;
use crate::tree::kind_count;
use crate::text::chars_of;
use crate::text::string_of;
use crate::tree::lemma_node_views;
use crate::tree::node_at;
use crate::tree::node_views;
use crate::tree::FlatItem;
use crate::tree::FlatView;
use crate::tree::NodeKind;
use crate::tree::TreeNode;

verus! {

/// A key press, as the screens react to it.
#[derive(Debug, Clone, Copy, PartialEq, Eq, Structural)]
pub enum Key {
    Up,
    Down,
    Left,
    Right,
    Enter,
    Esc,
    Tab,
    Backspace,
    PageUp,
    PageDown,
    Char(char),
    Other,
}

/// Where the notes come from.
#[derive(Debug, Clone, Copy, PartialEq, Eq, Structural)]
pub enum NoteSource {
    AppleNotes,
    Obsidian,
}

/// The counts shown above the notes browser, and the name of what it browses.
#[derive(Debug, Clone)]
pub struct NoteStats {
    pub total_notes: usize,
    pub total_folders: usize,
    pub total_attachments: usize,
    pub vault_name: String,
}

impl NoteStats {
    /// The statistics of a tree read from `source`: its notes and folders, its attachments
    /// (a vault's only: Apple Notes lists none), and the vault's name or `Apple Notes`.
    pub fn of_tree(source: NoteSource, tree: &TreeNode) -> (r: Self)
        requires
            kind_count(tree@, NodeKind::Note) <= usize::MAX,
            kind_count(tree@, NodeKind::Folder) <= usize::MAX,
            kind_count(tree@, NodeKind::Attachment) <= usize::MAX,
        ensures
            r.total_notes == kind_count(tree@, NodeKind::Note),
            r.total_folders == kind_count(tree@, NodeKind::Folder),
            r.total_attachments == (match source {
                NoteSource::Obsidian => kind_count(tree@, NodeKind::Attachment),
                NoteSource::AppleNotes => 0,
            }),
            r.vault_name@ == (match source {
                NoteSource::Obsidian => tree@.name,
                NoteSource::AppleNotes => "Apple Notes"@,
            }),
    {
        let total_notes = tree.count_notes();
        let total_folders = tree.count_folders();
        match source {
            NoteSource::Obsidian => NoteStats {
                total_notes,
                total_folders,
                total_attachments: tree.count_attachments(),
                vault_name: string_of(chars_of(tree.name.as_str()).as_slice()),
            },
            NoteSource::AppleNotes => NoteStats {
                total_notes,
                total_folders,
                total_attachments: 0,
                vault_name: string_of(chars_of("Apple Notes").as_slice()),
            },
        }
    }
}

/// Whether the key moves up (arrow or `k`).
pub open spec fn is_up(k: Key) -> bool {
    k == Key::Up || k == Key::Char('k')
}

/// Whether the key moves down (arrow or `j`).
pub open spec fn is_down(k: Key) -> bool {
    k == Key::Down || k == Key::Char('j')
}

fn up_key(k: Key) -> (b: bool)
    ensures
        b == is_up(k),
{
    match k {
        Key::Up => true,
        Key::Char(c) => c == 'k',
        _ => false,
    }
}

fn down_key(k: Key) -> (b: bool)
    ensures
        b == is_down(k),
{
    match k {
        Key::Down => true,
        Key::Char(c) => c == 'j',
        _ => false,
    }
}

// ---------------------------------------------------------------------------
// Lists
// ---------------------------------------------------------------------------

/// One step up a list: the selection moves up unless it is first, and the scroll offset
/// follows it when it goes above the offset.
pub fn list_up(selected: usize, scroll: usize) -> (r: (usize, usize))
    ensures
        selected == 0 ==> r == (selected, scroll),
        selected > 0 ==> r.0 == selected - 1 && r.1 == if selected - 1 < scroll {
            (selected - 1) as usize
        } else {
            scroll
        },
{
    if selected > 0 {
        let s = selected - 1;
        (s, if s < scroll {
            s
        } else {
            scroll
        })
    } else {
        (selected, scroll)
    }
}

/// One step down a list of `len` entries: the selection moves down unless it is last.
pub fn list_down(selected: usize, len: usize) -> (r: usize)
    ensures
        r == if len > 0 && selected < len - 1 {
            selected + 1
        } else {
            selected as int
        },
{
    if len > 0 && selected < len - 1 {
        selected + 1
    } else {
        selected
    }
}

/// The first entry a list of `visible` lines shows so that the selection is in view: when the
/// selection is below the lines shown from `scroll` on, the lines ending with it; when it is
/// above them, from it; else from `scroll`.
pub open spec fn scroll_for(selected: usize, scroll: usize, visible: usize) -> int {
    if selected >= scroll + visible {
        (if selected >= visible {
            selected - visible
        } else {
            0
        }) + 1
    } else if selected < scroll {
        selected as int
    } else {
        scroll as int
    }
}

/// The first entry a list of `visible` lines shows so that the selection is in view.
pub fn scroll_into_view(selected: usize, scroll: usize, visible: usize) -> (r: usize)
    requires
        selected < usize::MAX,
    ensures
        r == scroll_for(selected, scroll, visible),
{
    if scroll <= usize::MAX - visible && selected >= scroll + visible {
        selected.saturating_sub(visible) + 1
    } else if scroll > usize::MAX - visible {
        if selected < scroll {
            selected
        } else {
            scroll
        }
    } else if selected < scroll {
        selected
    } else {
        scroll
    }
}

/// Whether a character may be typed into a new folder or vault name: no reserved or control
/// characters.
pub fn accepts_name_char(c: char) -> (b: bool)
    ensures
        b == (!is_reserved_name_char(c) && !is_cc(c)),
{
    !(c == '/' || c == '\\' || c == ':' || c == '<' || c == '>' || c == '"' || c == '|' || c == '?'
        || c == '*') && !is_control(c)
}

/// What the name being typed becomes with a key: a character the name accepts is appended,
/// Backspace removes the last one; other keys leave it as it is.
pub fn edit_name(input: &mut String, key: Key)
    ensures
        match key {
            Key::Char(c) => final(input)@ == if !is_reserved_name_char(c) && !is_cc(c) {
                old(input)@.push(c)
            } else {
                old(input)@
            },
            Key::Backspace => final(input)@ == if old(input)@.len() > 0 {
                old(input)@.drop_last()
            } else {
                old(input)@
            },
            _ => final(input)@ == old(input)@,
        },
{
    match key {
        Key::Char(c) => {
            if accepts_name_char(c) {
                crate::text::push_char(input, c);
            }
        },
        Key::Backspace => {
            let cs = crate::text::chars_of(input.as_str());
            if cs.len() > 0 {
                let n = cs.len();
                let head = vstd::slice::slice_subrange(cs.as_slice(), 0, n - 1);
                proof {
                    assert(head@ =~= cs@.drop_last());
                }
                *input = crate::text::string_of(head);
            }
        },
        _ => {},
    }
}

/// `n + k`, wrapping at the top of `usize`.
pub open spec fn wrapping_plus(n: usize, k: usize) -> int {
    if n + k > usize::MAX {
        n + k - usize::MAX - 1
    } else {
        n + k
    }
}

fn add_wrapping(n: usize, k: usize) -> (r: usize)
    ensures
        r == wrapping_plus(n, k),
{
    if n > usize::MAX - k {
        k - (usize::MAX - n) - 1
    } else {
        n + k
    }
}

/// Scrolling the export log of `line_count` lines with a key: one line or twenty at a time,
/// never past the last line when paging down.
pub fn results_scroll(key: Key, scroll: usize, line_count: usize) -> (r: usize)
    ensures
        r == if is_up(key) {
            if scroll >= 1 { scroll - 1 } else { 0 }
        } else if is_down(key) {
            if line_count > 0 && scroll < line_count - 1 { scroll + 1 } else { scroll as int }
        } else if key == Key::PageUp {
            if scroll >= 20 { scroll - 20 } else { 0 }
        } else if key == Key::PageDown {
            let max: int = if line_count > 0 { line_count - 1 } else { 0 };
            if wrapping_plus(scroll, 20) > max { max } else { wrapping_plus(scroll, 20) }
        } else {
            scroll as int
        },
{
    if up_key(key) {
        scroll.saturating_sub(1)
    } else if down_key(key) {
        list_down(scroll, line_count)
    } else if key == Key::PageUp {
        scroll.saturating_sub(20)
    } else if key == Key::PageDown {
        let s = add_wrapping(scroll, 20);
        let max = line_count.saturating_sub(1);
        if s > max {
            max
        } else {
            s
        }
    } else {
        scroll
    }
}

/// What the export destination list holds at an index: a vault found, the entry that browses
/// folders, the entry that creates a vault, or nothing.
#[derive(Debug, Clone, Copy, PartialEq, Eq, Structural)]
pub enum VaultChoice {
    Vault(usize),
    Browse,
    Create,
    Nothing,
}

/// The entry at `selected` of a destination list of `vault_count` vaults followed by
/// "Browse folders..." and "Create new vault...".
pub fn vault_choice(selected: usize, vault_count: usize) -> (r: VaultChoice)
    ensures
        r == if selected < vault_count {
            VaultChoice::Vault(selected)
        } else if selected == vault_count {
            VaultChoice::Browse
        } else if selected == vault_count + 1 {
            VaultChoice::Create
        } else {
            VaultChoice::Nothing
        },
{
    if selected < vault_count {
        VaultChoice::Vault(selected)
    } else if selected == vault_count {
        VaultChoice::Browse
    } else if selected - vault_count == 1 {
        VaultChoice::Create
    } else {
        VaultChoice::Nothing
    }
}

// ---------------------------------------------------------------------------
// The tree of the notes browser
// ---------------------------------------------------------------------------

/// The line the tree selection moves to going up: the previous one, or the one before when
/// the previous is a divider (and not the first); none at the top.
pub open spec fn tree_up_target(flat: Seq<FlatView>, selected: usize) -> Option<int> {
    if selected == 0 {
        None
    } else {
        let s = selected - 1;
        if s < flat.len() && flat[s].kind == NodeKind::Divider && s > 0 {
            Some(s - 1)
        } else {
            Some(s)
        }
    }
}

/// The line the tree selection moves to going down: the next one, or the one after when the
/// next is a divider (and not the last); none at the bottom.
pub open spec fn tree_down_target(flat: Seq<FlatView>, selected: usize) -> Option<int> {
    let last = if flat.len() > 0 {
        flat.len() - 1
    } else {
        0
    };
    if selected >= last {
        None
    } else {
        let s = selected + 1;
        if flat[s].kind == NodeKind::Divider && s < last {
            Some(s + 1)
        } else {
            Some(s)
        }
    }
}

/// Moves the tree selection up, skipping a divider.
pub fn tree_up(flat: &Vec<FlatItem>, selected: usize) -> (r: Option<usize>)
    ensures
        match r {
            Some(s) => tree_up_target(flat_views(flat@), selected) == Some(s as int),
            None => tree_up_target(flat_views(flat@), selected) is None,
        },
{
    if selected == 0 {
        return None;
    }
    let s = selected - 1;
    if s < flat.len() && flat[s].kind == NodeKind::Divider && s > 0 {
        Some(s - 1)
    } else {
        Some(s)
    }
}

/// Moves the tree selection down, skipping a divider.
pub fn tree_down(flat: &Vec<FlatItem>, selected: usize) -> (r: Option<usize>)
    ensures
        match r {
            Some(s) => tree_down_target(flat_views(flat@), selected) == Some(s as int),
            None => tree_down_target(flat_views(flat@), selected) is None,
        },
{
    let last = flat.len().saturating_sub(1);
    if selected >= last {
        return None;
    }
    let s = selected + 1;
    if flat[s].kind == NodeKind::Divider && s < last {
        Some(s + 1)
    } else {
        Some(s)
    }
}

/// The first line whose index path is `path`.
pub open spec fn first_with_path(flat: Seq<FlatView>, path: Seq<usize>) -> Option<int>
    decreases flat.len(),
{
    if flat.len() == 0 {
        None
    } else {
        match first_with_path(flat.drop_last(), path) {
            Some(i) => Some(i),
            None => if flat.last().index_path == path {
                Some(flat.len() - 1)
            } else {
                None
            },
        }
    }
}

fn same_path(a: &Vec<usize>, b: &[usize]) -> (r: bool)
    ensures
        r == (a@ == b@),
{
    if a.len() != b.len() {
        return false;
    }
    let mut i: usize = 0;
    while i < a.len()
        invariant
            i <= a@.len(),
            a@.len() == b@.len(),
            forall|k: int| 0 <= k < i ==> a@[k] == b@[k],
        decreases a@.len() - i,
    {
        if a[i] != b[i] {
            return false;
        }
        i = i + 1;
    }
    proof {
        assert(a@ =~= b@);
    }
    true
}

/// The line of the parent of the node on line `selected`: the first line whose index path is
/// the selected one's without its last index (none for a root or when it is not shown).
pub fn parent_line(flat: &Vec<FlatItem>, selected: usize) -> (r: Option<usize>)
    requires
        selected < flat@.len(),
    ensures
        ({
            let p = flat@[selected as int].index_path@;
            match r {
                Some(i) => p.len() > 1 && first_with_path(flat_views(flat@), p.drop_last()) == Some(
                    i as int,
                ),
                None => p.len() <= 1 || first_with_path(flat_views(flat@), p.drop_last()) is None,
            }
        }),
{
    let ghost fv = flat_views(flat@);
    let path = &flat[selected].index_path;
    if path.len() <= 1 {
        return None;
    }
    let n = path.len();
    let parent = vstd::slice::slice_subrange(path.as_slice(), 0, n - 1);
    proof {
        assert(parent@ =~= path@.drop_last());
        assert(fv.take(0) =~= Seq::<FlatView>::empty());
    }
    let mut i: usize = 0;
    while i < flat.len()
        invariant
            fv == flat_views(flat@),
            selected < flat@.len(),
            parent@ == flat@[selected as int].index_path@.drop_last(),
            flat@[selected as int].index_path@.len() > 1,
            i <= flat@.len(),
            first_with_path(fv.take(i as int), parent@) is None,
        decreases flat@.len() - i,
    {
        proof {
            assert(fv.take(i + 1).drop_last() =~= fv.take(i as int));
            assert(fv.take(i + 1).last() == flat@[i as int]@);
        }
        if same_path(&flat[i].index_path, parent) {
            proof {
                lemma_first_with_path_prefix(fv, parent@, i as int);
            }
            return Some(i);
        }
        i = i + 1;
    }
    proof {
        assert(fv.take(i as int) =~= fv);
    }
    None
}

proof fn lemma_first_with_path_prefix(flat: Seq<FlatView>, path: Seq<usize>, i: int)
    requires
        0 <= i < flat.len(),
        first_with_path(flat.take(i), path) is None,
        flat[i].index_path == path,
    ensures
        first_with_path(flat, path) == Some(i),
    decreases flat.len(),
{
    if i < flat.len() - 1 {
        assert(flat.drop_last().take(i) =~= flat.take(i));
        lemma_first_with_path_prefix(flat.drop_last(), path, i);
    } else {
        assert(flat.drop_last() =~= flat.take(i));
    }
}

/// The folders an export from the browser covers, when the line `selected` is picked: none
/// (everything) for a root line or no line; else the Apple Notes folders of the node there, or
/// when it has none those of its parent, or none when neither has any.
pub open spec fn export_filter_for(roots: Seq<crate::tree::NodeView>, flat: Seq<FlatView>, selected: usize) -> Option<
    Seq<i64>,
> {
    if selected >= flat.len() {
        None
    } else {
        let p = flat[selected as int].index_path;
        if p.len() <= 1 {
            None
        } else {
            match node_at(roots, p) {
                None => None,
                Some(v) => if folder_pks(v).len() > 0 {
                    Some(folder_pks(v))
                } else {
                    match node_at(roots, p.drop_last()) {
                        Some(parent) => if folder_pks(parent).len() > 0 {
                            Some(folder_pks(parent))
                        } else {
                            None
                        },
                        None => None,
                    }
                },
            }
        }
    }
}

/// The folders an export started on line `selected` of the browser covers.
pub fn export_filter(roots: &Vec<TreeNode>, flat: &Vec<FlatItem>, selected: usize) -> (r: Option<Vec<i64>>)
    ensures
        match r {
            Some(v) => export_filter_for(node_views(roots@), flat_views(flat@), selected) == Some(v@),
            None => export_filter_for(node_views(roots@), flat_views(flat@), selected) is None,
        },
{
    if selected >= flat.len() {
        return None;
    }
    let path = &flat[selected].index_path;
    if path.len() <= 1 {
        return None;
    }
    match get_node(roots.as_slice(), path.as_slice()) {
        None => None,
        Some(node) => {
            let pks = collect_folder_pks(node);
            if pks.len() > 0 {
                Some(pks)
            } else {
                let n = path.len();
                let parent = vstd::slice::slice_subrange(path.as_slice(), 0, n - 1);
                proof {
                    assert(parent@ =~= path@.drop_last());
                }
                match get_node(roots.as_slice(), parent) {
                    Some(p) => {
                        let ppks = collect_folder_pks(p);
                        if ppks.len() > 0 {
                            Some(ppks)
                        } else {
                            None
                        }
                    },
                    None => None,
                }
            }
        },
    }
}

// ---------------------------------------------------------------------------
// The notes browser
// ---------------------------------------------------------------------------

/// The attachment-analysis popup: its selection and scroll over `entries` unlinked files.
#[derive(Debug, Clone, Copy, PartialEq, Eq, Structural)]
pub struct AttachmentPopup {
    pub selected: usize,
    pub scroll: usize,
    pub entries: usize,
}

/// The notes browser's navigation state.
#[derive(Debug, Clone, Copy, PartialEq, Eq, Structural)]
pub struct BrowserState {
    pub selected: usize,
    pub tree_scroll: usize,
    pub note_scroll: usize,
    /// Whether the tree (rather than the preview) has the focus.
    pub focus_tree: bool,
    pub popup: Option<AttachmentPopup>,
}

/// What the browser asks its caller to do after a key.
#[derive(Debug)]
pub enum BrowserAction {
    Nothing,
    /// Go back to the source selection.
    Back,
    /// Show the note or attachment on the selected line in the preview.
    LoadSelected,
    /// Expand or collapse the node at the index path (whichever it is not), then flatten again.
    Toggle(Vec<usize>),
    /// Collapse the node at the index path, then flatten again.
    Collapse(Vec<usize>),
    /// Analyze the vault's attachments and open the popup.
    AnalyzeAttachments,
    /// Export Apple Notes, limited to these folders when given.
    Export(Option<Vec<i64>>),
    /// Copy the diagnostic report of the note at the index path.
    Debug(Vec<usize>),
}

/// What a `BrowserAction` holds.
pub enum ActionView {
    Nothing,
    Back,
    LoadSelected,
    Toggle(Seq<usize>),
    Collapse(Seq<usize>),
    AnalyzeAttachments,
    Export(Option<Seq<i64>>),
    Debug(Seq<usize>),
}

/// The view of an action.
pub open spec fn action_view(a: BrowserAction) -> ActionView {
    match a {
        BrowserAction::Nothing => ActionView::Nothing,
        BrowserAction::Back => ActionView::Back,
        BrowserAction::LoadSelected => ActionView::LoadSelected,
        BrowserAction::Toggle(p) => ActionView::Toggle(p@),
        BrowserAction::Collapse(p) => ActionView::Collapse(p@),
        BrowserAction::AnalyzeAttachments => ActionView::AnalyzeAttachments,
        BrowserAction::Export(f) => ActionView::Export(
            match f {
                Some(v) => Some(v@),
                None => None,
            },
        ),
        BrowserAction::Debug(p) => ActionView::Debug(p@),
    }
}

/// The popup after a key, and whether the key closed it.
pub open spec fn popup_step(p: AttachmentPopup, key: Key) -> Option<AttachmentPopup> {
    if key == Key::Esc || key == Key::Char('q') {
        None
    } else if is_up(key) {
        if p.selected > 0 {
            let s = (p.selected - 1) as usize;
            Some(AttachmentPopup { selected: s, scroll: if s < p.scroll { s } else { p.scroll }, ..p })
        } else {
            Some(p)
        }
    } else if is_down(key) {
        if p.entries > 0 && p.selected < p.entries - 1 {
            Some(AttachmentPopup { selected: (p.selected + 1) as usize, ..p })
        } else {
            Some(p)
        }
    } else {
        Some(p)
    }
}

/// The browser after a key with the tree focused, and what to do.
pub open spec fn tree_step(
    s: BrowserState,
    key: Key,
    source: NoteSource,
    flat: Seq<FlatView>,
    roots: Seq<crate::tree::NodeView>,
) -> (BrowserState, ActionView) {
    if is_up(key) {
        match tree_up_target(flat, s.selected) {
            Some(t) => (BrowserState { selected: t as usize, note_scroll: 0, ..s }, ActionView::LoadSelected),
            None => (s, ActionView::Nothing),
        }
    } else if is_down(key) {
        match tree_down_target(flat, s.selected) {
            Some(t) => (BrowserState { selected: t as usize, note_scroll: 0, ..s }, ActionView::LoadSelected),
            None => (s, ActionView::Nothing),
        }
    } else if key == Key::Enter || key == Key::Right || key == Key::Char('l') {
        if s.selected < flat.len() {
            let item = flat[s.selected as int];
            if item.has_children {
                (s, ActionView::Toggle(item.index_path))
            } else {
                (BrowserState { note_scroll: 0, focus_tree: false, ..s }, ActionView::LoadSelected)
            }
        } else {
            (s, ActionView::Nothing)
        }
    } else if key == Key::Left || key == Key::Char('h') {
        if s.selected < flat.len() {
            let item = flat[s.selected as int];
            if item.expanded {
                (s, ActionView::Collapse(item.index_path))
            } else if item.index_path.len() > 1 {
                match first_with_path(flat, item.index_path.drop_last()) {
                    Some(i) => (BrowserState {
                        selected: i as usize,
                        tree_scroll: if i < s.tree_scroll { i as usize } else { s.tree_scroll },
                        ..s
                    }, ActionView::Nothing),
                    None => (s, ActionView::Nothing),
                }
            } else {
                (s, ActionView::Nothing)
            }
        } else {
            (s, ActionView::Nothing)
        }
    } else if key == Key::Char('a') && source == NoteSource::Obsidian {
        (s, ActionView::AnalyzeAttachments)
    } else if key == Key::Char('e') && source == NoteSource::AppleNotes {
        (s, ActionView::Export(export_filter_for(roots, flat, s.selected)))
    } else if key == Key::Char('d') && source == NoteSource::AppleNotes {
        (s, debug_action(flat, s.selected))
    } else {
        (s, ActionView::Nothing)
    }
}

/// The diagnostic action for the selected line: for a note, its index path.
pub open spec fn debug_action(flat: Seq<FlatView>, selected: usize) -> ActionView {
    if selected < flat.len() && flat[selected as int].kind == NodeKind::Note {
        ActionView::Debug(flat[selected as int].index_path)
    } else {
        ActionView::Nothing
    }
}

/// The lines the preview moves by for one press of an arrow key.
pub const PREVIEW_STEP: usize = 5;

/// The browser after a key with the preview focused, and what to do: the arrow keys move by
/// [`PREVIEW_STEP`] lines, the page keys by 20.
pub open spec fn preview_step(s: BrowserState, key: Key, source: NoteSource, flat: Seq<FlatView>) -> (
    BrowserState,
    ActionView,
) {
    if is_up(key) {
        (BrowserState { note_scroll: if s.note_scroll >= PREVIEW_STEP { (s.note_scroll - PREVIEW_STEP) as usize } else { 0 }, ..s }, ActionView::Nothing)
    } else if is_down(key) {
        (BrowserState { note_scroll: wrapping_plus(s.note_scroll, PREVIEW_STEP) as usize, ..s }, ActionView::Nothing)
    } else if key == Key::PageUp {
        (BrowserState { note_scroll: if s.note_scroll >= 20 { (s.note_scroll - 20) as usize } else { 0 }, ..s }, ActionView::Nothing)
    } else if key == Key::PageDown {
        (BrowserState { note_scroll: wrapping_plus(s.note_scroll, 20) as usize, ..s }, ActionView::Nothing)
    } else if key == Key::Left || key == Key::Char('h') {
        (BrowserState { focus_tree: true, ..s }, ActionView::Nothing)
    } else if key == Key::Char('d') && source == NoteSource::AppleNotes {
        (s, debug_action(flat, s.selected))
    } else {
        (s, ActionView::Nothing)
    }
}

/// The browser after a key, what to do, and whether the key clears the error line: an open
/// popup takes every key; otherwise Tab switches the focus, Esc goes back, and the focused
/// pane reacts.
pub open spec fn browser_step(
    s: BrowserState,
    key: Key,
    source: NoteSource,
    flat: Seq<FlatView>,
    roots: Seq<crate::tree::NodeView>,
) -> (BrowserState, ActionView, bool) {
    match s.popup {
        Some(p) => (BrowserState { popup: popup_step(p, key), ..s }, ActionView::Nothing, false),
        None => if key == Key::Esc {
            (s, ActionView::Back, true)
        } else {
            let s1 = if key == Key::Tab {
                BrowserState { focus_tree: !s.focus_tree, ..s }
            } else {
                s
            };
            let (s2, a) = if s1.focus_tree {
                tree_step(s1, key, source, flat, roots)
            } else {
                preview_step(s1, key, source, flat)
            };
            (s2, a, true)
        },
    }
}

fn popup_key(p: AttachmentPopup, key: Key) -> (r: Option<AttachmentPopup>)
    ensures
        r == popup_step(p, key),
{
    if key == Key::Esc || key == Key::Char('q') {
        None
    } else if up_key(key) {
        let (sel, sc) = list_up(p.selected, p.scroll);
        Some(AttachmentPopup { selected: sel, scroll: sc, ..p })
    } else if down_key(key) {
        Some(AttachmentPopup { selected: list_down(p.selected, p.entries), ..p })
    } else {
        Some(p)
    }
}

fn debug_for(flat: &Vec<FlatItem>, selected: usize) -> (r: BrowserAction)
    ensures
        action_view(r) == debug_action(flat_views(flat@), selected),
{
    if selected < flat.len() && flat[selected].kind == NodeKind::Note {
        BrowserAction::Debug(flat[selected].index_path.clone())
    } else {
        BrowserAction::Nothing
    }
}

fn tree_key(s: BrowserState, key: Key, source: NoteSource, flat: &Vec<FlatItem>, roots: &Vec<TreeNode>) -> (r: (
    BrowserState,
    BrowserAction,
))
    ensures
        (r.0, action_view(r.1)) == tree_step(s, key, source, flat_views(flat@), node_views(roots@)),
{
    let ghost fv = flat_views(flat@);
    if up_key(key) {
        match tree_up(flat, s.selected) {
            Some(t) => (BrowserState { selected: t, note_scroll: 0, ..s }, BrowserAction::LoadSelected),
            None => (s, BrowserAction::Nothing),
        }
    } else if down_key(key) {
        match tree_down(flat, s.selected) {
            Some(t) => (BrowserState { selected: t, note_scroll: 0, ..s }, BrowserAction::LoadSelected),
            None => (s, BrowserAction::Nothing),
        }
    } else if key == Key::Enter || key == Key::Right || key == Key::Char('l') {
        if s.selected < flat.len() {
            let item = &flat[s.selected];
            if item.has_children {
                (s, BrowserAction::Toggle(item.index_path.clone()))
            } else {
                (BrowserState { note_scroll: 0, focus_tree: false, ..s }, BrowserAction::LoadSelected)
            }
        } else {
            (s, BrowserAction::Nothing)
        }
    } else if key == Key::Left || key == Key::Char('h') {
        if s.selected < flat.len() {
            let item = &flat[s.selected];
            if item.expanded {
                (s, BrowserAction::Collapse(item.index_path.clone()))
            } else if item.index_path.len() > 1 {
                match parent_line(flat, s.selected) {
                    Some(i) => {
                        let ts = if i < s.tree_scroll {
                            i
                        } else {
                            s.tree_scroll
                        };
                        (BrowserState { selected: i, tree_scroll: ts, ..s }, BrowserAction::Nothing)
                    },
                    None => (s, BrowserAction::Nothing),
                }
            } else {
                (s, BrowserAction::Nothing)
            }
        } else {
            (s, BrowserAction::Nothing)
        }
    } else if key == Key::Char('a') && source == NoteSource::Obsidian {
        (s, BrowserAction::AnalyzeAttachments)
    } else if key == Key::Char('e') && source == NoteSource::AppleNotes {
        (s, BrowserAction::Export(export_filter(roots, flat, s.selected)))
    } else if key == Key::Char('d') && source == NoteSource::AppleNotes {
        (s, debug_for(flat, s.selected))
    } else {
        (s, BrowserAction::Nothing)
    }
}

fn preview_key(s: BrowserState, key: Key, source: NoteSource, flat: &Vec<FlatItem>) -> (r: (
    BrowserState,
    BrowserAction,
))
    ensures
        (r.0, action_view(r.1)) == preview_step(s, key, source, flat_views(flat@)),
{
    if up_key(key) {
        (BrowserState { note_scroll: s.note_scroll.saturating_sub(PREVIEW_STEP), ..s }, BrowserAction::Nothing)
    } else if down_key(key) {
        (BrowserState { note_scroll: add_wrapping(s.note_scroll, PREVIEW_STEP), ..s }, BrowserAction::Nothing)
    } else if key == Key::PageUp {
        (BrowserState { note_scroll: s.note_scroll.saturating_sub(20), ..s }, BrowserAction::Nothing)
    } else if key == Key::PageDown {
        (BrowserState { note_scroll: add_wrapping(s.note_scroll, 20), ..s }, BrowserAction::Nothing)
    } else if key == Key::Left || key == Key::Char('h') {
        (BrowserState { focus_tree: true, ..s }, BrowserAction::Nothing)
    } else if key == Key::Char('d') && source == NoteSource::AppleNotes {
        (s, debug_for(flat, s.selected))
    } else {
        (s, BrowserAction::Nothing)
    }
}

/// The notes browser's reaction to a key: its next state, what its caller should do, and
/// whether the error line is cleared (see `browser_step`).
pub fn browser_key(
    s: BrowserState,
    key: Key,
    source: NoteSource,
    flat: &Vec<FlatItem>,
    roots: &Vec<TreeNode>,
) -> (r: (BrowserState, BrowserAction, bool))
    ensures
        (r.0, action_view(r.1), r.2) == browser_step(s, key, source, flat_views(flat@), node_views(roots@)),
{
    match s.popup {
        Some(p) => (BrowserState { popup: popup_key(p, key), ..s }, BrowserAction::Nothing, false),
        None => {
            if key == Key::Esc {
                return (s, BrowserAction::Back, true);
            }
            let s1 = if key == Key::Tab {
                BrowserState { focus_tree: !s.focus_tree, ..s }
            } else {
                s
            };
            let (s2, a) = if s1.focus_tree {
                tree_key(s1, key, source, flat, roots)
            } else {
                preview_key(s1, key, source, flat)
            };
            (s2, a, true)
        },
    }
}

} // verus!
