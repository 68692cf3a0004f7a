use notes_inspector::exporter::FolderRow;
use notes_inspector::nav::browser_key;
use notes_inspector::nav::edit_name;
use notes_inspector::nav::export_filter;
use notes_inspector::nav::list_down;
use notes_inspector::nav::list_up;
use notes_inspector::nav::parent_line;
use notes_inspector::nav::results_scroll;
use notes_inspector::nav::scroll_into_view;
use notes_inspector::nav::tree_down;
use notes_inspector::nav::tree_up;
use notes_inspector::nav::vault_choice;
use notes_inspector::nav::accepts_name_char;
use notes_inspector::nav::BrowserAction;
use notes_inspector::nav::BrowserState;
use notes_inspector::nav::Key;
use notes_inspector::nav::NoteSource;
use notes_inspector::nav::AttachmentPopup;
use notes_inspector::nav::VaultChoice;
use notes_inspector::notes_tree::assemble_notes_tree;
use notes_inspector::notes_tree::NoteRecord;
use notes_inspector::tree::collect_folder_pks;
use notes_inspector::tree::flatten_tree;
use notes_inspector::tree::get_node;
use notes_inspector::tree::get_node_mut;
use notes_inspector::tree::NodeKind;
use notes_inspector::tree::TreeNode;

fn note(name: &str, date: i64, pinned: bool) -> TreeNode {
    let mut n = TreeNode::new_note(name.to_string(), format!("/v/{name}.md"));
    n.modified_date = Some(date);
    n.is_pinned = pinned;
    n
}

fn attachment(name: &str) -> TreeNode {
    let mut n = TreeNode::new_note(name.to_string(), format!("/v/{name}"));
    n.kind = NodeKind::Attachment;
    n
}

fn names(children: &[TreeNode]) -> Vec<String> {
    children.iter().map(|c| c.name.clone()).collect()
}

fn sample() -> TreeNode {
    let mut root = TreeNode::new_folder("root".to_string(), "/v".to_string());
    root.children.push(TreeNode::new_folder("b".to_string(), "/v/b".to_string()));
    root.children.push(note("n1", 10, true));
    root.children.push(note("n2", 30, false));
    root.children.push(attachment("pic.png"));
    root.children.push(note("n3", 20, false));
    root.children.push(TreeNode::new_folder("A".to_string(), "/v/A".to_string()));
    root.children.push(TreeNode::new_divider());
    root
}

#[test]
fn constructors() {
    let f = TreeNode::new_folder("F".to_string(), "/f".to_string());
    assert_eq!(f.kind, NodeKind::Folder);
    assert!(!f.expanded && f.children.is_empty() && f.modified_date.is_none() && !f.is_pinned);
    let n = TreeNode::new_note("N".to_string(), "/n".to_string());
    assert_eq!(n.kind, NodeKind::Note);
    let d = TreeNode::new_divider();
    assert_eq!(d.kind, NodeKind::Divider);
    assert_eq!(d.name, "");
}

#[test]
fn children_are_arranged() {
    let mut root = sample();
    root.sort_children();
    assert_eq!(names(&root.children), vec!["A", "b", "n1", "", "n2", "n3", "pic.png"]);
    assert_eq!(root.children[3].kind, NodeKind::Divider);
    // Arranging again changes nothing.
    root.sort_children();
    assert_eq!(names(&root.children), vec!["A", "b", "n1", "", "n2", "n3", "pic.png"]);
}

#[test]
fn arranging_keeps_the_counts() {
    let mut root = sample();
    root.children[0].children.push(note("deep", 1, false));
    let (n, f, a) = (root.count_notes(), root.count_folders(), root.count_attachments());
    assert_eq!((n, f, a), (4, 3, 1));
    root.sort_children();
    assert_eq!((root.count_notes(), root.count_folders(), root.count_attachments()), (n, f, a));
}

#[test]
fn no_divider_without_both_kinds_of_notes() {
    let mut root = TreeNode::new_folder("r".to_string(), "/r".to_string());
    root.children.push(note("x", 1, true));
    root.children.push(note("y", 2, true));
    root.sort_children();
    assert_eq!(names(&root.children), vec!["y", "x"]);
}

#[test]
fn flattening_follows_expansion() {
    let mut root = sample();
    root.sort_children();
    let flat = flatten_tree(&[root.clone_shallow()]);
    assert_eq!(flat.len(), 1);
    root.expanded = true;
    let roots = vec![root];
    let flat = flatten_tree(&roots);
    assert_eq!(flat.len(), 8);
    assert_eq!(flat[0].depth, 0);
    assert_eq!(flat[0].index_path, vec![0]);
    assert!(flat[0].has_children);
    assert_eq!(flat[2].name, "b");
    assert_eq!(flat[2].index_path, vec![0, 1]);
    assert_eq!(flat[2].depth, 1);
    // Every line locates its node.
    for item in &flat {
        let node = get_node(&roots, &item.index_path).unwrap();
        assert_eq!(node.name, item.name);
        assert_eq!(node.kind, item.kind);
    }
    assert!(get_node(&roots, &[]).is_none());
    assert!(get_node(&roots, &[0, 99]).is_none());
}

trait CloneShallow {
    fn clone_shallow(&self) -> TreeNode;
}

impl CloneShallow for TreeNode {
    fn clone_shallow(&self) -> TreeNode {
        let mut n = TreeNode::new_folder(self.name.clone(), self.path.clone());
        n.kind = self.kind;
        for c in &self.children {
            n.children.push(c.clone_shallow());
        }
        n.expanded = self.expanded;
        n.modified_date = self.modified_date;
        n.is_pinned = self.is_pinned;
        n
    }
}

#[test]
fn a_node_written_is_read_back() {
    let mut roots = vec![sample()];
    if let Some(n) = get_node_mut(&mut roots, &[0, 2]) {
        n.name = "renamed".to_string();
        n.expanded = true;
    }
    let n = get_node(&roots, &[0, 2]).unwrap();
    assert_eq!(n.name, "renamed");
    assert!(n.expanded);
    assert_eq!(get_node(&roots, &[0, 1]).unwrap().name, "n1");
    assert!(get_node_mut(&mut roots, &[3]).is_none());
}

#[test]
fn folder_keys_are_collected() {
    let mut root = TreeNode::new_folder("Apple Notes".to_string(), String::new());
    let mut a = TreeNode::new_folder("A".to_string(), "apple-notes://folder/12".to_string());
    a.children.push(TreeNode::new_folder("B".to_string(), "apple-notes://folder/-3".to_string()));
    a.children.push(TreeNode::new_folder("C".to_string(), "apple-notes://folder/x".to_string()));
    root.children.push(a);
    root.children.push(TreeNode::new_note("N".to_string(), "apple-notes://note/5".to_string()));
    assert_eq!(collect_folder_pks(&root), vec![12, -3]);
}

fn rec(pk: i64, title: &str, folder: i64, date: i64, pinned: bool) -> NoteRecord {
    NoteRecord { pk, title: title.to_string(), folder_pk: Some(folder), modified_date: Some(date), is_pinned: pinned }
}

#[test]
fn the_apple_notes_tree_is_assembled() {
    let folders = vec![
        FolderRow { pk: 1, title: "Notes".to_string(), parent_pk: None },
        FolderRow { pk: 2, title: "Sub".to_string(), parent_pk: Some(1) },
        FolderRow { pk: 3, title: "Empty".to_string(), parent_pk: None },
    ];
    let notes = vec![rec(10, "old", 1, 100, false), rec(11, "new", 1, 200, false), rec(12, "inner", 2, 5, true)];
    let tree = assemble_notes_tree(&folders, &notes);
    assert_eq!(tree.name, "Apple Notes");
    assert!(tree.expanded);
    assert_eq!(names(&tree.children), vec!["Notes"]);
    let top = &tree.children[0];
    assert_eq!(top.path, "apple-notes://folder/1");
    assert_eq!(names(&top.children), vec!["Sub", "new", "old"]);
    assert_eq!(top.children[1].path, "apple-notes://note/11");
    assert_eq!(names(&top.children[0].children), vec!["inner"]);
    assert_eq!(tree.count_notes(), 3);
}

#[test]
fn folders_nest_by_parent_to_any_depth() {
    let folders = vec![
        FolderRow { pk: 1, title: "A".to_string(), parent_pk: None },
        FolderRow { pk: 2, title: "B".to_string(), parent_pk: Some(1) },
        FolderRow { pk: 3, title: "C".to_string(), parent_pk: Some(2) },
        FolderRow { pk: 5, title: "Loop".to_string(), parent_pk: Some(6) },
        FolderRow { pk: 6, title: "Back".to_string(), parent_pk: Some(5) },
        FolderRow { pk: 8, title: "Self".to_string(), parent_pk: Some(8) },
    ];
    let notes = vec![rec(4, "n", 3, 1, false), rec(7, "looped", 5, 1, false), rec(9, "gone", 8, 1, false)];
    let tree = assemble_notes_tree(&folders, &notes);
    assert_eq!(names(&tree.children), vec!["A", "Back"]);
    // A loop of two folders shows the later row at the top with the earlier one under it.
    let back = &tree.children[1];
    assert_eq!(names(&back.children), vec!["Loop"]);
    assert_eq!(names(&back.children[0].children), vec!["looped"]);
    let a = &tree.children[0];
    assert_eq!(names(&a.children), vec!["B"]);
    assert_eq!(names(&a.children[0].children), vec!["C"]);
    let c = &a.children[0].children[0];
    assert_eq!(names(&c.children), vec!["n"]);
    assert_eq!(c.children[0].path, "apple-notes://note/4");
    assert_eq!(tree.count_notes(), 2);
}

fn shape(n: &TreeNode) -> String {
    let kids: Vec<String> = n.children.iter().map(shape).collect();
    format!("{}:{:?}:{:?}[{}]", n.name, n.kind, n.modified_date, kids.join(","))
}

#[test]
fn a_child_listed_after_a_nested_parent_still_nests() {
    let folders = vec![
        FolderRow { pk: 1, title: "A".to_string(), parent_pk: Some(2) },
        FolderRow { pk: 2, title: "B".to_string(), parent_pk: None },
        FolderRow { pk: 3, title: "D".to_string(), parent_pk: Some(1) },
    ];
    let notes = vec![rec(4, "n", 3, 1, false)];
    let tree = assemble_notes_tree(&folders, &notes);
    assert_eq!(names(&tree.children), vec!["B"]);
    assert_eq!(names(&tree.children[0].children), vec!["A"]);
    assert_eq!(names(&tree.children[0].children[0].children), vec!["D"]);
}

#[test]
fn sorting_twice_changes_nothing() {
    let mut t = sample();
    let mut inner = TreeNode::new_folder("z".to_string(), "/v/z".to_string());
    inner.children.push(note("m1", 1, false));
    inner.children.push(note("m2", 5, true));
    inner.children.push(note("m3", 3, false));
    t.children.push(inner);
    t.sort_children();
    let once = shape(&t);
    t.sort_children();
    assert_eq!(shape(&t), once);
}

#[test]
fn list_moves() {
    assert_eq!(list_up(0, 0), (0, 0));
    assert_eq!(list_up(3, 3), (2, 2));
    assert_eq!(list_up(3, 1), (2, 1));
    assert_eq!(list_down(2, 3), 2);
    assert_eq!(list_down(1, 3), 2);
    assert_eq!(list_down(0, 0), 0);
    assert_eq!(scroll_into_view(10, 0, 5), 6);
    assert_eq!(scroll_into_view(1, 4, 5), 1);
    assert_eq!(scroll_into_view(5, 4, 5), 4);
}

#[test]
fn names_are_typed() {
    let mut s = String::from("ab");
    edit_name(&mut s, Key::Char('c'));
    assert_eq!(s, "abc");
    edit_name(&mut s, Key::Char('/'));
    assert_eq!(s, "abc");
    edit_name(&mut s, Key::Char('\u{1}'));
    assert_eq!(s, "abc");
    edit_name(&mut s, Key::Backspace);
    assert_eq!(s, "ab");
    edit_name(&mut s, Key::Enter);
    assert_eq!(s, "ab");
    let mut e = String::new();
    edit_name(&mut e, Key::Backspace);
    assert_eq!(e, "");
    assert!(accepts_name_char('é'));
    assert!(!accepts_name_char('?'));
}

#[test]
fn the_export_log_scrolls() {
    assert_eq!(results_scroll(Key::Up, 0, 10), 0);
    assert_eq!(results_scroll(Key::Char('j'), 3, 10), 4);
    assert_eq!(results_scroll(Key::Down, 9, 10), 9);
    assert_eq!(results_scroll(Key::PageUp, 15, 10), 0);
    assert_eq!(results_scroll(Key::PageDown, 0, 100), 20);
    assert_eq!(results_scroll(Key::PageDown, 0, 10), 9);
    assert_eq!(results_scroll(Key::Tab, 4, 10), 4);
}

#[test]
fn destination_entries() {
    assert_eq!(vault_choice(0, 2), VaultChoice::Vault(0));
    assert_eq!(vault_choice(2, 2), VaultChoice::Browse);
    assert_eq!(vault_choice(3, 2), VaultChoice::Create);
    assert_eq!(vault_choice(4, 2), VaultChoice::Nothing);
}

fn browser_fixture() -> (Vec<TreeNode>, Vec<notes_inspector::tree::FlatItem>) {
    let mut root = TreeNode::new_folder("Apple Notes".to_string(), String::new());
    root.expanded = true;
    let mut f = TreeNode::new_folder("F".to_string(), "apple-notes://folder/4".to_string());
    f.expanded = true;
    f.children.push(TreeNode::new_note("a".to_string(), "apple-notes://note/1".to_string()));
    f.children.push(TreeNode::new_divider());
    f.children.push(TreeNode::new_note("b".to_string(), "apple-notes://note/2".to_string()));
    root.children.push(f);
    let roots = vec![root];
    let flat = flatten_tree(&roots);
    (roots, flat)
}

fn state(selected: usize) -> BrowserState {
    BrowserState { selected, tree_scroll: 0, note_scroll: 3, focus_tree: true, popup: None }
}

#[test]
fn the_tree_selection_skips_dividers() {
    let (_roots, flat) = browser_fixture();
    assert_eq!(flat.len(), 5);
    assert_eq!(tree_down(&flat, 2), Some(4));
    assert_eq!(tree_up(&flat, 4), Some(2));
    assert_eq!(tree_up(&flat, 0), None);
    assert_eq!(tree_down(&flat, 4), None);
    assert_eq!(parent_line(&flat, 2), Some(1));
    assert_eq!(parent_line(&flat, 0), None);
}

#[test]
fn the_browser_reacts_to_keys() {
    let (roots, flat) = browser_fixture();
    let (s, a, clear) = browser_key(state(2), Key::Esc, NoteSource::AppleNotes, &flat, &roots);
    assert!(matches!(a, BrowserAction::Back) && clear);
    assert_eq!(s, state(2));
    let (s, a, _) = browser_key(state(2), Key::Down, NoteSource::AppleNotes, &flat, &roots);
    assert!(matches!(a, BrowserAction::LoadSelected));
    assert_eq!(s.selected, 4);
    assert_eq!(s.note_scroll, 0);
    let (s, a, _) = browser_key(state(1), Key::Enter, NoteSource::AppleNotes, &flat, &roots);
    match a {
        BrowserAction::Toggle(p) => assert_eq!(p, vec![0, 0]),
        _ => panic!("expected a toggle"),
    }
    assert_eq!(s, state(1));
    let (s, a, _) = browser_key(state(2), Key::Enter, NoteSource::AppleNotes, &flat, &roots);
    assert!(matches!(a, BrowserAction::LoadSelected));
    assert!(!s.focus_tree);
    let (s, _, _) = browser_key(state(2), Key::Tab, NoteSource::AppleNotes, &flat, &roots);
    assert!(!s.focus_tree);
    let (_, a, _) = browser_key(state(2), Key::Char('e'), NoteSource::AppleNotes, &flat, &roots);
    match a {
        BrowserAction::Export(Some(pks)) => assert_eq!(pks, vec![4]),
        _ => panic!("expected an export of folder 4"),
    }
    let (_, a, _) = browser_key(state(2), Key::Char('d'), NoteSource::AppleNotes, &flat, &roots);
    match a {
        BrowserAction::Debug(p) => assert_eq!(p, vec![0, 0, 0]),
        _ => panic!("expected a diagnosis"),
    }
    let (_, a, _) = browser_key(state(2), Key::Char('a'), NoteSource::Obsidian, &flat, &roots);
    assert!(matches!(a, BrowserAction::AnalyzeAttachments));
}

#[test]
fn the_popup_takes_every_key() {
    let (roots, flat) = browser_fixture();
    let mut s = state(2);
    s.popup = Some(AttachmentPopup { selected: 0, scroll: 0, entries: 3 });
    let (s2, a, clear) = browser_key(s, Key::Down, NoteSource::Obsidian, &flat, &roots);
    assert!(matches!(a, BrowserAction::Nothing) && !clear);
    assert_eq!(s2.popup, Some(AttachmentPopup { selected: 1, scroll: 0, entries: 3 }));
    let (s3, _, _) = browser_key(s2, Key::Esc, NoteSource::Obsidian, &flat, &roots);
    assert_eq!(s3.popup, None);
    assert_eq!(s3.selected, 2);
}

#[test]
fn export_filters() {
    let (roots, flat) = browser_fixture();
    assert_eq!(export_filter(&roots, &flat, 0), None);
    assert_eq!(export_filter(&roots, &flat, 1), Some(vec![4]));
    assert_eq!(export_filter(&roots, &flat, 4), Some(vec![4]));
}

#[test]
fn the_preview_scrolls_by_five_lines_per_arrow() {
    let (roots, flat) = browser_fixture();
    let pane = BrowserState { focus_tree: false, note_scroll: 7, ..state(2) };
    let (s, a, clear) = browser_key(pane, Key::Down, NoteSource::AppleNotes, &flat, &roots);
    assert!(matches!(a, BrowserAction::Nothing) && clear);
    assert_eq!(s, BrowserState { note_scroll: 12, ..pane });
    let (s, _, _) = browser_key(pane, Key::Up, NoteSource::AppleNotes, &flat, &roots);
    assert_eq!(s.note_scroll, 2);
    let (s, _, _) = browser_key(s, Key::Up, NoteSource::AppleNotes, &flat, &roots);
    assert_eq!(s.note_scroll, 0);
    let (s, _, _) = browser_key(pane, Key::PageDown, NoteSource::AppleNotes, &flat, &roots);
    assert_eq!(s.note_scroll, 27);
}
