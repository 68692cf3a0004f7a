use notes_inspector::layout::log_line_kind;
use notes_inspector::layout::tree_row_prefix;
use notes_inspector::layout::LogLineKind;
use notes_inspector::nav::NoteSource;
use notes_inspector::nav::NoteStats;
use notes_inspector::tree::NodeKind;
use notes_inspector::tree::TreeNode;

fn vault() -> TreeNode {
    let mut root = TreeNode::new_folder("MyVault".to_string(), "/v".to_string());
    let mut sub = TreeNode::new_folder("Sub".to_string(), "/v/Sub".to_string());
    sub.children.push(TreeNode::new_note("b".to_string(), "/v/Sub/b.md".to_string()));
    let mut att = TreeNode::new_note("img.png".to_string(), "/v/img.png".to_string());
    att.kind = NodeKind::Attachment;
    root.children.push(sub);
    root.children.push(TreeNode::new_note("a".to_string(), "/v/a.md".to_string()));
    root.children.push(att);
    root
}

#[test]
fn stats_of_a_vault_count_every_kind() {
    let stats = NoteStats::of_tree(NoteSource::Obsidian, &vault());
    assert_eq!(stats.total_notes, 2);
    assert_eq!(stats.total_folders, 2);
    assert_eq!(stats.total_attachments, 1);
    assert_eq!(stats.vault_name, "MyVault");
}

#[test]
fn stats_of_apple_notes_list_no_attachments() {
    let stats = NoteStats::of_tree(NoteSource::AppleNotes, &vault());
    assert_eq!(stats.total_notes, 2);
    assert_eq!(stats.total_folders, 2);
    assert_eq!(stats.total_attachments, 0);
    assert_eq!(stats.vault_name, "Apple Notes");
}

#[test]
fn tree_row_prefixes_by_kind() {
    assert_eq!(tree_row_prefix(0, NodeKind::Folder, true, false), "▼ ■ ");
    assert_eq!(tree_row_prefix(1, NodeKind::Folder, false, false), "  ▶ ■ ");
    assert_eq!(tree_row_prefix(2, NodeKind::Note, false, true), "      ★ ");
    assert_eq!(tree_row_prefix(1, NodeKind::Note, false, false), "    ◇ ");
    assert_eq!(tree_row_prefix(0, NodeKind::Attachment, false, false), "  · ");
}

#[test]
fn log_lines_are_classified_in_order() {
    assert_eq!(log_line_kind("ERROR: Folder: x"), LogLineKind::Error);
    assert_eq!(log_line_kind("  Exported: a.md"), LogLineKind::Exported);
    assert_eq!(log_line_kind("Folder: Work (3 notes)"), LogLineKind::Folder);
    assert_eq!(log_line_kind("Export complete!"), LogLineKind::Summary);
    assert_eq!(log_line_kind("═══"), LogLineKind::Summary);
    assert_eq!(log_line_kind("  Found 3 folders"), LogLineKind::Plain);
    assert_eq!(log_line_kind(" Exported: a.md"), LogLineKind::Plain);
}
