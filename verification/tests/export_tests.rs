use std::collections::HashMap;

use notes_inspector::export::apply_attachments_only;
use notes_inspector::export::apply_markdown_formatting;
use notes_inspector::exporter::attachment_count_line;
use notes_inspector::exporter::count_line;
use notes_inspector::exporter::exported_line;
use notes_inspector::exporter::filter_folders;
use notes_inspector::exporter::folder_layout;
use notes_inspector::exporter::folder_line;
use notes_inspector::exporter::folders_line;
use notes_inspector::exporter::missing_attachment_lines;
use notes_inspector::exporter::ExportConfig;
use notes_inspector::exporter::ExportLog;
use notes_inspector::exporter::FolderRow;
use notes_inspector::exporter::MissingAttachment;
use notes_inspector::naming::attachment_base_name;
use notes_inspector::naming::attachment_link;
use notes_inspector::naming::is_embeddable_attachment;
use notes_inspector::naming::is_heic_file;
use notes_inspector::naming::note_file_base;
use notes_inspector::naming::note_file_title;
use notes_inspector::naming::sanitize_attachment_name;
use notes_inspector::naming::unique_attachment_name;
use notes_inspector::naming::unique_filename;
use notes_inspector::naming::unique_name;
use notes_inspector::naming::uti_to_extension;
use notes_inspector::naming::NameSet;
use notes_inspector::note::InlineStyle;
use notes_inspector::note::ParagraphStyle;
use notes_inspector::note::StyleRun;

fn run(offset: usize, length: usize, paragraph: ParagraphStyle, bold: bool, italic: bool) -> StyleRun {
    StyleRun {
        offset,
        length,
        paragraph,
        indent: 0,
        inline_style: InlineStyle { bold, italic, underline: false, strikethrough: false },
        link: None,
    }
}

#[test]
fn paragraphs_and_inline_styles() {
    let runs = vec![run(0, 6, ParagraphStyle::Title, false, false), run(6, 5, ParagraphStyle::Body, true, false)];
    assert_eq!(apply_markdown_formatting("Title\nhello", &runs, &HashMap::new()), "# Title\n**hello**");
}

#[test]
fn lists_are_numbered_and_checked() {
    let text = "one\ntwo\ndone";
    let mut runs = vec![
        run(0, 4, ParagraphStyle::NumberedList, false, false),
        run(4, 4, ParagraphStyle::NumberedList, false, false),
        run(8, 4, ParagraphStyle::Checkbox { checked: true }, false, false),
    ];
    runs[2].indent = 1;
    assert_eq!(apply_markdown_formatting(text, &runs, &HashMap::new()), "1. one\n2. two\n  - [x] done");
}

#[test]
fn code_blocks_links_and_strikes() {
    let text = "let x\nsee";
    let mut link = run(6, 3, ParagraphStyle::Body, false, true);
    link.link = Some("https://e.com".to_string());
    link.inline_style.strikethrough = true;
    let runs = vec![run(0, 6, ParagraphStyle::Monospaced, true, false), link];
    assert_eq!(
        apply_markdown_formatting(text, &runs, &HashMap::new()),
        "```\nlet x\n```\n[*~~see~~*](https://e.com)"
    );
}

#[test]
fn attachments_go_on_lines_of_their_own() {
    let text = "a\u{FFFC}b";
    let mut map = HashMap::new();
    map.insert(1usize, "![[att/p.png]]".to_string());
    let runs = vec![run(0, 3, ParagraphStyle::Body, false, false)];
    assert_eq!(apply_markdown_formatting(text, &runs, &map), "a\n![[att/p.png]]\nb");
    assert_eq!(apply_attachments_only(text, &map), "a\n\n![[att/p.png]]\n\nb");
    assert_eq!(apply_attachments_only("x\r\n\r\n\r\n\ry\u{FFFC}", &HashMap::new()), "x\n\ny");
}

#[test]
fn notes_sections_become_callouts() {
    let text = "--- Notes ---\ninside\n-----\nafter";
    let runs = vec![run(0, text.chars().count(), ParagraphStyle::Body, false, false)];
    assert_eq!(apply_markdown_formatting(text, &runs, &HashMap::new()), "> [!info]\n> inside\n\nafter");
}

#[test]
fn the_export_log_counts() {
    let mut log = ExportLog::new();
    assert!(log.lines.is_empty() && !log.is_complete);
    log.log("Starting".to_string());
    log.error("disk full".to_string());
    log.notes_exported = 3;
    log.finish();
    assert_eq!(log.errors, 1);
    assert!(log.is_complete);
    assert_eq!(log.lines[0], "Starting");
    assert_eq!(log.lines[1], "ERROR: disk full");
    assert_eq!(log.lines[2], "");
    assert_eq!(log.lines[4], "Export complete!");
    assert_eq!(log.lines[6], "  Notes exported:  3");
    assert_eq!(log.lines[8], "  Errors:          1");
    assert_eq!(log.lines.len(), 9);
}

#[test]
fn log_lines_are_worded() {
    assert_eq!(count_line("n=", 42), "n=42");
    assert_eq!(folders_line(3, None), "  Found 3 folders");
    assert_eq!(folders_line(2, Some(5)), "  Exporting 2 of 5 folders (sub-tree)");
    assert_eq!(attachment_count_line(10, 7), "  10 attachments in DB, 7 files on disk, 3 not found");
    assert_eq!(folder_line("Work/Projects", 4), "Folder: Work/Projects (4 notes)");
    assert_eq!(exported_line("a.md"), "  Exported: a.md");
}

#[test]
fn missing_attachments_are_listed_by_identifier() {
    assert!(missing_attachment_lines(Vec::new()).is_empty());
    let missing = vec![
        MissingAttachment { uuid: "B".to_string(), filename: String::new(), type_uti: "public.png".to_string() },
        MissingAttachment { uuid: "A".to_string(), filename: "x.pdf".to_string(), type_uti: "p".to_string() },
    ];
    assert_eq!(
        missing_attachment_lines(missing),
        vec!["", "Missing attachments (no file on disk):", "  A  (x.pdf)", "  B  (public.png)"]
    );
}

fn row(pk: i64, title: &str, parent: Option<i64>) -> FolderRow {
    FolderRow { pk, title: title.to_string(), parent_pk: parent }
}

#[test]
fn folders_are_laid_out_under_their_parents() {
    let rows = vec![row(1, "Work", None), row(2, "Pro/jects", Some(1)), row(3, "Orphan", Some(99)), row(4, "Loop", Some(5)), row(5, "Back", Some(4))];
    let fs = folder_layout(&rows);
    let paths: Vec<(i64, String)> = fs.iter().map(|f| (f.pk, f.rel_path.clone())).collect();
    assert_eq!(
        paths,
        vec![
            (1, "Work".to_string()),
            (2, "Work/Projects".to_string()),
            (3, "Orphan".to_string()),
            (4, String::new()),
            (5, String::new())
        ]
    );
    let kept = filter_folders(fs, &Some(vec![2, 3]));
    assert_eq!(kept.iter().map(|f| f.pk).collect::<Vec<_>>(), vec![2, 3]);
    let long = format!("a{}", "é".repeat(100));
    assert_eq!(folder_layout(&vec![row(1, &long, None)])[0].rel_path, long);
}

#[test]
fn the_default_configuration() {
    let c = ExportConfig::default();
    assert_eq!(c.output_dir, ".");
    assert_eq!(c.attachments_folder, "_attachments");
    assert!(c.folder_filter.is_none());
}

#[test]
fn names_are_made_unique() {
    let mut used = NameSet::new();
    let never = |_: &str| false;
    assert_eq!(unique_filename("Note.md", &mut used, &never), Some("Note.md".to_string()));
    assert_eq!(unique_filename("note.MD", &mut used, &never), Some("note_1.MD".to_string()));
    assert_eq!(unique_filename("Note.md", &mut used, &never), Some("Note_2.md".to_string()));
    let on_disk = |s: &str| s == "x.txt" || s == "x_1.txt";
    assert_eq!(unique_filename("x.txt", &mut used, &on_disk), Some("x_2.txt".to_string()));
    assert!(used.contains(&['x', '_', '2', '.', 't', 'x', 't']));
    assert_eq!(unique_filename("README", &mut used, &never), Some("README".to_string()));
    let stem: Vec<char> = "s".chars().collect();
    assert_eq!(unique_name(&stem, &[], &mut used, &never), Some("s".to_string()));
}

#[test]
fn names_handed_out_differ() {
    let mut used = NameSet::new();
    let never = |_: &str| false;
    let mut seen = Vec::new();
    for base in ["a.png", "A.png", "a.PNG", "b.png", "a.png"] {
        let n = unique_attachment_name(base, "public.png", &mut used, &never).unwrap();
        assert!(!seen.contains(&n.to_lowercase()));
        seen.push(n.to_lowercase());
    }
    assert_eq!(seen, vec!["a.png", "a_1.png", "a_2.png", "b.png", "a_3.png"]);
}

#[test]
fn attachment_names() {
    let mut used = NameSet::new();
    let never = |_: &str| false;
    assert_eq!(unique_attachment_name("", "public.jpeg", &mut used, &never), Some("attachment.jpg".to_string()));
    assert_eq!(uti_to_extension("com.adobe.PDF"), ".pdf");
    assert_eq!(uti_to_extension("public.heic"), ".heic");
    assert_eq!(uti_to_extension("public.data"), ".bin");
    assert_eq!(sanitize_attachment_name("dir/a:b?.png"), "ab.png");
    assert_eq!(sanitize_attachment_name("???"), "attachment");
    assert!(is_embeddable_attachment("public.jpeg", "x"));
    assert!(is_embeddable_attachment("public.data", "clip.MOV"));
    assert!(!is_embeddable_attachment("public.data", "notes.zip"));
    assert!(is_heic_file("/m/IMG_1.HEIC"));
    assert!(!is_heic_file("/m/IMG_1.jpg"));
    assert_eq!(attachment_base_name("/m/uuid/scan.pdf", "Scan"), "Scan.pdf");
    assert_eq!(attachment_base_name("/m/uuid/IMG_1.heic", ""), "IMG_1.jpg");
    assert_eq!(attachment_base_name("/m/uuid/a.png", "b.jpeg"), "b.jpeg");
    assert_eq!(attachment_link("_attachments", "a.png", "public.png"), "![[_attachments/a.png]]");
    assert_eq!(attachment_link("_attachments", "a.zip", "public.zip-archive"), "[[_attachments/a.zip]]");
}

#[test]
fn note_files_are_named_after_titles() {
    assert_eq!(note_file_title(Some("Shopping\nmilk"), None), "Shopping");
    assert_eq!(note_file_title(None, Some("from snippet")), "from snippet");
    assert_eq!(note_file_title(None, None), "Untitled");
    assert_eq!(note_file_title(Some(""), None), "Untitled");
    let long = "x".repeat(60);
    assert_eq!(note_file_title(Some(&long), None), "x".repeat(50));
    assert_eq!(note_file_base(Some("a/b"), None), "ab.md");
    assert_eq!(note_file_base(Some("  "), None), "Untitled.md");
}

#[test]
fn exported_text_is_tidy() {
    let none: HashMap<usize, String> = HashMap::new();
    let plain = apply_markdown_formatting("  a\r\n\r\n\r\n\r\nb\r\t ", &[], &none);
    assert_eq!(plain, "a\n\nb");
    let text = "Title\n\n\n\nBody  ";
    let runs = vec![run(0, 6, ParagraphStyle::Title, false, false), run(6, 10, ParagraphStyle::Body, false, false)];
    let styled = apply_markdown_formatting(text, &runs, &none);
    assert_eq!(styled, "# Title\n\nBody");
    assert!(!styled.contains("\n\n\n") && !styled.contains('\r'));
}

#[test]
fn unmatched_markers_are_stripped() {
    let mut links: HashMap<usize, String> = HashMap::new();
    links.insert(1, "![[_attachments/x.png]]".to_string());
    let plain = apply_markdown_formatting("a\u{FFFC}b\u{FFFC}", &[], &links);
    assert_eq!(plain, "a\n\n![[_attachments/x.png]]\n\nb");
    let runs = vec![run(0, 4, ParagraphStyle::Body, true, false)];
    let styled = apply_markdown_formatting("a\u{FFFC}b\u{FFFC}", &runs, &links);
    assert_eq!(styled, "**a**\n![[_attachments/x.png]]\n**b**");
    assert!(!styled.contains('\u{FFFC}'));
}
