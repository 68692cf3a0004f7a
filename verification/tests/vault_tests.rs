use notes_inspector::vault::embed_references;
use notes_inspector::vault::extract_md_link_targets;
use notes_inspector::vault::extract_references;
use notes_inspector::vault::extract_wiki_link_targets;
use notes_inspector::vault::is_attachment_file;
use notes_inspector::vault::is_image_reference;
use notes_inspector::vault::is_note_file;
use notes_inspector::vault::resolve_image_embeds;
use notes_inspector::vault::same_chars;
use notes_inspector::vault::unlinked_attachments;
use notes_inspector::vault::unresolved_links;
use notes_inspector::vault::AttachmentAnalysis;
use notes_inspector::vault::DirEntryInfo;
use notes_inspector::vault::IntegrityIssue;
use notes_inspector::vault::IntegrityResult;
use notes_inspector::vault::VaultIndex;
use notes_inspector::vault::VaultScan;

fn strings(v: &[&str]) -> Vec<String> {
    v.iter().map(|s| s.to_string()).collect()
}

#[test]
fn file_kinds_by_extension() {
    assert!(is_note_file("a/b.md"));
    assert!(is_note_file("a/b.TXT"));
    assert!(is_note_file("x.Markdown"));
    assert!(!is_note_file("a/b.png"));
    assert!(!is_note_file("README"));
    assert!(is_attachment_file("pic.PNG"));
    assert!(is_attachment_file("archive.tar"));
    assert!(!is_attachment_file("note.md"));
    assert!(is_image_reference("Photo.JPG"));
    assert!(!is_image_reference("doc.pdf"));
    assert!(same_chars(&['a', 'b'], &['a', 'b']));
    assert!(!same_chars(&['a'], &['A']));
}

#[test]
fn wiki_and_markdown_links() {
    let content = "See [[Note A|alias]] and [[Folder/B#Part]] and ![[img.png]] [[ ]] \
                   [x](other.md) [y](http://e.com) [z](#top) [w]( spaced.pdf )";
    assert_eq!(extract_wiki_link_targets(content), strings(&["Note A", "Folder/B", "img.png"]));
    assert_eq!(extract_md_link_targets(content), strings(&["other.md", "spaced.pdf"]));
    assert_eq!(extract_wiki_link_targets("[[unclosed"), Vec::<String>::new());
}

#[test]
fn references_of_a_note() {
    let mut refs = strings(&["kept"]);
    extract_references("![[pic.png]] and ![alt](sub/doc.pdf) and [[Plain]]", &mut refs);
    assert_eq!(refs, strings(&["kept", "pic.png", "pic", "Plain", "doc.pdf"]));
}

#[test]
fn the_index_resolves_links() {
    let mut idx = VaultIndex::new();
    assert!(!idx.resolves("Note"));
    idx.add_file("/vault/sub/Note.md", Some("sub/Note.md"));
    idx.add_file("/vault/pic.png", Some("pic.png"));
    assert!(idx.resolves("Note.md"));
    assert!(idx.resolves("Note"));
    assert!(idx.resolves("sub/Note"));
    assert!(idx.resolves("sub/Note.md"));
    assert!(idx.resolves("sub\\Note"));
    assert!(idx.resolves("pic.png"));
    assert!(!idx.resolves("Other"));
}

#[test]
fn indexed_files_resolve_and_nothing_is_lost() {
    let mut idx = VaultIndex::new();
    idx.add_file("/v/a/One.md", Some("a/One.md"));
    assert!(idx.resolves("One"));
    idx.add_file("/v/b/Two.txt", None);
    assert!(idx.resolves("One"));
    assert!(idx.resolves("Two.txt"));
    assert!(idx.resolves("Two"));
    assert!(idx.resolves("a/One"));
}

#[test]
fn unresolved_links_are_reported() {
    let mut idx = VaultIndex::new();
    idx.add_file("/v/Known.md", Some("Known.md"));
    let found = unresolved_links("[[Known]] [[Missing]] [t](gone.png) [k](Known.md)", &idx);
    let pairs: Vec<(String, String)> = found.into_iter().map(|c| (c.target, c.shown)).collect();
    assert_eq!(
        pairs,
        vec![
            ("Missing".to_string(), "[[Missing]]".to_string()),
            ("gone.png".to_string(), "gone.png".to_string())
        ]
    );
}

#[test]
fn unlinked_attachments_are_found() {
    let all = strings(&["/v/a.png", "/v/sub/b.pdf", "/v/c.gif"]);
    let refs = strings(&["a.png", "c"]);
    assert_eq!(unlinked_attachments(&all, &refs), strings(&["/v/sub/b.pdf", "/v/c.gif"]));
    let analysis = AttachmentAnalysis::from_parts(&all, &refs);
    assert_eq!(analysis.total_attachments, 3);
    assert_eq!(analysis.linked_attachments, 1);
    assert_eq!(analysis.unlinked.len(), 2);
}

#[test]
fn integrity_counts_follow_the_issues() {
    let issues = vec![
        IntegrityIssue::BrokenLink { source_note: "n.md".to_string(), link_target: "[[x]]".to_string() },
        IntegrityIssue::UnlinkedAttachment { path: "a.png".to_string() },
        IntegrityIssue::BrokenLink { source_note: "m.md".to_string(), link_target: "y".to_string() },
    ];
    let r = IntegrityResult::from_issues(issues, 4, 7);
    assert_eq!(r.broken_links, 2);
    assert_eq!(r.unlinked_attachments, 1);
    assert_eq!(r.notes_scanned, 4);
    assert_eq!(r.attachments_scanned, 7);
    assert_eq!(r.issues.len(), 3);
}

#[test]
fn image_embeds_become_markers() {
    let table = vec![
        ("pic.png".to_string(), "/v/pic.png".to_string()),
        ("img/b.jpg".to_string(), "/v/img/b.jpg".to_string()),
    ];
    let content = "a ![[pic.png|100]] b ![alt](img/b.jpg) c ![[none.png]] ![x](http://e/x.png)";
    assert_eq!(
        resolve_image_embeds(content, &table),
        "a __INLINE_IMAGE__:/v/pic.png\n b __INLINE_IMAGE__:/v/img/b.jpg\n c ![[none.png]] ![x](http://e/x.png)"
    );
    assert_eq!(resolve_image_embeds("plain é", &table), "plain é");
}

#[test]
fn a_preview_needs_only_the_listed_references() {
    let content = "![[pic.png]] text ![alt](img/b.jpg) ![[doc.pdf]]";
    let refs = embed_references(content);
    assert!(refs.contains(&"pic.png".to_string()));
    assert!(refs.contains(&"img/b.jpg".to_string()));
    let listed: Vec<(String, String)> = refs.iter().map(|r| (r.clone(), format!("/v/{r}"))).collect();
    let with_extra = {
        let mut t = listed.clone();
        t.push(("unrelated.png".to_string(), "/elsewhere.png".to_string()));
        t
    };
    assert_eq!(resolve_image_embeds(content, &listed), resolve_image_embeds(content, &with_extra));
}

fn dir(path: &str, name: &str, is_vault: bool) -> DirEntryInfo {
    DirEntryInfo { path: path.to_string(), name: name.to_string(), is_dir: true, is_vault }
}

fn file(path: &str, name: &str) -> DirEntryInfo {
    DirEntryInfo { path: path.to_string(), name: name.to_string(), is_dir: false, is_vault: false }
}

fn listing(d: &str) -> Vec<DirEntryInfo> {
    match d {
        "/home" => vec![
            dir("/home/Zeta", "Zeta", true),
            dir("/home/docs", "docs", false),
            dir("/home/.hidden", ".hidden", true),
            dir("/home/node_modules", "node_modules", false),
            file("/home/x.md", "x.md"),
        ],
        "/home/docs" => vec![dir("/home/docs/alpha", "alpha", true), dir("/home/docs/deep", "deep", false)],
        "/home/docs/deep" => vec![dir("/home/docs/deep/far", "far", true)],
        _ => vec![],
    }
}

fn scan(depth: u32) -> (Vec<String>, Vec<String>, usize) {
    let mut s = VaultScan::new("/home", depth);
    let mut visited = Vec::new();
    while let Some(d) = s.next_dir() {
        visited.push(d.clone());
        s.visit(listing(&d));
    }
    let searched = s.progress.folders_searched;
    (s.into_vaults(), visited, searched)
}

#[test]
fn the_vault_search_is_depth_limited_and_sorted() {
    let (vaults, visited, searched) = scan(2);
    assert_eq!(vaults, strings(&["/home/docs/alpha", "/home/Zeta"]));
    assert_eq!(visited, strings(&["/home", "/home/docs"]));
    assert_eq!(searched, 2);
    let (vaults, _, _) = scan(3);
    assert_eq!(vaults, strings(&["/home/docs/alpha", "/home/docs/deep/far", "/home/Zeta"]));
    let (vaults, visited, _) = scan(0);
    assert!(vaults.is_empty() && visited.is_empty());
}

#[test]
fn progress_counters_do_not_change_the_search() {
    for depth in 0..4 {
        let (plain, plain_visited, plain_searched) = scan(depth);
        let mut s = VaultScan::new("/home", depth);
        s.progress.folders_searched = 40;
        s.progress.current_path = "elsewhere".to_string();
        let mut visited = Vec::new();
        while let Some(d) = s.next_dir() {
            assert_eq!(s.progress.current_path, d);
            visited.push(d.clone());
            s.visit(listing(&d));
        }
        assert_eq!(s.progress.folders_searched, 40 + plain_searched);
        assert_eq!(visited, plain_visited);
        assert_eq!(plain_searched, plain_visited.len());
        assert_eq!(s.into_vaults(), plain);
    }
}
