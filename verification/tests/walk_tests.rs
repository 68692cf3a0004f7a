use notes_inspector::exporter::known_file_name;
use notes_inspector::exporter::search_ids;
use notes_inspector::preview::attachment_preview;
use notes_inspector::schema::join_columns;
use notes_inspector::search::attachment_dirs;
use notes_inspector::search::FileEntry;
use notes_inspector::search::FileSearch;
use notes_inspector::search::SearchStep;
use notes_inspector::vault::DirEntryInfo;
use notes_inspector::walk::sort_config_files;
use notes_inspector::walk::vault_entry;
use notes_inspector::walk::visible_subdirs;
use notes_inspector::walk::ConfigFile;
use notes_inspector::walk::VaultEntry;

fn strings(v: &[&str]) -> Vec<String> {
    v.iter().map(|s| s.to_string()).collect()
}

fn file(dir: &str, name: &str) -> FileEntry {
    FileEntry { path: format!("{dir}/{name}"), name: name.to_string(), is_file: true, is_dir: false }
}

fn sub(dir: &str, name: &str) -> FileEntry {
    FileEntry { path: format!("{dir}/{name}"), name: name.to_string(), is_file: false, is_dir: true }
}

fn run_search(root: &str, depth: u32, list: impl Fn(&str) -> Option<Vec<FileEntry>>) -> (Option<String>, Vec<String>) {
    let mut s = FileSearch::new(root, depth);
    let mut asked = Vec::new();
    loop {
        match s.next() {
            SearchStep::List(d) => {
                asked.push(d.clone());
                s.answer(list(&d));
            },
            SearchStep::Done(r) => return (r, asked),
        }
    }
}

#[test]
fn media_files_are_preferred_and_metadata_skipped() {
    let list = |d: &str| match d {
        "/m" => Some(vec![file("/m", "._x"), file("/m", "note.txt"), sub("/m", "sub"), file("/m", "late.png")]),
        "/m/sub" => Some(vec![file("/m/sub", ".DS_Store"), file("/m/sub", "pic.PNG")]),
        _ => None,
    };
    let (found, asked) = run_search("/m", 3, list);
    assert_eq!(found, Some("/m/sub/pic.PNG".to_string()));
    assert_eq!(asked, strings(&["/m", "/m/sub"]));
}

#[test]
fn the_first_plain_file_is_the_fallback() {
    let list = |d: &str| match d {
        "/m" => Some(vec![file("/m", "a.txt"), sub("/m", "empty"), file("/m", "b.txt")]),
        "/m/empty" => Some(vec![]),
        _ => None,
    };
    assert_eq!(run_search("/m", 3, list).0, Some("/m/a.txt".to_string()));
    let nested = |d: &str| match d {
        "/m" => Some(vec![sub("/m", "s"), file("/m", "top.pdf")]),
        "/m/s" => Some(vec![file("/m/s", "inner.dat")]),
        _ => None,
    };
    assert_eq!(run_search("/m", 3, nested).0, Some("/m/s/inner.dat".to_string()));
}

#[test]
fn only_metadata_files_give_no_answer() {
    let list = |d: &str| match d {
        "/m" => Some(vec![file("/m", ".DS_Store"), file("/m", "._photo.jpg"), sub("/m", "s")]),
        "/m/s" => Some(vec![file("/m/s", "._a.png")]),
        _ => None,
    };
    assert_eq!(run_search("/m", 3, list), (None, strings(&["/m", "/m/s"])));
}

#[test]
fn the_search_is_depth_limited() {
    let list = |d: &str| match d {
        "/m" => Some(vec![sub("/m", "s")]),
        "/m/s" => Some(vec![file("/m/s", "x.png")]),
        _ => None,
    };
    assert_eq!(run_search("/m", 1, list), (None, strings(&["/m"])));
    assert_eq!(run_search("/m", 2, list).0, Some("/m/s/x.png".to_string()));
    assert_eq!(run_search("/m", 0, list), (None, vec![]));
    assert_eq!(run_search("/gone", 3, list), (None, strings(&["/gone"])));
}

#[test]
fn attachment_directories() {
    assert_eq!(
        attachment_dirs("/base", &strings(&["/base/Accounts/A"]), "U", true),
        strings(&[
            "/base/Accounts/A/Media/U",
            "/base/Accounts/A/FallbackImages/U",
            "/base/Accounts/A/Previews/U",
            "/base/Media/U",
            "/base/FallbackImages/U",
        ])
    );
    assert_eq!(attachment_dirs("/b", &Vec::new(), "U", false), strings(&["/b/Media/U"]));
}

#[test]
fn join_table_columns() {
    assert_eq!(join_columns(&strings(&["Z_PK", "Z_12FOLDERS", "Z_9NOTES"])), Some((1, 2)));
    assert_eq!(join_columns(&strings(&["Z_NOTEFOLDER", "z_notes"])), Some((0, 1)));
    assert_eq!(join_columns(&strings(&["Z_PK", "Z_9NOTES"])), None);
    assert_eq!(join_columns(&Vec::new()), None);
}

#[test]
fn vault_entries() {
    assert!(matches!(vault_entry(".obsidian", "/v/.obsidian", true), VaultEntry::Hidden));
    assert!(matches!(vault_entry("sub", "/v/sub", true), VaultEntry::Folder));
    assert!(matches!(vault_entry("A.md", "/v/A.md", false), VaultEntry::Note(n) if n == "A"));
    assert!(matches!(vault_entry("B.TXT", "/v/B.TXT", false), VaultEntry::Note(n) if n == "B"));
    assert!(matches!(vault_entry("x.png", "/v/x.png", false), VaultEntry::Attachment));
}

fn entry(path: &str, name: &str, is_dir: bool) -> DirEntryInfo {
    DirEntryInfo { path: path.to_string(), name: name.to_string(), is_dir, is_vault: false }
}

#[test]
fn folder_pickers_list_visible_subdirectories_by_name() {
    let entries = vec![entry("/p/b", "b", true), entry("/p/.git", ".git", true), entry("/p/a", "a", true), entry("/p/f", "f", false), entry("/p/B", "B", true)];
    assert_eq!(visible_subdirs(entries), strings(&["/p/B", "/p/a", "/p/b"]));
}

#[test]
fn configuration_files_by_name() {
    let files = vec![
        ConfigFile { name: "b.json".to_string(), content: "{}".to_string() },
        ConfigFile { name: "a.json".to_string(), content: "[]".to_string() },
    ];
    let sorted = sort_config_files(files);
    assert_eq!(sorted[0].name, "a.json");
    assert_eq!(sorted[0].content, "[]");
    assert_eq!(sorted[1].name, "b.json");
}

#[test]
fn attachment_names_and_identifiers() {
    assert_eq!(known_file_name(None, Some("m.png".to_string()), Some("o.png".to_string()), None), "m.png");
    assert_eq!(known_file_name(None, None, None, Some("Title".to_string())), "Title");
    assert_eq!(known_file_name(None, None, None, None), "");
    assert_eq!(search_ids(vec![Some("m2".to_string()), None, Some("a".to_string())]), strings(&["m2", "a"]));
    assert!(search_ids(vec![None, None]).is_empty());
}

#[test]
fn selected_attachments_are_previewed() {
    assert_eq!(attachment_preview("pic.PNG", "/v/pic.PNG"), "__IMAGE__:/v/pic.PNG");
    assert_eq!(attachment_preview("doc.pdf", "/v/doc.pdf"), "Attachment: doc.pdf\nType: pdf\nPath: /v/doc.pdf");
    assert_eq!(attachment_preview("README", "/v/README"), "Attachment: README\nType: \nPath: /v/README");
}
