use notes_inspector::display::display_width;
use notes_inspector::display::format_unix_timestamp;
use notes_inspector::display::is_leap;
use notes_inspector::display::preview_title;
use notes_inspector::display::sanitize_for_display;
use notes_inspector::display::truncate_to_width;
use notes_inspector::display::unix_seconds;
use notes_inspector::layout::dest_rows;
use notes_inspector::layout::list_window;
use notes_inspector::layout::vault_summary;
use notes_inspector::layout::vaults_found_title;
use notes_inspector::layout::DestRow;
use notes_inspector::paths::last_index;
use notes_inspector::paths::name_extension_chars;
use notes_inspector::paths::name_stem_chars;
use notes_inspector::paths::path_extension;
use notes_inspector::paths::path_file_name;
use notes_inspector::paths::path_file_stem;
use notes_inspector::text::before_char_chars;
use notes_inspector::text::chars_of;
use notes_inspector::text::contains_chars;
use notes_inspector::text::find_chars;
use notes_inspector::text::is_control;
use notes_inspector::text::is_whitespace;
use notes_inspector::text::lowercase_chars;
use notes_inspector::text::parse_i64;
use notes_inspector::text::push_decimal;
use notes_inspector::text::replace_chars;
use notes_inspector::text::split_chars;
use notes_inspector::text::starts_with_chars;
use notes_inspector::text::string_of;
use notes_inspector::text::strip_prefix_chars;
use notes_inspector::text::trim_chars;
use notes_inspector::text::trim_start_chars;

fn cs(s: &str) -> Vec<char> {
    s.chars().collect()
}

fn st(v: &[char]) -> String {
    v.iter().collect()
}

#[test]
fn character_classes() {
    assert!(is_whitespace(' ') && is_whitespace('\u{3000}') && is_whitespace('\n'));
    assert!(!is_whitespace('x'));
    assert!(is_control('\u{7}') && is_control('\u{9f}'));
    assert!(!is_control('a') && !is_control('\u{a0}'));
}

#[test]
fn strings_and_characters_round_trip() {
    assert_eq!(chars_of("añb"), cs("añb"));
    assert_eq!(string_of(&cs("añb")), "añb");
    assert_eq!(st(&trim_chars(&cs("  hi there \t"))), "hi there");
    assert_eq!(st(&trim_start_chars(&cs("  hi "))), "hi ");
    assert_eq!(st(&lowercase_chars(&cs("ÄbC"))), "äbc");
}

#[test]
fn searching_and_replacing() {
    assert_eq!(find_chars(&cs("abcabc"), &cs("ca"), 0), Some(2));
    assert_eq!(find_chars(&cs("abcabc"), &cs("bc"), 2), Some(4));
    assert_eq!(find_chars(&cs("abc"), &cs("x"), 0), None);
    assert!(contains_chars(&cs("hello"), &cs("ll")));
    assert!(!contains_chars(&cs("hello"), &cs("lo!")));
    assert_eq!(st(&replace_chars(&cs("a\r\nb\r\n"), &cs("\r\n"), &cs("\n"))), "a\nb\n");
    assert_eq!(st(&before_char_chars(&cs("key=value"), '=')), "key");
    assert_eq!(st(&before_char_chars(&cs("plain"), '=')), "plain");
    assert!(starts_with_chars(&cs("> [!info]"), &cs("> [!")));
    assert_eq!(strip_prefix_chars(&cs("prefix-rest"), &cs("prefix-")).map(|v| st(&v)), Some("rest".to_string()));
    assert_eq!(strip_prefix_chars(&cs("rest"), &cs("prefix")), None);
    let pieces: Vec<String> = split_chars(&cs("a,,b,"), ',').iter().map(|v| st(v)).collect();
    assert_eq!(pieces, vec!["a", "", "b", ""]);
}

#[test]
fn integers_parse_as_std_does() {
    assert_eq!(parse_i64(&cs("123")), Some(123));
    assert_eq!(parse_i64(&cs("-5")), Some(-5));
    assert_eq!(parse_i64(&cs("+7")), Some(7));
    assert_eq!(parse_i64(&cs("")), None);
    assert_eq!(parse_i64(&cs("-")), None);
    assert_eq!(parse_i64(&cs("12a")), None);
    assert_eq!(parse_i64(&cs("9223372036854775807")), Some(i64::MAX));
    assert_eq!(parse_i64(&cs("9223372036854775808")), None);
    assert_eq!(parse_i64(&cs("-9223372036854775808")), Some(i64::MIN));
    let mut out = Vec::new();
    push_decimal(&mut out, 40213);
    assert_eq!(st(&out), "40213");
}

#[test]
fn path_parts() {
    assert_eq!(path_file_name(&cs("a/b.txt")).map(|v| st(&v)), Some("b.txt".to_string()));
    assert_eq!(path_file_name(&cs("a/b/")).map(|v| st(&v)), Some("b".to_string()));
    assert_eq!(path_file_name(&cs("a/..")), None);
    assert_eq!(path_file_name(&cs("/")), None);
    assert_eq!(path_extension(&cs("x/a.tar.gz")).map(|v| st(&v)), Some("gz".to_string()));
    assert_eq!(path_extension(&cs("x/.bashrc")), None);
    assert_eq!(path_file_stem(&cs("x/a.tar.gz")).map(|v| st(&v)), Some("a.tar".to_string()));
    assert_eq!(path_file_stem(&cs("x/.bashrc")).map(|v| st(&v)), Some(".bashrc".to_string()));
    assert_eq!(last_index(&cs("a.b.c"), '.'), Some(3));
    assert_eq!(name_extension_chars(&cs("photo.JPG")).map(|v| st(&v)), Some("JPG".to_string()));
    assert_eq!(st(&name_stem_chars(&cs("photo.JPG"))), "photo");
}

#[test]
fn timestamps_are_formatted_in_utc() {
    assert_eq!(format_unix_timestamp(0), "1970-01-01 00:00");
    assert_eq!(format_unix_timestamp(951831900), "2000-02-29 13:45");
    assert_eq!(format_unix_timestamp(1700000000), "2023-11-14 22:13");
    assert!(is_leap(2000) && is_leap(2024));
    assert!(!is_leap(1900) && !is_leap(2023));
}

#[test]
fn cocoa_times_convert_to_unix_times() {
    assert_eq!(unix_seconds(0), 978307200);
    assert_eq!(unix_seconds(1_500_000), 978307201);
    assert_eq!(unix_seconds(-978_307_200_000_000), 0);
    assert_eq!(preview_title(true, Some(0)), " Preview — Last Modified: 2001-01-01 00:00 ");
    assert_eq!(preview_title(false, Some(0)), " Preview ");
    assert_eq!(preview_title(true, None), " Preview ");
}

#[test]
fn widths_and_truncation() {
    assert_eq!(display_width("héllo"), 5);
    assert_eq!(display_width("日本"), 4);
    assert_eq!(display_width("a\u{7}b"), 2);
    assert_eq!(truncate_to_width("hello world", 5), "hell…");
    assert_eq!(truncate_to_width("hi", 5), "hi");
    assert_eq!(truncate_to_width("日本語", 4), "日…");
}

#[test]
fn truncated_text_keeps_a_fitting_beginning() {
    for (s, max) in [("a long line of text", 7usize), ("日本語テキスト", 5), ("xy", 1)] {
        let t = truncate_to_width(s, max);
        let kept: String = t.chars().take(t.chars().count() - 1).collect();
        assert!(t.ends_with('…'));
        assert!(s.starts_with(&kept));
        assert!(display_width(&kept) + 1 <= max);
        assert!(display_width(&t) <= max);
    }
    assert_eq!(display_width("…"), 1);
    assert_eq!(truncate_to_width("xy", 0), "…");
}

#[test]
fn emoji_sequences_are_shown_in_one_cell() {
    assert_eq!(sanitize_for_display("abc"), "abc");
    assert_eq!(sanitize_for_display("✅ 🧠"), "✅ 🧠");
    assert_eq!(sanitize_for_display("🇫🇷!"), "FR!");
    assert_eq!(sanitize_for_display("🇯🇵🇺🇸"), "JPUS");
    assert_eq!(sanitize_for_display("👍🏽ok"), "👍ok");
    assert_eq!(sanitize_for_display("👨\u{200D}👩\u{200D}👧"), "👨");
    assert_eq!(sanitize_for_display("❤\u{FE0F}"), "❤");
    assert_eq!(sanitize_for_display("e\u{301}x"), "e\u{301}x");
    assert_eq!(sanitize_for_display(""), "");
}

#[test]
fn list_windows_follow_the_selection() {
    assert_eq!(list_window(5, 0, 3), 3);
    assert_eq!(list_window(1, 0, 3), 0);
    assert_eq!(list_window(2, 2, 3), 2);
    assert_eq!(list_window(0, 4, 0), 4);
    assert_eq!(list_window(7, 4, 0), 8);
}

#[test]
fn destination_rows() {
    assert_eq!(
        dest_rows(2, 0, 0, 10),
        vec![
            DestRow::Vault { index: 0, selected: true },
            DestRow::Vault { index: 1, selected: false },
            DestRow::Divider,
            DestRow::Browse { selected: false },
            DestRow::Create { selected: false },
        ]
    );
    assert_eq!(
        dest_rows(0, 1, 0, 10),
        vec![DestRow::Browse { selected: false }, DestRow::Create { selected: true }]
    );
    assert_eq!(
        dest_rows(5, 6, 0, 3),
        vec![DestRow::Vault { index: 4, selected: false }, DestRow::Divider, DestRow::Browse { selected: false }]
    );
    assert_eq!(dest_rows(1, 0, 0, 0), vec![]);
}

#[test]
fn vault_counts_are_worded() {
    assert_eq!(vault_summary(0), "No Obsidian vaults found");
    assert_eq!(vault_summary(1), "Found 1 Obsidian vault");
    assert_eq!(vault_summary(3), "Found 3 Obsidian vaults");
    assert_eq!(vaults_found_title(1), " 1 Obsidian Vault Found ");
    assert_eq!(vaults_found_title(2), " 2 Obsidian Vaults Found ");
}
