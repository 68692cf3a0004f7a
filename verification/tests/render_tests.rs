use notes_inspector::markdown::lines_of_events;
use notes_inspector::markdown::markdown_to_lines;
use notes_inspector::markdown::MdEvent;
use notes_inspector::markdown::SpanKind;
use notes_inspector::markdown::StyledSpan;
use notes_inspector::nav::Key;
use notes_inspector::nav::NoteSource;
use notes_inspector::picture::half_block_rows;
use notes_inspector::picture::HalfBlock;
use notes_inspector::picture::Rgb;
use notes_inspector::preview::clamp_scroll;
use notes_inspector::preview::preview_content;
use notes_inspector::preview::render_text_with_callouts;
use notes_inspector::preview::segment_items;
use notes_inspector::preview::InlineSegment;
use notes_inspector::preview::PreviewContent;
use notes_inspector::preview::PreviewItem;
use notes_inspector::preview::PreviewPart;
use notes_inspector::screens::dest_folder_key;
use notes_inspector::screens::entered_message;
use notes_inspector::screens::folder_key;
use notes_inspector::screens::follow_log;
use notes_inspector::screens::input_key;
use notes_inspector::screens::log_key;
use notes_inspector::screens::source_key;
use notes_inspector::screens::vault_list_key;
use notes_inspector::screens::DestState;
use notes_inspector::screens::ExportAction;
use notes_inspector::screens::FolderAction;
use notes_inspector::screens::SourceAction;
use unicode_width::UnicodeWidthStr;

fn flat(lines: &[Vec<StyledSpan>]) -> Vec<Vec<(String, SpanKind)>> {
    lines.iter().map(|l| l.iter().map(|s| (s.text.clone(), s.kind)).collect()).collect()
}

fn text(s: &str) -> MdEvent {
    MdEvent::Text(s.to_string())
}

const PLAIN: SpanKind = SpanKind::Text { bold: false, italic: false };

fn sp(t: &str, k: SpanKind) -> (String, SpanKind) {
    (t.to_string(), k)
}

#[test]
fn headings_and_paragraphs() {
    let events = vec![
        MdEvent::StartHeading(1),
        text("Hi"),
        MdEvent::EndHeading,
        MdEvent::StartParagraph,
        text("Hello world"),
        MdEvent::EndParagraph,
    ];
    assert_eq!(
        flat(&lines_of_events(&events, 80)),
        vec![vec![sp("# Hi", SpanKind::Heading(1))], vec![sp("Hello", PLAIN), sp(" world", PLAIN)]]
    );
    assert!(lines_of_events(&Vec::new(), 80).is_empty());
}

#[test]
fn words_wrap_to_the_width() {
    let events = vec![MdEvent::StartParagraph, text("aaaa bbbb cccc"), MdEvent::EndParagraph];
    assert_eq!(
        flat(&lines_of_events(&events, 10)),
        vec![vec![sp("aaaa", PLAIN), sp(" bbbb", PLAIN)], vec![sp("cccc", PLAIN)]]
    );
    let long = vec![MdEvent::StartParagraph, text("abcdefg"), MdEvent::EndParagraph];
    assert_eq!(
        flat(&lines_of_events(&long, 3)),
        vec![vec![sp("abc", PLAIN)], vec![sp("def", PLAIN)], vec![sp("g", PLAIN)]]
    );
    assert_eq!(flat(&lines_of_events(&long, 0)), vec![vec![sp("abcdefg", PLAIN)]]);
}

#[test]
fn styles_follow_the_events() {
    let events = vec![
        MdEvent::StartParagraph,
        MdEvent::StartStrong,
        text("b"),
        MdEvent::EndStrong,
        MdEvent::StartEmphasis,
        text("i"),
        MdEvent::EndEmphasis,
        MdEvent::Code("x".to_string()),
        MdEvent::SoftBreak,
        MdEvent::StartLink,
        text("t"),
        MdEvent::EndLink,
        MdEvent::StartImage("p.png".to_string()),
        MdEvent::EndOther,
        MdEvent::EndParagraph,
    ];
    assert_eq!(
        flat(&lines_of_events(&events, 80)),
        vec![vec![
            sp("b", SpanKind::Text { bold: true, italic: false }),
            sp("i", SpanKind::Text { bold: false, italic: true }),
            sp("`x`", SpanKind::InlineCode),
            sp(" ", SpanKind::Plain),
            sp("[", SpanKind::LinkBracket),
            sp("t", PLAIN),
            sp("]", SpanKind::LinkBracket),
            sp("[Image: p.png]", SpanKind::ImageRef),
        ]]
    );
}

#[test]
fn lists_quotes_code_and_rules() {
    let events = vec![
        MdEvent::StartList,
        MdEvent::StartItem,
        text("one"),
        MdEvent::EndItem,
        MdEvent::EndList,
        MdEvent::StartBlockQuote,
        text("q"),
        MdEvent::EndBlockQuote,
        MdEvent::StartCodeBlock,
        text("fn x\r\nlet y\n"),
        MdEvent::EndCodeBlock,
        MdEvent::Rule,
    ];
    assert_eq!(
        flat(&lines_of_events(&events, 5)),
        vec![
            vec![sp("• ", SpanKind::Plain), sp("one", PLAIN)],
            vec![],
            vec![sp("│ ", SpanKind::QuoteBar), sp("q", PLAIN)],
            vec![sp("  fn x", SpanKind::CodeLine)],
            vec![sp("  let y", SpanKind::CodeLine)],
            vec![sp("─────", SpanKind::Rule)],
            vec![],
        ]
    );
}

#[test]
fn a_blank_line_separates_paragraphs_but_not_a_list() {
    let paras = vec![
        MdEvent::StartParagraph,
        text("a"),
        MdEvent::EndParagraph,
        MdEvent::StartParagraph,
        text("b"),
        MdEvent::EndParagraph,
    ];
    assert_eq!(flat(&lines_of_events(&paras, 80)), vec![vec![sp("a", PLAIN)], vec![], vec![sp("b", PLAIN)]]);
    let then_list = vec![
        MdEvent::StartParagraph,
        text("a"),
        MdEvent::EndParagraph,
        MdEvent::StartList,
        MdEvent::StartItem,
        MdEvent::StartList,
        MdEvent::StartItem,
        text("n"),
        MdEvent::EndItem,
        MdEvent::EndList,
        MdEvent::EndItem,
        MdEvent::EndList,
    ];
    assert_eq!(
        flat(&lines_of_events(&then_list, 80)),
        vec![vec![sp("a", PLAIN)], vec![sp("• ", SpanKind::Plain)], vec![sp("  • ", SpanKind::Plain), sp("n", PLAIN)], vec![]]
    );
}

fn parts(ps: &[PreviewPart]) -> Vec<String> {
    ps.iter()
        .map(|p| match p {
            PreviewPart::Markdown(m) => format!("md:{m}"),
            PreviewPart::Line(l) => format!("line:{}", l.iter().map(|s| s.text.clone()).collect::<Vec<_>>().join("|")),
        })
        .collect()
}

#[test]
fn callouts_become_framed_lines() {
    let r = render_text_with_callouts("Intro\n> [!info]\n> body\n>\nafter", 20);
    let head = "│ ℹ  INFO";
    let pad = |w: usize| " ".repeat(20 - w);
    assert_eq!(
        parts(&r),
        vec![
            "md:Intro\n".to_string(),
            format!("line:{head}|{}", pad(UnicodeWidthStr::width(head))),
            format!("line:│ |body|{}", pad(UnicodeWidthStr::width("│ body"))),
            format!("line:│ |{}", pad(UnicodeWidthStr::width("│ "))),
            "line:".to_string(),
            "line:".to_string(),
            "md:after\n".to_string(),
        ]
    );
    match &r[1] {
        PreviewPart::Line(l) => {
            assert_eq!(l[0].kind, SpanKind::CalloutHeader);
            assert_eq!(l[1].kind, SpanKind::CalloutPad);
        },
        _ => panic!("expected a line"),
    }
}

#[test]
fn callouts_name_their_type_in_capitals_and_stay_narrow_lines_unpadded() {
    let r = render_text_with_callouts("> [!warning]]\n> x", 3);
    assert_eq!(parts(&r), vec!["line:│ ℹ  WARNING", "line:│ |x", "line:", "line:"]);
}

#[test]
fn extra_blank_lines_are_kept() {
    let r = render_text_with_callouts("a\n\n\n\nb", 10);
    assert_eq!(parts(&r), vec!["md:a\n\n", "line:", "line:", "md:b\n"]);
    let r = render_text_with_callouts("a\n\nb", 10);
    assert_eq!(parts(&r), vec!["md:a\n\nb\n"]);
    let r = render_text_with_callouts("a\n\n\n", 10);
    assert_eq!(parts(&r), vec!["md:a\n\n", "line:", "line:"]);
}

#[test]
fn preview_contents() {
    match preview_content("__IMAGE__:/p.png") {
        PreviewContent::Image(p) => assert_eq!(p, "/p.png"),
        other => panic!("unexpected {other:?}"),
    }
    match preview_content("just text") {
        PreviewContent::Text(t) => assert_eq!(t, "just text"),
        other => panic!("unexpected {other:?}"),
    }
    let segs = match preview_content("a\n__INLINE_IMAGE__:/x.png\nmore__INLINE_IMAGE__:/d/file.txt") {
        PreviewContent::Inline(s) => s,
        other => panic!("unexpected {other:?}"),
    };
    assert_eq!(segs.len(), 3);
    assert_eq!(segs[0].candidate, "a");
    assert_eq!(segs[0].after.as_deref(), Some("\n"));
    assert_eq!(segs[1].candidate, "/x.png");
    assert_eq!(segs[1].after.as_deref(), Some("\nmore"));
    assert_eq!(segs[2].candidate, "/d/file.txt");
    assert_eq!(segs[2].after, None);
    let items = segment_items(&segs[1], true);
    assert!(matches!(&items[0], PreviewItem::Image(p) if p == "/x.png"));
    assert!(matches!(&items[1], PreviewItem::Text(t) if t == "\nmore"));
    assert_eq!(items.len(), 2);
    let items = segment_items(&segs[0], false);
    assert!(matches!(&items[..], [PreviewItem::Text(t)] if t == "a\n"));
    let items = segment_items(&segs[2], true);
    match &items[..] {
        [PreviewItem::Line(l)] => {
            assert_eq!(l[0].text, "[Attachment: file.txt]");
            assert_eq!(l[0].kind, SpanKind::Dim);
        },
        _ => panic!("expected one attachment line"),
    }
    let upper = InlineSegment { segment: "/P.JPEG\n \n".to_string(), candidate: "/P.JPEG".to_string(), after: Some("\n \n".to_string()) };
    let items = segment_items(&upper, true);
    assert!(matches!(&items[..], [PreviewItem::Image(p)] if p == "/P.JPEG"));
}

#[test]
fn scrolling_stops_at_the_last_screen() {
    assert_eq!(clamp_scroll(10, 4, 9), 6);
    assert_eq!(clamp_scroll(10, 4, 2), 2);
    assert_eq!(clamp_scroll(3, 5, 2), 0);
}

#[test]
fn pictures_are_drawn_two_rows_per_line() {
    let (w, h) = (2u32, 3u32);
    let mut buf = Vec::new();
    for y in 0..h {
        for x in 0..w {
            buf.extend([(x * 10 + y) as u8, 100 + y as u8, 200]);
        }
    }
    let rows = half_block_rows(&buf, w, h);
    let px = |x: u32, y: u32| Rgb { r: (x * 10 + y) as u8, g: 100 + y as u8, b: 200 };
    assert_eq!(
        rows,
        vec![
            vec![HalfBlock { top: px(0, 0), bottom: px(0, 1) }, HalfBlock { top: px(1, 0), bottom: px(1, 1) }],
            vec![HalfBlock { top: px(0, 2), bottom: px(0, 2) }, HalfBlock { top: px(1, 2), bottom: px(1, 2) }],
        ]
    );
    assert!(half_block_rows(&Vec::new(), 0, 0).is_empty());
    assert_eq!(half_block_rows(&Vec::new(), 0, 4), vec![Vec::<HalfBlock>::new(), Vec::new()]);
}

#[test]
fn the_source_screen() {
    assert_eq!(source_key(0, Key::Down), (1, SourceAction::Nothing));
    assert_eq!(source_key(1, Key::Char('j')), (1, SourceAction::Nothing));
    assert_eq!(source_key(1, Key::Up), (0, SourceAction::Nothing));
    assert_eq!(source_key(0, Key::Enter), (0, SourceAction::Open(NoteSource::AppleNotes)));
    assert_eq!(source_key(1, Key::Enter), (1, SourceAction::Open(NoteSource::Obsidian)));
    assert_eq!(source_key(1, Key::Char('q')), (1, SourceAction::Quit));
    assert_eq!(source_key(0, Key::Esc), (0, SourceAction::Quit));
}

#[test]
fn the_vault_picker() {
    assert_eq!(folder_key(0, 0, 3, Key::Down), (1, 0, FolderAction::Nothing));
    assert_eq!(folder_key(2, 2, 3, Key::Up), (1, 1, FolderAction::Nothing));
    assert_eq!(folder_key(1, 0, 3, Key::Enter), (1, 0, FolderAction::Open(1)));
    assert_eq!(folder_key(0, 0, 0, Key::Enter), (0, 0, FolderAction::Nothing));
    assert_eq!(folder_key(1, 0, 3, Key::Left), (1, 0, FolderAction::Parent));
    assert_eq!(folder_key(1, 0, 3, Key::Esc), (1, 0, FolderAction::Back));
    assert_eq!(entered_message(0), Some("No subdirectories found".to_string()));
    assert_eq!(entered_message(2), None);
}

#[test]
fn typing_a_name() {
    let mut input = Some(String::from("  my"));
    assert_eq!(input_key(&mut input, Key::Char(' ')), None);
    assert_eq!(input_key(&mut input, Key::Char('v')), None);
    assert_eq!(input_key(&mut input, Key::Char('*')), None);
    assert_eq!(input.as_deref(), Some("  my v"));
    assert_eq!(input_key(&mut input, Key::Enter), Some("my v".to_string()));
    assert_eq!(input, None);
    let mut blank = Some(String::from("   "));
    assert_eq!(input_key(&mut blank, Key::Enter), None);
    assert_eq!(blank, None);
    let mut cancel = Some(String::from("x"));
    assert_eq!(input_key(&mut cancel, Key::Esc), None);
    assert_eq!(cancel, None);
}

fn dest(selected: usize) -> DestState {
    DestState { selected, scroll: 0, input: None }
}

#[test]
fn the_vault_list() {
    let mut s = dest(0);
    assert!(matches!(vault_list_key(&mut s, None, Key::Down), ExportAction::Nothing));
    assert_eq!(s.selected, 0);
    assert!(matches!(vault_list_key(&mut s, None, Key::Esc), ExportAction::BackToSource));
    assert!(matches!(vault_list_key(&mut s, Some(2), Key::Enter), ExportAction::ExportToVault(0)));
    vault_list_key(&mut s, Some(2), Key::Down);
    vault_list_key(&mut s, Some(2), Key::Down);
    assert_eq!(s.selected, 2);
    assert!(matches!(vault_list_key(&mut s, Some(2), Key::Enter), ExportAction::Browse));
    vault_list_key(&mut s, Some(2), Key::Down);
    vault_list_key(&mut s, Some(2), Key::Down);
    assert_eq!(s.selected, 3);
    assert!(matches!(vault_list_key(&mut s, Some(2), Key::Enter), ExportAction::Nothing));
    assert_eq!(s.input.as_deref(), Some(""));
    vault_list_key(&mut s, Some(2), Key::Char('V'));
    match vault_list_key(&mut s, Some(2), Key::Enter) {
        ExportAction::CreateVault(n) => assert_eq!(n, "V"),
        other => panic!("unexpected {other:?}"),
    }
    assert!(s.input.is_none());
    assert!(matches!(vault_list_key(&mut s, Some(2), Key::Char('q')), ExportAction::BackToBrowser));
}

#[test]
fn the_destination_folder_browser() {
    let mut s = dest(1);
    assert!(matches!(dest_folder_key(&mut s, 3, Key::Enter), ExportAction::Enter(1)));
    assert!(matches!(dest_folder_key(&mut s, 3, Key::Backspace), ExportAction::Parent));
    assert!(matches!(dest_folder_key(&mut s, 3, Key::Char('x')), ExportAction::ExportHere));
    assert!(matches!(dest_folder_key(&mut s, 3, Key::Char('k')), ExportAction::Nothing));
    assert_eq!(s.selected, 0);
    assert!(matches!(dest_folder_key(&mut s, 3, Key::Char('n')), ExportAction::Nothing));
    assert_eq!(s.input.as_deref(), Some(""));
    assert!(matches!(dest_folder_key(&mut s, 3, Key::Char('x')), ExportAction::Nothing));
    assert_eq!(s.input.as_deref(), Some("x"));
    assert!(matches!(dest_folder_key(&mut s, 3, Key::Esc), ExportAction::Nothing));
    assert!(s.input.is_none());
    assert!(matches!(dest_folder_key(&mut s, 3, Key::Esc), ExportAction::BackToBrowser));
    assert!(matches!(dest_folder_key(&mut dest(5), 3, Key::Enter), ExportAction::Nothing));
}

#[test]
fn the_export_log_screen() {
    assert_eq!(log_key(3, 10, false, Key::Esc), (3, false));
    assert_eq!(log_key(3, 10, true, Key::Char('q')), (3, true));
    assert_eq!(log_key(3, 10, false, Key::Down), (4, false));
    assert_eq!(log_key(3, 10, true, Key::PageDown), (9, false));
    assert_eq!(follow_log(0), 0);
    assert_eq!(follow_log(12), 11);
}


#[test]
fn markdown_text_is_parsed_then_rendered() {
    assert_eq!(
        flat(&markdown_to_lines("# Hi\n\nHello world", 80)),
        vec![vec![sp("# Hi", SpanKind::Heading(1))], vec![sp("Hello", PLAIN), sp(" world", PLAIN)]]
    );
    let list = vec![
        MdEvent::StartList,
        MdEvent::StartItem,
        text("a"),
        MdEvent::EndItem,
        MdEvent::StartItem,
        text("b"),
        MdEvent::EndItem,
        MdEvent::EndList,
    ];
    assert_eq!(flat(&markdown_to_lines("- a\n- b", 80)), flat(&lines_of_events(&list, 80)));
    let emphasis = vec![
        MdEvent::StartParagraph,
        MdEvent::StartStrong,
        text("b"),
        MdEvent::EndStrong,
        text(" and "),
        MdEvent::StartEmphasis,
        text("i"),
        MdEvent::EndEmphasis,
        MdEvent::EndParagraph,
    ];
    assert_eq!(flat(&markdown_to_lines("**b** and *i*", 80)), flat(&lines_of_events(&emphasis, 80)));
    assert!(markdown_to_lines("", 80).is_empty());
}
