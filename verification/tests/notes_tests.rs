use std::io::Write;

use notes_inspector::diagnosis::marker_indices;
use notes_inspector::diagnosis::run_at;
use notes_inspector::diagnosis::skipped_attachments;
use notes_inspector::diagnosis::unmatched_markers;
use notes_inspector::note::note_pk_of;
use notes_inspector::note::clear_note_cache;
use notes_inspector::note::decode_note_blob;
use notes_inspector::note::decompress_gzip;
use notes_inspector::note::extract_from_zdata;
use notes_inspector::note::extract_from_zdata_styled;
use notes_inspector::note::extract_note_content_with_attachments;
use notes_inspector::note::extract_note_full;
use notes_inspector::note::read_note;
use notes_inspector::note::render_note;
use notes_inspector::note::sanitize_filename;
use notes_inspector::note::NoteCache;
use notes_inspector::note::ParagraphStyle;
use notes_inspector::proto::parse_proto_fields;
use notes_inspector::proto::proto_get_all_bytes;
use notes_inspector::proto::proto_get_bytes;
use notes_inspector::proto::proto_get_string;
use notes_inspector::proto::proto_get_varint;
use notes_inspector::proto::read_varint;

fn varint(mut v: u64) -> Vec<u8> {
    let mut out = Vec::new();
    loop {
        let b = (v & 0x7f) as u8;
        v >>= 7;
        if v == 0 {
            out.push(b);
            return out;
        }
        out.push(b | 0x80);
    }
}

fn field_varint(num: u32, v: u64) -> Vec<u8> {
    let mut out = varint(((num as u64) << 3) | 0);
    out.extend(varint(v));
    out
}

fn field_bytes(num: u32, data: &[u8]) -> Vec<u8> {
    let mut out = varint(((num as u64) << 3) | 2);
    out.extend(varint(data.len() as u64));
    out.extend_from_slice(data);
    out
}

fn attachment_run(len: u64, uuid: &str, uti: &str) -> Vec<u8> {
    let mut info = field_bytes(1, uuid.as_bytes());
    info.extend(field_bytes(2, uti.as_bytes()));
    let mut run = field_varint(1, len);
    run.extend(field_bytes(12, &info));
    run
}

fn document(text: &str, runs: &[Vec<u8>]) -> Vec<u8> {
    let mut content = field_bytes(2, text.as_bytes());
    for r in runs {
        content.extend(field_bytes(5, r));
    }
    let note = field_bytes(3, &content);
    field_bytes(2, &note)
}

fn gzip(data: &[u8]) -> Vec<u8> {
    let mut enc = flate2::write::GzEncoder::new(Vec::new(), flate2::Compression::default());
    enc.write_all(data).unwrap();
    enc.finish().unwrap()
}

#[test]
fn varint_reads_value_and_length() {
    assert_eq!(read_varint(&[0x96, 0x01]), Some((150, 2)));
    assert_eq!(read_varint(&[0x05, 0xff]), Some((5, 1)));
    assert_eq!(read_varint(&[0x80]), None);
    assert_eq!(read_varint(&[]), None);
    let too_long = [0xffu8; 11];
    assert_eq!(read_varint(&too_long), None);
}

#[test]
fn fields_of_a_message() {
    let mut msg = field_varint(1, 150);
    msg.extend(field_bytes(2, b"hi"));
    msg.extend(field_bytes(2, b"yo"));
    let fields = parse_proto_fields(&msg);
    assert_eq!(fields.len(), 3);
    assert_eq!(fields[0].field_number, 1);
    assert_eq!(fields[0].wire_type, 0);
    assert_eq!(fields[0].data, vec![0x96, 0x01]);
    assert_eq!(proto_get_varint(&fields, 1), Some(150));
    assert_eq!(proto_get_varint(&fields, 2), None);
    let one = parse_proto_fields(&[0x08, 0x96, 0x01]);
    assert_eq!(one.len(), 1);
    assert_eq!((one[0].field_number, one[0].wire_type, one[0].data.clone()), (1, 0, vec![0x96, 0x01]));
    assert_eq!(proto_get_bytes(&fields, 2), Some(&b"hi"[..]));
    assert_eq!(proto_get_string(&fields, 2), Some("hi".to_string()));
    assert_eq!(proto_get_all_bytes(&fields, 2), vec![&b"hi"[..], &b"yo"[..]]);
    assert_eq!(proto_get_string(&fields, 3), None);
}

#[test]
fn fixed_width_fields_and_truncation() {
    let mut msg = vec![0x09];
    msg.extend([1, 2, 3, 4, 5, 6, 7, 8]);
    msg.push(0x15);
    msg.extend([9, 9, 9, 9]);
    let fields = parse_proto_fields(&msg);
    assert_eq!(fields.len(), 2);
    assert_eq!(fields[0].wire_type, 1);
    assert_eq!(fields[0].data, vec![1, 2, 3, 4, 5, 6, 7, 8]);
    assert_eq!(fields[1].wire_type, 5);
    assert_eq!(fields[1].data, vec![9, 9, 9, 9]);
    // A length running past the end stops the parse.
    assert_eq!(parse_proto_fields(&[0x12, 0x05, b'a']).len(), 0);
    // Field number zero stops it too.
    assert_eq!(parse_proto_fields(&[0x00, 0x01]).len(), 0);
    // So does an unknown wire type, after the fields before it.
    let mut bad = field_varint(1, 7);
    bad.push(0x0b);
    assert_eq!(parse_proto_fields(&bad).len(), 1);
    // Invalid UTF-8 is no string.
    let fields = parse_proto_fields(&field_bytes(4, &[0xff, 0xfe]));
    assert_eq!(proto_get_string(&fields, 4), None);
}

#[test]
fn note_text_attachments_and_runs() {
    let text = "a\u{FFFC}b";
    let mut plain = field_varint(1, 1);
    plain.extend(field_varint(5, 1));
    let runs = vec![plain, attachment_run(1, "UUID1", "public.jpeg"), field_varint(1, 1)];
    let doc = document(text, &runs);
    let (t, atts, styles) = extract_note_full(&doc);
    assert_eq!(t, text);
    assert_eq!(atts.len(), 1);
    assert_eq!(atts[0].position, 1);
    assert_eq!(atts[0].uuid, "UUID1");
    assert_eq!(atts[0].type_uti, "public.jpeg");
    assert_eq!(styles.len(), 3);
    assert_eq!(styles[0].offset, 0);
    assert!(styles[0].inline_style.bold);
    assert!(!styles[0].inline_style.italic);
    assert_eq!(styles[1].offset, 1);
    assert_eq!(styles[2].offset, 2);
    assert_eq!(styles[2].paragraph, ParagraphStyle::Body);
    let (t2, atts2) = extract_note_content_with_attachments(&doc);
    assert_eq!(t2, text);
    assert_eq!(atts2.len(), 1);
}

#[test]
fn hashtags_are_not_attachments() {
    let text = "\u{FFFC} x \u{FFFC}";
    let runs = vec![
        attachment_run(1, "TAG", "com.apple.notes.inlinetextattachment.hashtag"),
        field_varint(1, 3),
        attachment_run(1, "IMG", "public.png"),
    ];
    let doc = document(text, &runs);
    let (_, atts, _) = extract_note_full(&doc);
    assert_eq!(atts.len(), 1);
    assert_eq!(atts[0].uuid, "IMG");
    assert_eq!(atts[0].position, 4);
    let skipped = skipped_attachments(&doc).unwrap();
    assert_eq!(skipped.len(), 1);
    assert_eq!(skipped[0].pos, 0);
    assert_eq!(skipped[0].uuid, "TAG");
    let marks = marker_indices(text);
    assert_eq!(marks, vec![0, 4]);
    assert_eq!(unmatched_markers(&marks, &atts, &skipped), Vec::<usize>::new());
    assert_eq!(unmatched_markers(&marks, &Vec::new(), &skipped), vec![4]);
}

#[test]
fn checkbox_and_heading_runs() {
    let mut todo = field_bytes(1, b"T");
    todo.extend(field_varint(2, 1));
    let mut para = field_varint(1, 103);
    para.extend(field_varint(4, 2));
    para.extend(field_bytes(5, &todo));
    let mut run = field_varint(1, 5);
    run.extend(field_bytes(2, &para));
    let heading = field_varint(1, 2);
    let mut hrun = field_varint(1, 3);
    hrun.extend(field_bytes(2, &heading));
    let doc = document("done\nHi\n", &[run, hrun]);
    let (_, _, styles) = extract_note_full(&doc);
    assert_eq!(styles[0].paragraph, ParagraphStyle::Checkbox { checked: true });
    assert_eq!(styles[0].indent, 2);
    assert_eq!(styles[1].paragraph, ParagraphStyle::Heading);
    assert_eq!(styles[1].offset, 5);
    assert_eq!(run_at(&styles, 6), Some(1));
    assert_eq!(run_at(&styles, 4), Some(0));
    assert_eq!(run_at(&styles, 8), None);
}

#[test]
fn documents_without_content() {
    let (t, a, s) = extract_note_full(&[]);
    assert_eq!(t, "");
    assert!(a.is_empty() && s.is_empty());
    assert!(skipped_attachments(&field_bytes(2, &[])).is_none());
}

#[test]
fn gzip_is_decoded_and_plain_data_kept() {
    let doc = document("hello", &[]);
    let packed = gzip(&doc);
    assert_eq!(decompress_gzip(&packed), Some(doc.clone()));
    assert_eq!(decompress_gzip(b"plain"), Some(b"plain".to_vec()));
    assert_eq!(decompress_gzip(&[]), Some(Vec::new()));
    assert_eq!(decompress_gzip(&[0x1f, 0x8b, 0x00]), None);
    let (t, atts) = extract_from_zdata(&packed);
    assert_eq!(t, "hello");
    assert!(atts.is_empty());
    let (t, _, runs) = extract_from_zdata_styled(&packed);
    assert_eq!(t, "hello");
    assert!(runs.is_empty());
    assert_eq!(extract_from_zdata(&[0x1f, 0x8b, 0x00]).0, "");
}

#[test]
fn note_blobs_decode_or_say_why_not() {
    let doc = gzip(&document("body", &[]));
    let (t, _, _) = decode_note_blob(&doc).unwrap();
    assert_eq!(t, "body");
    assert_eq!(decode_note_blob(&[0x1f, 0x8b, 0x01]).unwrap_err(), "Could not decompress note content.");
    assert_eq!(decode_note_blob(b"").unwrap_err(), "Could not decode note content.");
}

#[test]
fn rendered_notes_show_images_inline() {
    let text = "see \u{FFFC} and \u{FFFC}";
    let doc = document(text, &[field_varint(1, 4), attachment_run(1, "A", "public.png"), field_varint(1, 5), attachment_run(1, "B", "public.png")]);
    let (t, atts, runs) = extract_note_full(&doc);
    let paths = vec![Some("/tmp/a.png".to_string()), None];
    let r = render_note(&t, &atts, &runs, &paths);
    assert!(r.contains("__INLINE_IMAGE__:/tmp/a.png"));
    assert!(r.contains("[Attachment not found: B]"));
    assert!(r.starts_with("see"));
}

#[test]
fn notes_are_read_once_and_cached() {
    let mut cache = NoteCache::new();
    let first = read_note("apple-notes://note/7", &mut cache, |pk| Ok(format!("note {pk}")));
    assert_eq!(first, "note 7");
    let again = read_note("apple-notes://note/7", &mut cache, |_| Ok("reloaded".to_string()));
    assert_eq!(again, "note 7");
    assert_eq!(cache.get(7), Some("note 7".to_string()));
    let failed = read_note("apple-notes://note/8", &mut cache, |_| Err("DB error: gone".to_string()));
    assert_eq!(failed, "DB error: gone");
    assert_eq!(cache.get(8), None);
    assert_eq!(read_note("notes://7", &mut cache, |_| Ok(String::new())), "Invalid note path: notes://7");
    assert_eq!(
        read_note("apple-notes://note/x", &mut cache, |_| Ok(String::new())),
        "Invalid note ID: apple-notes://note/x"
    );
    clear_note_cache(&mut cache);
    assert_eq!(cache.get(7), None);
}

#[test]
fn cache_reads_what_was_written() {
    let mut cache = NoteCache::new();
    cache.insert(1, "one".to_string());
    cache.insert(2, "two".to_string());
    cache.insert(1, "uno".to_string());
    assert_eq!(cache.get(1), Some("uno".to_string()));
    assert_eq!(cache.get(2), Some("two".to_string()));
    assert_eq!(cache.get(3), None);
}

#[test]
fn file_names_are_sanitized() {
    assert_eq!(sanitize_filename(""), "Untitled");
    assert_eq!(sanitize_filename("a/b:c"), "abc");
    assert_eq!(sanitize_filename("  x \t  y  "), "x y");
    assert_eq!(sanitize_filename("///"), "Untitled");
    assert_eq!(sanitize_filename("Plan <2024>?"), "Plan 2024");
    let long = "x".repeat(250);
    assert_eq!(sanitize_filename(&long), "x".repeat(200));
    let accented = format!("a{}", "é".repeat(100));
    assert_eq!(sanitize_filename(&accented), accented);
    let longer = "é".repeat(230);
    assert_eq!(sanitize_filename(&longer), "é".repeat(200));
}

#[test]
fn sanitized_names_are_safe() {
    assert_eq!(sanitize_filename("\u{7} <> \t"), "Untitled");
    for name in ["", "a|b", "\u{7}bell", "tab\there", "<>:\"/\\|?*", "  spaced  out  "] {
        let s = sanitize_filename(name);
        assert!(!s.is_empty());
        assert!(s.chars().count() <= 200);
        assert!(!s.chars().any(|c| "<>:\"/\\|?*".contains(c) || c.is_control()));
    }
}

#[test]
fn note_keys_from_paths() {
    assert_eq!(note_pk_of("apple-notes://note/42"), Ok(42));
    assert_eq!(note_pk_of("apple-notes://note/-3"), Ok(-3));
    assert_eq!(note_pk_of("apple-notes://folder/4"), Err("Invalid note path: apple-notes://folder/4".to_string()));
    assert_eq!(note_pk_of("apple-notes://note/4x"), Err("Invalid note ID: apple-notes://note/4x".to_string()));
}

#[test]
fn encoded_fields_parse_back_in_order() {
    let mut msg = varint(((7u64) << 3) | 1);
    msg.extend([1, 2, 3, 4, 5, 6, 7, 8]);
    msg.extend(field_bytes(300, b"payload"));
    msg.extend(field_varint(1, u64::MAX));
    msg.extend(varint(((2u64) << 3) | 5));
    msg.extend([9, 8, 7, 6]);
    msg.extend(field_bytes(2, b""));
    let fields = parse_proto_fields(&msg);
    let got: Vec<(u32, u8, Vec<u8>)> =
        fields.iter().map(|f| (f.field_number, f.wire_type, f.data.clone())).collect();
    assert_eq!(
        got,
        vec![
            (7, 1, vec![1, 2, 3, 4, 5, 6, 7, 8]),
            (300, 2, b"payload".to_vec()),
            (1, 0, varint(u64::MAX)),
            (2, 5, vec![9, 8, 7, 6]),
            (2, 2, vec![]),
        ]
    );
    assert_eq!(proto_get_varint(&fields, 1), Some(u64::MAX));
    assert_eq!(proto_get_bytes(&fields, 2), Some(&b""[..]));
    assert_eq!(proto_get_all_bytes(&fields, 2).first().copied(), proto_get_bytes(&fields, 2));
}
