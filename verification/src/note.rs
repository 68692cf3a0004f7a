//! Apple Notes note bodies: the protobuf document inside a (possibly gzipped) `ZDATA` blob,
//! its text, its attachment positions and its style runs.
use vstd::prelude::*;
use vstd::std_specs::hash::group_hash_axioms;
use vstd::wrapping::usize_specs;
use vstd::string::StringSliceAdditionalSpecFns;
use std::collections::HashMap;

use crate::proto::find_field;
use crate::proto::get_all_bytes;
use crate::proto::get_bytes;
use crate::proto::get_string;
use crate::proto::get_varint;
use crate::proto::lemma_find_field;
use crate::proto::parse_message;
use crate::proto::parse_proto_fields;
use crate::proto::proto_get_all_bytes;
use crate::proto::proto_get_bytes;
use crate::proto::proto_get_string;
use crate::proto::proto_get_varint;
use crate::proto::views;
use crate::proto::FieldView;
use crate::proto::ProtoField;
use crate::export::apply_markdown_formatting;
use crate::export::link_views;
use crate::export::markdown_of;
use crate::text::chars_of;
use crate::text::is_cc;
use crate::text::is_control;
use crate::text::is_whitespace;
use crate::text::is_ws;
use crate::text::trim;
use crate::text::leading_ws;
use crate::text::lemma_leading_ws_bound;
use crate::text::lemma_trailing_ws_bound;
use crate::text::trim_chars;
use crate::text::contains_chars;
use crate::text::contains_seq;
use crate::text::extend_chars;
use crate::text::split_chars;
use crate::text::split_on;
use crate::text::starts_with;
use crate::text::starts_with_chars;
use crate::text::string_of;
use crate::text::trim_start;
use crate::text::trim_start_chars;
use crate::text::vec_views;
use crate::text::parse_i64;
use crate::text::parse_i64_spec;
use crate::text::strip_prefix_chars;
use crate::text::strip_prefix_spec;

verus! {

/// Unicode Object Replacement Character — marks attachment positions in note text.
pub const ATTACHMENT_MARKER: char = '\u{FFFC}';

/// Attachment position within note text.
#[derive(Debug, Clone)]
pub struct AttachmentPosition {
    /// Character offset in the note text.
    pub position: usize,
    /// Attachment UUID (matches ZIDENTIFIER in ZICCLOUDSYNCINGOBJECT).
    pub uuid: String,
    /// Type UTI (e.g., "public.jpeg").
    pub type_uti: String,
}

/// An attachment position as a mathematical value.
pub struct AttachmentView {
    pub position: usize,
    pub uuid: Seq<char>,
    pub type_uti: Seq<char>,
}

impl View for AttachmentPosition {
    type V = AttachmentView;

    open spec fn view(&self) -> AttachmentView {
        AttachmentView { position: self.position, uuid: self.uuid@, type_uti: self.type_uti@ }
    }
}

/// Paragraph-level style from Apple Notes protobuf.
#[derive(Debug, Clone, Copy, PartialEq, Eq, Structural)]
pub enum ParagraphStyle {
    Body,
    Title,
    Heading,
    Subheading,
    Monospaced,
    BulletList,
    DashedList,
    NumberedList,
    Checkbox { checked: bool },
}

/// Inline formatting flags.
#[derive(Debug, Clone, Copy, PartialEq, Eq, Structural)]
pub struct InlineStyle {
    pub bold: bool,
    pub italic: bool,
    pub underline: bool,
    pub strikethrough: bool,
}

/// A styled run of text from the protobuf AttributeRun.
#[derive(Debug, Clone)]
pub struct StyleRun {
    /// Character offset in the note text.
    pub offset: usize,
    /// Number of characters in this run.
    pub length: usize,
    /// Paragraph-level style (headers, lists, etc.).
    pub paragraph: ParagraphStyle,
    /// Indent level (0-based).
    pub indent: u32,
    /// Inline formatting (bold, italic, etc.).
    pub inline_style: InlineStyle,
    /// Optional hyperlink URL.
    pub link: Option<String>,
}

/// A style run as a mathematical value.
pub struct StyleRunView {
    pub offset: usize,
    pub length: usize,
    pub paragraph: ParagraphStyle,
    pub indent: u32,
    pub inline_style: InlineStyle,
    pub link: Option<Seq<char>>,
}

/// The characters of an optional string.
pub open spec fn opt_view(o: Option<String>) -> Option<Seq<char>> {
    match o {
        Some(s) => Some(s@),
        None => None,
    }
}

impl View for StyleRun {
    type V = StyleRunView;

    open spec fn view(&self) -> StyleRunView {
        StyleRunView {
            offset: self.offset,
            length: self.length,
            paragraph: self.paragraph,
            indent: self.indent,
            inline_style: self.inline_style,
            link: opt_view(self.link),
        }
    }
}

/// The views of a sequence of attachment positions.
pub open spec fn attachment_views(s: Seq<AttachmentPosition>) -> Seq<AttachmentView> {
    s.map_values(|a: AttachmentPosition| a@)
}

/// The views of a sequence of style runs.
pub open spec fn run_views(s: Seq<StyleRun>) -> Seq<StyleRunView> {
    s.map_values(|r: StyleRun| r@)
}

// ---------------------------------------------------------------------------
// What a note document holds
// ---------------------------------------------------------------------------

/// The fields of the Content message: root → field 2 (Note) → field 3 (Content).
pub open spec fn content_fields(data: Seq<u8>) -> Option<Seq<FieldView>> {
    match get_bytes(parse_message(data), 2) {
        None => None,
        Some(note) => match get_bytes(parse_message(note), 3) {
            None => None,
            Some(content) => Some(parse_message(content)),
        },
    }
}

/// The note text: Content field 2, or empty.
pub open spec fn note_text(data: Seq<u8>) -> Seq<char> {
    match content_fields(data) {
        Some(cf) => match get_string(cf, 2) {
            Some(t) => t,
            None => Seq::empty(),
        },
        None => Seq::empty(),
    }
}

/// The encoded AttributeRun messages: Content field 5, repeated.
pub open spec fn note_runs(data: Seq<u8>) -> Seq<Seq<u8>> {
    match content_fields(data) {
        Some(cf) => get_all_bytes(cf, 5),
        None => Seq::empty(),
    }
}

/// The first varint field `num`, or `default`.
pub open spec fn varint_or(fields: Seq<FieldView>, num: u32, default: u64) -> u64 {
    match get_varint(fields, num) {
        Some(v) => v,
        None => default,
    }
}

/// The first string field `num`, or empty.
pub open spec fn string_or_empty(fields: Seq<FieldView>, num: u32) -> Seq<char> {
    match get_string(fields, num) {
        Some(s) => s,
        None => Seq::empty(),
    }
}

/// The number of characters a run covers: its field 1, or 1.
pub open spec fn run_length(run: Seq<u8>) -> usize {
    varint_or(parse_message(run), 1, 1) as usize
}

/// The paragraph style of the style type number `t` (with `checked` for a checkbox).
pub open spec fn paragraph_of_type(t: u64, checked: bool) -> ParagraphStyle {
    if t == 1 {
        ParagraphStyle::Title
    } else if t == 2 {
        ParagraphStyle::Heading
    } else if t == 3 {
        ParagraphStyle::Subheading
    } else if t == 4 {
        ParagraphStyle::Monospaced
    } else if t == 100 {
        ParagraphStyle::BulletList
    } else if t == 101 {
        ParagraphStyle::DashedList
    } else if t == 102 {
        ParagraphStyle::NumberedList
    } else if t == 103 {
        ParagraphStyle::Checkbox { checked }
    } else {
        ParagraphStyle::Body
    }
}

/// Whether the ParagraphStyle message `para` marks its checkbox done (field 5 → field 2 == 1).
pub open spec fn checkbox_done(para: Seq<FieldView>) -> bool {
    match get_bytes(para, 5) {
        Some(todo) => varint_or(parse_message(todo), 2, 0) == 1,
        None => false,
    }
}

/// The paragraph style and indent of a run (its field 2; body and 0 without one).
pub open spec fn run_paragraph(run: Seq<u8>) -> (ParagraphStyle, u32) {
    match get_bytes(parse_message(run), 2) {
        None => (ParagraphStyle::Body, 0),
        Some(p) => {
            let pf = parse_message(p);
            (paragraph_of_type(varint_or(pf, 1, 0), checkbox_done(pf)), varint_or(pf, 4, 0) as u32)
        },
    }
}

/// The inline style of a run: font hints (field 5) bits 1 and 2, underline (6), strikethrough (7).
pub open spec fn run_inline(run: Seq<u8>) -> InlineStyle {
    let rf = parse_message(run);
    let hints = varint_or(rf, 5, 0);
    InlineStyle {
        bold: hints & 1 != 0,
        italic: hints & 2 != 0,
        underline: varint_or(rf, 6, 0) == 1,
        strikethrough: varint_or(rf, 7, 0) == 1,
    }
}

/// The style run that a run message describes, placed at `offset`.
pub open spec fn run_view_at(run: Seq<u8>, offset: usize) -> StyleRunView {
    StyleRunView {
        offset,
        length: run_length(run),
        paragraph: run_paragraph(run).0,
        indent: run_paragraph(run).1,
        inline_style: run_inline(run),
        link: get_string(parse_message(run), 9),
    }
}

/// Where the runs end: the sum of their lengths, wrapping at the width of `usize`.
pub open spec fn runs_end(runs: Seq<Seq<u8>>) -> usize
    decreases runs.len(),
{
    if runs.len() == 0 {
        0
    } else {
        usize_specs::wrapping_add(runs_end(runs.drop_last()), run_length(runs.last()))
    }
}

/// The style runs, each starting where the previous one ends.
pub open spec fn style_runs_of(runs: Seq<Seq<u8>>) -> Seq<StyleRunView>
    decreases runs.len(),
{
    if runs.len() == 0 {
        Seq::empty()
    } else {
        style_runs_of(runs.drop_last()).push(run_view_at(runs.last(), runs_end(runs.drop_last())))
    }
}

/// Attachment types that are inline text formatting, not file attachments.
pub open spec fn is_skipped_type(t: Seq<char>) -> bool {
    t == "com.apple.notes.inlinetextattachment.hashtag"@ || t
        == "com.apple.notes.inlinetextattachment.mention"@
}

/// An attachment as the protobuf names it, before it is paired with a marker.
pub struct RawAttachmentView {
    pub uuid: Seq<char>,
    pub type_uti: Seq<char>,
    pub skipped: bool,
}

/// The attachment a run names (its field 12), when it has a non-empty UUID.
pub open spec fn run_attachment(run: Seq<u8>) -> Option<RawAttachmentView> {
    match get_bytes(parse_message(run), 12) {
        None => None,
        Some(a) => {
            let af = parse_message(a);
            let uuid = string_or_empty(af, 1);
            let t = string_or_empty(af, 2);
            if uuid.len() > 0 {
                Some(RawAttachmentView { uuid, type_uti: t, skipped: is_skipped_type(t) })
            } else {
                None
            }
        },
    }
}

/// The attachments that the runs name, in order.
pub open spec fn raw_attachments(runs: Seq<Seq<u8>>) -> Seq<RawAttachmentView>
    decreases runs.len(),
{
    if runs.len() == 0 {
        Seq::empty()
    } else {
        match run_attachment(runs.last()) {
            Some(a) => raw_attachments(runs.drop_last()).push(a),
            None => raw_attachments(runs.drop_last()),
        }
    }
}

/// The character indices of the attachment markers in `text`, in order.
pub open spec fn marker_positions(text: Seq<char>) -> Seq<int>
    decreases text.len(),
{
    if text.len() == 0 {
        Seq::empty()
    } else if text.last() == ATTACHMENT_MARKER {
        marker_positions(text.drop_last()).push(text.len() - 1)
    } else {
        marker_positions(text.drop_last())
    }
}

/// The first `k` attachments paired with the first `k` markers, dropping skipped types.
pub open spec fn paired(raws: Seq<RawAttachmentView>, marks: Seq<int>, k: int) -> Seq<
    AttachmentView,
>
    decreases k,
{
    if k <= 0 {
        Seq::empty()
    } else if raws[k - 1].skipped {
        paired(raws, marks, k - 1)
    } else {
        paired(raws, marks, k - 1).push(
            AttachmentView {
                position: marks[k - 1] as usize,
                uuid: raws[k - 1].uuid,
                type_uti: raws[k - 1].type_uti,
            },
        )
    }
}

/// The smaller of two integers.
pub open spec fn min_int(a: int, b: int) -> int {
    if a < b {
        a
    } else {
        b
    }
}

/// The attachments of a note: the k-th named attachment sits at the k-th marker of the text;
/// inline hashtags and mentions are dropped, as are attachments beyond the last marker.
pub open spec fn note_attachments(data: Seq<u8>) -> Seq<AttachmentView> {
    let raws = raw_attachments(note_runs(data));
    let marks = marker_positions(note_text(data));
    paired(raws, marks, min_int(raws.len() as int, marks.len() as int))
}

/// The style runs of a note.
pub open spec fn note_style_runs(data: Seq<u8>) -> Seq<StyleRunView> {
    style_runs_of(note_runs(data))
}

// ---------------------------------------------------------------------------
// Decoding
// ---------------------------------------------------------------------------

/// An attachment as the protobuf names it.
pub struct RawAttachment {
    pub uuid: String,
    pub type_uti: String,
    pub skipped: bool,
}

impl View for RawAttachment {
    type V = RawAttachmentView;

    open spec fn view(&self) -> RawAttachmentView {
        RawAttachmentView { uuid: self.uuid@, type_uti: self.type_uti@, skipped: self.skipped }
    }
}

pub open spec fn raw_opt_view(o: Option<RawAttachment>) -> Option<RawAttachmentView> {
    match o {
        Some(a) => Some(a@),
        None => None,
    }
}

pub open spec fn raw_views(s: Seq<RawAttachment>) -> Seq<RawAttachmentView> {
    s.map_values(|a: RawAttachment| a@)
}

pub(crate) fn varint_or_default(fields: &[ProtoField], num: u32, default: u64) -> (r: u64)
    ensures
        r == varint_or(views(fields@), num, default),
{
    match proto_get_varint(fields, num) {
        Some(v) => v,
        None => default,
    }
}

pub(crate) fn string_or_default(fields: &[ProtoField], num: u32) -> (r: String)
    ensures
        r@ == string_or_empty(views(fields@), num),
{
    match proto_get_string(fields, num) {
        Some(s) => s,
        None => String::new(),
    }
}

pub(crate) fn parse_checked(data: &[u8]) -> (fields: Vec<ProtoField>)
    ensures
        views(fields@) == parse_message(data@),
{
    parse_proto_fields(data)
}

pub(crate) fn is_skipped(t: &String) -> (b: bool)
    ensures
        b == is_skipped_type(t@),
{
    let hashtag = "com.apple.notes.inlinetextattachment.hashtag".to_owned();
    let mention = "com.apple.notes.inlinetextattachment.mention".to_owned();
    *t == hashtag || *t == mention
}

fn paragraph_from_type(t: u64, checked: bool) -> (p: ParagraphStyle)
    ensures
        p == paragraph_of_type(t, checked),
{
    if t == 1 {
        ParagraphStyle::Title
    } else if t == 2 {
        ParagraphStyle::Heading
    } else if t == 3 {
        ParagraphStyle::Subheading
    } else if t == 4 {
        ParagraphStyle::Monospaced
    } else if t == 100 {
        ParagraphStyle::BulletList
    } else if t == 101 {
        ParagraphStyle::DashedList
    } else if t == 102 {
        ParagraphStyle::NumberedList
    } else if t == 103 {
        ParagraphStyle::Checkbox { checked }
    } else {
        ParagraphStyle::Body
    }
}

fn decode_attachment(rf: &[ProtoField]) -> (r: Option<RawAttachment>)
    ensures
        raw_opt_view(r) == (match get_bytes(views(rf@), 12) {
            None => None,
            Some(a) => {
                let af = parse_message(a);
                let uuid = string_or_empty(af, 1);
                let t = string_or_empty(af, 2);
                if uuid.len() > 0 {
                    Some(RawAttachmentView { uuid, type_uti: t, skipped: is_skipped_type(t) })
                } else {
                    None
                }
            },
        }),
{
    match proto_get_bytes(rf, 12) {
        Some(ad) => {
            let af = parse_checked(ad);
            let uuid = string_or_default(&af, 1);
            let type_uti = string_or_default(&af, 2);
            if !uuid.as_str().is_empty() {
                let skipped = is_skipped(&type_uti);
                Some(RawAttachment { uuid, type_uti, skipped })
            } else {
                None
            }
        },
        None => None,
    }
}

fn decode_paragraph(rf: &[ProtoField]) -> (r: (ParagraphStyle, u32))
    ensures
        r == (match get_bytes(views(rf@), 2) {
            None => (ParagraphStyle::Body, 0u32),
            Some(p) => {
                let pf = parse_message(p);
                (paragraph_of_type(varint_or(pf, 1, 0), checkbox_done(pf)), varint_or(pf, 4, 0) as u32)
            },
        }),
{
    match proto_get_bytes(rf, 2) {
        Some(pd) => {
            let pf = parse_checked(pd);
            let style_type = varint_or_default(&pf, 1, 0);
            let checked = match proto_get_bytes(&pf, 5) {
                Some(td) => {
                    let tf = parse_checked(td);
                    varint_or_default(&tf, 2, 0) == 1
                },
                None => false,
            };
            let indent = varint_or_default(&pf, 4, 0) as u32;
            (paragraph_from_type(style_type, checked), indent)
        },
        None => (ParagraphStyle::Body, 0),
    }
}

/// Decode one AttributeRun message placed at `offset`: its style run and the attachment it names.
fn decode_run(run: &[u8], offset: usize) -> (r: (StyleRun, Option<RawAttachment>))
    ensures
        r.0@ == run_view_at(run@, offset),
        raw_opt_view(r.1) == run_attachment(run@),
{
    let rf = parse_checked(run);
    let length = varint_or_default(&rf, 1, 1) as usize;
    let att = decode_attachment(&rf);
    let (paragraph, indent) = decode_paragraph(&rf);
    let font_hints = varint_or_default(&rf, 5, 0);
    let underline = varint_or_default(&rf, 6, 0) == 1;
    let strikethrough = varint_or_default(&rf, 7, 0) == 1;
    let inline_style = InlineStyle {
        bold: font_hints & 1 != 0,
        italic: font_hints & 2 != 0,
        underline,
        strikethrough,
    };
    let link = proto_get_string(&rf, 9);
    (StyleRun { offset, length, paragraph, indent, inline_style, link }, att)
}

/// The character indices of the attachment markers in `cs`.
pub(crate) fn find_markers(cs: &[char]) -> (marks: Vec<usize>)
    ensures
        marks@.len() == marker_positions(cs@).len(),
        forall|k: int| 0 <= k < marks@.len() ==> marks@[k] as int == marker_positions(cs@)[k],
{
    let mut marks: Vec<usize> = Vec::new();
    let mut i: usize = 0;
    while i < cs.len()
        invariant
            i <= cs@.len(),
            marks@.len() == marker_positions(cs@.take(i as int)).len(),
            forall|k: int|
                0 <= k < marks@.len() ==> marks@[k] as int == marker_positions(cs@.take(i as int))[k],
        decreases cs@.len() - i,
    {
        proof {
            assert(cs@.take(i + 1).drop_last() =~= cs@.take(i as int));
        }
        if cs[i] == ATTACHMENT_MARKER {
            marks.push(i);
        }
        i = i + 1;
    }
    proof {
        assert(cs@.take(i as int) =~= cs@);
    }
    marks
}

/// Extract note text and attachment positions from decompressed protobuf data.
///
/// Protobuf path: root → field 2 (Note) → field 3 (Content) → field 2 (text)
/// Attachments:   root → field 2 (Note) → field 3 (Content) → field 5 (AttributeRun, repeated)
pub fn extract_note_content_with_attachments(data: &[u8]) -> (r: (String, Vec<AttachmentPosition>))
    ensures
        r.0@ == note_text(data@),
        attachment_views(r.1@) == note_attachments(data@),
{
    let (text, attachments, _styles) = extract_note_full(data);
    (text, attachments)
}

/// Extract note text, attachment positions, and style runs from decompressed protobuf data.
pub fn extract_note_full(data: &[u8]) -> (r: (String, Vec<AttachmentPosition>, Vec<StyleRun>))
    ensures
        r.0@ == note_text(data@),
        attachment_views(r.1@) == note_attachments(data@),
        run_views(r.2@) == note_style_runs(data@),
{
    let doc_fields = parse_proto_fields(data);
    let note_data = match proto_get_bytes(&doc_fields, 2) {
        Some(b) => b,
        None => {
            proof {
                assert(attachment_views(Seq::<AttachmentPosition>::empty()) =~= note_attachments(data@));
                assert(run_views(Seq::<StyleRun>::empty()) =~= note_style_runs(data@));
            }
            return (String::new(), Vec::new(), Vec::new());
        },
    };
    let note_fields = parse_proto_fields(note_data);
    let content_data = match proto_get_bytes(&note_fields, 3) {
        Some(b) => b,
        None => {
            proof {
                assert(attachment_views(Seq::<AttachmentPosition>::empty()) =~= note_attachments(data@));
                assert(run_views(Seq::<StyleRun>::empty()) =~= note_style_runs(data@));
            }
            return (String::new(), Vec::new(), Vec::new());
        },
    };
    let content_fields = parse_proto_fields(content_data);
    let text = string_or_default(&content_fields, 2);
    let attr_runs = proto_get_all_bytes(&content_fields, 5);
    let ghost runs = note_runs(data@);
    assert(attr_runs@.len() == runs.len());

    let mut style_runs: Vec<StyleRun> = Vec::new();
    let mut raws: Vec<RawAttachment> = Vec::new();
    let mut current_pos: usize = 0;
    let mut i: usize = 0;
    while i < attr_runs.len()
        invariant
            i <= runs.len(),
            attr_runs@.len() == runs.len(),
            forall|k: int| 0 <= k < runs.len() ==> (#[trigger] attr_runs@[k])@ == runs[k],
            run_views(style_runs@) == style_runs_of(runs.take(i as int)),
            current_pos == runs_end(runs.take(i as int)),
            raw_views(raws@) == raw_attachments(runs.take(i as int)),
        decreases runs.len() - i,
    {
        proof {
            assert(runs.take(i + 1).drop_last() =~= runs.take(i as int));
            assert(runs.take(i + 1).last() == runs[i as int]);
        }
        let (run, att) = decode_run(attr_runs[i], current_pos);
        match att {
            Some(a) => {
                raws.push(a);
                proof {
                    assert(raw_views(raws@) =~= raw_attachments(runs.take(i + 1)));
                }
            },
            None => {
                proof {
                    assert(raw_views(raws@) =~= raw_attachments(runs.take(i + 1)));
                }
            },
        }
        current_pos = current_pos.wrapping_add(run.length);
        style_runs.push(run);
        i = i + 1;
        proof {
            assert(run_views(style_runs@) =~= style_runs_of(runs.take(i as int)));
        }
    }
    proof {
        assert(runs.take(i as int) =~= runs);
    }

    let cs = chars_of(text.as_str());
    let marks = find_markers(cs.as_slice());
    let ghost mp = marker_positions(text@);
    let ghost rv = raw_attachments(runs);
    let m = if raws.len() < marks.len() {
        raws.len()
    } else {
        marks.len()
    };
    let mut attachments: Vec<AttachmentPosition> = Vec::new();
    let mut k: usize = 0;
    while k < m
        invariant
            k <= m,
            m == min_int(rv.len() as int, mp.len() as int),
            raw_views(raws@) == rv,
            marks@.len() == mp.len(),
            forall|j: int| 0 <= j < marks@.len() ==> marks@[j] as int == mp[j],
            attachment_views(attachments@) == paired(rv, mp, k as int),
        decreases m - k,
    {
        assert(raws@[k as int]@ == rv[k as int]);
        if !raws[k].skipped {
            let a = AttachmentPosition {
                position: marks[k],
                uuid: raws[k].uuid.clone(),
                type_uti: raws[k].type_uti.clone(),
            };
            attachments.push(a);
        }
        k = k + 1;
        proof {
            assert(attachment_views(attachments@) =~= paired(rv, mp, k as int));
        }
    }
    (text, attachments, style_runs)
}

// ---------------------------------------------------------------------------
// Compressed blobs
// ---------------------------------------------------------------------------

/// What flate2's `GzDecoder`, read to the end, yields for `data` (`None` when reading fails).
pub uninterp spec fn gunzip(data: Seq<u8>) -> Option<Seq<u8>>;

/// `flate2::read::GzDecoder` over `data`, read to the end with `Read::read_to_end`. The contract
/// names the result `gunzip(data)`: the decoded bytes, or `None` when reading fails (the partial
/// output is then discarded). What the decoder computes is not restated here.
#[verifier::external_body]
fn gunzip_bytes(data: &[u8]) -> (r: Option<Vec<u8>>)
    ensures
        match r {
            Some(v) => gunzip(data@) == Some(v@),
            None => gunzip(data@) is None,
        },
{
    let mut decoder = flate2::read::GzDecoder::new(data);
    let mut out = Vec::new();
    match std::io::Read::read_to_end(&mut decoder, &mut out) {
        Ok(_) => Some(out),
        Err(_) => None,
    }
}

/// Whether `data` starts with the gzip magic bytes 1f 8b.
pub open spec fn has_gzip_magic(data: Seq<u8>) -> bool {
    data.len() >= 2 && data[0] == 0x1fu8 && data[1] == 0x8bu8
}

/// The decompressed form of a blob: gzip data is decoded, anything else is returned as it is.
pub open spec fn decompressed(data: Seq<u8>) -> Option<Seq<u8>> {
    if has_gzip_magic(data) {
        gunzip(data)
    } else {
        Some(data)
    }
}

/// Decompress gzip data.
pub fn decompress_gzip(data: &[u8]) -> (r: Option<Vec<u8>>)
    ensures
        match r {
            Some(v) => decompressed(data@) == Some(v@),
            None => decompressed(data@) is None,
        },
{
    if data.len() < 2 || data[0] != 0x1f || data[1] != 0x8b {
        // Not gzipped, return as-is
        return Some(vstd::slice::slice_to_vec(data));
    }
    gunzip_bytes(data)
}

/// Extract plain text and attachments from a (possibly gzipped) ZDATA blob.
pub fn extract_from_zdata(data: &[u8]) -> (r: (String, Vec<AttachmentPosition>))
    ensures
        match decompressed(data@) {
            Some(d) => r.0@ == note_text(d) && attachment_views(r.1@) == note_attachments(d),
            None => r.0@.len() == 0 && r.1@.len() == 0,
        },
{
    match decompress_gzip(data) {
        Some(decompressed) => extract_note_content_with_attachments(decompressed.as_slice()),
        None => (String::new(), Vec::new()),
    }
}

/// Extract text, attachments, and style runs from a (possibly gzipped) ZDATA blob.
pub fn extract_from_zdata_styled(data: &[u8]) -> (r: (String, Vec<AttachmentPosition>, Vec<StyleRun>))
    ensures
        match decompressed(data@) {
            Some(d) => r.0@ == note_text(d) && attachment_views(r.1@) == note_attachments(d)
                && run_views(r.2@) == note_style_runs(d),
            None => r.0@.len() == 0 && r.1@.len() == 0 && r.2@.len() == 0,
        },
{
    match decompress_gzip(data) {
        Some(decompressed) => extract_note_full(decompressed.as_slice()),
        None => (String::new(), Vec::new(), Vec::new()),
    }
}

// ---------------------------------------------------------------------------
// Note paths and the note cache
// ---------------------------------------------------------------------------

/// The prefix of an Apple Notes note path; the primary key follows it.
pub open spec fn note_path_prefix() -> Seq<char> {
    "apple-notes://note/"@
}

/// Cache of rendered note content, keyed by note primary key.
pub struct NoteCache {
    entries: HashMap<i64, String>,
}

impl View for NoteCache {
    type V = Map<i64, Seq<char>>;

    closed spec fn view(&self) -> Map<i64, Seq<char>> {
        self.entries@.map_values(|s: String| s@)
    }
}

impl NoteCache {
    /// An empty cache.
    pub fn new() -> (c: Self)
        ensures
            c@ == Map::<i64, Seq<char>>::empty(),
    {
        let c = NoteCache { entries: HashMap::new() };
        proof {
            assert(c@ =~= Map::<i64, Seq<char>>::empty());
        }
        c
    }

    /// The cached content of note `pk`.
    pub fn get(&self, pk: i64) -> (r: Option<String>)
        ensures
            match r {
                Some(s) => self@.contains_key(pk) && self@[pk] == s@,
                None => !self@.contains_key(pk),
            },
    {
        broadcast use group_hash_axioms;

        match self.entries.get(&pk) {
            Some(s) => Some(s.clone()),
            None => None,
        }
    }

    /// Store `content` for note `pk`.
    pub fn insert(&mut self, pk: i64, content: String)
        ensures
            final(self)@ == old(self)@.insert(pk, content@),
    {
        broadcast use group_hash_axioms;

        let ghost c = content@;
        self.entries.insert(pk, content);
        proof {
            assert(self@ =~= old(self)@.insert(pk, c));
        }
    }
}

/// The cache gives back what was stored: after content is stored for a note, a lookup of that
/// note finds it, and lookups of other notes find what they found before.
pub proof fn law_cache_reads_write(m: Map<i64, Seq<char>>, pk: i64, content: Seq<char>, other: i64)
    ensures
        m.insert(pk, content).contains_key(pk),
        m.insert(pk, content)[pk] == content,
        other != pk ==> m.insert(pk, content).contains_key(other) == m.contains_key(other),
        other != pk && m.contains_key(other) ==> m.insert(pk, content)[other] == m[other],
{
}

/// Clear the note content cache (e.g. after code changes to rendering logic).
pub fn clear_note_cache(cache: &mut NoteCache)
    ensures
        final(cache)@ == Map::<i64, Seq<char>>::empty(),
{
    *cache = NoteCache::new();
}

/// The primary key a note path names, when it has the note prefix and a valid `i64` after it.
pub open spec fn note_pk(path: Seq<char>) -> Option<i64> {
    match strip_prefix_spec(path, note_path_prefix()) {
        Some(rest) => parse_i64_spec(rest),
        None => None,
    }
}

/// The key of the note at `note_path` ("apple-notes://note/{Z_PK}"), or why there is none: the
/// path has another form, or what follows the prefix is not an integer.
pub fn note_pk_of(note_path: &str) -> (r: Result<i64, String>)
    ensures
        strip_prefix_spec(note_path@, note_path_prefix()) is None ==> (r matches Err(e) && e@
            == "Invalid note path: "@ + note_path@),
        strip_prefix_spec(note_path@, note_path_prefix()) is Some && note_pk(note_path@) is None
            ==> (r matches Err(e) && e@ == "Invalid note ID: "@ + note_path@),
        note_pk(note_path@) matches Some(pk) ==> r == Ok::<i64, String>(pk),
{
    let path_chars = chars_of(note_path);
    let prefix = chars_of("apple-notes://note/");
    match strip_prefix_chars(path_chars.as_slice(), prefix.as_slice()) {
        Some(pk_chars) => match parse_i64(pk_chars.as_slice()) {
            Some(pk) => Ok(pk),
            None => {
                let mut msg = "Invalid note ID: ".to_owned();
                msg.append(note_path);
                Err(msg)
            },
        },
        None => {
            let mut msg = "Invalid note path: ".to_owned();
            msg.append(note_path);
            Err(msg)
        },
    }
}

/// Read the content of an Apple Note by its path (encodes Z_PK).
/// Path format: "apple-notes://note/{Z_PK}".
/// Results are cached per PK; `load` reads a note that is not cached yet (an error it returns
/// is passed on and not cached).
pub fn read_note<F: FnOnce(i64) -> Result<String, String>>(
    note_path: &str,
    cache: &mut NoteCache,
    load: F,
) -> (r: String)
    requires
        forall|pk: i64| load.requires((pk,)),
    ensures
        strip_prefix_spec(note_path@, note_path_prefix()) is None ==> r@ == "Invalid note path: "@
            + note_path@ && final(cache)@ == old(cache)@,
        strip_prefix_spec(note_path@, note_path_prefix()) is Some && note_pk(note_path@) is None
            ==> r@ == "Invalid note ID: "@ + note_path@ && final(cache)@ == old(cache)@,
        note_pk(note_path@) matches Some(pk) ==> {
            if old(cache)@.contains_key(pk) {
                r@ == old(cache)@[pk] && final(cache)@ == old(cache)@
            } else {
                exists|res: Result<String, String>|
                    #![trigger load.ensures((pk,), res)]
                    load.ensures((pk,), res) && match res {
                        Ok(c) => r == c && final(cache)@ == old(cache)@.insert(pk, c@),
                        Err(e) => r == e && final(cache)@ == old(cache)@,
                    }
            }
        },
{
    let pk: i64 = match note_pk_of(note_path) {
        Ok(pk) => pk,
        Err(msg) => return msg,
    };

    // Check cache first
    if let Some(content) = cache.get(pk) {
        return content;
    }
    match load(pk) {
        Ok(content) => {
            cache.insert(pk, content.clone());
            content
        },
        Err(e) => e,
    }
}

// ---------------------------------------------------------------------------
// Rendering a stored note for display
// ---------------------------------------------------------------------------

/// The text of a note blob, or why there is none: the blob does not decompress, or holds no
/// text.
pub fn decode_note_blob(data: &[u8]) -> (r: Result<(String, Vec<AttachmentPosition>, Vec<StyleRun>), String>)
    ensures
        match decompressed(data@) {
            None => r matches Err(e) && e@ == "Could not decompress note content."@,
            Some(d) => if note_text(d).len() == 0 {
                r matches Err(e) && e@ == "Could not decode note content."@
            } else {
                r matches Ok(t) && t.0@ == note_text(d) && attachment_views(t.1@) == note_attachments(d)
                    && run_views(t.2@) == note_style_runs(d)
            },
        },
{
    let decompressed = match decompress_gzip(data) {
        Some(d) => d,
        None => return Err("Could not decompress note content.".to_owned()),
    };
    let (text, attachments, style_runs) = extract_note_full(decompressed.as_slice());
    if text.as_str().is_empty() {
        return Err("Could not decode note content.".to_owned());
    }
    Ok((text, attachments, style_runs))
}

/// The display text of an attachment: an inline image marker with its file path, or a note that
/// the file was not found.
pub open spec fn inline_link(a: AttachmentView, path: Option<Seq<char>>) -> Seq<char> {
    match path {
        Some(p) => "__INLINE_IMAGE__:"@ + p,
        None => "[Attachment not found: "@ + a.uuid + "]"@,
    }
}

/// The attachment map of the first `k` attachments and their resolved paths (a later attachment
/// at the same position wins).
pub open spec fn attachment_links(atts: Seq<AttachmentView>, paths: Seq<Option<Seq<char>>>, k: int) -> Map<usize, Seq<char>>
    decreases k,
{
    if k <= 0 {
        Map::empty()
    } else {
        attachment_links(atts, paths, k - 1).insert(atts[k - 1].position, inline_link(atts[k - 1], paths[k - 1]))
    }
}

/// The views of optional strings.
pub open spec fn opt_views(s: Seq<Option<String>>) -> Seq<Option<Seq<char>>> {
    s.map_values(|o: Option<String>| opt_view(o))
}

/// Whether a rendered line is a block element (heading, list item, fence, rule, quote, blank
/// line, inline image, numbered item) that must not get a trailing hard break.
pub open spec fn is_block_line(line: Seq<char>) -> bool {
    let t = trim_start(line);
    ||| starts_with(t, "#"@)
    ||| starts_with(t, "- "@)
    ||| starts_with(t, "* "@)
    ||| starts_with(t, "- ["@)
    ||| starts_with(t, "```"@)
    ||| starts_with(t, "---"@)
    ||| starts_with(t, ">"@)
    ||| t.len() == 0
    ||| starts_with(t, "__INLINE_IMAGE__:"@)
    ||| (t.len() > 0 && '0' <= t[0] <= '9' && contains_seq(t, ". "@))
}

/// The lines joined again, each plain line ending in two spaces (a Markdown hard break); no line
/// break is put before a line while nothing has been written yet.
pub open spec fn with_hard_breaks(lines: Seq<Seq<char>>) -> Seq<char>
    decreases lines.len(),
{
    if lines.len() == 0 {
        Seq::empty()
    } else {
        let acc = with_hard_breaks(lines.drop_last());
        let l = lines.last();
        (if acc.len() > 0 {
            acc.push('\n')
        } else {
            acc
        }) + l + (if is_block_line(l) {
            Seq::empty()
        } else {
            "  "@
        })
    }
}

/// What a note shows: its formatted Markdown with attachment links, and hard breaks on plain
/// lines.
pub open spec fn rendered_note(
    text: Seq<char>,
    atts: Seq<AttachmentView>,
    runs: Seq<StyleRunView>,
    paths: Seq<Option<Seq<char>>>,
) -> Seq<char> {
    let links = attachment_links(atts, paths, min_int(atts.len() as int, paths.len() as int));
    with_hard_breaks(split_on(markdown_of(text, runs, links), '\n'))
}

fn is_block_line_chars(line: &[char]) -> (b: bool)
    ensures
        b == is_block_line(line@),
{
    let t = trim_start_chars(line);
    let ts = t.as_slice();
    let first_digit = t.len() > 0 && '0' <= t[0] && t[0] <= '9';
    starts_with_chars(ts, chars_of("#").as_slice()) || starts_with_chars(ts, chars_of("- ").as_slice())
        || starts_with_chars(ts, chars_of("* ").as_slice()) || starts_with_chars(ts, chars_of("- [").as_slice())
        || starts_with_chars(ts, chars_of("```").as_slice()) || starts_with_chars(ts, chars_of("---").as_slice())
        || starts_with_chars(ts, chars_of(">").as_slice()) || t.len() == 0
        || starts_with_chars(ts, chars_of("__INLINE_IMAGE__:").as_slice())
        || (first_digit && contains_chars(ts, chars_of(". ").as_slice()))
}

/// Render a note for display: build the attachment map from the resolved attachment paths
/// (`paths[k]` for `attachments[k]`), apply paragraph-level and inline formatting from the style
/// runs, and add hard breaks (trailing "  ") only to plain body text lines.
pub fn render_note(
    text: &str,
    attachments: &[AttachmentPosition],
    style_runs: &[StyleRun],
    paths: &[Option<String>],
) -> (r: String)
    ensures
        r@ == rendered_note(text@, attachment_views(attachments@), run_views(style_runs@), opt_views(paths@)),
{
    broadcast use group_hash_axioms;

    let ghost av = attachment_views(attachments@);
    let ghost pv = opt_views(paths@);
    let m = if attachments.len() < paths.len() {
        attachments.len()
    } else {
        paths.len()
    };
    let mut map: HashMap<usize, String> = HashMap::new();
    let mut k: usize = 0;
    proof {
        assert(link_views(map@) =~= attachment_links(av, pv, 0));
    }
    while k < m
        invariant
            k <= m,
            m as int == min_int(av.len() as int, pv.len() as int),
            av == attachment_views(attachments@),
            pv == opt_views(paths@),
            link_views(map@) == attachment_links(av, pv, k as int),
        decreases m - k,
    {
        assert(av[k as int] == attachments@[k as int]@);
        assert(pv[k as int] == opt_view(paths@[k as int]));
        let repl = match &paths[k] {
            Some(p) => {
                let mut s = "__INLINE_IMAGE__:".to_owned();
                s.append(p.as_str());
                s
            },
            None => {
                let mut s = "[Attachment not found: ".to_owned();
                s.append(attachments[k].uuid.as_str());
                s.append("]");
                s
            },
        };
        let ghost rv = repl@;
        map.insert(attachments[k].position, repl);
        k = k + 1;
        proof {
            assert(rv == inline_link(av[k - 1], pv[k - 1]));
            assert(link_views(map@) =~= attachment_links(av, pv, k as int));
        }
    }
    let formatted = apply_markdown_formatting(text, style_runs, &map);
    let fc = chars_of(formatted.as_str());
    let lines = split_chars(fc.as_slice(), '\n');
    let ghost lv = vec_views(lines@);
    let mut result: Vec<char> = Vec::new();
    let mut i: usize = 0;
    while i < lines.len()
        invariant
            i <= lines@.len(),
            lv == vec_views(lines@),
            result@ == with_hard_breaks(lv.take(i as int)),
        decreases lines@.len() - i,
    {
        proof {
            assert(lv.take(i + 1).drop_last() =~= lv.take(i as int));
            assert(lv[i as int] == lines@[i as int]@);
        }
        if result.len() > 0 {
            result.push('\n');
        }
        let line = lines[i].as_slice();
        extend_chars(&mut result, line);
        if !is_block_line_chars(line) {
            extend_chars(&mut result, chars_of("  ").as_slice());
        }
        i = i + 1;
        proof {
            assert(result@ =~= with_hard_breaks(lv.take(i as int)));
        }
    }
    proof {
        assert(lv.take(i as int) =~= lv);
    }
    string_of(result.as_slice())
}

// ---------------------------------------------------------------------------
// Filename sanitisation
// ---------------------------------------------------------------------------

/// Characters that may not appear in a file name.
pub open spec fn is_reserved_name_char(c: char) -> bool {
    c == '<' || c == '>' || c == ':' || c == '"' || c == '/' || c == '\\' || c == '|' || c == '?'
        || c == '*'
}

/// `s` without reserved and control characters.
pub open spec fn keep_name_chars(s: Seq<char>) -> Seq<char>
    decreases s.len(),
{
    if s.len() == 0 {
        s
    } else if is_reserved_name_char(s.last()) || is_cc(s.last()) {
        keep_name_chars(s.drop_last())
    } else {
        keep_name_chars(s.drop_last()).push(s.last())
    }
}

/// `s` with every run of white space replaced by one space.
pub open spec fn squeeze_ws(s: Seq<char>) -> Seq<char>
    decreases s.len(),
{
    if s.len() == 0 {
        s
    } else {
        let p = squeeze_ws(s.drop_last());
        if is_ws(s.last()) {
            if p.len() > 0 && p.last() == ' ' {
                p
            } else {
                p.push(' ')
            }
        } else {
            p.push(s.last())
        }
    }
}

/// The words of `s` joined by single spaces (`split_whitespace().join(" ")`).
pub open spec fn collapse_ws(s: Seq<char>) -> Seq<char> {
    trim(squeeze_ws(s))
}

/// The kept, collapsed characters of a name, before the length limit.
pub open spec fn name_core(name: Seq<char>) -> Seq<char> {
    collapse_ws(keep_name_chars(name))
}

/// The most characters a sanitized file name keeps.
pub const MAX_NAME_CHARS: usize = 200;

/// What `sanitize_filename` returns: "Untitled" for an empty name or one with nothing left,
/// otherwise the kept, collapsed characters cut to their first 200 characters.
pub open spec fn sanitized_name(name: Seq<char>) -> Seq<char> {
    let c = name_core(name);
    if name.len() == 0 || c.len() == 0 {
        "Untitled"@
    } else if c.len() > MAX_NAME_CHARS {
        c.take(MAX_NAME_CHARS as int)
    } else {
        c
    }
}

fn name_core_chars(name: &[char]) -> (out: Vec<char>)
    ensures
        out@ == name_core(name@),
{
    let mut kept: Vec<char> = Vec::new();
    let mut i: usize = 0;
    while i < name.len()
        invariant
            i <= name@.len(),
            kept@ == squeeze_ws(keep_name_chars(name@.take(i as int))),
            keep_name_chars(name@.take(i as int)).len() > 0 ==> kept@.len() > 0,
        decreases name@.len() - i,
    {
        proof {
            assert(name@.take(i + 1).drop_last() =~= name@.take(i as int));
        }
        let c = name[i];
        let reserved = c == '<' || c == '>' || c == ':' || c == '"' || c == '/' || c == '\\' || c
            == '|' || c == '?' || c == '*';
        if !reserved && !is_control(c) {
            let ghost before = keep_name_chars(name@.take(i as int));
            proof {
                assert(keep_name_chars(name@.take(i + 1)) == before.push(c));
                assert(before.push(c).drop_last() =~= before);
            }
            if is_whitespace(c) {
                let n = kept.len();
                if !(n > 0 && kept[n - 1] == ' ') {
                    kept.push(' ');
                }
            } else {
                kept.push(c);
            }
        }
        i = i + 1;
    }
    proof {
        assert(name@.take(i as int) =~= name@);
    }
    trim_chars(kept.as_slice())
}

/// Sanitize a string for use as a filename: reserved and control characters dropped, white
/// space collapsed and trimmed, at most 200 characters kept, "Untitled" when nothing is left.
pub fn sanitize_filename(name: &str) -> (r: String)
    ensures
        r@ == sanitized_name(name@),
{
    if name.is_empty() {
        return "Untitled".to_owned();
    }
    let cs = chars_of(name);
    let core = name_core_chars(cs.as_slice());
    if core.len() == 0 {
        return "Untitled".to_owned();
    }
    if core.len() > MAX_NAME_CHARS {
        let head = vstd::slice::slice_subrange(core.as_slice(), 0, MAX_NAME_CHARS);
        proof {
            assert(head@ =~= core@.take(MAX_NAME_CHARS as int));
        }
        string_of(head)
    } else {
        string_of(core.as_slice())
    }
}


/// A character a file name may hold: neither reserved nor a control character.
pub open spec fn name_char_ok(c: char) -> bool {
    !is_reserved_name_char(c) && !is_cc(c)
}

proof fn lemma_keep_name_chars(s: Seq<char>)
    ensures
        forall|i: int| 0 <= i < keep_name_chars(s).len() ==> name_char_ok(#[trigger] keep_name_chars(s)[i]),
    decreases s.len(),
{
    if s.len() > 0 {
        let p = keep_name_chars(s.drop_last());
        lemma_keep_name_chars(s.drop_last());
        if !(is_reserved_name_char(s.last()) || is_cc(s.last())) {
            let r = p.push(s.last());
            assert forall|i: int| 0 <= i < r.len() implies name_char_ok(#[trigger] r[i]) by {
                if i < p.len() {
                    assert(r[i] == p[i]);
                }
            }
        }
    }
}

proof fn lemma_squeeze_ws_ok(s: Seq<char>)
    requires
        forall|i: int| 0 <= i < s.len() ==> name_char_ok(#[trigger] s[i]),
    ensures
        forall|i: int| 0 <= i < squeeze_ws(s).len() ==> name_char_ok(#[trigger] squeeze_ws(s)[i]),
    decreases s.len(),
{
    if s.len() > 0 {
        assert forall|i: int| 0 <= i < s.drop_last().len() implies name_char_ok(#[trigger] s.drop_last()[i]) by {
            assert(s.drop_last()[i] == s[i]);
        }
        lemma_squeeze_ws_ok(s.drop_last());
        let p = squeeze_ws(s.drop_last());
        assert(name_char_ok(s[s.len() - 1]));
        assert(name_char_ok(' '));
        assert forall|i: int| 0 <= i < squeeze_ws(s).len() implies name_char_ok(#[trigger] squeeze_ws(s)[i]) by {
            if i < p.len() {
                assert(squeeze_ws(s)[i] == p[i]);
            }
        }
    }
}

proof fn lemma_keep_all_ws(s: Seq<char>)
    requires
        forall|i: int| 0 <= i < s.len() ==> (is_reserved_name_char(#[trigger] s[i]) || is_cc(s[i]) || is_ws(s[i])),
    ensures
        forall|i: int| 0 <= i < keep_name_chars(s).len() ==> is_ws(#[trigger] keep_name_chars(s)[i]),
    decreases s.len(),
{
    if s.len() > 0 {
        assert forall|i: int| 0 <= i < s.drop_last().len() implies (is_reserved_name_char(
            #[trigger] s.drop_last()[i],
        ) || is_cc(s.drop_last()[i]) || is_ws(s.drop_last()[i])) by {
            assert(s.drop_last()[i] == s[i]);
        }
        lemma_keep_all_ws(s.drop_last());
        let p = keep_name_chars(s.drop_last());
        assert(s[s.len() - 1] == s.last());
        if !(is_reserved_name_char(s.last()) || is_cc(s.last())) {
            assert forall|i: int| 0 <= i < p.push(s.last()).len() implies is_ws(#[trigger] p.push(s.last())[i]) by {
                if i < p.len() {
                    assert(p.push(s.last())[i] == p[i]);
                }
            }
        }
    }
}

proof fn lemma_squeeze_all_ws(s: Seq<char>)
    requires
        forall|i: int| 0 <= i < s.len() ==> is_ws(#[trigger] s[i]),
    ensures
        forall|i: int| 0 <= i < squeeze_ws(s).len() ==> is_ws(#[trigger] squeeze_ws(s)[i]),
    decreases s.len(),
{
    if s.len() > 0 {
        assert forall|i: int| 0 <= i < s.drop_last().len() implies is_ws(#[trigger] s.drop_last()[i]) by {
            assert(s.drop_last()[i] == s[i]);
        }
        lemma_squeeze_all_ws(s.drop_last());
        let p = squeeze_ws(s.drop_last());
        assert(s[s.len() - 1] == s.last());
        assert(is_ws(' '));
        assert forall|i: int| 0 <= i < squeeze_ws(s).len() implies is_ws(#[trigger] squeeze_ws(s)[i]) by {
            if i < p.len() {
                assert(p.push(' ')[i] == p[i]);
            }
        }
    }
}

/// Sanitized file names are safe to use: never empty, at most 200 characters, free of reserved
/// and control characters, and "Untitled" when the name holds nothing but reserved, control and
/// white-space characters.
pub proof fn law_sanitized_names_are_safe(name: Seq<char>)
    ensures
        sanitized_name(name).len() > 0,
        sanitized_name(name).len() <= MAX_NAME_CHARS,
        forall|i: int| 0 <= i < sanitized_name(name).len() ==> name_char_ok(#[trigger] sanitized_name(name)[i]),
        (forall|i: int| 0 <= i < name.len() ==> (is_reserved_name_char(#[trigger] name[i]) || is_cc(name[i])
            || is_ws(name[i]))) ==> sanitized_name(name) == "Untitled"@,
{
    reveal_strlit("Untitled");
    let k = keep_name_chars(name);
    lemma_keep_name_chars(name);
    lemma_squeeze_ws_ok(k);
    let q = squeeze_ws(k);
    let c = name_core(name);
    lemma_leading_ws_bound(q);
    lemma_trailing_ws_bound(trim_start(q));
    assert forall|i: int| 0 <= i < c.len() implies name_char_ok(#[trigger] c[i]) by {
        assert(c[i] == trim_start(q)[i]);
        assert(trim_start(q)[i] == q[i + leading_ws(q)]);
    }
    assert(name_char_ok('U') && name_char_ok('n') && name_char_ok('t') && name_char_ok('i') && name_char_ok('l')
        && name_char_ok('e') && name_char_ok('d'));
    if c.len() > MAX_NAME_CHARS {
        assert forall|i: int| 0 <= i < c.take(MAX_NAME_CHARS as int).len() implies name_char_ok(
            #[trigger] c.take(MAX_NAME_CHARS as int)[i],
        ) by {
            assert(c.take(MAX_NAME_CHARS as int)[i] == c[i]);
        }
    }
    if forall|i: int| 0 <= i < name.len() ==> (is_reserved_name_char(#[trigger] name[i]) || is_cc(name[i]) || is_ws(
        name[i],
    )) {
        lemma_keep_all_ws(name);
        lemma_squeeze_all_ws(k);
        if c.len() > 0 {
            assert(c[0] == trim_start(q)[0]);
            assert(trim_start(q)[0] == q[leading_ws(q) as int]);
        }
    }
}


/// A run's paragraph style follows its ParagraphStyle message (field 2) as the notes format lays
/// it out: style type (field 1, 0 when absent) 1 title, 2 heading, 3 subheading, 4 monospaced,
/// 100 bullet list, 101 dashed list, 102 numbered list, 103 checkbox, anything else body text;
/// each list style for its own number only; a checkbox is done exactly when its Todo message
/// (field 5) has field 2 equal to 1; the indent is field 4 (0 when absent). A run without the
/// message is body text without indent.
pub proof fn law_style_type_decides_paragraph(run: Seq<u8>)
    ensures
        ({
            let (para, indent) = run_paragraph(run);
            match get_bytes(parse_message(run), 2) {
                None => para == ParagraphStyle::Body && indent == 0,
                Some(p) => {
                    let pf = parse_message(p);
                    let t: u64 = match get_varint(pf, 1) {
                        Some(v) => v,
                        None => 0,
                    };
                    let done = match get_bytes(pf, 5) {
                        Some(todo) => get_varint(parse_message(todo), 2) == Some(1u64),
                        None => false,
                    };
                    &&& (para == ParagraphStyle::Title) == (t == 1)
                    &&& (para == ParagraphStyle::Heading) == (t == 2)
                    &&& (para == ParagraphStyle::Subheading) == (t == 3)
                    &&& (para == ParagraphStyle::Monospaced) == (t == 4)
                    &&& (para == ParagraphStyle::BulletList) == (t == 100)
                    &&& (para == ParagraphStyle::DashedList) == (t == 101)
                    &&& (para == ParagraphStyle::NumberedList) == (t == 102)
                    &&& (para is Checkbox) == (t == 103)
                    &&& (para == ParagraphStyle::Checkbox { checked: true }) == (t == 103 && done)
                    &&& (para == ParagraphStyle::Body) == !(t == 1 || t == 2 || t == 3 || t == 4 || t == 100
                        || t == 101 || t == 102 || t == 103)
                    &&& indent == (match get_varint(pf, 4) {
                        Some(v) => v,
                        None => 0,
                    }) as u32
                },
            }
        }),
{
}

} // verus!
