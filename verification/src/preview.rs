//! The preview of a note's text: Obsidian callout blocks (`> [!info]` and the `>` lines after
//! it) shown as framed lines, the rest left as Markdown to render.
use vstd::prelude::*;

use crate::markdown::line_view;
use crate::markdown::sat_sub;
use crate::markdown::literal;
use crate::markdown::repeat;
use crate::markdown::repeat_exec;
use crate::markdown::spans_width;
use crate::markdown::spans_width_exec;
use crate::markdown::SpanKind;
use crate::markdown::SpanView;
use crate::markdown::StyledSpan;
use crate::paths::extension;
use crate::paths::file_name;
use crate::paths::path_extension;
use crate::vault::is_one_of;
use crate::vault::or_empty;
use crate::paths::path_file_name;
use crate::text::all_ascii;
use crate::text::ascii_case_mapped;
use crate::text::before_char;
use crate::text::before_char_chars;
use crate::text::chars_of;
use crate::text::contains_chars;
use crate::text::contains_seq;
use crate::text::find_chars;
use crate::text::find_from;
use crate::text::lemma_find_from;
use crate::text::lowercase;
use crate::text::lowercase_chars;
use crate::text::matches_at;
use crate::text::extend_chars;
use crate::text::split_chars;
use crate::text::split_on;
use crate::text::starts_with;
use crate::text::starts_with_chars;
use crate::text::string_of;
use crate::text::strip_prefix_chars;
use crate::text::strip_prefix_spec;
use crate::text::trim;
use crate::text::trim_chars;
use crate::text::vec_views;

verus! {

/// A piece of a preview: Markdown still to render, or a line already made.
#[derive(Debug)]
pub enum PreviewPart {
    Markdown(String),
    Line(Vec<StyledSpan>),
}

/// What a preview part holds.
pub enum PartView {
    Markdown(Seq<char>),
    Line(Seq<SpanView>),
}

/// The view of a preview part.
pub open spec fn part_view(p: PreviewPart) -> PartView {
    match p {
        PreviewPart::Markdown(s) => PartView::Markdown(s@),
        PreviewPart::Line(l) => PartView::Line(line_view(l)),
    }
}

/// The views of preview parts.
pub open spec fn parts_view(ps: Seq<PreviewPart>) -> Seq<PartView> {
    ps.map_values(|p: PreviewPart| part_view(p))
}

/// What `str::to_uppercase` returns for a string with the given characters.
pub uninterp spec fn uppercase(s: Seq<char>) -> Seq<char>;

/// `str::to_uppercase`: the contract names its result `uppercase` of the argument's characters;
/// of that mapping it states only its ASCII part ('a' to 'z' become 'A' to 'Z', other ASCII
/// characters stay), not the rest of the Unicode upper-case mapping.
#[verifier::external_body]
pub(crate) fn to_uppercase(s: &str) -> (out: String)
    ensures
        out@ == uppercase(s@),
        all_ascii(s@) ==> ascii_case_mapped(s@, out@, 'a', 'z', -32),
{
    s.to_uppercase()
}

/// `s` without all the `c` at its front (`str::trim_start_matches` with a character).
pub open spec fn strip_lead(s: Seq<char>, c: char) -> Seq<char>
    decreases s.len(),
{
    if s.len() > 0 && s[0] == c {
        strip_lead(s.drop_first(), c)
    } else {
        s
    }
}

/// `s` without all the copies of `p` at its front (`str::trim_start_matches` with a string).
pub open spec fn strip_lead_seq(s: Seq<char>, p: Seq<char>) -> Seq<char>
    decreases s.len(),
{
    if p.len() > 0 && starts_with(s, p) {
        strip_lead_seq(s.skip(p.len() as int), p)
    } else {
        s
    }
}

/// `s` without all the `c` at its end (`str::trim_end_matches` with a character).
pub open spec fn strip_trail(s: Seq<char>, c: char) -> Seq<char>
    decreases s.len(),
{
    if s.len() > 0 && s.last() == c {
        strip_trail(s.drop_last(), c)
    } else {
        s
    }
}

/// The callout's type as its header shows it: `> [!note]` gives `NOTE`.
pub open spec fn callout_type(t: Seq<char>) -> Seq<char> {
    uppercase(strip_trail(strip_lead_seq(trim(strip_lead(t, '>')), "[!"@), ']'))
}

/// A callout line: its spans, then spaces up to `width` columns when they are narrower.
pub open spec fn callout_line(spans: Seq<SpanView>, width: usize) -> Seq<SpanView> {
    let cw = spans_width(spans);
    if cw < width {
        spans.push((repeat(" "@, (width - cw) as nat), SpanKind::CalloutPad))
    } else {
        spans
    }
}

/// `n` empty lines.
pub open spec fn blank_lines(n: nat) -> Seq<PartView> {
    Seq::new(n, |i: int| PartView::Line(Seq::empty()))
}

/// The state of the split into parts, between lines.
pub struct CalloutState {
    pub parts: Seq<PartView>,
    pub buf: Seq<char>,
    pub in_callout: bool,
    pub blanks: nat,
}

/// The Markdown gathered so far made a part of its own (when there is any).
pub open spec fn flush_buf(st: CalloutState) -> CalloutState {
    if st.buf.len() > 0 {
        CalloutState { parts: st.parts.push(PartView::Markdown(st.buf)), buf: Seq::empty(), ..st }
    } else {
        st
    }
}

/// The text of a callout's content line `t` (trimmed): what follows `> `, or nothing.
pub open spec fn callout_content(t: Seq<char>) -> Seq<char> {
    match strip_prefix_spec(t, ">"@) {
        Some(r) => match strip_prefix_spec(r, " "@) {
            Some(c) => c,
            None => Seq::empty(),
        },
        None => Seq::empty(),
    }
}

/// One line of the text. Blank lines outside a callout are counted: the first is kept in
/// the Markdown, and the others become empty lines of their own before the next content. A
/// line `> [!type]` starts a callout; while in one, lines that start with `>` are its content;
/// another line ends it with two empty lines and is Markdown again.
pub open spec fn callout_step(st: CalloutState, line: Seq<char>, width: usize) -> CalloutState {
    let t = trim(line);
    if t.len() == 0 && !st.in_callout {
        CalloutState {
            blanks: st.blanks + 1,
            buf: if st.blanks == 0 { st.buf.push('\n') } else { st.buf },
            ..st
        }
    } else {
        let s1 = if st.blanks > 1 {
            let f = flush_buf(st);
            CalloutState { parts: f.parts + blank_lines((st.blanks - 1) as nat), ..f }
        } else {
            st
        };
        let s2 = CalloutState { blanks: 0, ..s1 };
        if !s2.in_callout && starts_with(t, "> [!"@) {
            let f = flush_buf(s2);
            let header = seq![("│ ℹ  "@ + callout_type(t), SpanKind::CalloutHeader)];
            CalloutState {
                parts: f.parts.push(PartView::Line(callout_line(header, width))),
                in_callout: true,
                ..f
            }
        } else if s2.in_callout && starts_with(t, ">"@) {
            let content = callout_content(t);
            let spans = if content.len() == 0 {
                seq![("│ "@, SpanKind::CalloutBar)]
            } else {
                seq![("│ "@, SpanKind::CalloutBar), (content, SpanKind::CalloutText)]
            };
            CalloutState { parts: s2.parts.push(PartView::Line(callout_line(spans, width))), ..s2 }
        } else if s2.in_callout {
            CalloutState {
                parts: s2.parts + blank_lines(2),
                buf: s2.buf + line.push('\n'),
                in_callout: false,
                ..s2
            }
        } else {
            CalloutState { buf: s2.buf + line.push('\n'), ..s2 }
        }
    }
}

/// The state after the lines `ls`, in order.
pub open spec fn callout_run(ls: Seq<Seq<char>>, width: usize) -> CalloutState
    decreases ls.len(),
{
    if ls.len() == 0 {
        CalloutState { parts: Seq::empty(), buf: Seq::empty(), in_callout: false, blanks: 0 }
    } else {
        callout_step(callout_run(ls.drop_last(), width), ls.last(), width)
    }
}

/// The end of the text: an open callout is closed with two empty lines, counted blank lines
/// after Markdown follow it, and the Markdown left is a part of its own.
pub open spec fn callout_finish(st: CalloutState) -> Seq<PartView> {
    let s1 = if st.in_callout {
        CalloutState { parts: st.parts + blank_lines(2), ..st }
    } else {
        st
    };
    let s2 = if s1.blanks > 1 && s1.buf.len() > 0 {
        let f = flush_buf(s1);
        CalloutState { parts: f.parts + blank_lines((s1.blanks - 1) as nat), ..f }
    } else {
        s1
    };
    flush_buf(s2).parts
}

/// The parts a note's text is shown as, in lines `width` columns wide.
pub open spec fn callout_parts(text: Seq<char>, width: usize) -> Seq<PartView> {
    callout_finish(callout_run(split_on(text, '\n'), width))
}

// ---------------------------------------------------------------------------
// Computing the parts
// ---------------------------------------------------------------------------

struct CalloutWriter {
    parts: Vec<PreviewPart>,
    buf: Vec<char>,
    in_callout: bool,
    blanks: usize,
}

impl CalloutWriter {
    spec fn view(&self) -> CalloutState {
        CalloutState {
            parts: parts_view(self.parts@),
            buf: self.buf@,
            in_callout: self.in_callout,
            blanks: self.blanks as nat,
        }
    }

    fn flush_buf(&mut self)
        ensures
            final(self).view() == flush_buf(old(self).view()),
    {
        if self.buf.len() > 0 {
            let ghost before = parts_view(self.parts@);
            let text = string_of(self.buf.as_slice());
            self.parts.push(PreviewPart::Markdown(text));
            self.buf = Vec::new();
            proof {
                assert(parts_view(self.parts@) =~= before.push(PartView::Markdown(old(self).buf@)));
                assert(self.buf@ =~= Seq::<char>::empty());
            }
        }
    }

    fn push_blanks(&mut self, n: usize)
        ensures
            final(self).view() == (CalloutState {
                parts: old(self).view().parts + blank_lines(n as nat),
                ..old(self).view()
            }),
    {
        let ghost before = parts_view(self.parts@);
        let mut k: usize = 0;
        while k < n
            invariant
                k <= n,
                parts_view(self.parts@) == before + blank_lines(k as nat),
                self.buf@ == old(self).buf@,
                self.in_callout == old(self).in_callout,
                self.blanks == old(self).blanks,
            decreases n - k,
        {
            let empty: Vec<StyledSpan> = Vec::new();
            proof {
                assert(line_view(empty) =~= Seq::<SpanView>::empty());
            }
            let ghost mid = parts_view(self.parts@);
            self.parts.push(PreviewPart::Line(empty));
            k = k + 1;
            proof {
                assert(parts_view(self.parts@) =~= mid.push(PartView::Line(Seq::empty())));
                assert(blank_lines(k as nat) =~= blank_lines((k - 1) as nat).push(PartView::Line(Seq::empty())));
                assert(parts_view(self.parts@) =~= before + blank_lines(k as nat));
            }
        }
    }

    fn push_line(&mut self, spans: Vec<StyledSpan>, width: usize)
        ensures
            final(self).view() == (CalloutState {
                parts: old(self).view().parts.push(PartView::Line(callout_line(line_view(spans), width))),
                ..old(self).view()
            }),
    {
        let ghost before = parts_view(self.parts@);
        let ghost sv = line_view(spans);
        let cw = spans_width_exec(&spans);
        let mut line = spans;
        if cw < width {
            let pad = repeat_exec(" ", width - cw);
            let ghost pv = pad@;
            line.push(StyledSpan { text: string_of(pad.as_slice()), kind: SpanKind::CalloutPad });
            proof {
                assert(line_view(line) =~= sv.push((pv, SpanKind::CalloutPad)));
            }
        }
        self.parts.push(PreviewPart::Line(line));
        proof {
            assert(parts_view(self.parts@) =~= before.push(PartView::Line(callout_line(sv, width))));
        }
    }

    fn step(&mut self, line: &[char], width: usize)
        requires
            old(self).blanks < usize::MAX,
        ensures
            final(self).view() == callout_step(old(self).view(), line@, width),
            final(self).blanks <= old(self).blanks + 1,
    {
        let t = trim_chars(line);
        if t.len() == 0 && !self.in_callout {
            if self.blanks == 0 {
                self.buf.push('\n');
            }
            self.blanks = self.blanks + 1;
            return;
        }
        if self.blanks > 1 {
            let extra = self.blanks - 1;
            self.flush_buf();
            self.push_blanks(extra);
        }
        self.blanks = 0;
        if !self.in_callout && starts_with_chars(t.as_slice(), literal("> [!").as_slice()) {
            self.flush_buf();
            let kind = callout_type_exec(t.as_slice());
            let mut head = literal("│ ℹ  ");
            extend_chars(&mut head, kind.as_slice());
            let ghost hv = head@;
            let mut spans: Vec<StyledSpan> = Vec::new();
            spans.push(StyledSpan { text: string_of(head.as_slice()), kind: SpanKind::CalloutHeader });
            proof {
                assert(line_view(spans) =~= seq![(hv, SpanKind::CalloutHeader)]);
            }
            self.push_line(spans, width);
            self.in_callout = true;
        } else if self.in_callout && starts_with_chars(t.as_slice(), literal(">").as_slice()) {
            let content = callout_content_exec(t.as_slice());
            let ghost cv = content@;
            let mut spans: Vec<StyledSpan> = Vec::new();
            spans.push(StyledSpan { text: string_of(literal("│ ").as_slice()), kind: SpanKind::CalloutBar });
            if content.len() > 0 {
                spans.push(StyledSpan { text: string_of(content.as_slice()), kind: SpanKind::CalloutText });
                proof {
                    assert(line_view(spans) =~= seq![("│ "@, SpanKind::CalloutBar), (cv, SpanKind::CalloutText)]);
                }
            } else {
                proof {
                    assert(line_view(spans) =~= seq![("│ "@, SpanKind::CalloutBar)]);
                }
            }
            self.push_line(spans, width);
        } else if self.in_callout {
            self.in_callout = false;
            self.push_blanks(2);
            let ghost b0 = self.buf@;
            extend_chars(&mut self.buf, line);
            self.buf.push('\n');
            proof {
                assert(self.buf@ =~= b0 + line@.push('\n'));
            }
        } else {
            let ghost b0 = self.buf@;
            extend_chars(&mut self.buf, line);
            self.buf.push('\n');
            proof {
                assert(self.buf@ =~= b0 + line@.push('\n'));
            }
        }
    }
}

fn strip_lead_exec(s: &[char], c: char) -> (r: Vec<char>)
    ensures
        r@ == strip_lead(s@, c),
{
    let mut i: usize = 0;
    proof {
        assert(s@.skip(0) =~= s@);
    }
    while i < s.len() && s[i] == c
        invariant
            i <= s@.len(),
            strip_lead(s@, c) == strip_lead(s@.skip(i as int), c),
        decreases s@.len() - i,
    {
        proof {
            assert(s@.skip(i as int).drop_first() =~= s@.skip(i + 1));
        }
        i = i + 1;
    }
    let rest = vstd::slice::slice_subrange(s, i, s.len());
    proof {
        assert(rest@ =~= s@.skip(i as int));
    }
    vstd::slice::slice_to_vec(rest)
}

fn strip_lead_seq_exec(s: &[char], p: &[char]) -> (r: Vec<char>)
    ensures
        r@ == strip_lead_seq(s@, p@),
{
    let mut i: usize = 0;
    proof {
        assert(s@.skip(0) =~= s@);
    }
    if p.len() == 0 {
        return vstd::slice::slice_to_vec(s);
    }
    loop
        invariant
            i <= s@.len(),
            p@.len() > 0,
            strip_lead_seq(s@, p@) == strip_lead_seq(s@.skip(i as int), p@),
        decreases s@.len() - i,
    {
        let rest = vstd::slice::slice_subrange(s, i, s.len());
        proof {
            assert(rest@ =~= s@.skip(i as int));
        }
        if starts_with_chars(rest, p) {
            proof {
                assert(s@.skip(i as int).skip(p@.len() as int) =~= s@.skip(i + p@.len()));
            }
            i = i + p.len();
        } else {
            return vstd::slice::slice_to_vec(rest);
        }
    }
}

fn strip_trail_exec(s: &[char], c: char) -> (r: Vec<char>)
    ensures
        r@ == strip_trail(s@, c),
{
    let mut j: usize = s.len();
    proof {
        assert(s@.take(j as int) =~= s@);
    }
    while j > 0 && s[j - 1] == c
        invariant
            j <= s@.len(),
            strip_trail(s@, c) == strip_trail(s@.take(j as int), c),
        decreases j,
    {
        proof {
            assert(s@.take(j as int).drop_last() =~= s@.take(j - 1));
        }
        j = j - 1;
    }
    let keep = vstd::slice::slice_subrange(s, 0, j);
    proof {
        assert(keep@ =~= s@.take(j as int));
    }
    vstd::slice::slice_to_vec(keep)
}

fn callout_type_exec(t: &[char]) -> (r: Vec<char>)
    ensures
        r@ == callout_type(t@),
{
    let a = strip_lead_exec(t, '>');
    let b = trim_chars(a.as_slice());
    let c = strip_lead_seq_exec(b.as_slice(), literal("[!").as_slice());
    let d = strip_trail_exec(c.as_slice(), ']');
    let up = to_uppercase(string_of(d.as_slice()).as_str());
    chars_of(up.as_str())
}

fn callout_content_exec(t: &[char]) -> (r: Vec<char>)
    ensures
        r@ == callout_content(t@),
{
    match strip_prefix_chars(t, literal(">").as_slice()) {
        Some(rest) => match strip_prefix_chars(rest.as_slice(), literal(" ").as_slice()) {
            Some(c) => c,
            None => Vec::new(),
        },
        None => Vec::new(),
    }
}

/// A note's text split for the preview: each callout block (a line `> [!type]` and the lines
/// after it that start with `>`) becomes framed lines filled to `width` columns with a header
/// naming the type in capitals, followed by two empty lines; runs of more than one blank line
/// outside callouts keep their extra empty lines; the rest stays Markdown, in order.
pub fn render_text_with_callouts(text: &str, width: usize) -> (r: Vec<PreviewPart>)
    ensures
        parts_view(r@) == callout_parts(text@, width),
{
    let cs = chars_of(text);
    let lines = split_chars(cs.as_slice(), '\n');
    let ghost ls = vec_views(lines@);
    let mut w = CalloutWriter { parts: Vec::new(), buf: Vec::new(), in_callout: false, blanks: 0 };
    proof {
        assert(parts_view(w.parts@) =~= Seq::<PartView>::empty());
        assert(w.buf@ =~= Seq::<char>::empty());
        assert(ls.take(0) =~= Seq::<Seq<char>>::empty());
    }
    let mut i: usize = 0;
    while i < lines.len()
        invariant
            i <= lines@.len(),
            ls == vec_views(lines@),
            ls == split_on(text@, '\n'),
            w.view() == callout_run(ls.take(i as int), width),
            w.blanks <= i,
        decreases lines@.len() - i,
    {
        proof {
            assert(ls.take(i + 1).drop_last() =~= ls.take(i as int));
            assert(ls.take(i + 1).last() == lines@[i as int]@);
        }
        w.step(lines[i].as_slice(), width);
        i = i + 1;
    }
    proof {
        assert(ls.take(i as int) =~= ls);
    }
    if w.in_callout {
        w.push_blanks(2);
    }
    if w.blanks > 1 && w.buf.len() > 0 {
        let extra = w.blanks - 1;
        w.flush_buf();
        w.push_blanks(extra);
    }
    w.flush_buf();
    w.parts
}


// ---------------------------------------------------------------------------
// Inline images
// ---------------------------------------------------------------------------

/// The marker before the path of an image shown inside a note's text.
pub open spec fn inline_marker() -> Seq<char> {
    "__INLINE_IMAGE__:"@
}

/// The pieces of `s` between occurrences of the non-empty `p` (`str::split` with a string).
pub open spec fn split_str(s: Seq<char>, p: Seq<char>) -> Seq<Seq<char>>
    decreases s.len(),
{
    if p.len() == 0 {
        seq![s]
    } else {
        match find_from(s, p, 0) {
            Some(i) => {
                proof {
                    lemma_find_from(s, p, 0);
                }
                seq![s.take(i)] + split_str(s.skip(i + p.len()), p)
            },
            None => seq![s],
        }
    }
}

/// A piece of text between inline image markers: the piece, the path it may start with (its
/// first line, trimmed), and what follows that line (from its line feed on), if anything.
#[derive(Debug)]
pub struct InlineSegment {
    pub segment: String,
    pub candidate: String,
    pub after: Option<String>,
}

/// What an inline segment holds.
pub type SegmentView = (Seq<char>, Seq<char>, Option<Seq<char>>);

/// The view of an inline segment.
pub open spec fn segment_view(s: InlineSegment) -> SegmentView {
    (
        s.segment@,
        s.candidate@,
        match s.after {
            Some(a) => Some(a@),
            None => None,
        },
    )
}

/// The views of inline segments.
pub open spec fn segment_views(ss: Seq<InlineSegment>) -> Seq<SegmentView> {
    ss.map_values(|s: InlineSegment| segment_view(s))
}

/// The segment a piece of text makes.
pub open spec fn segment_of(seg: Seq<char>) -> SegmentView {
    let head = before_char(seg, '\n');
    (seg, trim(head), if head.len() < seg.len() {
        Some(seg.skip(head.len() as int))
    } else {
        None
    })
}

/// The segments of the non-empty pieces among `pieces`.
pub open spec fn segments_of(pieces: Seq<Seq<char>>) -> Seq<SegmentView>
    decreases pieces.len(),
{
    if pieces.len() == 0 {
        Seq::empty()
    } else if pieces.last().len() > 0 {
        segments_of(pieces.drop_last()).push(segment_of(pieces.last()))
    } else {
        segments_of(pieces.drop_last())
    }
}

/// How the preview shows a note's content.
#[derive(Debug)]
pub enum PreviewContent {
    /// A picture: its path.
    Image(String),
    /// Text with inline images: its segments.
    Inline(Vec<InlineSegment>),
    /// Text alone.
    Text(String),
}

/// What a preview content holds.
pub enum ContentView {
    Image(Seq<char>),
    Inline(Seq<SegmentView>),
    Text(Seq<char>),
}

/// The view of a preview content.
pub open spec fn content_view(c: PreviewContent) -> ContentView {
    match c {
        PreviewContent::Image(p) => ContentView::Image(p@),
        PreviewContent::Inline(ss) => ContentView::Inline(segment_views(ss@)),
        PreviewContent::Text(t) => ContentView::Text(t@),
    }
}

/// The marker before the path of a picture shown alone.
pub open spec fn image_marker() -> Seq<char> {
    "__IMAGE__:"@
}

/// How content is shown: a picture when it starts with the picture marker, segments when it
/// holds an inline image marker, else text.
pub open spec fn preview_content_spec(content: Seq<char>) -> ContentView {
    if starts_with(content, image_marker()) {
        ContentView::Image(content.skip(image_marker().len() as int))
    } else if contains_seq(content, inline_marker()) {
        ContentView::Inline(segments_of(split_str(content, inline_marker())))
    } else {
        ContentView::Text(content)
    }
}

/// The endings that make an inline path a picture.
pub open spec fn picture_endings() -> Seq<Seq<char>> {
    seq!["png"@, "jpg"@, "jpeg"@, "gif"@, "bmp"@, "webp"@, "tiff"@, "heic"@]
}

/// Whether `s` ends with `p`.
pub open spec fn ends_with(s: Seq<char>, p: Seq<char>) -> bool {
    p.len() <= s.len() && s.skip(s.len() - p.len()) == p
}

/// Whether `s` ends with one of `ps`.
pub open spec fn ends_with_any(s: Seq<char>, ps: Seq<Seq<char>>) -> bool {
    exists|k: int| 0 <= k < ps.len() && ends_with(s, #[trigger] ps[k])
}

/// One item of an inline preview.
#[derive(Debug)]
pub enum PreviewItem {
    /// A picture to draw: its path.
    Image(String),
    /// A line already made.
    Line(Vec<StyledSpan>),
    /// Text to show with its callouts.
    Text(String),
}

/// What a preview item holds.
pub enum ItemView {
    Image(Seq<char>),
    Line(Seq<SpanView>),
    Text(Seq<char>),
}

/// The view of a preview item.
pub open spec fn item_view(i: PreviewItem) -> ItemView {
    match i {
        PreviewItem::Image(p) => ItemView::Image(p@),
        PreviewItem::Line(l) => ItemView::Line(line_view(l)),
        PreviewItem::Text(t) => ItemView::Text(t@),
    }
}

/// The views of preview items.
pub open spec fn item_views(is: Seq<PreviewItem>) -> Seq<ItemView> {
    is.map_values(|i: PreviewItem| item_view(i))
}

/// The items a segment is shown as, given whether its candidate path names a file that
/// exists: a picture (when the path ends with a picture ending, in any case) or a dimmed
/// attachment line naming the file, then the text after the path unless it is blank; when
/// there is no such file, the whole segment as text.
pub open spec fn segment_items_spec(seg: SegmentView, exists: bool) -> Seq<ItemView> {
    let (whole, cand, after) = seg;
    if cand.len() > 0 && exists {
        let head = if ends_with_any(lowercase(cand), picture_endings()) {
            ItemView::Image(cand)
        } else {
            let name = match file_name(cand) {
                Some(n) => n,
                None => Seq::empty(),
            };
            ItemView::Line(seq![("[Attachment: "@ + name + "]"@, SpanKind::Dim)])
        };
        let tail = match after {
            Some(r) => if trim(r).len() > 0 {
                seq![ItemView::Text(r)]
            } else {
                Seq::empty()
            },
            None => Seq::empty(),
        };
        seq![head] + tail
    } else {
        seq![ItemView::Text(whole)]
    }
}

fn split_str_exec(s: &[char], p: &[char]) -> (r: Vec<Vec<char>>)
    requires
        p@.len() > 0,
    ensures
        vec_views(r@) == split_str(s@, p@),
{
    let mut out: Vec<Vec<char>> = Vec::new();
    let mut pos: usize = 0;
    proof {
        assert(s@.skip(0) =~= s@);
        assert(vec_views(out@) + split_str(s@, p@) =~= split_str(s@, p@));
    }
    loop
        invariant
            pos <= s@.len(),
            p@.len() > 0,
            vec_views(out@) + split_str(s@.skip(pos as int), p@) == split_str(s@, p@),
        decreases s@.len() - pos,
    {
        let rest = vstd::slice::slice_subrange(s, pos, s.len());
        proof {
            assert(rest@ =~= s@.skip(pos as int));
            lemma_find_from(rest@, p@, 0);
        }
        match find_chars(rest, p, 0) {
            Some(i) => {
                let piece = vstd::slice::slice_subrange(rest, 0, i);
                let ghost before = vec_views(out@);
                let v = vstd::slice::slice_to_vec(piece);
                out.push(v);
                proof {
                    assert(piece@ =~= rest@.take(i as int));
                    assert(vec_views(out@) =~= before.push(rest@.take(i as int)));
                    assert(rest@.skip(i + p@.len()) =~= s@.skip(pos + i + p@.len()));
                    assert(vec_views(out@) + split_str(s@.skip(pos + i + p@.len()), p@)
                        =~= before + split_str(rest@, p@));
                }
                pos = pos + i + p.len();
            },
            None => {
                let ghost before = vec_views(out@);
                out.push(vstd::slice::slice_to_vec(rest));
                proof {
                    assert(vec_views(out@) =~= before + split_str(rest@, p@));
                }
                return out;
            },
        }
    }
}

fn segment_exec(seg: &[char]) -> (r: InlineSegment)
    ensures
        segment_view(r) == segment_of(seg@),
{
    let head = before_char_chars(seg, '\n');
    let candidate = trim_chars(head.as_slice());
    let after = if head.len() < seg.len() {
        let rest = vstd::slice::slice_subrange(seg, head.len(), seg.len());
        proof {
            assert(rest@ =~= seg@.skip(head@.len() as int));
        }
        Some(string_of(rest))
    } else {
        None
    };
    InlineSegment { segment: string_of(seg), candidate: string_of(candidate.as_slice()), after }
}

/// How the preview shows a note's content: the path after the picture marker when the content
/// starts with it; the segments between inline image markers (empty ones left out) when it
/// holds one; the text itself otherwise.
pub fn preview_content(content: &str) -> (r: PreviewContent)
    ensures
        content_view(r) == preview_content_spec(content@),
{
    let cs = chars_of(content);
    let whole = literal("__IMAGE__:");
    if starts_with_chars(cs.as_slice(), whole.as_slice()) {
        let rest = vstd::slice::slice_subrange(cs.as_slice(), whole.len(), cs.len());
        proof {
            assert(rest@ =~= content@.skip(image_marker().len() as int));
        }
        return PreviewContent::Image(string_of(rest));
    }
    let marker = literal("__INLINE_IMAGE__:");
    if !contains_chars(cs.as_slice(), marker.as_slice()) {
        return PreviewContent::Text(string_of(cs.as_slice()));
    }
    proof {
        reveal_strlit("__INLINE_IMAGE__:");
    }
    let pieces = split_str_exec(cs.as_slice(), marker.as_slice());
    let ghost pv = vec_views(pieces@);
    let mut segs: Vec<InlineSegment> = Vec::new();
    let mut i: usize = 0;
    proof {
        assert(pv.take(0) =~= Seq::<Seq<char>>::empty());
        assert(segment_views(segs@) =~= Seq::<SegmentView>::empty());
    }
    while i < pieces.len()
        invariant
            i <= pieces@.len(),
            pv == vec_views(pieces@),
            segment_views(segs@) == segments_of(pv.take(i as int)),
        decreases pieces@.len() - i,
    {
        proof {
            assert(pv.take(i + 1).drop_last() =~= pv.take(i as int));
            assert(pv.take(i + 1).last() == pieces@[i as int]@);
        }
        if pieces[i].len() > 0 {
            let ghost before = segment_views(segs@);
            let sg = segment_exec(pieces[i].as_slice());
            segs.push(sg);
            proof {
                assert(segment_views(segs@) =~= before.push(segment_of(pieces@[i as int]@)));
            }
        }
        i = i + 1;
    }
    proof {
        assert(pv.take(i as int) =~= pv);
    }
    PreviewContent::Inline(segs)
}

fn ends_with_exec(s: &[char], p: &[char]) -> (b: bool)
    ensures
        b == ends_with(s@, p@),
{
    if p.len() > s.len() {
        return false;
    }
    let start = s.len() - p.len();
    let r = matches_at(s, p, start);
    proof {
        assert(s@.subrange(start as int, start + p@.len()) =~= s@.skip(start as int));
    }
    r
}

fn is_picture_path(path: &[char]) -> (b: bool)
    ensures
        b == ends_with_any(lowercase(path@), picture_endings()),
{
    let low = lowercase_chars(path);
    let ends: Vec<Vec<char>> = vec![
        literal("png"), literal("jpg"), literal("jpeg"), literal("gif"),
        literal("bmp"), literal("webp"), literal("tiff"), literal("heic"),
    ];
    proof {
        assert(vec_views(ends@) =~= picture_endings());
    }
    let mut k: usize = 0;
    while k < ends.len()
        invariant
            k <= ends@.len(),
            vec_views(ends@) == picture_endings(),
            low@ == lowercase(path@),
            forall|j: int| 0 <= j < k ==> !ends_with(low@, #[trigger] picture_endings()[j]),
        decreases ends@.len() - k,
    {
        if ends_with_exec(low.as_slice(), ends[k].as_slice()) {
            proof {
                assert(picture_endings()[k as int] == ends@[k as int]@);
            }
            return true;
        }
        proof {
            assert(picture_endings()[k as int] == ends@[k as int]@);
        }
        k = k + 1;
    }
    false
}

/// The items a segment is shown as, given whether its candidate path names a file that
/// exists (which only the file system can say): see `segment_items_spec`.
pub fn segment_items(seg: &InlineSegment, exists: bool) -> (r: Vec<PreviewItem>)
    ensures
        item_views(r@) == segment_items_spec(segment_view(*seg), exists),
{
    let mut out: Vec<PreviewItem> = Vec::new();
    let cand = chars_of(seg.candidate.as_str());
    if cand.len() > 0 && exists {
        if is_picture_path(cand.as_slice()) {
            out.push(PreviewItem::Image(string_of(cand.as_slice())));
        } else {
            let name = match path_file_name(cand.as_slice()) {
                Some(n) => n,
                None => Vec::new(),
            };
            let mut t = literal("[Attachment: ");
            extend_chars(&mut t, name.as_slice());
            extend_chars(&mut t, literal("]").as_slice());
            let ghost tv = t@;
            let mut spans: Vec<StyledSpan> = Vec::new();
            spans.push(StyledSpan { text: string_of(t.as_slice()), kind: SpanKind::Dim });
            proof {
                assert(line_view(spans) =~= seq![(tv, SpanKind::Dim)]);
            }
            out.push(PreviewItem::Line(spans));
        }
        let ghost head = item_views(out@);
        match &seg.after {
            Some(r) => {
                let rc = chars_of(r.as_str());
                let tr = trim_chars(rc.as_slice());
                if tr.len() > 0 {
                    out.push(PreviewItem::Text(string_of(rc.as_slice())));
                    proof {
                        assert(item_views(out@) =~= head + seq![ItemView::Text(r@)]);
                    }
                } else {
                    proof {
                        assert(item_views(out@) =~= head + Seq::<ItemView>::empty());
                    }
                }
            },
            None => {
                proof {
                    assert(item_views(out@) =~= head + Seq::<ItemView>::empty());
                }
            },
        }
    } else {
        out.push(PreviewItem::Text(string_of(chars_of(seg.segment.as_str()).as_slice())));
        proof {
            assert(item_views(out@) =~= seq![ItemView::Text(seg.segment@)]);
        }
    }
    out
}

/// The first line to show of `len` lines in a view `visible` lines high, when the reader
/// asked for `scroll`: no further than the last full screen.
pub fn clamp_scroll(len: usize, visible: usize, scroll: usize) -> (r: usize)
    ensures
        r == (if scroll <= sat_sub(len as int, visible as int) {
            scroll as int
        } else {
            sat_sub(len as int, visible as int)
        }),
{
    let max_scroll = len.saturating_sub(visible);
    if scroll < max_scroll { scroll } else { max_scroll }
}

// ---------------------------------------------------------------------------
// Attachments selected in the tree
// ---------------------------------------------------------------------------

/// The file endings a selected attachment is shown as a picture for.
pub open spec fn shown_picture_exts() -> Seq<Seq<char>> {
    seq!["png"@, "jpg"@, "jpeg"@, "gif"@, "bmp"@, "webp"@, "svg"@]
}

/// What the preview holds for the attachment `name` at `path`: the picture marker and its path
/// when its extension (in any case) is a picture's, else a description naming the file, its
/// extension in lower case, and its path.
pub open spec fn attachment_preview_text(name: Seq<char>, path: Seq<char>) -> Seq<char> {
    let ext = lowercase(or_empty(extension(path)));
    if shown_picture_exts().contains(ext) {
        image_marker() + path
    } else {
        "Attachment: "@ + name + "\nType: "@ + ext + "\nPath: "@ + path
    }
}

/// What the preview holds for a selected attachment (see `attachment_preview_text`).
pub fn attachment_preview(name: &str, path: &str) -> (r: String)
    ensures
        r@ == attachment_preview_text(name@, path@),
{
    let p = chars_of(path);
    let e = match path_extension(p.as_slice()) {
        Some(e) => e,
        None => Vec::new(),
    };
    let ext = lowercase_chars(e.as_slice());
    let exts = ["png", "jpg", "jpeg", "gif", "bmp", "webp", "svg"];
    let is_picture = is_one_of(ext.as_slice(), &exts);
    proof {
        assert(exts@.map_values(|s: &str| s@) =~= shown_picture_exts());
        if is_picture {
            let i = choose|i: int| 0 <= i < exts@.len() && ext@ == #[trigger] exts@[i]@;
            assert(shown_picture_exts()[i] == ext@);
        } else {
            assert forall|i: int| 0 <= i < shown_picture_exts().len() implies shown_picture_exts()[i] != ext@ by {
                assert(shown_picture_exts()[i] == exts@[i]@);
            }
        }
    }
    let mut out: Vec<char>;
    if is_picture {
        out = literal("__IMAGE__:");
        extend_chars(&mut out, p.as_slice());
    } else {
        out = literal("Attachment: ");
        extend_chars(&mut out, chars_of(name).as_slice());
        extend_chars(&mut out, literal("\nType: ").as_slice());
        extend_chars(&mut out, ext.as_slice());
        extend_chars(&mut out, literal("\nPath: ").as_slice());
        extend_chars(&mut out, p.as_slice());
    }
    string_of(out.as_slice())
}
} // verus!
