//! Markdown shown in the terminal: the events of a Markdown parser turned into lines of styled
//! spans, with word wrapping.
use vstd::prelude::*;
use pulldown_cmark::{Event, Options, Parser, Tag, TagEnd};
use unicode_width::UnicodeWidthStr;

use crate::display::char_columns;
use crate::display::char_width;
use crate::text::before_char;
use crate::text::before_char_chars;
use crate::text::chars_of;
use crate::text::extend_chars;
use crate::text::string_of;
use crate::text::trim_start;
use crate::text::trim_start_chars;

verus! {

/// How a span is shown.
#[derive(Debug, Clone, Copy, PartialEq, Eq, Structural)]
pub enum SpanKind {
    /// Unstyled text.
    Plain,
    /// Body text, bold and/or italic.
    Text { bold: bool, italic: bool },
    /// The bar that starts a block quote line.
    QuoteBar,
    /// A bracket around link text.
    LinkBracket,
    /// An image reference.
    ImageRef,
    /// A line of a code block.
    CodeLine,
    /// Inline code.
    InlineCode,
    /// A heading of the given level.
    Heading(u8),
    /// A horizontal rule.
    Rule,
    /// The header line of a callout block.
    CalloutHeader,
    /// The bar that starts a callout line.
    CalloutBar,
    /// The text of a callout line.
    CalloutText,
    /// The spaces that fill a callout line to the full width.
    CalloutPad,
    /// A remark shown dimmed.
    Dim,
}

/// A piece of a line with its style.
#[derive(Debug)]
pub struct StyledSpan {
    pub text: String,
    pub kind: SpanKind,
}

/// A Markdown parser event, as the renderer reacts to it.
#[derive(Debug)]
pub enum MdEvent {
    StartHeading(u8),
    StartStrong,
    StartEmphasis,
    StartCodeBlock,
    StartList,
    StartItem,
    StartParagraph,
    StartBlockQuote,
    StartLink,
    StartImage(String),
    StartOther,
    EndHeading,
    EndStrong,
    EndEmphasis,
    EndCodeBlock,
    EndParagraph,
    EndItem,
    EndList,
    EndBlockQuote,
    EndLink,
    EndOther,
    Text(String),
    Code(String),
    SoftBreak,
    HardBreak,
    Rule,
    Other,
}

/// A span's text and style.
pub type SpanView = (Seq<char>, SpanKind);

/// The view of a span.
pub open spec fn span_view(s: StyledSpan) -> SpanView {
    (s.text@, s.kind)
}

/// The views of the spans of a line.
pub open spec fn line_view(l: Vec<StyledSpan>) -> Seq<SpanView> {
    l@.map_values(|s: StyledSpan| span_view(s))
}

/// The views of lines.
pub open spec fn lines_view(ls: Seq<Vec<StyledSpan>>) -> Seq<Seq<SpanView>> {
    ls.map_values(|l: Vec<StyledSpan>| line_view(l))
}

/// pulldown-cmark's parser event, handed from the parser to the conversion into [`MdEvent`].
#[verifier::external_type_specification]
#[verifier::external_body]
pub struct ExEvent<'a>(Event<'a>);

/// pulldown-cmark's opening tag of an event.
#[verifier::external_type_specification]
#[verifier::external_body]
pub struct ExTag<'a>(Tag<'a>);

/// pulldown-cmark's closing tag of an event.
#[verifier::external_type_specification]
#[verifier::external_body]
pub struct ExTagEnd(TagEnd);

/// The events pulldown-cmark reads from a Markdown text, strikethrough and tables enabled.
pub uninterp spec fn markdown_events(content: Seq<char>) -> Seq<MdEvent>;

/// `Parser::new_ext` (pulldown-cmark) with strikethrough and tables, each event it yields
/// converted to an [`MdEvent`]: the contract names the result `markdown_events` of the text and
/// states nothing more of it.
#[verifier::external_body]
pub(crate) fn md_events(content: &str) -> (r: Vec<MdEvent>)
    ensures
        r@ == markdown_events(content@),
{
    let options = Options::ENABLE_STRIKETHROUGH | Options::ENABLE_TABLES;
    let mut events = Vec::new();
    for event in Parser::new_ext(content, options) {
        events.push(md_event(event));
    }
    events
}

/// Converts one pulldown-cmark `Event`, variant by variant; the contract states nothing of it.
#[verifier::external_body]
fn md_event(event: Event) -> MdEvent {
    match event {
        Event::Start(tag) => md_start_tag(tag),
        Event::End(tag_end) => md_end_tag(tag_end),
        Event::Text(text) => MdEvent::Text(text.to_string()),
        Event::Code(code) => MdEvent::Code(code.to_string()),
        Event::SoftBreak => MdEvent::SoftBreak,
        Event::HardBreak => MdEvent::HardBreak,
        Event::Rule => MdEvent::Rule,
        _ => MdEvent::Other,
    }
}

/// Converts a pulldown-cmark `Tag`, variant by variant; the contract states nothing of it.
#[verifier::external_body]
fn md_start_tag(tag: Tag) -> MdEvent {
    match tag {
        Tag::Heading { level, .. } => MdEvent::StartHeading(level as u8),
        Tag::Strong => MdEvent::StartStrong,
        Tag::Emphasis => MdEvent::StartEmphasis,
        Tag::CodeBlock(_) => MdEvent::StartCodeBlock,
        Tag::List(_) => MdEvent::StartList,
        Tag::Item => MdEvent::StartItem,
        Tag::Paragraph => MdEvent::StartParagraph,
        Tag::BlockQuote(_) => MdEvent::StartBlockQuote,
        Tag::Link { .. } => MdEvent::StartLink,
        Tag::Image { dest_url, .. } => MdEvent::StartImage(dest_url.to_string()),
        _ => MdEvent::StartOther,
    }
}

/// Converts a pulldown-cmark `TagEnd`, variant by variant; the contract states nothing of it.
#[verifier::external_body]
fn md_end_tag(tag_end: TagEnd) -> MdEvent {
    match tag_end {
        TagEnd::Heading(_) => MdEvent::EndHeading,
        TagEnd::Strong => MdEvent::EndStrong,
        TagEnd::Emphasis => MdEvent::EndEmphasis,
        TagEnd::CodeBlock => MdEvent::EndCodeBlock,
        TagEnd::Paragraph => MdEvent::EndParagraph,
        TagEnd::Item => MdEvent::EndItem,
        TagEnd::List(_) => MdEvent::EndList,
        TagEnd::BlockQuote(_) => MdEvent::EndBlockQuote,
        TagEnd::Link => MdEvent::EndLink,
        _ => MdEvent::EndOther,
    }
}

/// The width `UnicodeWidthStr::width` gives a text.
pub uninterp spec fn text_width(s: Seq<char>) -> usize;

/// `UnicodeWidthStr::width` (unicode-width): the contract names the result `text_width` of the
/// text and states nothing more of it.
#[verifier::external_body]
pub(crate) fn str_width(s: &str) -> (r: usize)
    ensures
        r == text_width(s@),
{
    UnicodeWidthStr::width(s)
}

/// The columns a character takes, none counting as zero.
fn char_cols(c: char) -> (r: usize)
    ensures
        r == match char_columns(c) {
            Some(w) => w,
            None => 0,
        },
        r <= 3,
{
    match char_width(c) {
        Some(w) => w,
        None => 0,
    }
}

// ---------------------------------------------------------------------------
// The renderer's state
// ---------------------------------------------------------------------------

/// What the renderer holds between events.
pub struct MdView {
    pub lines: Seq<Seq<SpanView>>,
    pub spans: Seq<SpanView>,
    pub bold: bool,
    pub italic: bool,
    pub code_block: bool,
    pub heading: Option<u8>,
    pub list_depth: usize,
    pub pending_blank: bool,
}

/// The state before the first event.
pub open spec fn md_start() -> MdView {
    MdView {
        lines: Seq::empty(),
        spans: Seq::empty(),
        bold: false,
        italic: false,
        code_block: false,
        heading: None,
        list_depth: 0,
        pending_blank: false,
    }
}

/// The spans so far made a line of their own (when there are any).
pub open spec fn flush(v: MdView) -> MdView {
    if v.spans.len() > 0 {
        MdView { lines: v.lines.push(v.spans), spans: Seq::empty(), ..v }
    } else {
        v
    }
}

/// A span added to the current line.
pub open spec fn add_span(v: MdView, s: SpanView) -> MdView {
    MdView { spans: v.spans.push(s), ..v }
}

/// Whether the event ends an element.
pub open spec fn is_end(e: MdEvent) -> bool {
    match e {
        MdEvent::EndHeading | MdEvent::EndStrong | MdEvent::EndEmphasis | MdEvent::EndCodeBlock
        | MdEvent::EndParagraph | MdEvent::EndItem | MdEvent::EndList | MdEvent::EndBlockQuote
        | MdEvent::EndLink | MdEvent::EndOther => true,
        _ => false,
    }
}

/// The blank line a paragraph left pending: dropped when a list starts, kept waiting through
/// ends of elements, and written before anything else.
pub open spec fn settle_blank(v: MdView, e: MdEvent) -> MdView {
    if !v.pending_blank {
        v
    } else if e is StartList {
        MdView { pending_blank: false, ..v }
    } else if is_end(e) {
        v
    } else {
        MdView { lines: v.lines.push(Seq::empty()), pending_blank: false, ..v }
    }
}

/// `n` copies of `s`, joined.
pub open spec fn repeat(s: Seq<char>, n: nat) -> Seq<char>
    decreases n,
{
    if n == 0 {
        Seq::empty()
    } else {
        repeat(s, (n - 1) as nat) + s
    }
}

/// The texts of spans, joined.
pub open spec fn span_texts(spans: Seq<SpanView>) -> Seq<char>
    decreases spans.len(),
{
    if spans.len() == 0 {
        Seq::empty()
    } else {
        span_texts(spans.drop_last()) + spans.last().0
    }
}

/// The lines of a text (`str::lines`): split at line feeds, a carriage return before a line
/// feed dropped, no empty line after a final line feed.
pub open spec fn text_lines(s: Seq<char>) -> Seq<Seq<char>>
    decreases s.len(),
{
    if s.len() == 0 {
        Seq::empty()
    } else {
        let l = before_char(s, '\n');
        if l.len() < s.len() {
            let line = if l.len() > 0 && l.last() == '\r' {
                l.drop_last()
            } else {
                l
            };
            seq![line] + text_lines(s.skip(l.len() as int + 1))
        } else {
            seq![s]
        }
    }
}

/// The length of the first word of `s`: its leading spaces and the characters up to the next
/// space.
pub open spec fn word_len(s: Seq<char>) -> nat {
    let lead = spaces_len(s);
    lead + non_spaces_len(s.skip(lead as int))
}

/// The number of leading spaces of `s`.
pub open spec fn spaces_len(s: Seq<char>) -> nat
    decreases s.len(),
{
    if s.len() > 0 && s[0] == ' ' {
        1 + spaces_len(s.drop_first())
    } else {
        0
    }
}

/// The number of leading non-space characters of `s`.
pub open spec fn non_spaces_len(s: Seq<char>) -> nat
    decreases s.len(),
{
    if s.len() > 0 && s[0] != ' ' {
        1 + non_spaces_len(s.drop_first())
    } else {
        0
    }
}

/// The words of a text, each with the spaces before it.
pub open spec fn words(s: Seq<char>) -> Seq<Seq<char>>
    decreases s.len(),
{
    if s.len() == 0 {
        Seq::empty()
    } else {
        let k = word_len(s);
        if k == 0 || k > s.len() {
            seq![s]
        } else {
            seq![s.take(k as int)] + words(s.skip(k as int))
        }
    }
}

/// `a - b`, or zero.
pub open spec fn sat_sub(a: int, b: int) -> int {
    if a >= b {
        a - b
    } else {
        0
    }
}

/// The total width of spans (summed as `usize`, wrapping).
pub open spec fn spans_width(spans: Seq<SpanView>) -> usize
    decreases spans.len(),
{
    if spans.len() == 0 {
        0
    } else {
        wrap_add(spans_width(spans.drop_last()), text_width(spans.last().0))
    }
}

/// `a + b`, wrapping at the top of `usize`.
pub open spec fn wrap_add(a: usize, b: usize) -> usize {
    if a + b > usize::MAX {
        (a + b - usize::MAX - 1) as usize
    } else {
        (a + b) as usize
    }
}

/// Breaking an over-long word character by character from index `i`: `chunk` (of width `cw`)
/// gathers characters while they fit in `remaining`; a full chunk ends the line.
pub open spec fn break_word(
    v: MdView,
    w: Seq<char>,
    i: int,
    chunk: Seq<char>,
    cw: int,
    remaining: int,
    kind: SpanKind,
    max: int,
) -> (MdView, int)
    decreases w.len() - i,
{
    if i < 0 || i >= w.len() {
        if chunk.len() > 0 {
            (add_span(v, (chunk, kind)), sat_sub(max, cw))
        } else {
            (v, remaining)
        }
    } else {
        let c = w[i];
        let ccw = match char_columns(c) {
            Some(x) => x as int,
            None => 0,
        };
        if cw + ccw > remaining && chunk.len() > 0 {
            let v2 = flush(add_span(v, (chunk, kind)));
            break_word(v2, w, i + 1, seq![c], ccw, max, kind, max)
        } else {
            break_word(v, w, i + 1, chunk.push(c), cw + ccw, remaining, kind, max)
        }
    }
}

/// Placing one word: on the current line when it fits, on a new line (without its leading
/// white space) when it fits a line, else broken across lines.
pub open spec fn place_word(v: MdView, w: Seq<char>, remaining: int, kind: SpanKind, max: int) -> (
    MdView,
    int,
) {
    let ww = text_width(w) as int;
    if ww <= remaining {
        (add_span(v, (w, kind)), remaining - ww)
    } else if ww <= max {
        let t = trim_start(w);
        (add_span(flush(v), (t, kind)), sat_sub(max, text_width(t) as int))
    } else {
        let (v1, r1) = if remaining == 0 {
            (flush(v), max)
        } else {
            (v, remaining)
        };
        break_word(v1, w, 0, Seq::empty(), 0, r1, kind, max)
    }
}

/// Placing the words `ws` from index `i` on.
pub open spec fn place_words(v: MdView, ws: Seq<Seq<char>>, i: int, remaining: int, kind: SpanKind, max: int) -> MdView
    decreases ws.len() - i,
{
    if i < 0 || i >= ws.len() {
        v
    } else {
        let (v2, r2) = place_word(v, ws[i], remaining, kind, max);
        place_words(v2, ws, i + 1, r2, kind, max)
    }
}

/// Text added with word wrapping to lines `max` columns wide (no wrapping when `max` is 0).
pub open spec fn wrap_text(v: MdView, text: Seq<char>, kind: SpanKind, max: int) -> MdView {
    if max == 0 {
        add_span(v, (text, kind))
    } else {
        place_words(v, words(text), 0, sat_sub(max, spans_width(v.spans) as int), kind, max)
    }
}

/// The lines of a code block's text, each as a line of its own.
pub open spec fn code_lines(v: MdView, ls: Seq<Seq<char>>) -> MdView
    decreases ls.len(),
{
    if ls.len() == 0 {
        v
    } else {
        flush(add_span(code_lines(v, ls.drop_last()), ("  "@ + ls.last(), SpanKind::CodeLine)))
    }
}

/// `a - 1`, or zero.
pub open spec fn dec(a: usize) -> usize {
    if a > 0 {
        (a - 1) as usize
    } else {
        0
    }
}

/// The renderer's reaction to one event (after a pending blank line is settled).
pub open spec fn event_step(v: MdView, e: MdEvent, width: usize) -> MdView {
    match e {
        MdEvent::StartHeading(l) => MdView { heading: Some(l), ..v },
        MdEvent::StartStrong => MdView { bold: true, ..v },
        MdEvent::StartEmphasis => MdView { italic: true, ..v },
        MdEvent::StartCodeBlock => MdView { code_block: true, ..flush(v) },
        MdEvent::StartList => {
            let f = flush(v);
            MdView { list_depth: if f.list_depth < usize::MAX { (f.list_depth + 1) as usize } else { f.list_depth }, ..f }
        },
        MdEvent::StartItem => add_span(v, (repeat("  "@, dec(v.list_depth) as nat) + "• "@, SpanKind::Plain)),
        MdEvent::StartBlockQuote => add_span(v, ("│ "@, SpanKind::QuoteBar)),
        MdEvent::StartLink => add_span(v, ("["@, SpanKind::LinkBracket)),
        MdEvent::StartImage(url) => add_span(v, ("[Image: "@ + url@ + "]"@, SpanKind::ImageRef)),
        MdEvent::EndHeading => {
            let level = match v.heading {
                Some(l) => l,
                None => 1u8,
            };
            let line = repeat("#"@, level as nat) + " "@ + span_texts(v.spans);
            flush(MdView { spans: seq![(line, SpanKind::Heading(level))], heading: None, ..v })
        },
        MdEvent::EndStrong => MdView { bold: false, ..v },
        MdEvent::EndEmphasis => MdView { italic: false, ..v },
        MdEvent::EndCodeBlock => flush(MdView { code_block: false, ..v }),
        MdEvent::EndParagraph => {
            let f = flush(v);
            if f.list_depth == 0 {
                MdView { pending_blank: true, ..f }
            } else {
                f
            }
        },
        MdEvent::EndItem => flush(v),
        MdEvent::EndList => {
            let d = dec(v.list_depth);
            if d == 0 {
                MdView { list_depth: d, lines: v.lines.push(Seq::empty()), ..v }
            } else {
                MdView { list_depth: d, ..v }
            }
        },
        MdEvent::EndBlockQuote => flush(v),
        MdEvent::EndLink => add_span(v, ("]"@, SpanKind::LinkBracket)),
        MdEvent::Text(t) => if v.code_block {
            code_lines(v, text_lines(t@))
        } else {
            wrap_text(v, t@, SpanKind::Text { bold: v.bold, italic: v.italic }, width as int)
        },
        MdEvent::Code(c) => add_span(v, ("`"@ + c@ + "`"@, SpanKind::InlineCode)),
        MdEvent::SoftBreak => add_span(v, (" "@, SpanKind::Plain)),
        MdEvent::HardBreak => flush(v),
        MdEvent::Rule => {
            let f = flush(v);
            let n = if width < 80 { width } else { 80 };
            MdView { lines: f.lines.push(seq![(repeat("─"@, n as nat), SpanKind::Rule)]).push(Seq::empty()), ..f }
        },
        _ => v,
    }
}

/// The state after the events `es`, in order.
pub open spec fn md_run(es: Seq<MdEvent>, width: usize) -> MdView
    decreases es.len(),
{
    if es.len() == 0 {
        md_start()
    } else {
        event_step(settle_blank(md_run(es.drop_last(), width), es.last()), es.last(), width)
    }
}

/// The lines Markdown with the events `es` is shown as, in lines `width` columns wide.
pub open spec fn md_lines(es: Seq<MdEvent>, width: usize) -> Seq<Seq<SpanView>> {
    flush(md_run(es, width)).lines
}

// ---------------------------------------------------------------------------
// The renderer
// ---------------------------------------------------------------------------

struct Renderer {
    lines: Vec<Vec<StyledSpan>>,
    spans: Vec<StyledSpan>,
    bold: bool,
    italic: bool,
    code_block: bool,
    heading: Option<u8>,
    list_depth: usize,
    pending_blank: bool,
}

impl Renderer {
    spec fn view(&self) -> MdView {
        MdView {
            lines: lines_view(self.lines@),
            spans: line_view(self.spans),
            bold: self.bold,
            italic: self.italic,
            code_block: self.code_block,
            heading: self.heading,
            list_depth: self.list_depth,
            pending_blank: self.pending_blank,
        }
    }

    fn flush(&mut self)
        ensures
            final(self).view() == flush(old(self).view()),
    {
        if self.spans.len() > 0 {
            let ghost before = lines_view(self.lines@);
            let ghost sp = line_view(self.spans);
            let mut taken: Vec<StyledSpan> = Vec::new();
            std::mem::swap(&mut taken, &mut self.spans);
            self.lines.push(taken);
            proof {
                assert(lines_view(self.lines@) =~= before.push(sp));
                assert(line_view(self.spans) =~= Seq::<SpanView>::empty());
            }
        }
    }

    fn add(&mut self, text: Vec<char>, kind: SpanKind)
        ensures
            final(self).view() == add_span(old(self).view(), (text@, kind)),
    {
        let ghost before = line_view(self.spans);
        let t = string_of(text.as_slice());
        self.spans.push(StyledSpan { text: t, kind });
        proof {
            assert(line_view(self.spans) =~= before.push((text@, kind)));
        }
    }

    fn push_blank(&mut self)
        ensures
            final(self).view() == (MdView { lines: old(self).view().lines.push(Seq::empty()), ..old(self).view() }),
    {
        let ghost before = lines_view(self.lines@);
        let empty: Vec<StyledSpan> = Vec::new();
        proof {
            assert(line_view(empty) =~= Seq::<SpanView>::empty());
        }
        self.lines.push(empty);
        proof {
            assert(lines_view(self.lines@) =~= before.push(Seq::<SpanView>::empty()));
        }
    }
}

pub(crate) fn literal(s: &str) -> (r: Vec<char>)
    ensures
        r@ == s@,
{
    chars_of(s)
}

pub(crate) fn repeat_exec(s: &str, n: usize) -> (r: Vec<char>)
    ensures
        r@ == repeat(s@, n as nat),
{
    let piece = chars_of(s);
    let mut out: Vec<char> = Vec::new();
    let mut k: usize = 0;
    while k < n
        invariant
            k <= n,
            piece@ == s@,
            out@ == repeat(s@, k as nat),
        decreases n - k,
    {
        extend_chars(&mut out, piece.as_slice());
        k = k + 1;
    }
    out
}

fn concat3(a: &str, b: &[char], c: &str) -> (r: Vec<char>)
    ensures
        r@ == a@ + b@ + c@,
{
    let mut out = chars_of(a);
    extend_chars(&mut out, b);
    extend_chars(&mut out, chars_of(c).as_slice());
    out
}

pub(crate) fn spans_width_exec(spans: &Vec<StyledSpan>) -> (r: usize)
    ensures
        r == spans_width(line_view(*spans)),
{
    let ghost sv = line_view(*spans);
    let mut total: usize = 0;
    let mut i: usize = 0;
    proof {
        assert(sv.take(0) =~= Seq::<SpanView>::empty());
    }
    while i < spans.len()
        invariant
            sv == line_view(*spans),
            i <= spans@.len(),
            total == spans_width(sv.take(i as int)),
        decreases spans@.len() - i,
    {
        proof {
            assert(sv.take(i + 1).drop_last() =~= sv.take(i as int));
            assert(sv.take(i + 1).last() == span_view(spans@[i as int]));
        }
        let w = str_width(spans[i].text.as_str());
        total = if total > usize::MAX - w {
            w - (usize::MAX - total) - 1
        } else {
            total + w
        };
        i = i + 1;
    }
    proof {
        assert(sv.take(i as int) =~= sv);
    }
    total
}

fn span_texts_exec(spans: &Vec<StyledSpan>) -> (r: Vec<char>)
    ensures
        r@ == span_texts(line_view(*spans)),
{
    let ghost sv = line_view(*spans);
    let mut out: Vec<char> = Vec::new();
    let mut i: usize = 0;
    proof {
        assert(sv.take(0) =~= Seq::<SpanView>::empty());
    }
    while i < spans.len()
        invariant
            sv == line_view(*spans),
            i <= spans@.len(),
            out@ == span_texts(sv.take(i as int)),
        decreases spans@.len() - i,
    {
        proof {
            assert(sv.take(i + 1).drop_last() =~= sv.take(i as int));
            assert(sv.take(i + 1).last() == span_view(spans@[i as int]));
        }
        extend_chars(&mut out, chars_of(spans[i].text.as_str()).as_slice());
        i = i + 1;
    }
    proof {
        assert(sv.take(i as int) =~= sv);
    }
    out
}

fn break_word_exec(r: &mut Renderer, w: &[char], remaining: usize, kind: SpanKind, max: usize) -> (rem: usize)
    requires
        max > 0,
        remaining <= max,
    ensures
        (final(r).view(), rem as int) == break_word(old(r).view(), w@, 0, Seq::empty(), 0, remaining as int, kind, max as int),
        rem <= max,
{
    let ghost start = r.view();
    let mut chunk: Vec<char> = Vec::new();
    let mut cw: usize = 0;
    let mut rem = remaining;
    let mut i: usize = 0;
    while i < w.len()
        invariant
            i <= w@.len(),
            max > 0,
            rem <= max,
            cw <= (if rem > 3 { rem } else { 3 }),
            chunk@.len() == 0 ==> cw == 0,
            break_word(start, w@, 0, Seq::empty(), 0, remaining as int, kind, max as int) == break_word(
                r.view(),
                w@,
                i as int,
                chunk@,
                cw as int,
                rem as int,
                kind,
                max as int,
            ),
        decreases w@.len() - i,
    {
        let c = w[i];
        let ccw = char_cols(c);
        if (ccw > rem || cw > rem - ccw) && chunk.len() > 0 {
            let full = chunk;
            r.add(full, kind);
            r.flush();
            chunk = Vec::new();
            chunk.push(c);
            proof {
                assert(chunk@ =~= seq![c]);
            }
            cw = ccw;
            rem = max;
        } else {
            chunk.push(c);
            cw = cw + ccw;
        }
        i = i + 1;
    }
    if chunk.len() > 0 {
        r.add(chunk, kind);
        max.saturating_sub(cw)
    } else {
        rem
    }
}

fn place_word_exec(r: &mut Renderer, w: &[char], remaining: usize, kind: SpanKind, max: usize) -> (rem: usize)
    requires
        max > 0,
        remaining <= max,
    ensures
        (final(r).view(), rem as int) == place_word(old(r).view(), w@, remaining as int, kind, max as int),
        rem <= max,
{
    let ws = string_of(w);
    let ww = str_width(ws.as_str());
    if ww <= remaining {
        r.add(vstd::slice::slice_to_vec(w), kind);
        remaining - ww
    } else if ww <= max {
        r.flush();
        let t = trim_start_chars(w);
        let ts = string_of(t.as_slice());
        let tw = str_width(ts.as_str());
        r.add(t, kind);
        max.saturating_sub(tw)
    } else {
        let r1 = if remaining == 0 {
            r.flush();
            max
        } else {
            remaining
        };
        break_word_exec(r, w, r1, kind, max)
    }
}

fn word_len_exec(s: &[char], from: usize) -> (k: usize)
    requires
        from <= s@.len(),
    ensures
        k == word_len(s@.skip(from as int)),
        from + k <= s@.len(),
{
    let n = s.len();
    let mut i = from;
    proof {
        lemma_spaces(s@.skip(from as int));
    }
    while i < n && s[i] == ' '
        invariant
            from <= i <= n,
            n == s@.len(),
            spaces_len(s@.skip(from as int)) == (i - from) + spaces_len(s@.skip(i as int)),
        decreases n - i,
    {
        proof {
            assert(s@.skip(i as int).drop_first() =~= s@.skip(i + 1));
        }
        i = i + 1;
    }
    let lead_end = i;
    proof {
        assert(spaces_len(s@.skip(i as int)) == 0);
        assert(s@.skip(from as int).skip(lead_end - from) =~= s@.skip(lead_end as int));
    }
    while i < n && s[i] != ' '
        invariant
            lead_end <= i <= n,
            n == s@.len(),
            non_spaces_len(s@.skip(lead_end as int)) == (i - lead_end) + non_spaces_len(s@.skip(i as int)),
        decreases n - i,
    {
        proof {
            assert(s@.skip(i as int).drop_first() =~= s@.skip(i + 1));
        }
        i = i + 1;
    }
    i - from
}

proof fn lemma_spaces(s: Seq<char>)
    ensures
        spaces_len(s) <= s.len(),
    decreases s.len(),
{
    if s.len() > 0 && s[0] == ' ' {
        lemma_spaces(s.drop_first());
    }
}

fn wrap_exec(r: &mut Renderer, text: &[char], kind: SpanKind, max: usize)
    ensures
        final(r).view() == wrap_text(old(r).view(), text@, kind, max as int),
{
    if max == 0 {
        r.add(vstd::slice::slice_to_vec(text), kind);
        return;
    }
    let used = spans_width_exec(&r.spans);
    let mut rem = max.saturating_sub(used);
    let ghost ws = words(text@);
    let ghost start = r.view();
    let n = text.len();
    let mut pos: usize = 0;
    let ghost mut wi: int = 0;
    proof {
        assert(text@.skip(0) =~= text@);
    }
    while pos < n
        invariant
            n == text@.len(),
            pos <= n,
            max > 0,
            rem <= max,
            words(text@.skip(pos as int)) == ws.skip(wi),
            0 <= wi <= ws.len(),
            place_words(start, ws, 0, sat_sub(max as int, spans_width(start.spans) as int), kind, max as int)
                == place_words(r.view(), ws, wi, rem as int, kind, max as int),
        decreases n - pos,
    {
        let k = word_len_exec(text, pos);
        let ghost rest = text@.skip(pos as int);
        let k2: usize = if k == 0 { n - pos } else { k };
        proof {
            assert(rest.len() > 0);
            if k == 0 {
                assert(words(rest) == seq![rest]);
            } else {
                assert(words(rest) == seq![rest.take(k as int)] + words(rest.skip(k as int)));
                assert(rest.skip(k as int) =~= text@.skip(pos + k));
            }
            assert(ws.skip(wi).len() > 0);
            assert(ws[wi] == ws.skip(wi)[0]);
            assert(ws.skip(wi + 1) =~= ws.skip(wi).drop_first());
        }
        let word = vstd::slice::slice_subrange(text, pos, pos + k2);
        proof {
            if k == 0 {
                assert(word@ =~= rest);
                assert(text@.skip(n as int) =~= Seq::<char>::empty());
            } else {
                assert(word@ =~= rest.take(k as int));
            }
        }
        rem = place_word_exec(r, word, rem, kind, max);
        pos = pos + k2;
        proof {
            wi = wi + 1;
        }
    }
    proof {
        assert(text@.skip(n as int) =~= Seq::<char>::empty());
        assert(ws.skip(wi).len() == 0);
    }
}


fn code_block_exec(r: &mut Renderer, text: &[char])
    ensures
        final(r).view() == code_lines(old(r).view(), text_lines(text@)),
{
    let ghost start = r.view();
    let ghost mut done: Seq<Seq<char>> = Seq::empty();
    let n = text.len();
    let mut pos: usize = 0;
    proof {
        assert(text@.skip(0) =~= text@);
        assert(done + text_lines(text@) =~= text_lines(text@));
    }
    while pos < n
        invariant
            n == text@.len(),
            pos <= n,
            text_lines(text@) == done + text_lines(text@.skip(pos as int)),
            r.view() == code_lines(start, done),
        decreases n - pos,
    {
        let rest = vstd::slice::slice_subrange(text, pos, n);
        proof {
            assert(rest@ =~= text@.skip(pos as int));
        }
        let l = before_char_chars(rest, '\n');
        let ghost line_spec: Seq<char>;
        let line: Vec<char>;
        let ll = l.len();
        if ll < rest.len() {
            line = if l.len() > 0 && l[l.len() - 1] == '\r' {
                let t = vstd::slice::slice_subrange(l.as_slice(), 0, l.len() - 1);
                proof {
                    assert(t@ =~= l@.drop_last());
                }
                vstd::slice::slice_to_vec(t)
            } else {
                l
            };
            proof {
                line_spec = line@;
                lemma_before_char_len(rest@, '\n');
                assert(text@.skip(pos as int).skip(ll as int + 1) =~= text@.skip(pos + ll + 1));
            }
            pos = pos + ll + 1;
        } else {
            proof {
                lemma_before_char_len(rest@, '\n');
                line_spec = rest@;
                assert(text@.skip(n as int) =~= Seq::<char>::empty());
            }
            line = vstd::slice::slice_to_vec(rest);
            pos = n;
        }
        proof {
            assert(line@ == line_spec);
            assert(text_lines(text@) =~= done.push(line_spec) + text_lines(text@.skip(pos as int)));
            assert(done.push(line_spec).drop_last() =~= done);
        }
        let mut shown = literal("  ");
        extend_chars(&mut shown, line.as_slice());
        r.add(shown, SpanKind::CodeLine);
        r.flush();
        proof {
            done = done.push(line_spec);
        }
    }
    proof {
        assert(text@.skip(n as int) =~= Seq::<char>::empty());
        assert(done =~= text_lines(text@));
    }
}

proof fn lemma_before_char_len(s: Seq<char>, c: char)
    ensures
        before_char(s, c).len() <= s.len(),
        before_char(s, c) =~= s.take(before_char(s, c).len() as int),
        before_char(s, c).len() < s.len() ==> s[before_char(s, c).len() as int] == c,
    decreases s.len(),
{
    if s.len() > 0 && s[0] != c {
        lemma_before_char_len(s.drop_first(), c);
    }
}


impl Renderer {
    fn settle(&mut self, e: &MdEvent)
        ensures
            final(self).view() == settle_blank(old(self).view(), *e),
    {
        if self.pending_blank {
            let starts_list = match e {
                MdEvent::StartList => true,
                _ => false,
            };
            let ends = match e {
                MdEvent::EndHeading | MdEvent::EndStrong | MdEvent::EndEmphasis
                | MdEvent::EndCodeBlock | MdEvent::EndParagraph | MdEvent::EndItem
                | MdEvent::EndList | MdEvent::EndBlockQuote | MdEvent::EndLink
                | MdEvent::EndOther => true,
                _ => false,
            };
            if starts_list {
                self.pending_blank = false;
            } else if !ends {
                self.push_blank();
                self.pending_blank = false;
            }
        }
    }

    fn apply(&mut self, e: &MdEvent, width: usize)
        ensures
            final(self).view() == event_step(old(self).view(), *e, width),
    {
        match e {
            MdEvent::StartHeading(l) => {
                self.heading = Some(*l);
            },
            MdEvent::StartStrong => {
                self.bold = true;
            },
            MdEvent::StartEmphasis => {
                self.italic = true;
            },
            MdEvent::StartCodeBlock => {
                self.flush();
                self.code_block = true;
            },
            MdEvent::StartList => {
                self.flush();
                if self.list_depth < usize::MAX {
                    self.list_depth = self.list_depth + 1;
                }
            },
            MdEvent::StartItem => {
                let depth = if self.list_depth > 0 { self.list_depth - 1 } else { 0 };
                let mut t = repeat_exec("  ", depth);
                extend_chars(&mut t, literal("• ").as_slice());
                self.add(t, SpanKind::Plain);
            },
            MdEvent::StartBlockQuote => {
                self.add(literal("│ "), SpanKind::QuoteBar);
            },
            MdEvent::StartLink => {
                self.add(literal("["), SpanKind::LinkBracket);
            },
            MdEvent::StartImage(url) => {
                let t = concat3("[Image: ", chars_of(url.as_str()).as_slice(), "]");
                self.add(t, SpanKind::ImageRef);
            },
            MdEvent::EndHeading => {
                let level: u8 = match self.heading {
                    Some(l) => l,
                    None => 1u8,
                };
                let mut t = repeat_exec("#", level as usize);
                extend_chars(&mut t, literal(" ").as_slice());
                extend_chars(&mut t, span_texts_exec(&self.spans).as_slice());
                let ghost tv = t@;
                let mut one: Vec<StyledSpan> = Vec::new();
                one.push(StyledSpan { text: string_of(t.as_slice()), kind: SpanKind::Heading(level) });
                proof {
                    assert(line_view(one) =~= seq![(tv, SpanKind::Heading(level))]);
                }
                self.spans = one;
                self.heading = None;
                self.flush();
            },
            MdEvent::EndStrong => {
                self.bold = false;
            },
            MdEvent::EndEmphasis => {
                self.italic = false;
            },
            MdEvent::EndCodeBlock => {
                self.code_block = false;
                self.flush();
            },
            MdEvent::EndParagraph => {
                self.flush();
                if self.list_depth == 0 {
                    self.pending_blank = true;
                }
            },
            MdEvent::EndItem => {
                self.flush();
            },
            MdEvent::EndList => {
                let d = if self.list_depth > 0 { self.list_depth - 1 } else { 0 };
                self.list_depth = d;
                if d == 0 {
                    self.push_blank();
                }
            },
            MdEvent::EndBlockQuote => {
                self.flush();
            },
            MdEvent::EndLink => {
                self.add(literal("]"), SpanKind::LinkBracket);
            },
            MdEvent::Text(t) => {
                let cs = chars_of(t.as_str());
                if self.code_block {
                    code_block_exec(self, cs.as_slice());
                } else {
                    let kind = SpanKind::Text { bold: self.bold, italic: self.italic };
                    wrap_exec(self, cs.as_slice(), kind, width);
                }
            },
            MdEvent::Code(c) => {
                let t = concat3("`", chars_of(c.as_str()).as_slice(), "`");
                self.add(t, SpanKind::InlineCode);
            },
            MdEvent::SoftBreak => {
                self.add(literal(" "), SpanKind::Plain);
            },
            MdEvent::HardBreak => {
                self.flush();
            },
            MdEvent::Rule => {
                self.flush();
                let n: usize = if width < 80 { width } else { 80 };
                let rule = repeat_exec("─", n);
                let ghost rv = rule@;
                let mut one: Vec<StyledSpan> = Vec::new();
                one.push(StyledSpan { text: string_of(rule.as_slice()), kind: SpanKind::Rule });
                let ghost before = lines_view(self.lines@);
                proof {
                    assert(line_view(one) =~= seq![(rv, SpanKind::Rule)]);
                }
                self.lines.push(one);
                proof {
                    assert(lines_view(self.lines@) =~= before.push(seq![(rv, SpanKind::Rule)]));
                }
                self.push_blank();
            },
            _ => {},
        }
    }
}

/// Markdown, given as the events of a parser, shown as lines of styled spans: headings with
/// their `#` marks, list items indented by depth with a bullet, quotes with a bar, links in
/// brackets, images as a reference, code blocks line by line, and body text word-wrapped to
/// `width` columns (not wrapped when `width` is 0).
pub fn lines_of_events(events: &Vec<MdEvent>, width: usize) -> (r: Vec<Vec<StyledSpan>>)
    ensures
        lines_view(r@) == md_lines(events@, width),
{
    let mut rd = Renderer {
        lines: Vec::new(),
        spans: Vec::new(),
        bold: false,
        italic: false,
        code_block: false,
        heading: None,
        list_depth: 0,
        pending_blank: false,
    };
    proof {
        assert(rd.view().lines =~= md_start().lines);
        assert(rd.view().spans =~= md_start().spans);
        assert(events@.take(0) =~= Seq::<MdEvent>::empty());
    }
    let mut i: usize = 0;
    while i < events.len()
        invariant
            i <= events@.len(),
            rd.view() == md_run(events@.take(i as int), width),
        decreases events@.len() - i,
    {
        proof {
            assert(events@.take(i + 1).drop_last() =~= events@.take(i as int));
        }
        rd.settle(&events[i]);
        rd.apply(&events[i], width);
        i = i + 1;
    }
    proof {
        assert(events@.take(i as int) =~= events@);
    }
    rd.flush();
    rd.lines
}

/// A Markdown text shown as lines of styled spans: the text is parsed with pulldown-cmark and
/// its events rendered as [`lines_of_events`] renders them.
pub fn markdown_to_lines(content: &str, width: usize) -> (r: Vec<Vec<StyledSpan>>)
    ensures
        lines_view(r@) == md_lines(markdown_events(content@), width),
{
    let events = md_events(content);
    lines_of_events(&events, width)
}


/// `n` copies of a one-character text: `n` characters, each that one.
proof fn lemma_repeat_char(c: char, n: nat)
    ensures
        repeat(seq![c], n).len() == n,
        forall|i: int| 0 <= i < n ==> #[trigger] repeat(seq![c], n)[i] == c,
    decreases n,
{
    if n > 0 {
        lemma_repeat_char(c, (n - 1) as nat);
        let r = repeat(seq![c], (n - 1) as nat);
        assert forall|i: int| 0 <= i < n implies #[trigger] repeat(seq![c], n)[i] == c by {
            if i < n - 1 {
                assert((r + seq![c])[i] == r[i]);
            }
        }
    }
}

/// Closing a heading of level `l` ends it on a line of its own, shown as a heading of that level:
/// exactly `l` `#` marks, a space, then the heading's text; the lines before it stay as they were.
pub proof fn law_heading_line_shows_level(es: Seq<MdEvent>, width: usize, l: u8)
    requires
        md_run(es, width).heading == Some(l),
    ensures
        ({
            let v = md_run(es, width);
            let text = span_texts(v.spans);
            let lines = md_lines(es.push(MdEvent::EndHeading), width);
            &&& lines.len() == v.lines.len() + 1
            &&& lines.take(v.lines.len() as int) == v.lines
            &&& lines.last().len() == 1
            &&& lines.last()[0].1 == SpanKind::Heading(l)
            &&& lines.last()[0].0.len() == l + 1 + text.len()
            &&& forall|i: int| 0 <= i < l ==> #[trigger] lines.last()[0].0[i] == '#'
            &&& lines.last()[0].0[l as int] == ' '
            &&& lines.last()[0].0.skip(l + 1) == text
        }),
{
    let v = md_run(es, width);
    let e2 = es.push(MdEvent::EndHeading);
    assert(e2.drop_last() =~= es);
    assert(settle_blank(v, MdEvent::EndHeading) == v);
    reveal_strlit("#");
    reveal_strlit(" ");
    assert("#"@ =~= seq!['#']);
    lemma_repeat_char('#', l as nat);
    let text = span_texts(v.spans);
    let hashes = repeat("#"@, l as nat);
    let line = hashes + " "@ + text;
    assert(line.skip(l + 1) =~= text);
    assert(line[l as int] == ' ');
    assert forall|i: int| 0 <= i < l implies #[trigger] line[i] == '#' by {
        assert(line[i] == hashes[i]);
    }
    let r = md_run(e2, width);
    assert(r.lines == v.lines.push(seq![(line, SpanKind::Heading(l))]));
    assert(r.lines.take(v.lines.len() as int) =~= v.lines);
}

} // verus!
