//! Turning Apple Notes text, style runs and attachments into Obsidian-flavoured Markdown, and the
//! naming rules of an export.
use vstd::prelude::*;
use vstd::std_specs::hash::group_hash_axioms;
use vstd::wrapping::u32_specs;
use vstd::wrapping::usize_specs;
use std::collections::HashMap;

use crate::note::ParagraphStyle;
use crate::note::InlineStyle;
use crate::note::StyleRun;
use crate::note::StyleRunView;
use crate::note::run_views;
use crate::note::ATTACHMENT_MARKER;
use crate::text::chars_of;
use crate::text::contains_seq;
use crate::text::contains_chars;
use crate::text::decimal;
use crate::text::digit_char;
use crate::text::extend_chars;
use crate::text::is_ws;
use crate::text::lowercase;
use crate::text::lowercase_chars;
use crate::text::push_decimal;
use crate::text::replace_all;
use crate::text::replace_chars;
use crate::text::string_of;
use crate::text::trim;
use crate::text::trim_end;
use crate::text::trim_start;
use crate::text::leading_ws;
use crate::text::trailing_ws;
use crate::text::lemma_leading_ws_bound;
use crate::text::lemma_trailing_ws_bound;
use crate::text::trim_chars;
use crate::text::find_chars;
use crate::text::find_from;
use crate::text::lemma_find_from;
use crate::text::occurs_at;

verus! {

// ---------------------------------------------------------------------------
// Clean-up of the finished text
// ---------------------------------------------------------------------------

/// Line breaks made uniform: "\r\n" becomes "\n", and any other "\r" becomes "\n".
pub open spec fn normalize_newlines(s: Seq<char>) -> Seq<char>
    decreases s.len(),
{
    if s.len() == 0 {
        s
    } else if s[0] == '\r' && s.len() > 1 && s[1] == '\n' {
        seq!['\n'] + normalize_newlines(s.skip(2))
    } else if s[0] == '\r' {
        seq!['\n'] + normalize_newlines(s.drop_first())
    } else {
        seq![s[0]] + normalize_newlines(s.drop_first())
    }
}

/// Every run of three or more line breaks shortened to two.
pub open spec fn squeeze_newlines(s: Seq<char>) -> Seq<char>
    decreases s.len(),
{
    if s.len() == 0 {
        s
    } else {
        let p = squeeze_newlines(s.drop_last());
        if s.last() == '\n' && p.len() >= 2 && p[p.len() - 1] == '\n' && p[p.len() - 2] == '\n' {
            p
        } else {
            p.push(s.last())
        }
    }
}

/// The final clean-up of an exported note: uniform line breaks, at most one blank line in a row,
/// no white space at either end.
pub open spec fn cleanup(s: Seq<char>) -> Seq<char> {
    trim(squeeze_newlines(normalize_newlines(s)))
}

/// Text as an export writes it: no carriage return, never three line breaks in a row, and no
/// white space at either end.
pub open spec fn tidy(s: Seq<char>) -> bool {
    &&& forall|i: int| 0 <= i < s.len() ==> #[trigger] s[i] != '\r'
    &&& forall|i: int|
        0 <= i && i + 2 < s.len() ==> !(#[trigger] s[i] == '\n' && s[i + 1] == '\n' && s[i + 2] == '\n')
    &&& s.len() > 0 ==> !is_ws(s[0]) && !is_ws(s[s.len() - 1])
}

proof fn lemma_normalized_has_no_cr(s: Seq<char>)
    ensures
        forall|i: int| 0 <= i < normalize_newlines(s).len() ==> #[trigger] normalize_newlines(s)[i] != '\r',
    decreases s.len(),
{
    if s.len() > 0 {
        let rest = if s[0] == '\r' && s.len() > 1 && s[1] == '\n' {
            s.skip(2)
        } else {
            s.drop_first()
        };
        lemma_normalized_has_no_cr(rest);
        let head = if s[0] == '\r' { '\n' } else { s[0] };
        assert(normalize_newlines(s) == seq![head] + normalize_newlines(rest));
        assert forall|i: int| 0 <= i < normalize_newlines(s).len() implies #[trigger] normalize_newlines(s)[i]
            != '\r' by {
            if i > 0 {
                assert(normalize_newlines(s)[i] == normalize_newlines(rest)[i - 1]);
            }
        }
    }
}

proof fn lemma_squeezed_is_tidy_inside(s: Seq<char>)
    requires
        forall|i: int| 0 <= i < s.len() ==> #[trigger] s[i] != '\r',
    ensures
        forall|i: int| 0 <= i < squeeze_newlines(s).len() ==> #[trigger] squeeze_newlines(s)[i] != '\r',
        forall|i: int|
            0 <= i && i + 2 < squeeze_newlines(s).len() ==> !(#[trigger] squeeze_newlines(s)[i] == '\n'
                && squeeze_newlines(s)[i + 1] == '\n' && squeeze_newlines(s)[i + 2] == '\n'),
    decreases s.len(),
{
    if s.len() > 0 {
        let d = s.drop_last();
        assert forall|i: int| 0 <= i < d.len() implies #[trigger] d[i] != '\r' by {
            assert(d[i] == s[i]);
        }
        lemma_squeezed_is_tidy_inside(d);
        let p = squeeze_newlines(d);
        assert(s[s.len() - 1] != '\r');
        if !(s.last() == '\n' && p.len() >= 2 && p[p.len() - 1] == '\n' && p[p.len() - 2] == '\n') {
            let q = p.push(s.last());
            assert(squeeze_newlines(s) == q);
            assert forall|i: int| 0 <= i < q.len() implies #[trigger] q[i] != '\r' by {
                if i < p.len() {
                    assert(q[i] == p[i]);
                }
            }
            assert forall|i: int|
                0 <= i && i + 2 < q.len() implies !(#[trigger] q[i] == '\n' && q[i + 1] == '\n' && q[i + 2]
                == '\n') by {
                if i + 2 < p.len() {
                    assert(q[i] == p[i] && q[i + 1] == p[i + 1] && q[i + 2] == p[i + 2]);
                } else {
                    assert(q[i] == p[p.len() - 2] && q[i + 1] == p[p.len() - 1]);
                }
            }
        }
    }
}

proof fn lemma_trimmed_is_tidy(s: Seq<char>)
    requires
        forall|i: int| 0 <= i < s.len() ==> #[trigger] s[i] != '\r',
        forall|i: int|
            0 <= i && i + 2 < s.len() ==> !(#[trigger] s[i] == '\n' && s[i + 1] == '\n' && s[i + 2] == '\n'),
    ensures
        tidy(trim(s)),
{
    let l = leading_ws(s) as int;
    lemma_leading_ws_bound(s);
    let t = trim_start(s);
    assert(t == s.skip(l));
    lemma_trailing_ws_bound(t);
    let r = trim(s);
    assert(r == trim_end(t));
    assert(r == t.take(t.len() - trailing_ws(t)));
    assert forall|i: int| 0 <= i < r.len() implies r[i] == #[trigger] s[i + l] by {
        assert(r[i] == t[i]);
    }
    assert forall|i: int| 0 <= i < r.len() implies #[trigger] r[i] != '\r' by {
        assert(r[i] == s[i + l]);
    }
    assert forall|i: int|
        0 <= i && i + 2 < r.len() implies !(#[trigger] r[i] == '\n' && r[i + 1] == '\n' && r[i + 2] == '\n') by {
        assert(r[i] == s[i + l] && r[i + 1] == s[i + 1 + l] && r[i + 2] == s[i + 2 + l]);
    }
    if r.len() > 0 {
        assert(r[0] == t[0]);
        assert(t[0] == s[l]);
        assert(r[r.len() - 1] == t[t.len() - trailing_ws(t) - 1]);
    }
}

/// The clean-up leaves tidy text, whatever it is given.
proof fn lemma_cleanup_is_tidy(s: Seq<char>)
    ensures
        tidy(cleanup(s)),
{
    let n = normalize_newlines(s);
    lemma_normalized_has_no_cr(s);
    lemma_squeezed_is_tidy_inside(n);
    lemma_trimmed_is_tidy(squeeze_newlines(n));
}

/// Every exported note is tidy: the Markdown of any text, style runs and attachment links
/// holds no carriage return, never three line breaks in a row, and no white space at either
/// end.
pub proof fn law_exported_text_is_tidy(text: Seq<char>, runs: Seq<StyleRunView>, links: Map<usize, Seq<char>>)
    ensures
        tidy(markdown_of(text, runs, links)),
{
    if runs.len() == 0 {
        lemma_cleanup_is_tidy(attachments_only_raw(text, links));
    } else {
        let (out, fin) = format_from(text, runs, links, 0, initial_state());
        lemma_cleanup_is_tidy(
            if fin.in_code {
                out + "```\n"@
            } else {
                out
            },
        );
    }
}

fn normalize_newlines_chars(s: &[char]) -> (out: Vec<char>)
    ensures
        out@ == normalize_newlines(s@),
{
    let mut out: Vec<char> = Vec::new();
    let mut i: usize = 0;
    proof {
        assert(s@.skip(0) =~= s@);
    }
    while i < s.len()
        invariant
            i <= s@.len(),
            out@ + normalize_newlines(s@.skip(i as int)) == normalize_newlines(s@),
        decreases s@.len() - i,
    {
        let ghost rest = s@.skip(i as int);
        if s[i] == '\r' && i + 1 < s.len() && s[i + 1] == '\n' {
            proof {
                assert(rest.skip(2) =~= s@.skip(i + 2));
            }
            out.push('\n');
            i = i + 2;
        } else if s[i] == '\r' {
            proof {
                assert(rest.drop_first() =~= s@.skip(i + 1));
            }
            out.push('\n');
            i = i + 1;
        } else {
            proof {
                assert(rest.drop_first() =~= s@.skip(i + 1));
            }
            out.push(s[i]);
            i = i + 1;
        }
        proof {
            assert(out@ + normalize_newlines(s@.skip(i as int)) =~= normalize_newlines(s@));
        }
    }
    proof {
        assert(out@ =~= normalize_newlines(s@));
    }
    out
}

fn squeeze_newlines_chars(s: &[char]) -> (out: Vec<char>)
    ensures
        out@ == squeeze_newlines(s@),
{
    let mut out: Vec<char> = Vec::new();
    let mut i: usize = 0;
    while i < s.len()
        invariant
            i <= s@.len(),
            out@ == squeeze_newlines(s@.take(i as int)),
        decreases s@.len() - i,
    {
        proof {
            assert(s@.take(i + 1).drop_last() =~= s@.take(i as int));
        }
        let c = s[i];
        let n = out.len();
        if !(c == '\n' && n >= 2 && out[n - 1] == '\n' && out[n - 2] == '\n') {
            out.push(c);
        }
        i = i + 1;
    }
    proof {
        assert(s@.take(i as int) =~= s@);
    }
    out
}

/// The final clean-up, computed.
fn cleanup_chars(s: &[char]) -> (out: Vec<char>)
    ensures
        out@ == cleanup(s@),
{
    let a = normalize_newlines_chars(s);
    let b = squeeze_newlines_chars(a.as_slice());
    trim_chars(b.as_slice())
}

// ---------------------------------------------------------------------------
// Attachments without formatting
// ---------------------------------------------------------------------------

/// The links of the attachment map, as characters.
pub open spec fn link_views(m: Map<usize, String>) -> Map<usize, Seq<char>> {
    m.map_values(|s: String| s@)
}

/// The text with each attachment marker that has a link replaced by the link between blank
/// lines, and each marker without one dropped (before clean-up).
pub open spec fn attachments_only_raw(text: Seq<char>, links: Map<usize, Seq<char>>) -> Seq<char>
    decreases text.len(),
{
    if text.len() == 0 {
        text
    } else {
        let p = attachments_only_raw(text.drop_last(), links);
        let pos = (text.len() - 1) as usize;
        if text.last() == ATTACHMENT_MARKER {
            if links.contains_key(pos) {
                p + "\n\n"@ + links[pos] + "\n\n"@
            } else {
                p
            }
        } else {
            p.push(text.last())
        }
    }
}

/// What `apply_attachments_only` returns.
pub open spec fn attachments_only(text: Seq<char>, links: Map<usize, Seq<char>>) -> Seq<char> {
    cleanup(attachments_only_raw(text, links))
}

/// Fallback: just handle attachment substitution without formatting.
pub fn apply_attachments_only(text: &str, attachment_map: &HashMap<usize, String>) -> (r: String)
    ensures
        r@ == attachments_only(text@, link_views(attachment_map@)),
{
    broadcast use group_hash_axioms;

    let cs = chars_of(text);
    let ghost links = link_views(attachment_map@);
    let mut result: Vec<char> = Vec::new();
    let mut pos: usize = 0;
    while pos < cs.len()
        invariant
            pos <= cs@.len(),
            cs@ == text@,
            links == link_views(attachment_map@),
            result@ == attachments_only_raw(cs@.take(pos as int), links),
        decreases cs@.len() - pos,
    {
        proof {
            assert(cs@.take(pos + 1).drop_last() =~= cs@.take(pos as int));
        }
        let ch = cs[pos];
        if ch == ATTACHMENT_MARKER {
            match attachment_map.get(&pos) {
                Some(link) => {
                    let nl2 = chars_of("\n\n");
                    let lc = chars_of(link.as_str());
                    extend_chars(&mut result, nl2.as_slice());
                    extend_chars(&mut result, lc.as_slice());
                    extend_chars(&mut result, nl2.as_slice());
                },
                None => {},
            }
        } else {
            result.push(ch);
        }
        pos = pos + 1;
        proof {
            assert(result@ =~= attachments_only_raw(cs@.take(pos as int), links));
        }
    }
    proof {
        assert(cs@.take(pos as int) =~= cs@);
    }
    let cleaned = cleanup_chars(result.as_slice());
    string_of(cleaned.as_slice())
}

// ---------------------------------------------------------------------------
// Formatting: what each character and each line becomes
// ---------------------------------------------------------------------------

/// The smaller of two integers.
pub open spec fn min_of(a: int, b: int) -> int {
    if a < b {
        a
    } else {
        b
    }
}

/// Whether run `r` covers character `i` of a text of `n` characters (its end wraps at the width
/// of `usize`, and both ends are cut at `n`).
pub open spec fn run_covers(r: StyleRunView, n: int, i: int) -> bool {
    min_of(r.offset as int, n) <= i < min_of(usize_specs::wrapping_add(r.offset, r.length) as int, n)
}

/// The last of the first `k` runs that covers character `i`, or 0.
pub open spec fn covering_run(runs: Seq<StyleRunView>, n: int, i: int, k: int) -> int
    decreases k,
{
    if k <= 0 {
        0
    } else if run_covers(runs[k - 1], n, i) {
        k - 1
    } else {
        covering_run(runs, n, i, k - 1)
    }
}

/// The style run that character `i` of a text of `n` characters takes: the last run covering
/// it, or the first run.
pub open spec fn style_index(runs: Seq<StyleRunView>, n: int, i: int) -> int {
    covering_run(runs, n, i, runs.len() as int)
}

/// One past the last character of the line that starts at `start`.
pub open spec fn line_end(text: Seq<char>, start: int) -> int {
    match find_from(text, seq!['\n'], start) {
        Some(e) => e,
        None => text.len() as int,
    }
}

/// The run whose paragraph style a line takes: the run of its trailing line break, or for the
/// last line the run of the last character, or the first run.
pub open spec fn line_style_index(text: Seq<char>, runs: Seq<StyleRunView>, start: int, end: int) -> int {
    let n = text.len() as int;
    if end < n {
        style_index(runs, n, end)
    } else if start < n {
        style_index(runs, n, n - 1)
    } else {
        0
    }
}

/// Whether a paragraph style is a list item.
pub open spec fn is_list_style(p: ParagraphStyle) -> bool {
    match p {
        ParagraphStyle::BulletList | ParagraphStyle::DashedList | ParagraphStyle::NumberedList
        | ParagraphStyle::Checkbox { .. } => true,
        _ => false,
    }
}

/// What decides whether two characters belong to one formatted span.
pub open spec fn char_key(text: Seq<char>, runs: Seq<StyleRunView>, p: int) -> (
    bool,
    bool,
    bool,
    Option<Seq<char>>,
) {
    let r = runs[style_index(runs, text.len() as int, p)];
    (r.inline_style.bold, r.inline_style.italic, r.inline_style.strikethrough, r.link)
}

/// Where the span that starts at `pos` ends: at the line end, at a marker, or at the first
/// character with other formatting.
pub open spec fn span_end(
    text: Seq<char>,
    runs: Seq<StyleRunView>,
    pos: int,
    end: int,
    key: (bool, bool, bool, Option<Seq<char>>),
) -> int
    decreases end - pos,
{
    if pos >= end || text[pos] == ATTACHMENT_MARKER || char_key(text, runs, pos) != key {
        pos
    } else {
        span_end(text, runs, pos + 1, end, key)
    }
}

/// A span of text with its inline formatting applied.
pub open spec fn format_span(span: Seq<char>, r: StyleRunView) -> Seq<char> {
    let a = if r.inline_style.strikethrough {
        "~~"@ + span + "~~"@
    } else {
        span
    };
    let b = if r.inline_style.bold && r.inline_style.italic {
        "***"@ + a + "***"@
    } else if r.inline_style.bold {
        "**"@ + a + "**"@
    } else if r.inline_style.italic {
        "*"@ + a + "*"@
    } else {
        a
    };
    match r.link {
        Some(url) => "["@ + b + "]("@ + url + ")"@,
        None => b,
    }
}

/// The content of a line from `pos` to `end`, appended to `acc`: attachment markers with a link
/// become the link on a line of its own, other markers vanish; inside a code block characters
/// stay as they are, elsewhere spans of equal formatting get their inline markup.
pub open spec fn content_from(
    text: Seq<char>,
    runs: Seq<StyleRunView>,
    links: Map<usize, Seq<char>>,
    pos: int,
    end: int,
    in_code: bool,
    acc: Seq<char>,
) -> Seq<char>
    decreases end - pos,
{
    if pos >= end {
        acc
    } else if text[pos] == ATTACHMENT_MARKER {
        let acc2 = if links.contains_key(pos as usize) {
            (if acc.len() > 0 {
                acc.push('\n')
            } else {
                acc
            }) + links[pos as usize] + "\n"@
        } else {
            acc
        };
        content_from(text, runs, links, pos + 1, end, in_code, acc2)
    } else if in_code {
        content_from(text, runs, links, pos + 1, end, in_code, acc.push(text[pos]))
    } else {
        let se = span_end(text, runs, pos, end, char_key(text, runs, pos));
        if se <= pos || se > end {
            acc
        } else {
            let r = runs[style_index(runs, text.len() as int, pos)];
            content_from(
                text,
                runs,
                links,
                se,
                end,
                in_code,
                acc + format_span(text.subrange(pos, se), r),
            )
        }
    }
}

/// Whether `c` is a dash: '-', em dash or en dash.
pub open spec fn is_dash(c: char) -> bool {
    c == '-' || c == '\u{2014}' || c == '\u{2013}'
}

/// A non-empty line made of dashes only.
pub open spec fn is_dash_line(t: Seq<char>) -> bool {
    t.len() > 0 && forall|i: int| 0 <= i < t.len() ==> is_dash(#[trigger] t[i])
}

/// The number of dashes in `t`.
pub open spec fn dash_count(t: Seq<char>) -> nat
    decreases t.len(),
{
    if t.len() == 0 {
        0
    } else {
        dash_count(t.drop_last()) + if is_dash(t.last()) {
            1nat
        } else {
            0nat
        }
    }
}

/// Whether the lower-cased line `lower` is a "--- notes ---" opener: it mentions "notes", and
/// without the word it holds only dashes and spaces.
pub open spec fn is_notes_text(lower: Seq<char>) -> bool {
    contains_seq(lower, "notes"@) && {
        let rem = trim(replace_all(lower, "notes"@, Seq::empty()));
        rem.len() == 0 || forall|i: int| 0 <= i < rem.len() ==> (is_dash(#[trigger] rem[i]) || rem[i] == ' ')
    }
}

/// Two spaces repeated `k` times.
pub open spec fn indent_of(k: nat) -> Seq<char>
    decreases k,
{
    if k == 0 {
        Seq::empty()
    } else {
        indent_of((k - 1) as nat) + "  "@
    }
}

/// The state carried from line to line.
#[derive(Clone, Copy)]
pub struct FmtState {
    pub in_code: bool,
    pub counter: u32,
    pub prev_list: bool,
    pub in_callout: bool,
}

/// A line with its paragraph prefix (outside code blocks, dash lines and callout markers).
pub open spec fn prefixed_line(
    para: ParagraphStyle,
    indent: u32,
    counter: u32,
    in_callout: bool,
    content: Seq<char>,
) -> Seq<char> {
    let cp = if in_callout {
        "> "@
    } else {
        Seq::empty()
    };
    let ind = indent_of(indent as nat);
    match para {
        ParagraphStyle::Title => cp + "# "@ + content,
        ParagraphStyle::Heading => cp + "## "@ + content,
        ParagraphStyle::Subheading => cp + "### "@ + content,
        ParagraphStyle::BulletList | ParagraphStyle::DashedList => cp + ind + "- "@ + content,
        ParagraphStyle::NumberedList => cp + ind + decimal(counter as nat) + ". "@ + content,
        ParagraphStyle::Checkbox { checked } => cp + ind + (if checked {
            "- [x] "@
        } else {
            "- [ ] "@
        }) + content,
        ParagraphStyle::Monospaced | ParagraphStyle::Body => cp + content,
    }
}

/// What the line from `start` to `end` becomes, and the state after it.
pub open spec fn format_line(
    text: Seq<char>,
    runs: Seq<StyleRunView>,
    links: Map<usize, Seq<char>>,
    start: int,
    end: int,
    st: FmtState,
) -> (Seq<char>, FmtState) {
    let r = runs[line_style_index(text, runs, start, end)];
    let para = r.paragraph;
    let is_list = is_list_style(para);
    let is_mono = para == ParagraphStyle::Monospaced;
    let counter = if para == ParagraphStyle::NumberedList {
        if !st.prev_list {
            1u32
        } else {
            u32_specs::wrapping_add(st.counter, 1)
        }
    } else if !is_list {
        0u32
    } else {
        st.counter
    };
    let (fence, in_code) = if is_mono && !st.in_code {
        ("```\n"@, true)
    } else if !is_mono && st.in_code {
        ("```\n"@, false)
    } else {
        (Seq::<char>::empty(), st.in_code)
    };
    let content = content_from(text, runs, links, start, end, in_code, Seq::empty());
    let trimmed = trim(content);
    let dash = is_dash_line(trimmed);
    let opener = !in_code && !dash && is_notes_text(lowercase(trimmed));
    let (body, in_callout) = if opener && !st.in_callout {
        ("> [!info]"@, true)
    } else if st.in_callout && dash && dash_count(trimmed) >= 4 {
        (Seq::<char>::empty(), false)
    } else if dash && !in_code {
        ("---"@, st.in_callout)
    } else if in_code {
        (content, st.in_callout)
    } else if trimmed.len() == 0 && !is_list {
        (if st.in_callout {
            ">"@
        } else {
            Seq::<char>::empty()
        }, st.in_callout)
    } else {
        (prefixed_line(para, r.indent, counter, st.in_callout, content), st.in_callout)
    };
    (fence + body + "\n"@, FmtState { in_code, counter, prev_list: is_list, in_callout })
}

/// What the lines from `start` on become, and the state after the last one.
pub open spec fn format_from(
    text: Seq<char>,
    runs: Seq<StyleRunView>,
    links: Map<usize, Seq<char>>,
    start: int,
    st: FmtState,
) -> (Seq<char>, FmtState)
    decreases text.len() + 1 - start,
{
    let end = line_end(text, start);
    let (out, st2) = format_line(text, runs, links, start, end, st);
    if start < 0 || end < start || end >= text.len() {
        (out, st2)
    } else {
        let (rest, fin) = format_from(text, runs, links, end + 1, st2);
        (out + rest, fin)
    }
}

/// The state before the first line.
pub open spec fn initial_state() -> FmtState {
    FmtState { in_code: false, counter: 0, prev_list: false, in_callout: false }
}

/// What `apply_markdown_formatting` returns: without runs, the text with its attachments only;
/// otherwise the formatted lines, a code block still open at the end closed, then cleaned up.
pub open spec fn markdown_of(text: Seq<char>, runs: Seq<StyleRunView>, links: Map<usize, Seq<char>>) -> Seq<char> {
    if runs.len() == 0 {
        attachments_only(text, links)
    } else {
        let (out, fin) = format_from(text, runs, links, 0, initial_state());
        cleanup(if fin.in_code {
            out + "```\n"@
        } else {
            out
        })
    }
}

// ---------------------------------------------------------------------------
// No attachment marker survives an export
// ---------------------------------------------------------------------------

/// Text without an attachment marker.
pub open spec fn marker_free(s: Seq<char>) -> bool {
    forall|i: int| 0 <= i < s.len() ==> #[trigger] s[i] != ATTACHMENT_MARKER
}

/// The hyperlinks of the runs hold no attachment marker.
pub open spec fn run_links_marker_free(runs: Seq<StyleRunView>) -> bool {
    forall|j: int| 0 <= j < runs.len() ==> (#[trigger] runs[j].link matches Some(u) ==> marker_free(u))
}

/// The attachment links hold no attachment marker.
pub open spec fn links_marker_free(links: Map<usize, Seq<char>>) -> bool {
    forall|k: usize| links.contains_key(k) ==> marker_free(#[trigger] links[k])
}

proof fn lemma_marker_free_add(a: Seq<char>, b: Seq<char>)
    requires
        marker_free(a),
        marker_free(b),
    ensures
        marker_free(a + b),
{
    assert forall|i: int| 0 <= i < (a + b).len() implies #[trigger] (a + b)[i] != ATTACHMENT_MARKER by {
        if i < a.len() {
            assert((a + b)[i] == a[i]);
        } else {
            assert((a + b)[i] == b[i - a.len()]);
        }
    }
}

proof fn lemma_marker_free_push(a: Seq<char>, c: char)
    requires
        marker_free(a),
        c != ATTACHMENT_MARKER,
    ensures
        marker_free(a.push(c)),
{
    assert forall|i: int| 0 <= i < a.push(c).len() implies #[trigger] a.push(c)[i] != ATTACHMENT_MARKER by {
        if i < a.len() {
            assert(a.push(c)[i] == a[i]);
        }
    }
}

proof fn lemma_literals_marker_free()
    ensures
        marker_free("\n"@),
        marker_free("\n\n"@),
        marker_free("```\n"@),
        marker_free("> [!info]"@),
        marker_free("---"@),
        marker_free(">"@),
        marker_free("> "@),
        marker_free("# "@),
        marker_free("## "@),
        marker_free("### "@),
        marker_free("- "@),
        marker_free(". "@),
        marker_free("- [x] "@),
        marker_free("- [ ] "@),
        marker_free("  "@),
        marker_free("~~"@),
        marker_free("***"@),
        marker_free("**"@),
        marker_free("*"@),
        marker_free("["@),
        marker_free("]("@),
        marker_free(")"@),
{
    reveal_strlit("\n");
    reveal_strlit("\n\n");
    reveal_strlit("```\n");
    reveal_strlit("> [!info]");
    reveal_strlit("---");
    reveal_strlit(">");
    reveal_strlit("> ");
    reveal_strlit("# ");
    reveal_strlit("## ");
    reveal_strlit("### ");
    reveal_strlit("- ");
    reveal_strlit(". ");
    reveal_strlit("- [x] ");
    reveal_strlit("- [ ] ");
    reveal_strlit("  ");
    reveal_strlit("~~");
    reveal_strlit("***");
    reveal_strlit("**");
    reveal_strlit("*");
    reveal_strlit("[");
    reveal_strlit("](");
    reveal_strlit(")");
}

proof fn lemma_decimal_marker_free(n: nat)
    ensures
        marker_free(decimal(n)),
    decreases n,
{
    let c = digit_char(n % 10);
    assert(c != ATTACHMENT_MARKER);
    if n < 10 {
        assert(decimal(n) == seq![digit_char(n)]);
        assert(digit_char(n) != ATTACHMENT_MARKER);
    } else {
        lemma_decimal_marker_free(n / 10);
        lemma_marker_free_push(decimal(n / 10), c);
    }
}

proof fn lemma_indent_marker_free(k: nat)
    ensures
        marker_free(indent_of(k)),
    decreases k,
{
    if k > 0 {
        lemma_indent_marker_free((k - 1) as nat);
        lemma_literals_marker_free();
        lemma_marker_free_add(indent_of((k - 1) as nat), "  "@);
    }
}

proof fn lemma_span_has_no_marker(
    text: Seq<char>,
    runs: Seq<StyleRunView>,
    pos: int,
    end: int,
    key: (bool, bool, bool, Option<Seq<char>>),
)
    ensures
        forall|i: int| pos <= i < span_end(text, runs, pos, end, key) ==> #[trigger] text[i] != ATTACHMENT_MARKER,
    decreases end - pos,
{
    if !(pos >= end || text[pos] == ATTACHMENT_MARKER || char_key(text, runs, pos) != key) {
        lemma_span_has_no_marker(text, runs, pos + 1, end, key);
    }
}

proof fn lemma_format_span_marker_free(span: Seq<char>, r: StyleRunView)
    requires
        marker_free(span),
        r.link matches Some(u) ==> marker_free(u),
    ensures
        marker_free(format_span(span, r)),
{
    lemma_literals_marker_free();
    let a = if r.inline_style.strikethrough {
        lemma_marker_free_add("~~"@, span);
        lemma_marker_free_add("~~"@ + span, "~~"@);
        "~~"@ + span + "~~"@
    } else {
        span
    };
    let b = if r.inline_style.bold && r.inline_style.italic {
        lemma_marker_free_add("***"@, a);
        lemma_marker_free_add("***"@ + a, "***"@);
        "***"@ + a + "***"@
    } else if r.inline_style.bold {
        lemma_marker_free_add("**"@, a);
        lemma_marker_free_add("**"@ + a, "**"@);
        "**"@ + a + "**"@
    } else if r.inline_style.italic {
        lemma_marker_free_add("*"@, a);
        lemma_marker_free_add("*"@ + a, "*"@);
        "*"@ + a + "*"@
    } else {
        a
    };
    if let Some(url) = r.link {
        lemma_marker_free_add("["@, b);
        lemma_marker_free_add("["@ + b, "]("@);
        lemma_marker_free_add("["@ + b + "]("@, url);
        lemma_marker_free_add("["@ + b + "]("@ + url, ")"@);
    }
}

proof fn lemma_content_marker_free(
    text: Seq<char>,
    runs: Seq<StyleRunView>,
    links: Map<usize, Seq<char>>,
    pos: int,
    end: int,
    in_code: bool,
    acc: Seq<char>,
)
    requires
        0 <= pos,
        end <= text.len(),
        runs.len() > 0,
        run_links_marker_free(runs),
        links_marker_free(links),
        marker_free(acc),
    ensures
        marker_free(content_from(text, runs, links, pos, end, in_code, acc)),
    decreases end - pos,
{
    lemma_literals_marker_free();
    if pos >= end {
    } else if text[pos] == ATTACHMENT_MARKER {
        let acc2 = if links.contains_key(pos as usize) {
            let a1 = if acc.len() > 0 {
                lemma_marker_free_push(acc, '\n');
                acc.push('\n')
            } else {
                acc
            };
            let l = links[pos as usize];
            assert(marker_free(l));
            lemma_marker_free_add(a1, l);
            lemma_marker_free_add(a1 + l, "\n"@);
            a1 + l + "\n"@
        } else {
            acc
        };
        lemma_content_marker_free(text, runs, links, pos + 1, end, in_code, acc2);
    } else if in_code {
        lemma_marker_free_push(acc, text[pos]);
        lemma_content_marker_free(text, runs, links, pos + 1, end, in_code, acc.push(text[pos]));
    } else {
        let key = char_key(text, runs, pos);
        let se = span_end(text, runs, pos, end, key);
        if !(se <= pos || se > end) {
            let idx = style_index(runs, text.len() as int, pos);
            lemma_covering_run_bound(runs, text.len() as int, pos, runs.len() as int);
            let r = runs[idx];
            assert(r.link matches Some(u) ==> marker_free(u));
            lemma_span_has_no_marker(text, runs, pos, end, key);
            let span = text.subrange(pos, se);
            assert forall|i: int| 0 <= i < span.len() implies #[trigger] span[i] != ATTACHMENT_MARKER by {
                assert(span[i] == text[pos + i]);
            }
            lemma_format_span_marker_free(span, r);
            lemma_marker_free_add(acc, format_span(span, r));
            lemma_content_marker_free(text, runs, links, se, end, in_code, acc + format_span(span, r));
        }
    }
}

proof fn lemma_line_marker_free(
    text: Seq<char>,
    runs: Seq<StyleRunView>,
    links: Map<usize, Seq<char>>,
    start: int,
    end: int,
    st: FmtState,
)
    requires
        0 <= start,
        end <= text.len(),
        runs.len() > 0,
        run_links_marker_free(runs),
        links_marker_free(links),
    ensures
        marker_free(format_line(text, runs, links, start, end, st).0),
{
    lemma_literals_marker_free();
    let r = runs[line_style_index(text, runs, start, end)];
    let para = r.paragraph;
    let is_list = is_list_style(para);
    let is_mono = para == ParagraphStyle::Monospaced;
    let counter = if para == ParagraphStyle::NumberedList {
        if !st.prev_list {
            1u32
        } else {
            u32_specs::wrapping_add(st.counter, 1)
        }
    } else if !is_list {
        0u32
    } else {
        st.counter
    };
    let (fence, in_code) = if is_mono && !st.in_code {
        ("```\n"@, true)
    } else if !is_mono && st.in_code {
        ("```\n"@, false)
    } else {
        (Seq::<char>::empty(), st.in_code)
    };
    assert(marker_free(Seq::<char>::empty()));
    let content = content_from(text, runs, links, start, end, in_code, Seq::empty());
    lemma_content_marker_free(text, runs, links, start, end, in_code, Seq::empty());
    let cp = if st.in_callout {
        "> "@
    } else {
        Seq::empty()
    };
    let ind = indent_of(r.indent as nat);
    lemma_indent_marker_free(r.indent as nat);
    lemma_decimal_marker_free(counter as nat);
    let pre = prefixed_line(para, r.indent, counter, st.in_callout, content);
    assert(marker_free(pre)) by {
        match para {
            ParagraphStyle::Title => {
                lemma_marker_free_add(cp, "# "@);
                lemma_marker_free_add(cp + "# "@, content);
            },
            ParagraphStyle::Heading => {
                lemma_marker_free_add(cp, "## "@);
                lemma_marker_free_add(cp + "## "@, content);
            },
            ParagraphStyle::Subheading => {
                lemma_marker_free_add(cp, "### "@);
                lemma_marker_free_add(cp + "### "@, content);
            },
            ParagraphStyle::BulletList | ParagraphStyle::DashedList => {
                lemma_marker_free_add(cp, ind);
                lemma_marker_free_add(cp + ind, "- "@);
                lemma_marker_free_add(cp + ind + "- "@, content);
            },
            ParagraphStyle::NumberedList => {
                lemma_marker_free_add(cp, ind);
                lemma_marker_free_add(cp + ind, decimal(counter as nat));
                lemma_marker_free_add(cp + ind + decimal(counter as nat), ". "@);
                lemma_marker_free_add(cp + ind + decimal(counter as nat) + ". "@, content);
            },
            ParagraphStyle::Checkbox { checked } => {
                let b = if checked {
                    "- [x] "@
                } else {
                    "- [ ] "@
                };
                lemma_marker_free_add(cp, ind);
                lemma_marker_free_add(cp + ind, b);
                lemma_marker_free_add(cp + ind + b, content);
            },
            ParagraphStyle::Monospaced | ParagraphStyle::Body => {
                lemma_marker_free_add(cp, content);
            },
        }
    }
    let line = format_line(text, runs, links, start, end, st).0;
    let body = line.subrange(fence.len() as int, line.len() - 1);
    assert(exists|b: Seq<char>| marker_free(b) && line == fence + b + "\n"@) by {
        let trimmed = trim(content);
        let dash = is_dash_line(trimmed);
        let opener = !in_code && !dash && is_notes_text(lowercase(trimmed));
        let b = if opener && !st.in_callout {
            "> [!info]"@
        } else if st.in_callout && dash && dash_count(trimmed) >= 4 {
            Seq::<char>::empty()
        } else if dash && !in_code {
            "---"@
        } else if in_code {
            content
        } else if trimmed.len() == 0 && !is_list {
            if st.in_callout {
                ">"@
            } else {
                Seq::<char>::empty()
            }
        } else {
            pre
        };
        assert(line == fence + b + "\n"@);
        assert(marker_free(b));
    }
    let b = choose|b: Seq<char>| marker_free(b) && line == fence + b + "\n"@;
    lemma_marker_free_add(fence, b);
    lemma_marker_free_add(fence + b, "\n"@);
}

proof fn lemma_lines_marker_free(
    text: Seq<char>,
    runs: Seq<StyleRunView>,
    links: Map<usize, Seq<char>>,
    start: int,
    st: FmtState,
)
    requires
        0 <= start <= text.len(),
        runs.len() > 0,
        run_links_marker_free(runs),
        links_marker_free(links),
    ensures
        marker_free(format_from(text, runs, links, start, st).0),
    decreases text.len() + 1 - start,
{
    let end = line_end(text, start);
    lemma_find_from(text, seq!['\n'], start);
    assert(end <= text.len());
    lemma_line_marker_free(text, runs, links, start, end, st);
    let (out, st2) = format_line(text, runs, links, start, end, st);
    if !(start < 0 || end < start || end >= text.len()) {
        lemma_lines_marker_free(text, runs, links, end + 1, st2);
        let (rest, fin) = format_from(text, runs, links, end + 1, st2);
        lemma_marker_free_add(out, rest);
    }
}

proof fn lemma_raw_marker_free(text: Seq<char>, links: Map<usize, Seq<char>>)
    requires
        links_marker_free(links),
    ensures
        marker_free(attachments_only_raw(text, links)),
    decreases text.len(),
{
    if text.len() > 0 {
        lemma_literals_marker_free();
        let p = attachments_only_raw(text.drop_last(), links);
        lemma_raw_marker_free(text.drop_last(), links);
        let pos = (text.len() - 1) as usize;
        if text.last() == ATTACHMENT_MARKER {
            if links.contains_key(pos) {
                assert(marker_free(links[pos]));
                lemma_marker_free_add(p, "\n\n"@);
                lemma_marker_free_add(p + "\n\n"@, links[pos]);
                lemma_marker_free_add(p + "\n\n"@ + links[pos], "\n\n"@);
            }
        } else {
            lemma_marker_free_push(p, text.last());
        }
    }
}

proof fn lemma_cleanup_keeps_marker_free(s: Seq<char>)
    requires
        marker_free(s),
    ensures
        marker_free(cleanup(s)),
{
    let n = normalize_newlines(s);
    lemma_normalize_keeps_marker_free(s);
    lemma_squeeze_keeps_marker_free(n);
    let q = squeeze_newlines(n);
    let l = leading_ws(q) as int;
    lemma_leading_ws_bound(q);
    let t = trim_start(q);
    lemma_trailing_ws_bound(t);
    let r = trim(q);
    assert(r == t.take(t.len() - trailing_ws(t)));
    assert forall|i: int| 0 <= i < r.len() implies #[trigger] r[i] != ATTACHMENT_MARKER by {
        assert(r[i] == t[i]);
        assert(t[i] == q[i + l]);
    }
}

proof fn lemma_normalize_keeps_marker_free(s: Seq<char>)
    requires
        marker_free(s),
    ensures
        marker_free(normalize_newlines(s)),
    decreases s.len(),
{
    if s.len() > 0 {
        let rest = if s[0] == '\r' && s.len() > 1 && s[1] == '\n' {
            s.skip(2)
        } else {
            s.drop_first()
        };
        assert forall|i: int| 0 <= i < rest.len() implies #[trigger] rest[i] != ATTACHMENT_MARKER by {
            if s[0] == '\r' && s.len() > 1 && s[1] == '\n' {
                assert(rest[i] == s[i + 2]);
            } else {
                assert(rest[i] == s[i + 1]);
            }
        }
        lemma_normalize_keeps_marker_free(rest);
        let head = if s[0] == '\r' {
            '\n'
        } else {
            s[0]
        };
        assert(normalize_newlines(s) == seq![head] + normalize_newlines(rest));
        assert(marker_free(seq![head]));
        lemma_marker_free_add(seq![head], normalize_newlines(rest));
    }
}

proof fn lemma_squeeze_keeps_marker_free(s: Seq<char>)
    requires
        marker_free(s),
    ensures
        marker_free(squeeze_newlines(s)),
    decreases s.len(),
{
    if s.len() > 0 {
        let d = s.drop_last();
        assert forall|i: int| 0 <= i < d.len() implies #[trigger] d[i] != ATTACHMENT_MARKER by {
            assert(d[i] == s[i]);
        }
        lemma_squeeze_keeps_marker_free(d);
        assert(s[s.len() - 1] != ATTACHMENT_MARKER);
        lemma_marker_free_push(squeeze_newlines(d), s.last());
    }
}

/// No attachment marker survives an export: whatever the text, when the attachment links and
/// the hyperlinks of the style runs hold none, the Markdown holds none either (a marker with a
/// link gives way to the link, one without is dropped).
pub proof fn law_markers_are_stripped(text: Seq<char>, runs: Seq<StyleRunView>, links: Map<usize, Seq<char>>)
    requires
        run_links_marker_free(runs),
        links_marker_free(links),
    ensures
        marker_free(markdown_of(text, runs, links)),
{
    if runs.len() == 0 {
        lemma_raw_marker_free(text, links);
        lemma_cleanup_keeps_marker_free(attachments_only_raw(text, links));
    } else {
        lemma_lines_marker_free(text, runs, links, 0, initial_state());
        let (out, fin) = format_from(text, runs, links, 0, initial_state());
        lemma_literals_marker_free();
        if fin.in_code {
            lemma_marker_free_add(out, "```\n"@);
        }
        lemma_cleanup_keeps_marker_free(
            if fin.in_code {
                out + "```\n"@
            } else {
                out
            },
        );
    }
}

// ---------------------------------------------------------------------------
// Formatting, computed
// ---------------------------------------------------------------------------

/// `cs` holds the style run index of every character of `text`.
pub open spec fn styles_hold(text: Seq<char>, runs: Seq<StyleRunView>, cs: Seq<usize>) -> bool {
    &&& runs.len() > 0
    &&& cs.len() == text.len()
    &&& forall|i: int| 0 <= i < cs.len() ==> #[trigger] cs[i] as int == style_index(runs, text.len() as int, i)
}

proof fn lemma_covering_run_bound(runs: Seq<StyleRunView>, n: int, i: int, k: int)
    requires
        0 < k <= runs.len(),
    ensures
        0 <= covering_run(runs, n, i, k) < k,
    decreases k,
{
    if !run_covers(runs[k - 1], n, i) {
        if k == 1 {
            assert(covering_run(runs, n, i, 0) == 0);
        } else {
            lemma_covering_run_bound(runs, n, i, k - 1);
        }
    }
}

/// The style run index of every character of a text of `n` characters.
fn compute_char_style(n: usize, runs: &[StyleRun]) -> (cs: Vec<usize>)
    requires
        runs@.len() > 0,
    ensures
        cs@.len() == n,
        forall|i: int| 0 <= i < n ==> #[trigger] cs@[i] as int == style_index(run_views(runs@), n as int, i),
{
    let ghost rv = run_views(runs@);
    let mut cs: Vec<usize> = Vec::new();
    let mut i: usize = 0;
    while i < n
        invariant
            i <= n,
            cs@.len() == i,
            forall|j: int| 0 <= j < i ==> #[trigger] cs@[j] == 0,
        decreases n - i,
    {
        cs.push(0);
        i = i + 1;
    }
    let mut k: usize = 0;
    while k < runs.len()
        invariant
            k <= runs@.len(),
            rv == run_views(runs@),
            cs@.len() == n,
            forall|j: int| 0 <= j < n ==> #[trigger] cs@[j] as int == covering_run(rv, n as int, j, k as int),
        decreases runs@.len() - k,
    {
        assert(runs@[k as int]@ == rv[k as int]);
        let off = runs[k].offset;
        let stop = off.wrapping_add(runs[k].length);
        let start = if off < n {
            off
        } else {
            n
        };
        let end = if stop < n {
            stop
        } else {
            n
        };
        let mut j: usize = start;
        if start < end {
            while j < end
                invariant
                    start <= j <= end,
                    end <= n,
                    k < runs@.len(),
                    rv.len() == runs@.len(),
                    cs@.len() == n,
                    forall|m: int|
                        0 <= m < n ==> #[trigger] cs@[m] as int == (if start <= m < j {
                            k as int
                        } else {
                            covering_run(rv, n as int, m, k as int)
                        }),
                decreases end - j,
            {
                cs.set(j, k);
                j = j + 1;
            }
        }
        proof {
            assert(start == min_of(rv[k as int].offset as int, n as int));
            assert(end == min_of(usize_specs::wrapping_add(rv[k as int].offset, rv[k as int].length) as int, n as int));
        }
        k = k + 1;
        proof {
            assert forall|m: int| 0 <= m < n implies #[trigger] cs@[m] as int == covering_run(
                rv,
                n as int,
                m,
                k as int,
            ) by {
                assert(run_covers(rv[k - 1], n as int, m) == (start <= m < end));
                if start < end {
                    assert(cs@[m] as int == (if start <= m < end {
                        (k - 1) as int
                    } else {
                        covering_run(rv, n as int, m, (k - 1) as int)
                    }));
                }
            }
        }
    }
    cs
}

fn line_end_at(chars: &[char], start: usize) -> (e: usize)
    requires
        start <= chars@.len(),
    ensures
        e as int == line_end(chars@, start as int),
        start <= e <= chars@.len(),
        e < chars@.len() ==> chars@[e as int] == '\n',
        forall|k: int| start <= k < e ==> chars@[k] != '\n',
{
    let mut nl: Vec<char> = Vec::new();
    nl.push('\n');
    proof {
        assert(nl@ =~= seq!['\n']);
        lemma_find_from(chars@, nl@, start as int);
    }
    match find_chars(chars, nl.as_slice(), start) {
        Some(e) => {
            proof {
                assert(chars@.subrange(e as int, e + 1)[0] == chars@[e as int]);
                assert forall|k: int| start <= k < e implies chars@[k] != '\n' by {
                    if chars@[k] == '\n' {
                        assert(chars@.subrange(k, k + 1) =~= nl@);
                        assert(occurs_at(chars@, nl@, k));
                    }
                }
            }
            e
        },
        None => {
            proof {
                assert forall|k: int| start <= k < chars@.len() implies chars@[k] != '\n' by {
                    if chars@[k] == '\n' {
                        assert(chars@.subrange(k, k + 1) =~= nl@);
                        assert(occurs_at(chars@, nl@, k));
                    }
                }
            }
            chars.len()
        },
    }
}

fn same_key(a: &StyleRun, b: &StyleRun) -> (r: bool)
    ensures
        r == ((a@.inline_style.bold, a@.inline_style.italic, a@.inline_style.strikethrough, a@.link)
            == (b@.inline_style.bold, b@.inline_style.italic, b@.inline_style.strikethrough, b@.link)),
{
    if a.inline_style.bold != b.inline_style.bold || a.inline_style.italic != b.inline_style.italic
        || a.inline_style.strikethrough != b.inline_style.strikethrough {
        return false;
    }
    match (&a.link, &b.link) {
        (Some(x), Some(y)) => *x == *y,
        (None, None) => true,
        _ => false,
    }
}

fn span_end_at(chars: &[char], cs: &[usize], runs: &[StyleRun], pos: usize, end: usize) -> (se: usize)
    requires
        styles_hold(chars@, run_views(runs@), cs@),
        pos < end <= chars@.len(),
        chars@[pos as int] != ATTACHMENT_MARKER,
    ensures
        se as int == span_end(chars@, run_views(runs@), pos as int, end as int, char_key(chars@, run_views(runs@), pos as int)),
        pos < se <= end,
{
    let ghost rv = run_views(runs@);
    let ghost key = char_key(chars@, rv, pos as int);
    proof {
        lemma_covering_run_bound(rv, chars@.len() as int, pos as int, rv.len() as int);
    }
    let ri = cs[pos];
    assert(runs@[ri as int]@ == rv[ri as int]);
    let mut p = pos + 1;
    assert(span_end(chars@, rv, pos as int, end as int, key) == span_end(chars@, rv, p as int, end as int, key));
    while p < end
        invariant
            pos < p <= end,
            end <= chars@.len(),
            rv == run_views(runs@),
            styles_hold(chars@, rv, cs@),
            ri < runs@.len(),
            runs@[ri as int]@ == rv[ri as int],
            key == char_key(chars@, rv, pos as int),
            ri as int == style_index(rv, chars@.len() as int, pos as int),
            span_end(chars@, rv, pos as int, end as int, key) == span_end(chars@, rv, p as int, end as int, key),
        decreases end - p,
    {
        if chars[p] == ATTACHMENT_MARKER {
            return p;
        }
        let rj = cs[p];
        proof {
            lemma_covering_run_bound(rv, chars@.len() as int, p as int, rv.len() as int);
        }
        assert(runs@[rj as int]@ == rv[rj as int]);
        if !same_key(&runs[rj], &runs[ri]) {
            return p;
        }
        p = p + 1;
    }
    p
}

/// A span with its inline formatting applied.
fn format_span_chars(span: &[char], r: &StyleRun) -> (out: Vec<char>)
    ensures
        out@ == format_span(span@, r@),
{
    let mut a: Vec<char> = Vec::new();
    if r.inline_style.strikethrough {
        let t = chars_of("~~");
        extend_chars(&mut a, t.as_slice());
        extend_chars(&mut a, span);
        extend_chars(&mut a, t.as_slice());
    } else {
        extend_chars(&mut a, span);
    }
    let mut b: Vec<char> = Vec::new();
    let wrap = if r.inline_style.bold && r.inline_style.italic {
        chars_of("***")
    } else if r.inline_style.bold {
        chars_of("**")
    } else if r.inline_style.italic {
        chars_of("*")
    } else {
        Vec::new()
    };
    extend_chars(&mut b, wrap.as_slice());
    extend_chars(&mut b, a.as_slice());
    extend_chars(&mut b, wrap.as_slice());
    proof {
        if !r.inline_style.bold && !r.inline_style.italic {
            assert(b@ =~= a@);
        }
    }
    match &r.link {
        Some(url) => {
            let mut out = chars_of("[");
            extend_chars(&mut out, b.as_slice());
            let mid = chars_of("](");
            extend_chars(&mut out, mid.as_slice());
            let u = chars_of(url.as_str());
            extend_chars(&mut out, u.as_slice());
            let close = chars_of(")");
            extend_chars(&mut out, close.as_slice());
            out
        },
        None => b,
    }
}

/// The content of the line from `start` to `end`.
fn line_content(
    chars: &[char],
    cs: &[usize],
    runs: &[StyleRun],
    attachment_map: &HashMap<usize, String>,
    start: usize,
    end: usize,
    in_code: bool,
) -> (out: Vec<char>)
    requires
        styles_hold(chars@, run_views(runs@), cs@),
        start <= end <= chars@.len(),
    ensures
        out@ == content_from(chars@, run_views(runs@), link_views(attachment_map@), start as int, end as int, in_code, Seq::empty()),
{
    broadcast use group_hash_axioms;

    let ghost rv = run_views(runs@);
    let ghost links = link_views(attachment_map@);
    let ghost total = content_from(chars@, rv, links, start as int, end as int, in_code, Seq::empty());
    let mut out: Vec<char> = Vec::new();
    let mut pos = start;
    while pos < end
        invariant
            start <= pos <= end,
            end <= chars@.len(),
            rv == run_views(runs@),
            links == link_views(attachment_map@),
            styles_hold(chars@, rv, cs@),
            content_from(chars@, rv, links, pos as int, end as int, in_code, out@) == total,
        decreases end - pos,
    {
        let ch = chars[pos];
        let ghost old_out = out@;
        let ghost old_pos = pos as int;
        if ch == ATTACHMENT_MARKER {
            match attachment_map.get(&pos) {
                Some(link) => {
                    proof {
                        assert(links.contains_key(pos) && links[pos] == link@);
                    }
                    if out.len() > 0 {
                        out.push('\n');
                    }
                    let lc = chars_of(link.as_str());
                    extend_chars(&mut out, lc.as_slice());
                    let nl = chars_of("\n");
                    extend_chars(&mut out, nl.as_slice());
                },
                None => {
                    proof {
                        assert(!links.contains_key(pos));
                    }
                },
            }
            pos = pos + 1;
            proof {
                assert(content_from(chars@, rv, links, old_pos, end as int, in_code, old_out)
                    == content_from(chars@, rv, links, pos as int, end as int, in_code, out@));
            }
        } else if in_code {
            out.push(ch);
            pos = pos + 1;
        } else {
            let se = span_end_at(chars, cs, runs, pos, end);
            let ri = cs[pos];
            proof {
                lemma_covering_run_bound(rv, chars@.len() as int, pos as int, rv.len() as int);
            }
            assert(runs@[ri as int]@ == rv[ri as int]);
            let span = vstd::slice::slice_subrange(chars, pos, se);
            let f = format_span_chars(span, &runs[ri]);
            extend_chars(&mut out, f.as_slice());
            pos = se;
            proof {
                assert(ri as int == style_index(rv, chars@.len() as int, old_pos));
                assert(content_from(chars@, rv, links, old_pos, end as int, in_code, old_out)
                    == content_from(chars@, rv, links, pos as int, end as int, in_code, out@));
            }
        }
    }
    out
}

fn is_dash_char(c: char) -> (b: bool)
    ensures
        b == is_dash(c),
{
    c == '-' || c == '\u{2014}' || c == '\u{2013}'
}

fn is_dash_line_chars(t: &[char]) -> (b: bool)
    ensures
        b == is_dash_line(t@),
{
    if t.len() == 0 {
        return false;
    }
    let mut i: usize = 0;
    while i < t.len()
        invariant
            i <= t@.len(),
            forall|k: int| 0 <= k < i ==> is_dash(#[trigger] t@[k]),
        decreases t@.len() - i,
    {
        if !is_dash_char(t[i]) {
            return false;
        }
        i = i + 1;
    }
    true
}

fn dash_count_chars(t: &[char]) -> (c: usize)
    ensures
        c as nat == dash_count(t@),
{
    let mut c: usize = 0;
    let mut i: usize = 0;
    while i < t.len()
        invariant
            i <= t@.len(),
            c <= i,
            c as nat == dash_count(t@.take(i as int)),
        decreases t@.len() - i,
    {
        proof {
            assert(t@.take(i + 1).drop_last() =~= t@.take(i as int));
        }
        if is_dash_char(t[i]) {
            c = c + 1;
        }
        i = i + 1;
    }
    proof {
        assert(t@.take(i as int) =~= t@);
    }
    c
}

fn is_notes_text_chars(lower: &[char]) -> (b: bool)
    ensures
        b == is_notes_text(lower@),
{
    let notes = chars_of("notes");
    proof {
        reveal_strlit("notes");
    }
    if !contains_chars(lower, notes.as_slice()) {
        return false;
    }
    let empty: Vec<char> = Vec::new();
    let without = replace_chars(lower, notes.as_slice(), empty.as_slice());
    let rem = trim_chars(without.as_slice());
    proof {
        assert(empty@ =~= Seq::<char>::empty());
    }
    if rem.len() == 0 {
        return true;
    }
    let mut i: usize = 0;
    while i < rem.len()
        invariant
            i <= rem@.len(),
            rem@ == trim(replace_all(lower@, "notes"@, Seq::empty())),
            contains_seq(lower@, "notes"@),
            forall|k: int| 0 <= k < i ==> (is_dash(#[trigger] rem@[k]) || rem@[k] == ' '),
        decreases rem@.len() - i,
    {
        if !(is_dash_char(rem[i]) || rem[i] == ' ') {
            proof {
                assert(!(is_dash(rem@[i as int]) || rem@[i as int] == ' '));
            }
            return false;
        }
        i = i + 1;
    }
    true
}

fn push_indent(out: &mut Vec<char>, k: u32)
    ensures
        final(out)@ == old(out)@ + indent_of(k as nat),
{
    let mut i: u32 = 0;
    proof {
        reveal_strlit("  ");
        assert(out@ =~= old(out)@ + indent_of(0));
    }
    while i < k
        invariant
            i <= k,
            "  "@ =~= seq![' ', ' '],
            out@ == old(out)@ + indent_of(i as nat),
        decreases k - i,
    {
        out.push(' ');
        out.push(' ');
        i = i + 1;
        proof {
            assert(out@ =~= old(out)@ + indent_of(i as nat));
        }
    }
}

fn push_str_chars(out: &mut Vec<char>, s: &str)
    ensures
        final(out)@ == old(out)@ + s@,
{
    let cs = chars_of(s);
    extend_chars(out, cs.as_slice());
}

fn prefixed_line_chars(
    out: &mut Vec<char>,
    para: ParagraphStyle,
    indent: u32,
    counter: u32,
    in_callout: bool,
    content: &[char],
)
    ensures
        final(out)@ == old(out)@ + prefixed_line(para, indent, counter, in_callout, content@),
{
    let ghost start = out@;
    if in_callout {
        push_str_chars(out, "> ");
    }
    let ghost cp = if in_callout {
        "> "@
    } else {
        Seq::<char>::empty()
    };
    assert(out@ =~= start + cp);
    match para {
        ParagraphStyle::Title => {
            push_str_chars(out, "# ");
        },
        ParagraphStyle::Heading => {
            push_str_chars(out, "## ");
        },
        ParagraphStyle::Subheading => {
            push_str_chars(out, "### ");
        },
        ParagraphStyle::BulletList | ParagraphStyle::DashedList => {
            push_indent(out, indent);
            push_str_chars(out, "- ");
        },
        ParagraphStyle::NumberedList => {
            push_indent(out, indent);
            push_decimal(out, counter as u64);
            push_str_chars(out, ". ");
        },
        ParagraphStyle::Checkbox { checked } => {
            push_indent(out, indent);
            if checked {
                push_str_chars(out, "- [x] ");
            } else {
                push_str_chars(out, "- [ ] ");
            }
        },
        ParagraphStyle::Monospaced | ParagraphStyle::Body => {},
    }
    extend_chars(out, content);
    proof {
        assert(out@ =~= start + prefixed_line(para, indent, counter, in_callout, content@));
    }
}

/// What one line becomes, and the state after it.
fn format_line_chars(
    chars: &[char],
    cs: &[usize],
    runs: &[StyleRun],
    attachment_map: &HashMap<usize, String>,
    start: usize,
    end: usize,
    st: FmtState,
) -> (r: (Vec<char>, FmtState))
    requires
        styles_hold(chars@, run_views(runs@), cs@),
        start <= end <= chars@.len(),
    ensures
        (r.0@, r.1) == format_line(chars@, run_views(runs@), link_views(attachment_map@), start as int, end as int, st),
{
    let ghost rv = run_views(runs@);
    let n = chars.len();
    let li: usize = if end < n {
        cs[end]
    } else if start < n {
        cs[n - 1]
    } else {
        0
    };
    proof {
        if end < n {
            lemma_covering_run_bound(rv, n as int, end as int, rv.len() as int);
        } else if start < n {
            lemma_covering_run_bound(rv, n as int, n - 1, rv.len() as int);
        }
        assert(li as int == line_style_index(chars@, rv, start as int, end as int));
    }
    assert(runs@[li as int]@ == rv[li as int]);
    let para = runs[li].paragraph;
    let indent = runs[li].indent;
    let is_list = match para {
        ParagraphStyle::BulletList | ParagraphStyle::DashedList | ParagraphStyle::NumberedList
        | ParagraphStyle::Checkbox { .. } => true,
        _ => false,
    };
    let is_mono = para == ParagraphStyle::Monospaced;
    let is_numbered = para == ParagraphStyle::NumberedList;
    let counter: u32 = if is_numbered {
        if !st.prev_list {
            1
        } else {
            st.counter.wrapping_add(1)
        }
    } else if !is_list {
        0
    } else {
        st.counter
    };
    let mut out: Vec<char> = Vec::new();
    let in_code = if is_mono && !st.in_code {
        push_str_chars(&mut out, "```\n");
        true
    } else if !is_mono && st.in_code {
        push_str_chars(&mut out, "```\n");
        false
    } else {
        st.in_code
    };
    let ghost fence = out@;
    let content = line_content(chars, cs, runs, attachment_map, start, end, in_code);
    let trimmed = trim_chars(content.as_slice());
    let dash = is_dash_line_chars(trimmed.as_slice());
    let opener = if !in_code && !dash {
        let lower = lowercase_chars(trimmed.as_slice());
        is_notes_text_chars(lower.as_slice())
    } else {
        false
    };
    let mut in_callout = st.in_callout;
    if opener && !st.in_callout {
        in_callout = true;
        push_str_chars(&mut out, "> [!info]");
    } else if st.in_callout && dash && dash_count_chars(trimmed.as_slice()) >= 4 {
        in_callout = false;
    } else if dash && !in_code {
        push_str_chars(&mut out, "---");
    } else if in_code {
        extend_chars(&mut out, content.as_slice());
    } else if trimmed.len() == 0 && !is_list {
        if st.in_callout {
            push_str_chars(&mut out, ">");
        }
    } else {
        prefixed_line_chars(&mut out, para, indent, counter, st.in_callout, content.as_slice());
    }
    push_str_chars(&mut out, "\n");
    let st2 = FmtState { in_code, counter, prev_list: is_list, in_callout };
    proof {
        let (o, s2) = format_line(chars@, rv, link_views(attachment_map@), start as int, end as int, st);
        assert(s2 == st2);
        assert(out@ =~= o);
    }
    (out, st2)
}

/// Convert plain text + style runs + attachment map into formatted Markdown.
pub fn apply_markdown_formatting(
    text: &str,
    style_runs: &[StyleRun],
    attachment_map: &HashMap<usize, String>,
) -> (r: String)
    ensures
        r@ == markdown_of(text@, run_views(style_runs@), link_views(attachment_map@)),
{
    if style_runs.len() == 0 {
        // No formatting info — just handle attachments and return
        return apply_attachments_only(text, attachment_map);
    }
    let ghost rv = run_views(style_runs@);
    let ghost links = link_views(attachment_map@);
    let chars = chars_of(text);
    let n = chars.len();
    let cs = compute_char_style(n, style_runs);
    let ghost total = format_from(chars@, rv, links, 0, initial_state());
    let mut output: Vec<char> = Vec::new();
    let mut st = FmtState { in_code: false, counter: 0, prev_list: false, in_callout: false };
    let mut line_start: usize = 0;
    loop
        invariant_except_break
            line_start <= n,
            output@ + format_from(chars@, rv, links, line_start as int, st).0 == total.0,
            format_from(chars@, rv, links, line_start as int, st).1 == total.1,
        invariant
            n == chars@.len(),
            chars@ == text@,
            rv == run_views(style_runs@),
            links == link_views(attachment_map@),
            styles_hold(chars@, rv, cs@),
        ensures
            output@ == total.0,
            st == total.1,
        decreases n + 1 - line_start,
    {
        let line_end = line_end_at(chars.as_slice(), line_start);
        let (line_out, st2) = format_line_chars(chars.as_slice(), cs.as_slice(), style_runs, attachment_map, line_start, line_end, st);
        let ghost prev = output@;
        let ghost prev_start = line_start as int;
        let ghost prev_st = st;
        extend_chars(&mut output, line_out.as_slice());
        st = st2;
        if line_end < n {
            line_start = line_end + 1;
            proof {
                let rest = format_from(chars@, rv, links, line_start as int, st);
                assert(format_from(chars@, rv, links, prev_start, prev_st) == (line_out@ + rest.0, rest.1));
                assert(output@ + rest.0 =~= prev + (line_out@ + rest.0));
            }
        } else {
            proof {
                assert(format_from(chars@, rv, links, prev_start, prev_st) == (line_out@, st2));
            }
            break;
        }
    }
    // Close trailing code block
    if st.in_code {
        push_str_chars(&mut output, "```\n");
    }
    let cleaned = cleanup_chars(output.as_slice());
    string_of(cleaned.as_slice())
}


/// An ordinary line (outside a code block, not a rule, not a notes opener, and not blank unless
/// it is a list item) is exported with the Markdown mark of its paragraph style, after `> ` in a
/// callout: `# `, `## ` and `### ` for a title, heading and subheading; two spaces per indent
/// level, then `- ` for a bullet or dashed item, its number and `. ` for a numbered item (1 after
/// a line that is no list item, else one more than the line before), and `- [ ] ` for an open
/// to-do or `- [x] ` for a done one; body text gets no mark. The line's content and a line break
/// follow.
pub proof fn law_line_marks_follow_paragraph_style(
    text: Seq<char>,
    runs: Seq<StyleRunView>,
    links: Map<usize, Seq<char>>,
    start: int,
    end: int,
    st: FmtState,
)
    requires
        !st.in_code,
        runs[line_style_index(text, runs, start, end)].paragraph != ParagraphStyle::Monospaced,
        !is_dash_line(trim(content_from(text, runs, links, start, end, false, Seq::empty()))),
        st.in_callout || !is_notes_text(lowercase(trim(content_from(text, runs, links, start, end, false, Seq::empty())))),
        trim(content_from(text, runs, links, start, end, false, Seq::empty())).len() > 0 || is_list_style(
            runs[line_style_index(text, runs, start, end)].paragraph,
        ),
    ensures
        ({
            let r = runs[line_style_index(text, runs, start, end)];
            let c = content_from(text, runs, links, start, end, false, Seq::empty());
            let out = format_line(text, runs, links, start, end, st).0;
            let cp = if st.in_callout {
                "> "@
            } else {
                Seq::empty()
            };
            let ind = indent_of(r.indent as nat);
            let number: nat = if !st.prev_list {
                1
            } else if st.counter < u32::MAX {
                (st.counter + 1) as nat
            } else {
                0
            };
            match r.paragraph {
                ParagraphStyle::Title => out == cp + "# "@ + c + "\n"@,
                ParagraphStyle::Heading => out == cp + "## "@ + c + "\n"@,
                ParagraphStyle::Subheading => out == cp + "### "@ + c + "\n"@,
                ParagraphStyle::BulletList => out == cp + ind + "- "@ + c + "\n"@,
                ParagraphStyle::DashedList => out == cp + ind + "- "@ + c + "\n"@,
                ParagraphStyle::NumberedList => out == cp + ind + decimal(number) + ". "@ + c + "\n"@,
                ParagraphStyle::Checkbox { checked } => out == cp + ind + (if checked {
                    "- [x] "@
                } else {
                    "- [ ] "@
                }) + c + "\n"@,
                ParagraphStyle::Body => out == cp + c + "\n"@,
                ParagraphStyle::Monospaced => true,
            }
        }),
{
    reveal_strlit("");
    let r = runs[line_style_index(text, runs, start, end)];
    let c = content_from(text, runs, links, start, end, false, Seq::empty());
    assert(Seq::<char>::empty() + (prefixed_line(r.paragraph, r.indent, format_line(text, runs, links, start, end, st).1.counter, st.in_callout, c) + "\n"@)
        =~= prefixed_line(r.paragraph, r.indent, format_line(text, runs, links, start, end, st).1.counter, st.in_callout, c) + "\n"@);
}

/// Two spaces for each indent level.
pub proof fn law_indent_is_two_spaces_a_level(k: nat)
    ensures
        indent_of(k).len() == 2 * k,
        forall|i: int| 0 <= i < indent_of(k).len() ==> #[trigger] indent_of(k)[i] == ' ',
    decreases k,
{
    reveal_strlit("  ");
    if k > 0 {
        law_indent_is_two_spaces_a_level((k - 1) as nat);
        let a = indent_of((k - 1) as nat);
        assert forall|i: int| 0 <= i < indent_of(k).len() implies #[trigger] indent_of(k)[i] == ' ' by {
            if i < a.len() {
                assert((a + "  "@)[i] == a[i]);
            } else {
                assert((a + "  "@)[i] == "  "@[i - a.len()]);
            }
        }
    }
}

} // verus!
