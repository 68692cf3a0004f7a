//! What the terminal shows: dates, widths and truncation of names, emoji clean-up, and the
//! preview title.
use vstd::prelude::*;
use unicode_segmentation::UnicodeSegmentation;
use unicode_width::UnicodeWidthChar;

use crate::text::chars_of;
use crate::text::decimal;
use crate::text::extend_chars;
use crate::text::is_cc;
use crate::text::push_char;
use crate::text::push_decimal;
use crate::text::string_of;
use crate::vault::string_views;

verus! {

// ---------------------------------------------------------------------------
// Dates
// ---------------------------------------------------------------------------

/// `a / b` rounded toward zero, as Rust divides integers.
pub open spec fn tdiv(a: int, b: int) -> int {
    if a >= 0 {
        a / b
    } else {
        -((-a) / b)
    }
}

/// The remainder of `tdiv`, with the sign of `a`, as Rust's `%`.
pub open spec fn trem(a: int, b: int) -> int {
    if a >= 0 {
        a % b
    } else {
        -((-a) % b)
    }
}

/// Whether `y` is a leap year of the Gregorian calendar.
pub open spec fn leap(y: int) -> bool {
    (y % 4 == 0 && y % 100 != 0) || y % 400 == 0
}

proof fn lemma_divisible_abs(y: int, u: int, k: int)
    requires
        u == if y >= 0 { y } else { -y },
        k > 0,
    ensures
        (y % k == 0) == (u % k == 0),
{
    if y < 0 {
        if y % k == 0 {
            assert(u % k == 0) by (nonlinear_arith)
                requires
                    u == -y,
                    y % k == 0,
                    k > 0,
            {
                assert(y == (y / k) * k);
                assert(u == (-(y / k)) * k);
            }
        }
        if u % k == 0 {
            assert(y % k == 0) by (nonlinear_arith)
                requires
                    u == -y,
                    u % k == 0,
                    k > 0,
            {
                assert(u == (u / k) * k);
                assert(y == (-(u / k)) * k);
            }
        }
    }
}

/// Whether `y` is a leap year.
pub fn is_leap(y: i64) -> (b: bool)
    ensures
        b == leap(y as int),
{
    let u: u64 = if y >= 0 {
        y as u64
    } else {
        ((-(y + 1)) as u64) + 1
    };
    proof {
        lemma_divisible_abs(y as int, u as int, 4);
        lemma_divisible_abs(y as int, u as int, 100);
        lemma_divisible_abs(y as int, u as int, 400);
    }
    (u % 4 == 0 && u % 100 != 0) || u % 400 == 0
}

/// The number of days of year `y`.
pub open spec fn year_days(y: int) -> int {
    if leap(y) {
        366
    } else {
        365
    }
}

/// The year `days` days after the start of year `y` falls in, and the day of that year it is
/// (counting from zero); days before the start stay in year `y`.
pub open spec fn year_and_day(days: int, y: int) -> (int, int)
    decreases days,
{
    if days < year_days(y) || days < 0 {
        (y, days)
    } else {
        year_and_day(days - year_days(y), y + 1)
    }
}

/// The lengths of the months of year `y`.
pub open spec fn month_lengths(y: int) -> Seq<int> {
    seq![31, if leap(y) { 29 } else { 28 }, 31, 30, 31, 30, 31, 31, 30, 31, 30, 31]
}

/// The month (from 1) and day of the month (from 0) of day `days` of a year with the given
/// month lengths, starting the count at month `m` (from 0).
pub open spec fn month_and_day(lengths: Seq<int>, days: int, m: int) -> (int, int)
    decreases lengths.len() - m,
{
    if m < 0 || m >= lengths.len() || days < lengths[m] {
        (m + 1, days)
    } else {
        month_and_day(lengths, days - lengths[m], m + 1)
    }
}

/// `n` zero-padded to `width` characters, the minus sign counting (`{:0width}`).
pub open spec fn zero_padded(n: int, width: nat) -> Seq<char> {
    let digits = if n < 0 {
        decimal((-n) as nat)
    } else {
        decimal(n as nat)
    };
    let sign: Seq<char> = if n < 0 {
        seq!['-']
    } else {
        Seq::empty()
    };
    let used = sign.len() + digits.len();
    sign + Seq::new(if used < width { (width - used) as nat } else { 0 }, |i: int| '0') + digits
}

/// A Unix timestamp as `YYYY-MM-DD HH:MM` (UTC).
pub open spec fn timestamp_text(ts: int) -> Seq<char> {
    let days = tdiv(ts, 86400);
    let day_secs = trem(ts, 86400);
    let hour = tdiv(day_secs, 3600);
    let minute = tdiv(trem(day_secs, 3600), 60);
    let (year, yday) = year_and_day(days, 1970);
    let (month, mday) = month_and_day(month_lengths(year), yday, 0);
    zero_padded(year, 4) + "-"@ + zero_padded(month, 2) + "-"@ + zero_padded(mday + 1, 2) + " "@
        + zero_padded(hour, 2) + ":"@ + zero_padded(minute, 2)
}

proof fn lemma_timestamp_parts(ts: int, year: int, month: int, mday: int, hour: int, minute: int)
    requires
        hour == tdiv(trem(ts, 86400), 3600),
        minute == tdiv(trem(trem(ts, 86400), 3600), 60),
        year_and_day(tdiv(ts, 86400), 1970).0 == year,
        month_and_day(month_lengths(year), year_and_day(tdiv(ts, 86400), 1970).1, 0) == (month, mday),
    ensures
        timestamp_text(ts) == zero_padded(year, 4) + "-"@ + zero_padded(month, 2) + "-"@ + zero_padded(
            mday + 1,
            2,
        ) + " "@ + zero_padded(hour, 2) + ":"@ + zero_padded(minute, 2),
{
}

fn push_padded(out: &mut Vec<char>, n: i64, width: usize)
    ensures
        final(out)@ == old(out)@ + zero_padded(n as int, width as nat),
{
    let ghost start = out@;
    let mut digits: Vec<char> = Vec::new();
    if n < 0 {
        let m: u64 = ((-(n + 1)) as u64) + 1;
        push_decimal(&mut digits, m);
        out.push('-');
    } else {
        push_decimal(&mut digits, n as u64);
    }
    let ghost mid = out@;
    let mut k: usize = 0;
    let zeros: usize = if n < 0 {
        if width >= 1 && digits.len() < width - 1 {
            width - 1 - digits.len()
        } else {
            0
        }
    } else if digits.len() < width {
        width - digits.len()
    } else {
        0
    };
    while k < zeros
        invariant
            k <= zeros,
            out@ == mid + Seq::new(k as nat, |i: int| '0'),
        decreases zeros - k,
    {
        out.push('0');
        k = k + 1;
        proof {
            assert(out@ =~= mid + Seq::new(k as nat, |i: int| '0'));
        }
    }
    extend_chars(out, digits.as_slice());
    proof {
        let sign: Seq<char> = if n < 0 {
            seq!['-']
        } else {
            Seq::empty()
        };
        assert(mid =~= start + sign);
        assert(out@ =~= start + zero_padded(n as int, width as nat));
    }
}

/// Quotient and remainder of `a` by `d`, as Rust computes them.
fn div_rem_signed(a: i64, d: i64) -> (r: (i64, i64))
    requires
        2 <= d <= 86400,
    ensures
        r.0 == tdiv(a as int, d as int),
        r.1 == trem(a as int, d as int),
{
    if a >= 0 {
        (a / d, a % d)
    } else {
        let m: u64 = ((-(a + 1)) as u64) + 1;
        let du = d as u64;
        let q = m / du;
        let rm = m % du;
        proof {
            assert(m == -(a as int));
            assert(q <= m / 2) by (nonlinear_arith)
                requires
                    q == m / du,
                    du >= 2,
            {
            }
            assert(rm < du);
        }
        let qi = q as i64;
        let ri = rm as i64;
        (-qi, -ri)
    }
}

/// Formats a Unix timestamp as `YYYY-MM-DD HH:MM` (UTC).
pub fn format_unix_timestamp(ts: i64) -> (r: String)
    ensures
        r@ == timestamp_text(ts as int),
{
    let (days0, day_secs) = div_rem_signed(ts, 86400);
    let (hour, rest) = div_rem_signed(day_secs, 3600);
    let (minute, _) = div_rem_signed(rest, 60);
    let mut days = days0;
    let mut year: i64 = 1970;
    proof {
        assert(days0 >= -106751991167301 && days0 <= 106751991167300) by (nonlinear_arith)
            requires
                days0 == tdiv(ts as int, 86400),
        {
        }
    }
    loop
        invariant
            year_and_day(days0 as int, 1970) == year_and_day(days as int, year as int),
            1970 <= year,
            365 * (year - 1970) <= days0 - days,
            days <= days0,
            days0 <= 106751991167300,
        ensures
            year_and_day(days0 as int, 1970) == (year as int, days as int),
            days <= days0,
        decreases days,
    {
        let leap_year = is_leap(year);
        let len: i64 = if leap_year {
            366
        } else {
            365
        };
        if days < len || days < 0 {
            break;
        }
        days = days - len;
        year = year + 1;
    }
    let leap_year = is_leap(year);
    let lengths: [i64; 12] = [31, if leap_year { 29 } else { 28 }, 31, 30, 31, 30, 31, 31, 30, 31, 30, 31];
    let ghost ls = month_lengths(year as int);
    let ghost yday = days as int;
    proof {
        assert forall|i: int| 0 <= i < 12 implies lengths@[i] as int == ls[i] by {}
    }
    let mut month: i64 = 1;
    let mut m: usize = 0;
    loop
        invariant
            m <= 12,
            month == m + 1,
            ls == month_lengths(year as int),
            forall|i: int| 0 <= i < 12 ==> lengths@[i] as int == ls[i],
            month_and_day(ls, yday, 0) == month_and_day(ls, days as int, m as int),
            days <= days0,
            days0 <= 106751991167300,
        ensures
            month_and_day(ls, yday, 0) == (month as int, days as int),
            days <= days0,
        decreases 12 - m,
    {
        if m == 12 || days < lengths[m] {
            break;
        }
        days = days - lengths[m];
        month = month + 1;
        m = m + 1;
    }
    let mut out: Vec<char> = Vec::new();
    push_padded(&mut out, year, 4);
    out.push('-');
    push_padded(&mut out, month, 2);
    out.push('-');
    push_padded(&mut out, days + 1, 2);
    out.push(' ');
    push_padded(&mut out, hour, 2);
    out.push(':');
    push_padded(&mut out, minute, 2);
    proof {
        reveal_strlit("-");
        reveal_strlit(" ");
        reveal_strlit(":");
        lemma_timestamp_parts(ts as int, year as int, month as int, days as int, hour as int, minute as int);
        assert(out@ =~= zero_padded(year as int, 4) + "-"@ + zero_padded(month as int, 2) + "-"@
            + zero_padded(days + 1, 2) + " "@ + zero_padded(hour as int, 2) + ":"@ + zero_padded(
            minute as int,
            2,
        ));
    }
    string_of(out.as_slice())
}

/// The Unix time (in whole seconds, rounded toward zero) of a Cocoa time given in
/// microseconds since 2001-01-01.
pub open spec fn unix_seconds_of(cocoa_us: int) -> int {
    tdiv(cocoa_us + 978307200000000, 1000000)
}

/// The Unix time of a Cocoa time given in microseconds.
pub fn unix_seconds(cocoa_us: i64) -> (r: i64)
    ensures
        r == unix_seconds_of(cocoa_us as int),
{
    let off: i64 = 978307200;
    let (q, rm) = div_rem_signed_wide(cocoa_us);
    // cocoa_us = q * 10^6 + rm (as Rust divides); add the offset in whole seconds
    proof {
        lemma_shift_tdiv(cocoa_us as int, q as int, rm as int);
    }
    if rm < 0 && q + off > 0 {
        q + off - 1
    } else if rm > 0 && q + off < 0 {
        q + off + 1
    } else {
        q + off
    }
}

fn div_rem_signed_wide(a: i64) -> (r: (i64, i64))
    ensures
        r.0 == tdiv(a as int, 1000000),
        r.1 == trem(a as int, 1000000),
        -9223372036855 <= r.0 <= 9223372036854,
        -1000000 < r.1 < 1000000,
{
    if a >= 0 {
        let q = a / 1000000;
        let rm = a % 1000000;
        proof {
            assert(q <= 9223372036854) by (nonlinear_arith)
                requires
                    q == a / 1000000,
                    a <= 9223372036854775807,
            {
            }
        }
        (q, rm)
    } else {
        let m: u64 = ((-(a + 1)) as u64) + 1;
        let q = m / 1000000;
        let rm = m % 1000000;
        proof {
            assert(m == -(a as int));
            assert(q <= 9223372036855) by (nonlinear_arith)
                requires
                    q == m / 1000000,
                    m <= 9223372036854775808,
            {
            }
        }
        let qi = q as i64;
        let ri = rm as i64;
        (-qi, -ri)
    }
}

proof fn lemma_shift_tdiv(a: int, q: int, r: int)
    requires
        q == tdiv(a, 1000000),
        r == trem(a, 1000000),
    ensures
        tdiv(a + 978307200000000, 1000000) == if r < 0 && q + 978307200 > 0 {
            q + 978307200 - 1
        } else if r > 0 && q + 978307200 < 0 {
            q + 978307200 + 1
        } else {
            q + 978307200
        },
{
    let d = 1000000int;
    let off = 978307200int;
    assert(a == q * d + r) by (nonlinear_arith)
        requires
            q == tdiv(a, d),
            r == trem(a, d),
            d == 1000000,
    {
    }
    assert(-d < r < d) by (nonlinear_arith)
        requires
            r == trem(a, d),
            d == 1000000,
    {
    }
    let b = a + off * d;
    assert(b == (q + off) * d + r) by (nonlinear_arith)
        requires
            a == q * d + r,
            b == a + off * d,
    {
    }
    if b >= 0 {
        if r >= 0 {
            assert(b / d == q + off) by (nonlinear_arith)
                requires
                    b == (q + off) * d + r,
                    0 <= r < d,
                    d > 0,
            {
            }
            assert(q + off >= 0) by (nonlinear_arith)
                requires
                    b == (q + off) * d + r,
                    0 <= r < d,
                    b >= 0,
                    d > 0,
            {
            }
        } else {
            assert(b / d == q + off - 1) by (nonlinear_arith)
                requires
                    b == (q + off) * d + r,
                    -d < r < 0,
                    d > 0,
            {
            }
            assert(q + off > 0) by (nonlinear_arith)
                requires
                    b == (q + off) * d + r,
                    -d < r < 0,
                    b >= 0,
                    d > 0,
            {
            }
        }
    } else {
        if r <= 0 {
            assert((-b) / d == -(q + off)) by (nonlinear_arith)
                requires
                    -b == -(q + off) * d - r,
                    0 <= -r < d,
                    d > 0,
            {
            }
            assert(q + off <= 0) by (nonlinear_arith)
                requires
                    b == (q + off) * d + r,
                    -d < r <= 0,
                    b < 0,
                    d > 0,
            {
            }
        } else {
            assert((-b) / d == -(q + off) - 1) by (nonlinear_arith)
                requires
                    -b == (-(q + off) - 1) * d + (d - r),
                    0 < d - r < d,
                    d > 0,
            {
            }
            assert(q + off < 0) by (nonlinear_arith)
                requires
                    b == (q + off) * d + r,
                    0 < r < d,
                    b < 0,
                    d > 0,
            {
            }
        }
    }
}

/// The preview pane's title: with the modification date for a note that has one.
pub open spec fn preview_title_text(is_note: bool, modified: Option<i64>) -> Seq<char> {
    if is_note && modified is Some {
        " Preview — Last Modified: "@ + timestamp_text(unix_seconds_of(modified->0 as int)) + " "@
    } else {
        " Preview "@
    }
}

/// The preview pane's title for the selected line (a note with the given modification time).
pub fn preview_title(is_note: bool, modified: Option<i64>) -> (r: String)
    ensures
        r@ == preview_title_text(is_note, modified),
{
    match modified {
        Some(us) if is_note => {
            let mut out = chars_of(" Preview — Last Modified: ");
            let ts = format_unix_timestamp(unix_seconds(us));
            extend_chars(&mut out, chars_of(ts.as_str()).as_slice());
            extend_chars(&mut out, chars_of(" ").as_slice());
            string_of(out.as_slice())
        },
        _ => string_of(chars_of(" Preview ").as_slice()),
    }
}

// ---------------------------------------------------------------------------
// Widths, truncation and emoji
// ---------------------------------------------------------------------------

/// The displayed width `UnicodeWidthChar::width` gives a character.
pub uninterp spec fn char_columns(c: char) -> Option<usize>;

/// `UnicodeWidthChar::width` (unicode-width): the contract names its result `char_columns`,
/// and states what the crate's source and documentation show plainly: control characters have
/// no width, printable ASCII characters one column, `…` (an East Asian Ambiguous punctuation
/// mark, one column outside CJK contexts) one column, and no character more than three.
#[verifier::external_body]
pub(crate) fn char_width(c: char) -> (r: Option<usize>)
    ensures
        r == char_columns(c),
        r is None <==> is_cc(c),
        (c as u32) >= 0x20 && (c as u32) < 0x7f ==> r == Some(1usize),
        c == '\u{2026}' ==> r == Some(1usize),
        r matches Some(w) ==> w <= 3,
{
    UnicodeWidthChar::width(c)
}

/// The columns a character takes (none counts as zero).
pub open spec fn columns(c: char) -> nat {
    match char_columns(c) {
        Some(w) => w as nat,
        None => 0,
    }
}

/// The columns a text takes: the sum over its characters.
pub open spec fn text_columns(s: Seq<char>) -> nat
    decreases s.len(),
{
    if s.len() == 0 {
        0
    } else {
        text_columns(s.drop_last()) + columns(s.last())
    }
}

/// The displayed width of a text, by `unicode-width` per character.
pub fn display_width(s: &str) -> (r: usize)
    requires
        3 * s@.len() <= usize::MAX,
    ensures
        r == text_columns(s@),
{
    let cs = chars_of(s);
    let mut total: usize = 0;
    let mut i: usize = 0;
    while i < cs.len()
        invariant
            cs@ == s@,
            3 * s@.len() <= usize::MAX,
            i <= cs@.len(),
            total == text_columns(cs@.take(i as int)),
            total <= 3 * i,
        decreases cs@.len() - i,
    {
        proof {
            assert(cs@.take(i + 1).drop_last() =~= cs@.take(i as int));
        }
        let w = match char_width(cs[i]) {
            Some(w) => w,
            None => 0,
        };
        total = total + w;
        i = i + 1;
    }
    proof {
        assert(cs@.take(i as int) =~= cs@);
    }
    total
}

/// The text cut to fit `max` columns, as `truncate_to_width` does it from index `i` on with
/// `width` columns used: characters are kept while one more column (for `…`) still fits after
/// them; the first that does not fit is replaced by `…` and ends the text.
pub open spec fn cut_from(s: Seq<char>, i: int, width: int, max: int) -> Seq<char>
    decreases s.len() - i,
{
    if i < 0 || i >= s.len() {
        Seq::empty()
    } else if width + columns(s[i]) + 1 > max {
        seq!['…']
    } else {
        seq![s[i]] + cut_from(s, i + 1, width + columns(s[i]), max)
    }
}

/// The text as shown in `max` columns: unchanged when it fits, else cut with `…`.
pub open spec fn fit_to_width(s: Seq<char>, max: int) -> Seq<char> {
    if text_columns(s) <= max {
        s
    } else {
        cut_from(s, 0, 0, max)
    }
}

proof fn lemma_cut_from(s: Seq<char>, i: int, width: int, max: int) -> (j: int)
    requires
        0 <= i <= s.len(),
        width == text_columns(s.take(i)),
        width + 1 <= max,
        text_columns(s) >= max,
    ensures
        i <= j <= s.len(),
        cut_from(s, i, width, max) == s.subrange(i, j).push('…'),
        text_columns(s.take(j)) + 1 <= max,
    decreases s.len() - i,
{
    if i == s.len() {
        assert(s.take(i) =~= s);
        i
    } else {
        assert(s.take(i + 1).drop_last() =~= s.take(i));
        if width + columns(s[i]) + 1 > max {
            assert(s.subrange(i, i) =~= Seq::<char>::empty());
            assert(seq!['…'] =~= s.subrange(i, i).push('…'));
            i
        } else {
            let j = lemma_cut_from(s, i + 1, width + columns(s[i]), max);
            assert(seq![s[i]] + s.subrange(i + 1, j).push('…') =~= s.subrange(i, j).push('…'));
            j
        }
    }
}

/// A text too wide for `max` columns (at least one) is cut to a beginning of it that leaves a
/// column free, followed by `…`; a text that fits is kept as it is.
pub proof fn law_truncation_keeps_a_fitting_beginning(s: Seq<char>, max: int) -> (j: int)
    requires
        max >= 1,
    ensures
        text_columns(s) <= max ==> fit_to_width(s, max) == s,
        text_columns(s) > max ==> 0 <= j <= s.len() && fit_to_width(s, max) == s.take(j).push('…')
            && text_columns(s.take(j)) + 1 <= max,
{
    if text_columns(s) > max {
        assert(s.take(0) =~= Seq::<char>::empty());
        let j = lemma_cut_from(s, 0, 0, max);
        assert(s.subrange(0, j) =~= s.take(j));
        j
    } else {
        0
    }
}

/// Truncates a text to fit within `max_cols` terminal columns, ending it with `…` when cut.
/// With at least one column, the result fits.
pub fn truncate_to_width(s: &str, max_cols: usize) -> (r: String)
    requires
        3 * s@.len() + 1 <= usize::MAX,
    ensures
        r@ == fit_to_width(s@, max_cols as int),
        max_cols >= 1 ==> text_columns(r@) <= max_cols,
{
    let w = display_width(s);
    if w <= max_cols {
        return string_of(chars_of(s).as_slice());
    }
    let cs = chars_of(s);
    let mut out: Vec<char> = Vec::new();
    let mut width: usize = 0;
    let mut i: usize = 0;
    proof {
        assert(cs@.take(0) =~= Seq::<char>::empty());
    }
    while i < cs.len()
        invariant_except_break
            out@ + cut_from(cs@, i as int, width as int, max_cols as int) == cut_from(cs@, 0, 0, max_cols as int),
        invariant
            cs@ == s@,
            3 * s@.len() + 1 <= usize::MAX,
            i <= cs@.len(),
            width == text_columns(cs@.take(i as int)),
            width <= 3 * i,
        ensures
            out@ == cut_from(cs@, 0, 0, max_cols as int),
        decreases cs@.len() - i,
    {
        proof {
            assert(cs@.take(i + 1).drop_last() =~= cs@.take(i as int));
        }
        let c = cs[i];
        let cw = match char_width(c) {
            Some(w) => w,
            None => 0,
        };
        if width + cw + 1 > max_cols {
            let ghost before = out@;
            out.push('…');
            proof {
                assert(out@ =~= before + seq!['…']);
            }
            break;
        }
        let ghost before = out@;
        out.push(c);
        proof {
            assert(before + (seq![c] + cut_from(cs@, i + 1, width + cw, max_cols as int)) =~= out@
                + cut_from(cs@, i + 1, width + cw, max_cols as int));
        }
        width = width + cw;
        i = i + 1;
    }
    proof {
        if i == cs@.len() {
            assert(out@ + Seq::<char>::empty() =~= out@);
        }
    }
    let ellipsis = char_width('…');
    proof {
        assert(ellipsis == Some(1usize));
        if max_cols >= 1 {
            let j = law_truncation_keeps_a_fitting_beginning(s@, max_cols as int);
            let kept = s@.take(j);
            assert(kept.push('…').drop_last() =~= kept);
            assert(text_columns(kept.push('…')) == text_columns(kept) + columns('…'));
        }
    }
    string_of(out.as_slice())
}

/// The grapheme clusters `UnicodeSegmentation::graphemes(s, true)` gives for a text.
pub uninterp spec fn grapheme_clusters(s: Seq<char>) -> Seq<Seq<char>>;

/// `UnicodeSegmentation::graphemes` (unicode-segmentation), extended clusters: the contract
/// names the clusters `grapheme_clusters` of the text and states nothing more of them.
#[verifier::external_body]
fn graphemes_of(s: &str) -> (r: Vec<String>)
    ensures
        string_views(r@) == grapheme_clusters(s@),
{
    s.graphemes(true).map(|g| g.to_string()).collect()
}

/// Whether `c` is a regional indicator, the letters flag emoji are made of.
pub open spec fn is_regional_indicator(c: char) -> bool {
    0x1F1E6 <= (c as u32) <= 0x1F1FF
}

/// The letters of the alphabet, in order.
pub open spec fn alphabet() -> Seq<char> {
    "ABCDEFGHIJKLMNOPQRSTUVWXYZ"@
}

/// The capital letter a regional indicator stands for.
pub open spec fn indicator_letter(c: char) -> char {
    alphabet()[(c as u32) - 0x1F1E6]
}

/// Whether `c` joins or modifies an emoji: the zero-width joiner, a skin tone modifier, or a
/// variation selector.
pub open spec fn is_emoji_modifier(c: char) -> bool {
    ||| c == '\u{200D}'
    ||| 0x1F3FB <= (c as u32) <= 0x1F3FF
    ||| c == '\u{FE0E}'
    ||| c == '\u{FE0F}'
}

/// A grapheme cluster as the tree shows it: a flag (a pair of regional indicators) as its
/// two-letter country code, an emoji sequence (joined, skin-toned or with a variation
/// selector) as its base emoji, its first character; any other cluster as it is.
pub open spec fn safe_cluster(g: Seq<char>) -> Seq<char> {
    if g.len() == 2 && is_regional_indicator(g[0]) && is_regional_indicator(g[1]) {
        seq![indicator_letter(g[0]), indicator_letter(g[1])]
    } else if g.len() > 1 && exists|i: int| 0 <= i < g.len() && is_emoji_modifier(#[trigger] g[i]) {
        seq![g[0]]
    } else {
        g
    }
}

/// The clusters as the tree shows them, each by `safe_cluster`.
pub open spec fn safe_clusters(gs: Seq<Seq<char>>) -> Seq<char>
    decreases gs.len(),
{
    if gs.len() == 0 {
        Seq::empty()
    } else {
        safe_clusters(gs.drop_last()) + safe_cluster(gs.last())
    }
}

fn regional_indicator(c: char) -> (b: bool)
    ensures
        b == is_regional_indicator(c),
{
    let u = c as u32;
    0x1F1E6 <= u && u <= 0x1F1FF
}

fn emoji_modifier(c: char) -> (b: bool)
    ensures
        b == is_emoji_modifier(c),
{
    let u = c as u32;
    c == '\u{200D}' || (0x1F3FB <= u && u <= 0x1F3FF) || c == '\u{FE0E}' || c == '\u{FE0F}'
}

fn safe_cluster_exec(g: &[char]) -> (r: Vec<char>)
    ensures
        r@ == safe_cluster(g@),
{
    let mut out: Vec<char> = Vec::new();
    if g.len() == 2 && regional_indicator(g[0]) && regional_indicator(g[1]) {
        let letters = chars_of("ABCDEFGHIJKLMNOPQRSTUVWXYZ");
        proof {
            reveal_strlit("ABCDEFGHIJKLMNOPQRSTUVWXYZ");
        }
        out.push(letters[(g[0] as u32 - 0x1F1E6) as usize]);
        out.push(letters[(g[1] as u32 - 0x1F1E6) as usize]);
        proof {
            assert(out@ =~= seq![indicator_letter(g@[0]), indicator_letter(g@[1])]);
        }
        return out;
    }
    let mut found = false;
    let mut i: usize = 0;
    while i < g.len()
        invariant
            i <= g@.len(),
            found == exists|j: int| 0 <= j < i && is_emoji_modifier(#[trigger] g@[j]),
        decreases g@.len() - i,
    {
        if emoji_modifier(g[i]) {
            found = true;
        }
        i = i + 1;
    }
    if g.len() > 1 && found {
        out.push(g[0]);
        proof {
            assert(out@ =~= seq![g@[0]]);
        }
    } else {
        let mut k: usize = 0;
        while k < g.len()
            invariant
                k <= g@.len(),
                out@ == g@.take(k as int),
            decreases g@.len() - k,
        {
            out.push(g[k]);
            k = k + 1;
            proof {
                assert(out@ =~= g@.take(k as int));
            }
        }
        proof {
            assert(g@.take(k as int) =~= g@);
        }
    }
    out
}

/// The text with each grapheme cluster shown as `safe_cluster` says: flags become their
/// country codes and emoji sequences their base emoji, so that each cluster takes the cells
/// the terminal gives it; single characters and other clusters pass through.
pub fn sanitize_for_display(s: &str) -> (r: String)
    ensures
        r@ == safe_clusters(grapheme_clusters(s@)),
{
    let gs = graphemes_of(s);
    let ghost gv = string_views(gs@);
    let mut out: Vec<char> = Vec::new();
    let mut i: usize = 0;
    proof {
        assert(gv.take(0) =~= Seq::<Seq<char>>::empty());
    }
    while i < gs.len()
        invariant
            gv == string_views(gs@),
            i <= gs@.len(),
            out@ == safe_clusters(gv.take(i as int)),
        decreases gs@.len() - i,
    {
        proof {
            assert(gv.take(i + 1).drop_last() =~= gv.take(i as int));
            assert(gv.take(i + 1).last() == gs@[i as int]@);
        }
        let g = chars_of(gs[i].as_str());
        let shown = safe_cluster_exec(g.as_slice());
        extend_chars(&mut out, shown.as_slice());
        i = i + 1;
    }
    proof {
        assert(gv.take(i as int) =~= gv);
    }
    string_of(out.as_slice())
}

} // verus!
