//! What to draw each tick: the current lyric line fitted to the terminal,
//! how much of it is already sung, and the text of a whole screen. Writing
//! it to the terminal is left to the caller.

use vstd::prelude::*;
use crate::lrc::{
    LyricLine, Lyrics, PlaybackStatus, lemma_sorted_lines_partitioned, line_index, lines_view,
    opt_view, sorted_by_time,
};
use crate::render::{
    Font, col_spans, fit_big, fitted, render_big, width_of, word_cols, word_start, word_times,
};
use crate::player::TrackInfo;
use crate::render::{lemma_col_spans_ordered, row_of};
use crate::text::{chars_of, push_str, string_of_range, trim, trim_bounds, upper_seq, words};

verus! {

/// The largest time (ms) the frame arithmetic handles: a line's end is at
/// most 5 s past its start.
pub const MAX_TIME_MS: u64 = 0xffff_ffff_ffff_ec77;

/// What to draw this tick.
#[derive(Debug, Clone)]
pub struct Frame {
    /// The fitted big text.
    pub line: String,
    /// Karaoke: columns already sung (`usize::MAX` while paused).
    pub sung_cols: usize,
    pub paused: bool,
}

/// Number of lines whose time is not later than `t`.
pub open spec fn le_count(lines: Seq<LyricLine>, t: u64) -> nat
    decreases lines.len(),
{
    if lines.len() == 0 {
        0
    } else {
        le_count(lines.drop_last(), t) + if lines.last().time_ms <= t {
            1nat
        } else {
            0nat
        }
    }
}

/// The line shown at `t`: the last line not later than `t`, else the first.
pub open spec fn active_index(lines: Seq<LyricLine>, t: u64) -> int {
    let c = le_count(lines, t);
    if c > 0 {
        c - 1
    } else {
        0
    }
}

/// The text shown for line `idx`: the line trimmed (`•••` when blank or
/// when there is no such line), fitted to `cols - 2` columns.
pub open spec fn shown_line_at(lines: Seq<LyricLine>, idx: int, font: Font, cols: usize) -> Seq<
    char,
> {
    let raw = if 0 <= idx < lines.len() {
        trim(lines[idx].text@)
    } else {
        Seq::empty()
    };
    let line = if raw.len() == 0 {
        "•••"@
    } else {
        raw
    };
    fitted(
        font,
        if cols >= 2 {
            (cols - 2) as nat
        } else {
            0
        },
        line,
    )
}

/// The text shown at `t`: the active line (see `shown_line_at`).
pub open spec fn shown_line(lines: Seq<LyricLine>, t: u64, font: Font, cols: usize) -> Seq<char> {
    shown_line_at(lines, active_index(lines, t), font, cols)
}

/// The line a frame at `t` shows: the one `line_at` finds, else the first.
pub open spec fn frame_index(lines: Seq<LyricLine>, t: u64) -> int {
    match line_index(lines, t) {
        Some(i) => i,
        None => 0,
    }
}

/// `1 +` the last index whose time `t` has reached, or 0.
pub open spec fn reached(t: nat, times: Seq<nat>) -> nat
    decreases times.len(),
{
    if times.len() == 0 {
        0
    } else if t >= times.last() {
        times.len()
    } else {
        reached(t, times.drop_last())
    }
}

/// Karaoke: the columns of `line`'s big render already sung at `t` while
/// line `idx` is shown — up to the end of the last word whose start `t`
/// has reached (the first word's end before that), within the render's
/// width. The words share the time from line `idx` to the next line (5 s
/// for the last line).
pub open spec fn sung_columns_at(
    lines: Seq<LyricLine>,
    idx: int,
    t: u64,
    font: Font,
    line: Seq<char>,
) -> nat {
    let start: nat = if 0 <= idx < lines.len() {
        lines[idx].time_ms as nat
    } else {
        t as nat
    };
    let end: nat = if 0 <= idx && idx + 1 < lines.len() {
        lines[idx + 1].time_ms as nat
    } else {
        start + 5000
    };
    let n = words(line).len();
    let times = Seq::new(n, |i: int| word_start(start, end, i as nat, n));
    let sung = reached(t as nat, times);
    let k = if sung > 0 {
        sung - 1
    } else {
        0
    };
    let cs = col_spans(font, upper_seq(line));
    let c = if k < cs.len() {
        cs[k].1
    } else {
        0
    };
    let w = width_of(font, upper_seq(line));
    if c <= w {
        c
    } else {
        w
    }
}

/// Karaoke columns sung at `t` on the active line (see `sung_columns_at`).
pub open spec fn sung_columns(lines: Seq<LyricLine>, t: u64, font: Font, line: Seq<char>) -> nat {
    sung_columns_at(lines, active_index(lines, t), t, font, line)
}

/// Lines at or before `t` come first in lines ordered by time, so their
/// count is where the later ones start.
proof fn lemma_le_count_split(lines: Seq<LyricLine>, t: u64, k: int)
    requires
        0 <= k <= lines.len(),
        forall|i: int| 0 <= i < k ==> #[trigger] lines[i].time_ms <= t,
        forall|i: int| k <= i < lines.len() ==> #[trigger] lines[i].time_ms > t,
    ensures
        le_count(lines, t) == k,
    decreases lines.len(),
{
    if lines.len() > 0 {
        let d = lines.drop_last();
        if k == lines.len() {
            assert(lines.last().time_ms <= t);
            assert forall|i: int| 0 <= i < d.len() implies #[trigger] d[i].time_ms <= t by {
                assert(d[i] == lines[i]);
            }
            lemma_le_count_split(d, t, k - 1);
        } else {
            assert(lines.last().time_ms > t);
            assert forall|i: int| 0 <= i < k implies #[trigger] d[i].time_ms <= t by {
                assert(d[i] == lines[i]);
            }
            assert forall|i: int| k <= i < d.len() implies #[trigger] d[i].time_ms > t by {
                assert(d[i] == lines[i]);
            }
            lemma_le_count_split(d, t, k);
        }
    }
}

/// With the lines at or before `t` first, they are exactly the first
/// `le_count(lines, t)` lines.
proof fn lemma_le_count_prefix(lines: Seq<LyricLine>, t: u64)
    requires
        forall|i: int, j: int|
            0 <= i < j < lines.len() && lines[j].time_ms <= t ==> lines[i].time_ms <= t,
    ensures
        le_count(lines, t) <= lines.len(),
        forall|i: int| 0 <= i < le_count(lines, t) ==> #[trigger] lines[i].time_ms <= t,
        forall|i: int| le_count(lines, t) <= i < lines.len() ==> #[trigger] lines[i].time_ms > t,
    decreases lines.len(),
{
    if lines.len() > 0 {
        let d = lines.drop_last();
        assert forall|i: int, j: int|
            0 <= i < j < d.len() && d[j].time_ms <= t implies d[i].time_ms <= t by {
            assert(d[i] == lines[i] && d[j] == lines[j]);
        }
        lemma_le_count_prefix(d, t);
        let c = le_count(d, t);
        if lines.last().time_ms <= t {
            if c < d.len() {
                assert(d[c as int] == lines[c as int]);
                assert(lines[c as int].time_ms <= t);
            }
            assert forall|i: int| 0 <= i < le_count(lines, t) implies #[trigger] lines[i].time_ms
                <= t by {
                if i < d.len() {
                    assert(d[i] == lines[i]);
                }
            }
        } else {
            assert forall|i: int| 0 <= i < le_count(lines, t) implies #[trigger] lines[i].time_ms
                <= t by {
                assert(d[i] == lines[i]);
            }
            assert forall|i: int| le_count(lines, t) <= i < lines.len() implies #[trigger] lines[
                i].time_ms > t by {
                if i < d.len() {
                    assert(d[i] == lines[i]);
                }
            }
        }
    }
}

/// Seeking shows the right line: in lines ordered by time, the line shown
/// at `t` is the last one not later than `t`; before the first line, the
/// first line is shown.
pub proof fn lemma_active_line(lines: Seq<LyricLine>, t: u64)
    requires
        sorted_by_time(lines_view(lines)),
    ensures
        lines.len() > 0 ==> 0 <= active_index(lines, t) < lines.len(),
        lines.len() > 0 && lines[0].time_ms <= t ==> {
            let i = active_index(lines, t);
            &&& lines[i].time_ms <= t
            &&& (i + 1 == lines.len() || lines[i + 1].time_ms > t)
        },
        lines.len() > 0 && lines[0].time_ms > t ==> active_index(lines, t) == 0,
{
    lemma_sorted_lines_partitioned(lines, t);
    lemma_le_count_prefix(lines, t);
    if lines.len() > 0 && lines[0].time_ms <= t {
        assert(le_count(lines, t) > 0);
    }
}

/// How many lines `t` has reached is at most the number of lines.
proof fn lemma_le_count_bound(lines: Seq<LyricLine>, t: u64)
    ensures
        le_count(lines, t) <= lines.len(),
    decreases lines.len(),
{
    if lines.len() > 0 {
        lemma_le_count_bound(lines.drop_last(), t);
    }
}

/// A later time has reached at least as many word starts.
proof fn lemma_reached_mono(t1: nat, t2: nat, times: Seq<nat>)
    requires
        t1 <= t2,
    ensures
        reached(t1, times) <= reached(t2, times) <= times.len(),
    decreases times.len(),
{
    if times.len() > 0 {
        lemma_reached_mono(t1, t2, times.drop_last());
    }
}

/// Later words of a render end at or after earlier ones.
proof fn lemma_col_ends_mono(font: Font, u: Seq<char>, a: int, b: int)
    requires
        0 <= a <= b < col_spans(font, u).len(),
    ensures
        col_spans(font, u)[a].1 <= col_spans(font, u)[b].1,
    decreases b - a,
{
    if a < b {
        lemma_col_spans_ordered(font, u);
        lemma_col_ends_mono(font, u, a, b - 1);
        assert(col_spans(font, u)[b - 1].1 <= col_spans(font, u)[b].0);
        assert(col_spans(font, u)[b].0 <= col_spans(font, u)[b].1);
    }
}

/// Karaoke never goes back while a line is shown: at a later time with
/// the same active line, at least as many columns are sung. (This needs
/// the big render to have as many words as the line, as every ASCII line
/// has.)
pub proof fn lemma_sung_columns_grow(
    lines: Seq<LyricLine>,
    t1: u64,
    t2: u64,
    font: Font,
    line: Seq<char>,
)
    requires
        lines.len() > 0,
        t1 <= t2,
        active_index(lines, t1) == active_index(lines, t2),
        col_spans(font, upper_seq(line)).len() == words(line).len(),
    ensures
        sung_columns(lines, t1, font, line) <= sung_columns(lines, t2, font, line),
{
    lemma_le_count_bound(lines, t1);
    let idx = active_index(lines, t1);
    assert(idx < lines.len());
    let start: nat = lines[idx].time_ms as nat;
    let end: nat = if idx + 1 < lines.len() {
        lines[idx + 1].time_ms as nat
    } else {
        start + 5000
    };
    let n = words(line).len();
    let times = Seq::new(n, |i: int| word_start(start, end, i as nat, n));
    lemma_reached_mono(t1 as nat, t2 as nat, times);
    let s1 = reached(t1 as nat, times);
    let s2 = reached(t2 as nat, times);
    let k1: int = if s1 > 0 {
        s1 - 1
    } else {
        0
    };
    let k2: int = if s2 > 0 {
        s2 - 1
    } else {
        0
    };
    let u = upper_seq(line);
    let cs = col_spans(font, u);
    if k1 < cs.len() && k2 < cs.len() {
        lemma_col_ends_mono(font, u, k1, k2);
    }
}

/// The time span a lyric line's words share: from the line's start to the
/// next line's start (5 s when it is the last).
fn line_window(lines: &Vec<LyricLine>, idx: usize, t: u64) -> (r: (u64, u64))
    requires
        t <= MAX_TIME_MS,
        forall|i: int| 0 <= i < lines@.len() ==> #[trigger] lines@[i].time_ms <= MAX_TIME_MS,
    ensures
        r.0 == if idx < lines@.len() {
            lines@[idx as int].time_ms
        } else {
            t
        },
        r.1 as nat == if idx + 1 < lines@.len() {
            lines@[idx + 1].time_ms as nat
        } else {
            r.0 as nat + 5000
        },
        r.0 <= MAX_TIME_MS,
{
    let start = if idx < lines.len() {
        lines[idx].time_ms
    } else {
        t
    };
    let end = if idx < lines.len() && idx + 1 < lines.len() {
        lines[idx + 1].time_ms
    } else {
        start + 5000
    };
    (start, end)
}

/// Compute the frame to draw at playback position `t` (ms) on a terminal
/// `cols` columns wide. For lyrics ordered by time (as `parse_lrc` returns
/// them) the frame is exactly the one described by `shown_line` and
/// `sung_columns`.
pub fn build_frame(lyr: &Lyrics, t: u64, paused: bool, font: Font, karaoke: bool, cols: usize) -> (f:
    Frame)
    requires
        t <= MAX_TIME_MS,
        forall|i: int| 0 <= i < lyr.lines@.len() ==> #[trigger] lyr.lines@[i].time_ms <= MAX_TIME_MS,
        forall|i: int| 0 <= i < lyr.lines@.len() ==> #[trigger] lyr.lines@[i].text@.len() * 24
            <= usize::MAX,
    ensures
        f.paused == paused,
        f.line@ == shown_line_at(lyr.lines@, frame_index(lyr.lines@, t), font, cols),
        f.sung_cols == if karaoke && !paused {
            sung_columns_at(lyr.lines@, frame_index(lyr.lines@, t), t, font, f.line@)
        } else if karaoke {
            usize::MAX as nat
        } else {
            0
        },
        sorted_by_time(lines_view(lyr.lines@)) ==> {
            &&& f.line@ == shown_line(lyr.lines@, t, font, cols)
            &&& f.sung_cols == if karaoke && !paused {
                sung_columns(lyr.lines@, t, font, f.line@)
            } else if karaoke {
                usize::MAX as nat
            } else {
                0
            }
        },
{
    let lines = &lyr.lines;
    let idx = match lyr.line_at(t) {
        Some(i) => i,
        None => 0,
    };
    proof {
        if sorted_by_time(lines_view(lines@)) {
            crate::lrc::lemma_sorted_lines_partitioned(lines@, t);
            let k: int = if idx < lines@.len() && lines@[idx as int].time_ms <= t {
                idx + 1
            } else {
                0
            };
            assert forall|i: int| 0 <= i < k implies #[trigger] lines@[i].time_ms <= t by {
                assert(lines_view(lines@)[i].0 <= lines_view(lines@)[idx as int].0);
            }
            assert forall|i: int| k <= i < lines@.len() implies #[trigger] lines@[i].time_ms > t by {
                if k == 0 {
                    assert(lines_view(lines@)[0].0 <= lines_view(lines@)[i].0);
                } else {
                    assert(lines_view(lines@)[idx + 1].0 <= lines_view(lines@)[i].0);
                }
            }
            lemma_le_count_split(lines@, t, k);
        }
    }
    let raw = if idx < lines.len() {
        let v = chars_of(lines[idx].text.as_str());
        let (a, b) = trim_bounds(&v, 0, v.len());
        assert(v@.subrange(0, v@.len() as int) =~= v@);
        string_of_range(&v, a, b)
    } else {
        String::new()
    };
    let line = if raw.as_str().is_empty() {
        "•••".to_owned()
    } else {
        raw
    };
    proof {
        reveal_strlit("•••");
    }
    let width = if cols >= 2 {
        cols - 2
    } else {
        0
    };
    let line = fit_big(line.as_str(), font, width);
    proof {
        reveal_strlit("...");
    }
    let sung_cols: usize = if karaoke && !paused {
        let (start, end) = line_window(lines, idx, t);
        let cols_of_words = word_cols(line.as_str(), font);
        let times = word_times(line.as_str(), start, end);
        let ghost n = words(line@).len();
        let ghost ts = Seq::new(n, |i: int| word_start(start as nat, end as nat, i as nat, n));
        let mut sung_words: usize = 0;
        let mut i: usize = 0;
        assert(ts.take(0) =~= Seq::<nat>::empty());
        while i < times.len()
            invariant
                i <= times@.len() == n == ts.len(),
                forall|j: int| 0 <= j < times@.len() ==> #[trigger] times@[j].0 == ts[j],
                sung_words == reached(t as nat, ts.take(i as int)),
            decreases times@.len() - i,
        {
            assert(ts.take(i + 1).drop_last() =~= ts.take(i as int));
            if t >= times[i].0 {
                sung_words = i + 1;
            }
            i = i + 1;
        }
        assert(ts.take(n as int) =~= ts);
        let k = if sung_words > 0 {
            sung_words - 1
        } else {
            0
        };
        let c = if k < cols_of_words.len() {
            cols_of_words[k].1
        } else {
            0
        };
        let rows = render_big(line.as_str(), font);
        let w = chars_of(rows[0].as_str()).len();
        proof {
            if sorted_by_time(lines_view(lines@)) {
                assert(start as nat == (if active_index(lines@, t) < lines@.len() {
                    lines@[active_index(lines@, t)].time_ms as nat
                } else {
                    t as nat
                }));
                assert(sung_words == reached(t as nat, ts));
                let cs = col_spans(font, upper_seq(line@));
                assert(cols_of_words@.len() == cs.len());
                if k < cs.len() {
                    assert((cols_of_words@[k as int].0 as nat, cols_of_words@[k as int].1 as nat)
                        == cs[k as int]);
                }
                assert(w == width_of(font, upper_seq(line@)));
            }
        }
        if c <= w {
            c
        } else {
            w
        }
    } else if karaoke && paused {
        usize::MAX
    } else {
        0
    };
    proof {
        if sorted_by_time(lines_view(lines@)) {
            assert(idx == active_index(lines@, t));
            assert(line@ == shown_line(lines@, t, font, cols));
        }
    }
    Frame { line, sung_cols, paused }
}


/// The SGR codes a screen is drawn with (the theme's colors).
#[derive(Debug, Clone)]
pub struct ScreenColors {
    /// The `artist - title` status line.
    pub header: String,
    /// Words already sung (and whole lines without karaoke).
    pub sung: String,
    /// Words not yet sung.
    pub unsung: String,
    /// The whole line while paused.
    pub paused: String,
}

/// `n` copies of `s`.
pub open spec fn repeat_seq(s: Seq<char>, n: nat) -> Seq<char>
    decreases n,
{
    if n == 0 {
        Seq::empty()
    } else {
        repeat_seq(s, (n - 1) as nat) + s
    }
}

/// `artist - title`, or the title alone.
pub open spec fn track_name(t: TrackInfo) -> Seq<char> {
    if t.artist@.len() == 0 {
        t.title@
    } else {
        t.artist@ + " - "@ + t.title@
    }
}

/// The status line: ` name ` right-aligned after a rule of `─`.
pub open spec fn header_text(colors: ScreenColors, name: Seq<char>, cols: usize) -> Seq<char> {
    let header = " "@ + name + " "@;
    let hpad: nat = if cols >= header.len() {
        (cols - header.len()) as nat
    } else {
        0
    };
    colors.header@ + repeat_seq(seq!['─'], hpad) + header + "\x1b[0m\x1b[K\r\n"@
}

/// Blank lines above the big text: half the free rows (rounded up), plus
/// one under the status line.
pub open spec fn top_gap(rows: usize, height: nat, show_header: bool) -> nat {
    let free: nat = if rows >= height + 1 {
        (rows - (height + 1)) as nat
    } else {
        0
    };
    (free + 1) / 2 + if show_header {
        1nat
    } else {
        0nat
    }
}

/// One row of the big text, colored: in the paused color while paused;
/// with karaoke, the sung columns in the sung color and the rest in the
/// unsung color; else all in the sung color.
pub open spec fn row_body(colors: ScreenColors, frame: Frame, karaoke: bool, row: Seq<char>) -> Seq<
    char,
> {
    if frame.paused {
        colors.paused@ + row + "\x1b[0m"@
    } else if karaoke && frame.sung_cols > 0 {
        let cut: int = if frame.sung_cols <= row.len() {
            frame.sung_cols as int
        } else {
            row.len() as int
        };
        colors.sung@ + row.take(cut) + colors.unsung@ + row.skip(cut) + "\x1b[0m"@
    } else {
        colors.sung@ + row + "\x1b[0m"@
    }
}

/// One row of the big text, centered in `cols` columns.
pub open spec fn row_text(
    colors: ScreenColors,
    frame: Frame,
    karaoke: bool,
    cols: usize,
    row: Seq<char>,
) -> Seq<char> {
    let pad: nat = if cols >= row.len() {
        ((cols - row.len()) / 2) as nat
    } else {
        0
    };
    "\x1b[K"@ + repeat_seq(seq![' '], pad) + row_body(colors, frame, karaoke, row) + "\r\n"@
}

/// The big-text rows `0..k` of the screen.
pub open spec fn rows_text(
    colors: ScreenColors,
    frame: Frame,
    font: Font,
    karaoke: bool,
    cols: usize,
    k: nat,
) -> Seq<char>
    decreases k,
{
    if k == 0 {
        Seq::empty()
    } else {
        rows_text(colors, frame, font, karaoke, cols, (k - 1) as nat) + row_text(
            colors,
            frame,
            karaoke,
            cols,
            row_of(font, upper_seq(frame.line@), k - 1),
        )
    }
}

/// A whole screen: cursor home, the optional status line, blank lines,
/// the big text centered, and a clear of the rest.
pub open spec fn screen_text(
    colors: ScreenColors,
    frame: Frame,
    name: Seq<char>,
    cols: usize,
    rows: usize,
    font: Font,
    karaoke: bool,
    show_header: bool,
) -> Seq<char> {
    "\x1b[H"@ + (if show_header {
        header_text(colors, name, cols)
    } else {
        Seq::empty()
    }) + repeat_seq("\x1b[K\r\n"@, top_gap(rows, font.height_spec(), show_header)) + rows_text(
        colors,
        frame,
        font,
        karaoke,
        cols,
        font.height_spec(),
    ) + "\x1b[J"@
}

/// Appends `n` copies of `t`.
fn push_repeat(s: &mut String, t: &str, n: usize)
    ensures
        final(s)@ == old(s)@ + repeat_seq(t@, n as nat),
{
    let mut k: usize = 0;
    while k < n
        invariant
            k <= n,
            s@ == old(s)@ + repeat_seq(t@, k as nat),
        decreases n - k,
    {
        push_str(s, t);
        k = k + 1;
    }
}

/// Appends `n` copies of `c`.
fn push_chars(s: &mut String, c: char, n: usize)
    ensures
        final(s)@ == old(s)@ + repeat_seq(seq![c], n as nat),
{
    let mut k: usize = 0;
    while k < n
        invariant
            k <= n,
            s@ == old(s)@ + repeat_seq(seq![c], k as nat),
        decreases n - k,
    {
        s.push(c);
        k = k + 1;
    }
}

/// `row_body(colors, frame, karaoke, row)`.
fn row_body_exec(colors: &ScreenColors, frame: &Frame, karaoke: bool, rv: &Vec<char>) -> (r: String)
    ensures
        r@ == row_body(*colors, *frame, karaoke, rv@),
{
    let mut out = String::new();
    let width = rv.len();
    if frame.paused {
        push_str(&mut out, colors.paused.as_str());
        crate::text::push_range(&mut out, rv, 0, width);
        push_str(&mut out, "\x1b[0m");
        assert(rv@.subrange(0, width as int) =~= rv@);
    } else if karaoke && frame.sung_cols > 0 {
        let cut = if frame.sung_cols <= width {
            frame.sung_cols
        } else {
            width
        };
        push_str(&mut out, colors.sung.as_str());
        crate::text::push_range(&mut out, rv, 0, cut);
        push_str(&mut out, colors.unsung.as_str());
        crate::text::push_range(&mut out, rv, cut, width);
        push_str(&mut out, "\x1b[0m");
        assert(rv@.subrange(0, cut as int) =~= rv@.take(cut as int));
        assert(rv@.subrange(cut as int, width as int) =~= rv@.skip(cut as int));
    } else {
        push_str(&mut out, colors.sung.as_str());
        crate::text::push_range(&mut out, rv, 0, width);
        push_str(&mut out, "\x1b[0m");
        assert(rv@.subrange(0, width as int) =~= rv@);
    }
    out
}

/// Appends one centered, colored row of the big text.
fn push_row(
    out: &mut String,
    colors: &ScreenColors,
    frame: &Frame,
    karaoke: bool,
    cols: usize,
    row: &str,
)
    ensures
        final(out)@ == old(out)@ + row_text(*colors, *frame, karaoke, cols, row@),
{
    let rv = chars_of(row);
    let width = rv.len();
    let pad = if cols >= width {
        (cols - width) / 2
    } else {
        0
    };
    let body = row_body_exec(colors, frame, karaoke, &rv);
    let ghost a0 = out@;
    push_str(out, "\x1b[K");
    let ghost a1 = out@;
    push_chars(out, ' ', pad);
    let ghost a2 = out@;
    push_str(out, body.as_str());
    let ghost a3 = out@;
    push_str(out, "\r\n");
    assert(out@ =~= a0 + ("\x1b[K"@ + repeat_seq(seq![' '], pad as nat) + body@ + "\r\n"@));
}

/// The status line `header_text(colors, name, cols)` for `track`.
fn header_exec(colors: &ScreenColors, track: &TrackInfo, cols: usize) -> (r: String)
    ensures
        r@ == header_text(*colors, track_name(*track), cols),
{
    let mut header = String::new();
    push_str(&mut header, " ");
    if track.artist.as_str().is_empty() {
        push_str(&mut header, track.title.as_str());
    } else {
        push_str(&mut header, track.artist.as_str());
        push_str(&mut header, " - ");
        push_str(&mut header, track.title.as_str());
    }
    push_str(&mut header, " ");
    assert(header@ =~= " "@ + track_name(*track) + " "@);
    let hlen = chars_of(header.as_str()).len();
    let hpad = if cols >= hlen {
        cols - hlen
    } else {
        0
    };
    let mut out = String::new();
    push_str(&mut out, colors.header.as_str());
    push_chars(&mut out, '─', hpad);
    push_str(&mut out, header.as_str());
    push_str(&mut out, "\x1b[0m\x1b[K\r\n");
    out
}

/// Render one frame: header line + big letters centered, karaoke coloring.
/// Returns the text to write to a terminal of `cols` x `rows` cells.
pub fn draw_lyric_frame(
    colors: &ScreenColors,
    frame: &Frame,
    track: &TrackInfo,
    cols: usize,
    rows: usize,
    font: Font,
    karaoke: bool,
    show_header: bool,
) -> (out: String)
    ensures
        out@ == screen_text(
            *colors,
            *frame,
            track_name(*track),
            cols,
            rows,
            font,
            karaoke,
            show_header,
        ),
{
    let mut out = String::new();
    push_str(&mut out, "\x1b[H");
    let ghost a1 = out@;
    if show_header {
        let header = header_exec(colors, track, cols);
        push_str(&mut out, header.as_str());
    }
    let ghost a2 = out@;
    let big_rows = render_big(frame.line.as_str(), font);
    let h = big_rows.len();
    let free = if rows >= h + 1 {
        rows - (h + 1)
    } else {
        0
    };
    let top = free / 2 + free % 2 + if show_header {
        1usize
    } else {
        0usize
    };
    assert(top == top_gap(rows, font.height_spec(), show_header));
    push_repeat(&mut out, "\x1b[K\r\n", top);
    let ghost before = out@;
    let mut i: usize = 0;
    while i < h
        invariant
            i <= h == font.height_spec() == big_rows@.len(),
            forall|k: int| 0 <= k < big_rows@.len() ==> #[trigger] big_rows@[k]@ == row_of(
                font,
                upper_seq(frame.line@),
                k,
            ),
            out@ == before + rows_text(*colors, *frame, font, karaoke, cols, i as nat),
        decreases h - i,
    {
        let ghost at = out@;
        push_row(&mut out, colors, frame, karaoke, cols, big_rows[i].as_str());
        assert(out@ =~= before + rows_text(*colors, *frame, font, karaoke, cols, (i + 1) as nat));
        i = i + 1;
    }
    let ghost a3 = out@;
    push_str(&mut out, "\x1b[J");
    assert(out@ =~= "\x1b[H"@ + (if show_header {
        header_text(*colors, track_name(*track), cols)
    } else {
        Seq::empty()
    }) + repeat_seq("\x1b[K\r\n"@, top as nat) + rows_text(
        *colors,
        *frame,
        font,
        karaoke,
        cols,
        font.height_spec(),
    ) + "\x1b[J"@);
    out
}

/// Draw a non-lyric screen (waiting / no lyrics): `big` in big letters,
/// `sub` on the status line. Returns the screen text and the frame it
/// shows.
pub fn draw_simple(
    colors: &ScreenColors,
    big: &str,
    sub: &str,
    cols: usize,
    rows: usize,
    font: Font,
    karaoke: bool,
    show_header: bool,
) -> (r: (String, Frame))
    ensures
        r.1.line@ == big@,
        r.1.sung_cols == 0,
        !r.1.paused,
        r.0@ == screen_text(
            *colors,
            r.1,
            sub@,
            cols,
            rows,
            font,
            karaoke,
            show_header,
        ),
{
    let frame = Frame { line: big.to_owned(), sung_cols: 0, paused: false };
    let track = TrackInfo { title: sub.to_owned(), artist: String::new(), album: None, length: None };
    let out = draw_lyric_frame(colors, &frame, &track, cols, rows, font, karaoke, show_header);
    (out, frame)
}


/// The same track: same title, artist, album and length.
pub open spec fn same_track(a: TrackInfo, b: TrackInfo) -> bool {
    a.title@ == b.title@ && a.artist@ == b.artist@ && opt_view(a.album) == opt_view(b.album)
        && a.length == b.length
}

/// The same player playing the same track.
pub open spec fn same_player(a: (String, TrackInfo), b: (String, TrackInfo)) -> bool {
    a.0@ == b.0@ && same_track(a.1, b.1)
}

fn same_opt_text(a: &Option<String>, b: &Option<String>) -> (r: bool)
    ensures
        r == (opt_view(*a) == opt_view(*b)),
{
    match (a, b) {
        (Some(x), Some(y)) => crate::text::same_chars(x.as_str(), y.as_str()),
        (None, None) => true,
        _ => false,
    }
}

/// Whether two snapshots are the same player and track.
fn same_player_exec(a: &(String, TrackInfo), b: &(String, TrackInfo)) -> (r: bool)
    ensures
        r == same_player(*a, *b),
{
    crate::text::same_chars(a.0.as_str(), b.0.as_str()) && crate::text::same_chars(
        a.1.title.as_str(),
        b.1.title.as_str(),
    ) && crate::text::same_chars(a.1.artist.as_str(), b.1.artist.as_str()) && same_opt_text(
        &a.1.album,
        &b.1.album,
    ) && a.1.length == b.1.length
}

/// What the player watcher's latest report changes: `Some(now)` when the
/// player or track changed (a new one, or none any more), so lyrics must
/// be looked up again; `None` when nothing changed.
pub fn player_update(current: &Option<(String, TrackInfo)>, report: Option<(String, TrackInfo)>) -> (r:
    Option<Option<(String, TrackInfo)>>)
    ensures
        match report {
            Some(new) => if current matches Some(cur) && same_player(*cur, new) {
                r is None
            } else {
                r matches Some(Some(x)) && x == new
            },
            None => if current is Some {
                r matches Some(None)
            } else {
                r is None
            },
        },
{
    match report {
        Some(new) => {
            let unchanged = match current {
                Some(cur) => same_player_exec(cur, &new),
                None => false,
            };
            if unchanged {
                None
            } else {
                Some(Some(new))
            }
        },
        None => {
            if current.is_some() {
                Some(None)
            } else {
                None
            }
        },
    }
}

/// The keys that quit: `q` and Ctrl-C (raw mode delivers `^C` as byte 3).
pub fn is_quit_key(k: u8) -> (r: bool)
    ensures
        r == (k == 113 || k == 3),
{
    k == 113 || k == 3
}

/// Whether the lyrics are shown as paused: paused, stopped, or no status.
pub fn shows_paused(status: Option<PlaybackStatus>) -> (r: bool)
    ensures
        r == !(status == Some(PlaybackStatus::Playing)),
{
    match status {
        Some(PlaybackStatus::Playing) => false,
        _ => true,
    }
}

/// What a tick shows while no lyric frame is drawn: the big text, the
/// status line, and how long to wait before the next tick (ms). Without a
/// player it waits for one; with a player it says its track has no lyrics.
pub open spec fn idle_view(current: Option<(String, TrackInfo)>) -> (Seq<char>, Seq<char>, u64) {
    match current {
        None => ("•••"@, "waiting for a player…"@, 200),
        Some(c) => ("NO LYRICS"@, c.1.title@ + " — not on lrclib"@, 300),
    }
}

/// The screen shown while no lyric frame is drawn (see `idle_view`).
pub fn idle_screen(current: &Option<(String, TrackInfo)>) -> (r: (String, String, u64))
    ensures
        (r.0@, r.1@, r.2) == idle_view(*current),
{
    match current {
        None => ("•••".to_owned(), "waiting for a player…".to_owned(), 200),
        Some(c) => {
            let mut sub = String::new();
            push_str(&mut sub, c.1.title.as_str());
            push_str(&mut sub, " — not on lrclib");
            ("NO LYRICS".to_owned(), sub, 300)
        },
    }
}

/// The frames of these lyrics can be built: every time is within
/// `MAX_TIME_MS` and every line is short enough to render.
pub open spec fn lyrics_fit(l: Lyrics) -> bool {
    forall|i: int|
        0 <= i < l.lines@.len() ==> #[trigger] l.lines@[i].time_ms <= MAX_TIME_MS
            && l.lines@[i].text@.len() * 24 <= usize::MAX
}

/// Whether `build_frame` takes these lyrics (see `lyrics_fit`).
pub fn frames_fit(l: &Lyrics) -> (r: bool)
    ensures
        r == lyrics_fit(*l),
{
    let mut i: usize = 0;
    while i < l.lines.len()
        invariant
            i <= l.lines@.len(),
            forall|j: int|
                0 <= j < i ==> #[trigger] l.lines@[j].time_ms <= MAX_TIME_MS && l.lines@[j].text@.len()
                    * 24 <= usize::MAX,
        decreases l.lines@.len() - i,
    {
        let line = &l.lines[i];
        let n = chars_of(line.text.as_str()).len();
        if line.time_ms > MAX_TIME_MS || n > usize::MAX / 24 {
            return false;
        }
        i = i + 1;
    }
    true
}

/// A frame is drawn unless it is the one drawn last.
pub fn needs_redraw(last: &Option<Frame>, frame: &Frame) -> (r: bool)
    ensures
        r == !(last matches Some(f) && f.line@ == frame.line@ && f.sung_cols == frame.sung_cols
            && f.paused == frame.paused),
{
    match last {
        Some(f) => !(crate::text::same_chars(f.line.as_str(), frame.line.as_str()) && f.sung_cols
            == frame.sung_cols && f.paused == frame.paused),
        None => true,
    }
}

/// What a tick of the draw loop does next.
#[derive(Debug, Clone, Copy, PartialEq, Eq, Structural)]
pub enum TickStep {
    /// A quit key was pressed: restore the screen and stop.
    Quit,
    /// Look the current track's lyrics up, then decide again.
    Lookup,
    /// Show the idle screen (`idle_screen`).
    Idle,
    /// Build and draw the lyric frame.
    Frame,
}

/// The order of a tick's decisions: a quit key first; then, with no
/// player, the idle screen; with a player whose lyrics are unknown, a
/// lookup (once per tick), and the idle screen when it found none; else
/// the lyric frame.
pub fn tick_step(
    key: Option<u8>,
    current: &Option<(String, TrackInfo)>,
    lyrics: &Option<Lyrics>,
    looked_up: bool,
) -> (r: TickStep)
    ensures
        r == if key matches Some(k) && (k == 113 || k == 3) {
            TickStep::Quit
        } else if current is None {
            TickStep::Idle
        } else if lyrics is None {
            if looked_up {
                TickStep::Idle
            } else {
                TickStep::Lookup
            }
        } else {
            TickStep::Frame
        },
{
    if let Some(k) = key {
        if is_quit_key(k) {
            return TickStep::Quit;
        }
    }
    if current.is_none() {
        TickStep::Idle
    } else if lyrics.is_none() {
        if looked_up {
            TickStep::Idle
        } else {
            TickStep::Lookup
        }
    } else {
        TickStep::Frame
    }
}

} // verus!
