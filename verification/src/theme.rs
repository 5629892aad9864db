//! The theme file: `key = value` lines that set the screen colors.
//!
//! Keys are `sung`, `unsung`, `paused` and `header`; values are
//! `#rrggbb`, `#rgb`, `palette:N` (a slot 0-255 of the terminal's
//! palette), `default` (the normal foreground) and `dim` (faint). Lines
//! starting with `#` are comments, and anything after the value's first
//! word is ignored. Unknown keys and values leave the colors as they were.

use vstd::prelude::*;
use crate::cli::{all_decimal, digits_value};
use crate::screen::ScreenColors;
use crate::term::{Rgb, hex_val, sgr_of};
use crate::text::{
    ascii_lower, chars_of, decimal, find_char, index_of, is_whitespace, is_ws, lemma_index_of_bounds,
    lemma_word_end, lemma_word_end_at, push_decimal, push_str, trim, trim_bounds, word_end,
};
use crate::ytmgo::matches_at;

verus! {

/// A color a theme can name.
#[derive(Debug, Clone, Copy, PartialEq, Eq, Structural)]
pub enum ThemeColor {
    /// A true color.
    Rgb(u8, u8, u8),
    /// A slot of the terminal's 256-color palette.
    Slot(u8),
    /// The terminal's normal foreground.
    Default,
    /// Faint text.
    Dim,
}

/// The SGR code for a theme color.
pub open spec fn theme_sgr(c: ThemeColor) -> Seq<char> {
    match c {
        ThemeColor::Rgb(r, g, b) => sgr_of(Rgb(r, g, b)),
        ThemeColor::Slot(n) => "\x1b[38;5;"@ + decimal(n as nat) + "m"@,
        ThemeColor::Default => "\x1b[39m"@,
        ThemeColor::Dim => "\x1b[2m"@,
    }
}

/// The value of the hex digit `c` (0 when it is none).
pub open spec fn hx(c: char) -> nat {
    match hex_val(c) {
        Some(x) => x,
        None => 0,
    }
}

/// Hex digits have their usual values in either case: `0`-`9` are 0-9,
/// `a`-`f` and `A`-`F` are 10-15; nothing else is a hex digit.
pub proof fn lemma_hex_digit_values(c: char)
    ensures
        '0' <= c <= '9' ==> hx(c) == c as u32 - '0' as u32 && hex_val(c) == Some(
            (c as u32 - '0' as u32) as nat,
        ),
        'a' <= c <= 'f' ==> hx(c) == c as u32 - 'a' as u32 + 10 && hex_val(c) == Some(
            (c as u32 - 'a' as u32 + 10) as nat,
        ),
        'A' <= c <= 'F' ==> hx(c) == c as u32 - 'A' as u32 + 10 && hex_val(c) == Some(
            (c as u32 - 'A' as u32 + 10) as nat,
        ),
        !('0' <= c <= '9' || 'a' <= c <= 'f' || 'A' <= c <= 'F') ==> hex_val(c) is None,
{
}

/// `#rgb` is the color `#rrggbb` with each digit doubled, and hex digits
/// read the same in either case.
pub proof fn lemma_short_hex_doubles(a: char, b: char, c: char)
    requires
        hex_val(a) is Some,
        hex_val(b) is Some,
        hex_val(c) is Some,
    ensures
        parse_color(seq!['#', a, b, c]) == parse_color(seq!['#', a, a, b, b, c, c]),
        parse_color(seq!['#', a, b, c]) is Some,
        parse_color(seq!['#', a, a, b, b, c, c]) == parse_color(
            seq!['#', ascii_lower(a), ascii_lower(a), ascii_lower(b), ascii_lower(b), ascii_lower(c), ascii_lower(c)],
        ),
{
    reveal_strlit("default");
    reveal_strlit("dim");
    reveal_strlit("palette:");
    let s4 = seq!['#', a, b, c];
    let s7 = seq!['#', a, a, b, b, c, c];
    let l7 = seq!['#', ascii_lower(a), ascii_lower(a), ascii_lower(b), ascii_lower(b), ascii_lower(c), ascii_lower(c)];
    assert(s4 != "default"@ && s4 != "dim"@ && s7 != "default"@ && s7 != "dim"@ && l7 != "default"@ && l7 != "dim"@) by {
        assert(s4[0] != "dim"@[0] && s7[0] != "default"@[0] && l7[0] != "default"@[0]);
        assert(s4.len() != "default"@.len() && s7.len() != "dim"@.len() && l7.len() != "dim"@.len());
    }
    assert(hex_tail(s4));
    assert(hex_tail(s7));
    assert(hex_tail(l7)) by {
        assert forall|i: int| 1 <= i < l7.len() implies #[trigger] hex_val(l7[i]) is Some by {
            let x = s7[i];
            assert(hex_val(x) is Some);
            if 'A' <= x <= 'Z' {
                assert(65 <= (x as u32) <= 70);
            }
        }
    }
    assert forall|x: char| hex_val(x) is Some implies hx(x) * 17 == hx(x) * 16 + hx(x) by {}
    assert forall|x: char| hex_val(x) is Some implies hx(ascii_lower(x)) == hx(x) by {
        if 'A' <= x <= 'Z' {
            assert(65 <= (x as u32) <= 70);
        }
    }
}

/// Characters `v[1..]` are all hex digits.
pub open spec fn hex_tail(v: Seq<char>) -> bool {
    forall|i: int| 1 <= i < v.len() ==> #[trigger] hex_val(v[i]) is Some
}

/// A theme value read as a color: `default`, `dim`, `#rrggbb`, `#rgb`
/// (each digit doubled) or `palette:N` with `N` at most 255.
pub open spec fn parse_color(v: Seq<char>) -> Option<ThemeColor> {
    if v == "default"@ {
        Some(ThemeColor::Default)
    } else if v == "dim"@ {
        Some(ThemeColor::Dim)
    } else if v.len() == 7 && v[0] == '#' && hex_tail(v) {
        Some(
            ThemeColor::Rgb(
                (hx(v[1]) * 16 + hx(v[2])) as u8,
                (hx(v[3]) * 16 + hx(v[4])) as u8,
                (hx(v[5]) * 16 + hx(v[6])) as u8,
            ),
        )
    } else if v.len() == 4 && v[0] == '#' && hex_tail(v) {
        Some(ThemeColor::Rgb((hx(v[1]) * 17) as u8, (hx(v[2]) * 17) as u8, (hx(v[3]) * 17) as u8))
    } else if 8 < v.len() <= 11 && v.take(8) == "palette:"@ && all_decimal(v.skip(8))
        && digits_value(v.skip(8)) <= 255 {
        Some(ThemeColor::Slot(digits_value(v.skip(8)) as u8))
    } else {
        None
    }
}

/// The screen colors as text: header, sung, unsung, paused.
pub type ColorsView = (Seq<char>, Seq<char>, Seq<char>, Seq<char>);

/// The colors of a `ScreenColors`.
pub open spec fn colors_view(c: ScreenColors) -> ColorsView {
    (c.header@, c.sung@, c.unsung@, c.paused@)
}

/// One line of a theme file applied to the colors.
pub open spec fn theme_line(t: ColorsView, raw: Seq<char>) -> ColorsView {
    let line = trim(raw);
    let k = index_of(line, '=');
    if line.len() == 0 || line[0] == '#' || k >= line.len() {
        t
    } else {
        let key = trim(line.take(k));
        let rest = trim(line.skip(k + 1));
        match parse_color(rest.take(word_end(rest, 0))) {
            Some(c) => if key == "header"@ {
                (theme_sgr(c), t.1, t.2, t.3)
            } else if key == "sung"@ {
                (t.0, theme_sgr(c), t.2, t.3)
            } else if key == "unsung"@ {
                (t.0, t.1, theme_sgr(c), t.3)
            } else if key == "paused"@ {
                (t.0, t.1, t.2, theme_sgr(c))
            } else {
                t
            },
            None => t,
        }
    }
}

/// A theme file applied to the colors, line by line.
pub open spec fn theme_from(t: ColorsView, s: Seq<char>) -> ColorsView
    decreases s.len(),
{
    let k = index_of(s, '\n');
    if k < s.len() {
        proof {
            lemma_index_of_bounds(s, '\n');
        }
        theme_from(theme_line(t, s.take(k)), s.skip(k + 1))
    } else {
        theme_line(t, s)
    }
}

/// The SGR code for a theme color.
pub fn theme_sgr_exec(c: ThemeColor) -> (r: String)
    ensures
        r@ == theme_sgr(c),
{
    match c {
        ThemeColor::Rgb(r, g, b) => Rgb(r, g, b).sgr(),
        ThemeColor::Slot(n) => {
            let mut s = String::new();
            push_str(&mut s, "\x1b[38;5;");
            push_decimal(&mut s, n as u64);
            push_str(&mut s, "m");
            s
        },
        ThemeColor::Default => "\x1b[39m".to_owned(),
        ThemeColor::Dim => "\x1b[2m".to_owned(),
    }
}

/// Whether `v[lo..hi]` is `p`.
fn range_is(v: &Vec<char>, lo: usize, hi: usize, p: &str) -> (r: bool)
    requires
        lo <= hi <= v@.len(),
    ensures
        r == (v@.subrange(lo as int, hi as int) == p@),
{
    let pv = chars_of(p);
    if hi - lo != pv.len() {
        return false;
    }
    matches_at(v, lo, &pv)
}

/// `hex_tail` of `v[lo..hi]`.
fn hex_tail_exec(v: &Vec<char>, lo: usize, hi: usize) -> (r: bool)
    requires
        lo < hi <= v@.len(),
    ensures
        r == hex_tail(v@.subrange(lo as int, hi as int)),
{
    let ghost w = v@.subrange(lo as int, hi as int);
    let mut i = lo + 1;
    while i < hi
        invariant
            lo < i <= hi <= v@.len(),
            w == v@.subrange(lo as int, hi as int),
            forall|j: int| 1 <= j < i - lo ==> #[trigger] hex_val(w[j]) is Some,
        decreases hi - i,
    {
        if !(('0' <= v[i] && v[i] <= '9') || ('a' <= v[i] && v[i] <= 'f') || ('A' <= v[i] && v[i]
            <= 'F')) {
            assert(w[i - lo] == v@[i as int]);
            assert(hex_val(w[i - lo]) is None);
            return false;
        }
        assert(w[i - lo] == v@[i as int]);
        i = i + 1;
    }
    true
}

/// `hx(c)`.
fn hx_exec(c: char) -> (r: u8)
    ensures
        r == hx(c),
        r < 16,
{
    if '0' <= c && c <= '9' {
        (c as u32 - 48) as u8
    } else if 'a' <= c && c <= 'f' {
        (c as u32 - 87) as u8
    } else if 'A' <= c && c <= 'F' {
        (c as u32 - 55) as u8
    } else {
        0
    }
}

/// `parse_color` of `v[lo..hi]`.
fn parse_color_exec(v: &Vec<char>, lo: usize, hi: usize) -> (r: Option<ThemeColor>)
    requires
        lo <= hi <= v@.len(),
    ensures
        r == parse_color(v@.subrange(lo as int, hi as int)),
{
    let ghost w = v@.subrange(lo as int, hi as int);
    if range_is(v, lo, hi, "default") {
        return Some(ThemeColor::Default);
    }
    if range_is(v, lo, hi, "dim") {
        return Some(ThemeColor::Dim);
    }
    let n = hi - lo;
    if n == 7 && v[lo] == '#' && hex_tail_exec(v, lo, hi) {
        assert(forall|j: int| 0 <= j < 7 ==> w[j] == v@[lo + j]);
        let r = hx_exec(v[lo + 1]) * 16 + hx_exec(v[lo + 2]);
        let g = hx_exec(v[lo + 3]) * 16 + hx_exec(v[lo + 4]);
        let b = hx_exec(v[lo + 5]) * 16 + hx_exec(v[lo + 6]);
        return Some(ThemeColor::Rgb(r, g, b));
    }
    if n == 4 && v[lo] == '#' && hex_tail_exec(v, lo, hi) {
        assert(forall|j: int| 0 <= j < 4 ==> w[j] == v@[lo + j]);
        let r = hx_exec(v[lo + 1]) * 17;
        let g = hx_exec(v[lo + 2]) * 17;
        let b = hx_exec(v[lo + 3]) * 17;
        return Some(ThemeColor::Rgb(r, g, b));
    }
    if 8 < n && n <= 11 && range_is(v, lo, lo + 8, "palette:") {
        assert(w.take(8) =~= v@.subrange(lo as int, lo + 8));
        let ghost d = w.skip(8);
        assert(d =~= v@.subrange(lo + 8, hi as int));
        let mut val: u32 = 0;
        let mut i = lo + 8;
        assert(d.take(0) =~= Seq::<char>::empty());
        while i < hi
            invariant
                lo + 8 <= i <= hi <= v@.len(),
                hi - lo <= 11,
                d == v@.subrange(lo + 8, hi as int),
                w == v@.subrange(lo as int, hi as int),
                d == w.skip(8),
                w.take(8) == "palette:"@,
                w != "default"@,
                w != "dim"@,
                8 < w.len() <= 11,
                all_decimal(d.take(i - lo - 8)),
                val == digits_value(d.take(i - lo - 8)),
                i - lo - 8 <= 3,
                val < if i - lo - 8 == 0 {
                    1u32
                } else if i - lo - 8 == 1 {
                    10u32
                } else if i - lo - 8 == 2 {
                    100u32
                } else {
                    1000u32
                },
            decreases hi - i,
        {
            let c = v[i];
            let ghost t = d.take(i - lo - 8 + 1);
            assert(t.drop_last() =~= d.take(i - lo - 8));
            assert(t.last() == c);
            if !('0' <= c && c <= '9') {
                assert(d[i - lo - 8] == v@[i as int]);
                assert(!('0' <= d[i - lo - 8] <= '9'));
                assert(!all_decimal(d));
                return None;
            }
            val = val * 10 + (c as u32 - 48);
            i = i + 1;
        }
        assert(d.take(d.len() as int) =~= d);
        if val <= 255 {
            return Some(ThemeColor::Slot(val as u8));
        }
        return None;
    }
    proof {
        if 8 < n <= 11 {
            assert(w.take(8) =~= v@.subrange(lo as int, lo + 8));
        }
    }
    None
}

/// Applies one line `v[lo..hi]` of a theme file to `colors`.
fn apply_theme_line(colors: &mut ScreenColors, v: &Vec<char>, lo: usize, hi: usize)
    requires
        lo <= hi <= v@.len(),
    ensures
        colors_view(*final(colors)) == theme_line(
            colors_view(*old(colors)),
            v@.subrange(lo as int, hi as int),
        ),
{
    let (a, b) = trim_bounds(v, lo, hi);
    let ghost line = v@.subrange(a as int, b as int);
    if a == b {
        return;
    }
    assert(line[0] == v@[a as int]);
    let e = find_char(v, a, b, '=');
    if v[a] == '#' || e >= b {
        return;
    }
    proof {
        lemma_index_of_bounds(line, '=');
    }
    assert(line.take(e - a) =~= v@.subrange(a as int, e as int));
    assert(line.skip(e - a + 1) =~= v@.subrange(e + 1, b as int));
    let (ka, kb) = trim_bounds(v, a, e);
    let (ra, rb) = trim_bounds(v, e + 1, b);
    let ghost rest = v@.subrange(ra as int, rb as int);
    let mut we = ra;
    while we < rb && !is_whitespace(v[we])
        invariant
            ra <= we <= rb <= v@.len(),
            rest == v@.subrange(ra as int, rb as int),
            forall|j: int| 0 <= j < we - ra ==> !is_ws(#[trigger] rest[j]),
        decreases rb - we,
    {
        assert(rest[we - ra] == v@[we as int]);
        we = we + 1;
    }
    proof {
        if we < rb {
            assert(rest[we - ra] == v@[we as int]);
        }
        lemma_word_end_at(rest, 0, we - ra);
        assert(rest.take(we - ra) =~= v@.subrange(ra as int, we as int));
    }
    match parse_color_exec(v, ra, we) {
        Some(c) => {
            if range_is(v, ka, kb, "header") {
                colors.header = theme_sgr_exec(c);
            } else if range_is(v, ka, kb, "sung") {
                colors.sung = theme_sgr_exec(c);
            } else if range_is(v, ka, kb, "unsung") {
                colors.unsung = theme_sgr_exec(c);
            } else if range_is(v, ka, kb, "paused") {
                colors.paused = theme_sgr_exec(c);
            }
        },
        None => {},
    }
}

/// Applies the theme file `text` to `colors`: each `key = value` line
/// with a known key and a readable value sets that color.
pub fn apply_theme(colors: &mut ScreenColors, text: &str)
    ensures
        colors_view(*final(colors)) == theme_from(colors_view(*old(colors)), text@),
{
    let v = chars_of(text);
    let n = v.len();
    let ghost goal = theme_from(colors_view(*colors), v@);
    assert(v@.skip(0) =~= v@);
    let mut i: usize = 0;
    loop
        invariant_except_break
            i <= n == v@.len(),
            theme_from(colors_view(*colors), v@.skip(i as int)) == goal,
        ensures
            colors_view(*colors) == goal,
        decreases n - i,
    {
        let ghost s = v@.skip(i as int);
        let k = find_char(&v, i, n, '\n');
        assert(v@.subrange(i as int, n as int) =~= s);
        assert(v@.subrange(i as int, k as int) =~= s.take(k - i));
        apply_theme_line(colors, &v, i, k);
        if k >= n {
            assert(s.take(k - i) =~= s);
            break;
        }
        assert(s.skip(k - i + 1) =~= v@.skip(k + 1));
        i = k + 1;
    }
}

} // verus!
