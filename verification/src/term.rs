//! Terminal colors: the RGB colors the terminal reports for its own
//! foreground and background (OSC 10 / OSC 11 replies), and the SGR codes
//! that draw lyrics in them. Querying the terminal is left to the caller.

use vstd::prelude::*;
use crate::text::{
    chars_of, decimal, find_char, find_seq, find_sub, index_of, lemma_index_of_bounds,
    push_decimal, push_str, strip_end, strip_end_bound, trim, trim_bounds,
};

verus! {

/// An RGB color as reported by the terminal.
#[derive(Debug, Clone, Copy, PartialEq, Eq, Structural)]
pub struct Rgb(pub u8, pub u8, pub u8);

/// `ESC [ 38;2;r;g;b m`: the SGR code that sets the foreground to `c`.
pub open spec fn sgr_of(c: Rgb) -> Seq<char> {
    seq!['\x1b', '[', '3', '8', ';', '2', ';'] + decimal(c.0 as nat) + seq![';'] + decimal(
        c.1 as nat,
    ) + seq![';'] + decimal(c.2 as nat) + seq!['m']
}

impl Rgb {
    pub(crate) fn sgr(&self) -> (r: String)
        ensures
            r@ == sgr_of(*self),
    {
        let mut s = String::new();
        push_str(&mut s, "\x1b[38;2;");
        proof {
            reveal_strlit("\x1b[38;2;");
        }
        push_decimal(&mut s, self.0 as u64);
        s.push(';');
        push_decimal(&mut s, self.1 as u64);
        s.push(';');
        push_decimal(&mut s, self.2 as u64);
        s.push('m');
        assert(s@ =~= sgr_of(*self));
        s
    }
}

/// The terminal's theme colors. fg = lyrics, bg = dimmed lyrics. Without
/// a reported foreground (`has_fg` false) the terminal's own default
/// colors are used: SGR 39 for lyrics and SGR 2 (faint) for dimmed text.
#[derive(Debug, Clone, Copy)]
pub struct Palette {
    pub fg: Rgb,
    pub bg: Rgb,
    pub has_bg: bool,
    pub has_fg: bool,
}

/// One channel 55% of the way from `b` to `f` (integer arithmetic).
pub open spec fn mix(f: u8, b: u8) -> nat {
    f as nat * 55 / 100 + b as nat * 45 / 100
}

/// The dimmed color: fg blended 55% toward bg (black without a bg).
pub open spec fn dim_of(p: Palette) -> Rgb {
    let bg = if p.has_bg {
        p.bg
    } else {
        Rgb(0, 0, 0)
    };
    Rgb(mix(p.fg.0, bg.0) as u8, mix(p.fg.1, bg.1) as u8, mix(p.fg.2, bg.2) as u8)
}

fn mix_exec(f: u8, b: u8) -> (r: u8)
    ensures
        r == mix(f, b),
{
    (f as u16 * 55 / 100 + b as u16 * 45 / 100) as u8
}

impl Palette {
    /// Color code (as ANSI string) for the active lyric text: the
    /// foreground, else SGR 39 (the terminal's default foreground).
    pub fn lyric(&self) -> (r: String)
        ensures
            r@ == if self.has_fg {
                sgr_of(self.fg)
            } else {
                "\x1b[39m"@
            },
    {
        if self.has_fg {
            self.fg.sgr()
        } else {
            "\x1b[39m".to_owned()
        }
    }

    /// Dimmed color for the not-yet-sung part: fg blended 55% toward bg,
    /// else SGR 2 (faint).
    pub fn dim(&self) -> (r: String)
        ensures
            r@ == if self.has_fg {
                sgr_of(dim_of(*self))
            } else {
                "\x1b[2m"@
            },
    {
        if !self.has_fg {
            return "\x1b[2m".to_owned();
        }
        let bg = if self.has_bg {
            self.bg
        } else {
            Rgb(0, 0, 0)
        };
        Rgb(mix_exec(self.fg.0, bg.0), mix_exec(self.fg.1, bg.1), mix_exec(self.fg.2, bg.2)).sgr()
    }
}

/// The value of a hexadecimal digit.
pub open spec fn hex_val(c: char) -> Option<nat> {
    if '0' <= c <= '9' {
        Some((c as u32 - 48) as nat)
    } else if 'a' <= c <= 'f' {
        Some((c as u32 - 87) as nat)
    } else if 'A' <= c <= 'F' {
        Some((c as u32 - 55) as nat)
    } else {
        None
    }
}

/// The value of a string of hexadecimal digits, if it is one.
pub open spec fn hex_digits(d: Seq<char>) -> Option<nat>
    decreases d.len(),
{
    if d.len() == 0 {
        Some(0)
    } else {
        match (hex_digits(d.drop_last()), hex_val(d.last())) {
            (Some(v), Some(x)) => Some(v * 16 + x),
            _ => None,
        }
    }
}

/// `u16::from_str_radix(t, 16)` for at most four characters: an optional
/// `+`, then at least one hexadecimal digit.
pub open spec fn hex_num(t: Seq<char>) -> Option<nat> {
    let d = if t.len() > 0 && t[0] == '+' {
        t.drop_first()
    } else {
        t
    };
    if d.len() > 0 {
        hex_digits(d)
    } else {
        None
    }
}

/// One `/`-separated channel of an OSC color reply, scaled to 8 bits:
/// 1 to 4 hex digits, as 4-, 8-, 12- or 16-bit values.
pub open spec fn channel(piece: Seq<char>) -> Option<nat> {
    let t = trim(piece);
    match hex_num(t) {
        Some(v) => if t.len() == 1 {
            Some(v * 17)
        } else if t.len() == 2 {
            Some(v)
        } else if t.len() == 3 {
            Some(v * 255 * 2 / 4095 / 2)
        } else if t.len() == 4 {
            Some((v * 255 * 2 + 65535) / 2 / 65535)
        } else {
            None
        },
        None => None,
    }
}

/// The pieces of `s` between `/` separators (`str::split('/')`).
pub open spec fn slash_pieces(s: Seq<char>) -> Seq<Seq<char>>
    decreases s.len(),
{
    let k = index_of(s, '/');
    if k < s.len() {
        proof {
            lemma_index_of_bounds(s, '/');
        }
        seq![s.take(k)] + slash_pieces(s.skip(k + 1))
    } else {
        seq![s]
    }
}

/// Channel `i` of the reply's pieces: 0 when there are fewer pieces.
pub open spec fn channel_at(ps: Seq<Seq<char>>, i: int) -> Option<nat> {
    if i < ps.len() {
        channel(ps[i])
    } else {
        Some(0)
    }
}

/// A reply such as `10;rgb:1234/5678/9abc` read as an 8-bit RGB color:
/// the text after the first `rgb:`, split at `/`; up to three channels
/// are read, missing ones are 0.
pub open spec fn osc_rgb(reply: Seq<char>) -> Option<Rgb> {
    let k = find_sub(reply, "rgb:"@);
    if k + 4 > reply.len() {
        None
    } else {
        let ps = slash_pieces(reply.skip(k + 4));
        match (channel_at(ps, 0), channel_at(ps, 1), channel_at(ps, 2)) {
            (Some(r), Some(g), Some(b)) => Some(Rgb(r as u8, g as u8, b as u8)),
            _ => None,
        }
    }
}


/// `16^n`.
pub open spec fn pow16(n: nat) -> nat
    decreases n,
{
    if n == 0 {
        1
    } else {
        16 * pow16((n - 1) as nat)
    }
}

proof fn lemma_hex_digits_bound(d: Seq<char>)
    ensures
        hex_digits(d) matches Some(x) ==> x < pow16(d.len()),
    decreases d.len(),
{
    if d.len() > 0 {
        lemma_hex_digits_bound(d.drop_last());
    }
}

/// The hex digit value of `c`.
fn hex_val_exec(c: char) -> (r: Option<u32>)
    ensures
        r matches Some(x) ==> hex_val(c) == Some(x as nat) && x < 16,
        r is None <==> hex_val(c) is None,
{
    if '0' <= c && c <= '9' {
        Some(c as u32 - 48)
    } else if 'a' <= c && c <= 'f' {
        Some(c as u32 - 87)
    } else if 'A' <= c && c <= 'F' {
        Some(c as u32 - 55)
    } else {
        None
    }
}

/// `hex_num(v[a..b])` for at most four characters.
fn hex_num_exec(v: &Vec<char>, a: usize, b: usize) -> (r: Option<u32>)
    requires
        a <= b <= v@.len(),
        b - a <= 4,
    ensures
        r matches Some(x) ==> hex_num(v@.subrange(a as int, b as int)) == Some(x as nat),
        r is None <==> hex_num(v@.subrange(a as int, b as int)) is None,
{
    let ghost t = v@.subrange(a as int, b as int);
    let lo = if a < b && v[a] == '+' {
        a + 1
    } else {
        a
    };
    let ghost d = v@.subrange(lo as int, b as int);
    assert(d =~= if t.len() > 0 && t[0] == '+' { t.drop_first() } else { t });
    if lo == b {
        return None;
    }
    let mut acc: u32 = 0;
    let mut j = lo;
    assert(d.take(0) =~= Seq::<char>::empty());
    assert(hex_num(t) == hex_digits(d));
    while j < b
        invariant
            hex_num(v@.subrange(a as int, b as int)) == hex_digits(d),
            lo <= j <= b <= v@.len(),
            b - lo <= 4,
            d == v@.subrange(lo as int, b as int),
            hex_digits(d.take(j - lo)) == Some(acc as nat),
            acc < pow16((j - lo) as nat),
        decreases b - j,
    {
        assert(d.take(j - lo + 1).drop_last() =~= d.take(j - lo));
        assert(d.take(j - lo + 1).last() == v@[j as int]);
        match hex_val_exec(v[j]) {
            Some(x) => {
                assert(pow16((j - lo) as nat) <= pow16(3)) by {
                    reveal_with_fuel(pow16, 5);
                }
                assert(pow16(3) == 4096) by {
                    reveal_with_fuel(pow16, 5);
                }
                acc = acc * 16 + x;
                j = j + 1;
            },
            None => {
                proof {
                    assert(hex_digits(d.take(j - lo + 1)) is None);
                    lemma_hex_none_prefix(d, j - lo + 1);
                }
                return None;
            },
        }
    }
    assert(d.take(b - lo) =~= d);
    Some(acc)
}

/// A non-hex character makes the whole string non-hex.
proof fn lemma_hex_none_prefix(d: Seq<char>, k: int)
    requires
        0 < k <= d.len(),
        hex_digits(d.take(k)) is None,
    ensures
        hex_digits(d) is None,
    decreases d.len() - k,
{
    if k < d.len() {
        assert(d.take(k + 1).drop_last() =~= d.take(k));
        lemma_hex_none_prefix(d, k + 1);
    } else {
        assert(d.take(k) =~= d);
    }
}

proof fn lemma_scale_bounds(v: nat)
    ensures
        v <= 15 ==> v * 17 <= 255,
        v <= 4095 ==> v * 255 * 2 / 4095 / 2 <= 255,
        v <= 65535 ==> (v * 255 * 2 + 65535) / 2 / 65535 <= 255,
{
    assert(v <= 4095 ==> v * 255 * 2 / 4095 / 2 <= 255) by (nonlinear_arith);
    assert(v <= 65535 ==> (v * 255 * 2 + 65535) / 2 / 65535 <= 255) by (nonlinear_arith);
}

/// Every channel value fits in 8 bits.
pub proof fn lemma_channel_bound(piece: Seq<char>)
    ensures
        channel(piece) matches Some(x) ==> x <= 255,
{
    let t = trim(piece);
    let d = if t.len() > 0 && t[0] == '+' {
        t.drop_first()
    } else {
        t
    };
    lemma_hex_digits_bound(d);
    if let Some(v) = hex_num(t) {
        assert(v < pow16(d.len()));
        assert(pow16(0) == 1 && pow16(1) == 16 && pow16(2) == 256 && pow16(3) == 4096 && pow16(4)
            == 65536) by {
            reveal_with_fuel(pow16, 5);
        }
        lemma_scale_bounds(v);
    }
}

/// `channel(v[lo..hi])`.
fn channel_exec(v: &Vec<char>, lo: usize, hi: usize) -> (r: Option<u8>)
    requires
        lo <= hi <= v@.len(),
    ensures
        r matches Some(x) ==> channel(v@.subrange(lo as int, hi as int)) == Some(x as nat),
        r is None <==> channel(v@.subrange(lo as int, hi as int)) is None,
{
    let (a, b) = trim_bounds(v, lo, hi);
    let len = b - a;
    proof {
        lemma_channel_bound(v@.subrange(lo as int, hi as int));
    }
    if len < 1 || len > 4 {
        return None;
    }
    let h = match hex_num_exec(v, a, b) {
        Some(h) => h,
        None => return None,
    };
    proof {
        let t = v@.subrange(a as int, b as int);
        let d = if t.len() > 0 && t[0] == '+' {
            t.drop_first()
        } else {
            t
        };
        lemma_hex_digits_bound(d);
        assert(pow16(0) == 1 && pow16(1) == 16 && pow16(2) == 256 && pow16(3) == 4096 && pow16(4)
            == 65536) by {
            reveal_with_fuel(pow16, 5);
        }
        lemma_scale_bounds(h as nat);
    }
    let scaled: u32 = if len == 1 {
        h * 17
    } else if len == 2 {
        h
    } else if len == 3 {
        h * 255 * 2 / 4095 / 2
    } else {
        (h * 255 * 2 + 65535) / 2 / 65535
    };
    Some(scaled as u8)
}

/// `osc_rgb(v[lo..hi])`.
fn osc_rgb_range(v: &Vec<char>, lo: usize, hi: usize) -> (r: Option<Rgb>)
    requires
        lo <= hi <= v@.len(),
    ensures
        r == osc_rgb(v@.subrange(lo as int, hi as int)),
{
    let ghost reply = v@.subrange(lo as int, hi as int);
    let pat = ['r', 'g', 'b', ':'];
    proof {
        reveal_strlit("rgb:");
        assert(pat@ =~= "rgb:"@);
    }
    let k = find_seq(v, lo, hi, pat.as_slice());
    if k >= hi {
        return None;
    }
    let ghost kk = k - lo;
    let ghost ps = slash_pieces(reply.skip(kk + 4));
    let mut chans: Vec<u8> = Vec::new();
    let mut start = k + 4;
    let ghost mut done: Seq<Seq<char>> = Seq::empty();
    assert(v@.subrange(start as int, hi as int) =~= reply.skip(kk + 4));
    loop
        invariant_except_break
            k + 4 <= start <= hi <= v@.len(),
            lo <= k,
            kk == k - lo,
            reply == v@.subrange(lo as int, hi as int),
            find_sub(reply, "rgb:"@) == kk,
            ps == slash_pieces(reply.skip(kk + 4)),
            ps == done + slash_pieces(v@.subrange(start as int, hi as int)),
            chans@.len() == done.len() < 3,
            forall|j: int| 0 <= j < done.len() ==> channel(#[trigger] done[j]) == Some(
                chans@[j] as nat,
            ),
        ensures
            reply == v@.subrange(lo as int, hi as int),
            find_sub(reply, "rgb:"@) == kk,
            kk + 4 <= reply.len(),
            ps == slash_pieces(reply.skip(kk + 4)),
            1 <= chans@.len() <= ps.len(),
            chans@.len() == 3 || (chans@.len() == ps.len() < 3),
            forall|j: int| 0 <= j < chans@.len() ==> channel(#[trigger] ps[j]) == Some(
                chans@[j] as nat,
            ),
        decreases hi - start + 3 - chans@.len(),
    {
        let ghost rest = v@.subrange(start as int, hi as int);
        let e = find_char(v, start, hi, '/');
        proof {
            lemma_index_of_bounds(rest, '/');
            assert(rest.take(e - start) =~= v@.subrange(start as int, e as int));
        }
        match channel_exec(v, start, e) {
            Some(x) => chans.push(x),
            None => {
                proof {
                    if e < hi {
                        assert(slash_pieces(rest) == seq![rest.take(e - start)] + slash_pieces(
                            rest.skip(e - start + 1),
                        ));
                    }
                    assert(ps[done.len() as int] == v@.subrange(start as int, e as int));
                    assert(channel_at(ps, done.len() as int) is None);
                    if done.len() == 0 {
                        assert(channel_at(ps, 0) is None);
                    } else if done.len() == 1 {
                        assert(channel_at(ps, 1) is None);
                    } else {
                        assert(channel_at(ps, 2) is None);
                    }
                    assert(osc_rgb(reply) is None);
                }
                return None;
            },
        }
        proof {
            if e < hi {
                assert(rest.skip(e - start + 1) =~= v@.subrange(e + 1, hi as int));
                assert(slash_pieces(rest) == seq![rest.take(e - start)] + slash_pieces(
                    v@.subrange(e + 1, hi as int),
                ));
                done = done.push(v@.subrange(start as int, e as int));
                assert(ps =~= done + slash_pieces(v@.subrange(e + 1, hi as int)));
            } else {
                assert(slash_pieces(rest) == seq![rest]);
                assert(rest =~= v@.subrange(start as int, e as int));
                done = done.push(rest);
                assert(ps =~= done);
            }
        }
        if chans.len() == 3 || e >= hi {
            break;
        }
        start = e + 1;
    }
    let r0 = chans[0];
    let r1 = if chans.len() > 1 { chans[1] } else { 0 };
    let r2 = if chans.len() > 2 { chans[2] } else { 0 };
    proof {
        assert(channel_at(ps, 0) == Some(r0 as nat));
        assert(channel_at(ps, 1) == Some(r1 as nat));
        assert(channel_at(ps, 2) == Some(r2 as nat));
    }
    Some(Rgb(r0, r1, r2))
}

/// Parse "10;rgb:1234/5678/9abc" into an 8-bit RGB.
pub fn parse_osc_rgb(reply: &str) -> (r: Option<Rgb>)
    ensures
        r == osc_rgb(reply@),
{
    let v = chars_of(reply);
    assert(v@.subrange(0, v@.len() as int) =~= reply@);
    osc_rgb_range(&v, 0, v.len())
}

/// The pieces of `s` between occurrences of `p` (`str::split(p)`).
pub open spec fn split_on(s: Seq<char>, p: Seq<char>) -> Seq<Seq<char>>
    decreases s.len(),
{
    let k = find_sub(s, p);
    if p.len() > 0 && 0 <= k && k + p.len() <= s.len() {
        seq![s.take(k)] + split_on(s.skip(k + p.len()), p)
    } else {
        seq![s]
    }
}

/// `s` starts with `p`.
pub open spec fn has_prefix(s: Seq<char>, p: Seq<char>) -> bool {
    p.len() <= s.len() && s.take(p.len() as int) == p
}

/// The first of `parts` that starts with `p`.
pub open spec fn first_with_prefix(parts: Seq<Seq<char>>, p: Seq<char>) -> Option<Seq<char>>
    decreases parts.len(),
{
    if parts.len() == 0 {
        None
    } else if has_prefix(parts[0], p) {
        Some(parts[0])
    } else {
        first_with_prefix(parts.drop_first(), p)
    }
}

/// An OSC answer without its terminator: trailing BEL characters, then
/// trailing backslashes, then the ESC of an `ESC \` string terminator.
pub open spec fn osc_answer(part: Seq<char>) -> Seq<char> {
    strip_end(strip_end(strip_end(part, '\x07'), '\\'), '\x1b')
}

/// The color the terminal reported for the OSC query `key` (`10;` for
/// the foreground, `11;` for the background): the first reply, between
/// `ESC ]` introducers, that starts with `key`, read as an RGB color.
pub open spec fn reply_color(text: Seq<char>, key: Seq<char>) -> Option<Rgb> {
    match first_with_prefix(split_on(text, seq!['\x1b', ']']), key) {
        Some(part) => osc_rgb(osc_answer(part)),
        None => None,
    }
}

/// The palette read from the terminal's replies: its foreground and, if
/// reported, its background; the terminal's default colors (no `fg`) when
/// no foreground came back.
pub open spec fn palette_of(text: Seq<char>) -> Palette {
    match (reply_color(text, "10;"@), reply_color(text, "11;"@)) {
        (Some(fg), bg) => Palette {
            fg,
            bg: match bg {
                Some(b) => b,
                None => Rgb(0, 0, 0),
            },
            has_bg: bg is Some,
            has_fg: true,
        },
        _ => Palette { fg: Rgb(255, 255, 255), bg: Rgb(0, 0, 0), has_bg: false, has_fg: false },
    }
}


/// Whether `v[lo..hi]` starts with `p`.
fn has_prefix_at(v: &Vec<char>, lo: usize, hi: usize, p: &[char]) -> (r: bool)
    requires
        lo <= hi <= v@.len(),
    ensures
        r == has_prefix(v@.subrange(lo as int, hi as int), p@),
{
    let ghost s = v@.subrange(lo as int, hi as int);
    if p.len() > hi - lo {
        return false;
    }
    let mut k: usize = 0;
    while k < p.len()
        invariant
            lo <= hi <= v@.len(),
            p@.len() <= hi - lo,
            k <= p@.len(),
            s == v@.subrange(lo as int, hi as int),
            forall|j: int| 0 <= j < k ==> v@[lo + j] == p@[j],
        decreases p@.len() - k,
    {
        if v[lo + k] != p[k] {
            assert(s.take(p@.len() as int)[k as int] != p@[k as int]);
            return false;
        }
        k = k + 1;
    }
    assert(s.take(p@.len() as int) =~= p@);
    true
}

/// `reply_color(v, key)`.
fn reply_color_exec(v: &Vec<char>, key: &[char]) -> (r: Option<Rgb>)
    ensures
        r == reply_color(v@, key@),
{
    let n = v.len();
    let delim = ['\x1b', ']'];
    assert(delim@ =~= seq!['\x1b', ']']);
    let ghost goal = first_with_prefix(split_on(v@, seq!['\x1b', ']']), key@);
    let mut start: usize = 0;
    assert(v@.subrange(0, n as int) =~= v@);
    loop
        invariant
            start <= n == v@.len(),
            delim@ == seq!['\x1b', ']'],
            goal == first_with_prefix(split_on(v@, seq!['\x1b', ']']), key@),
            goal == first_with_prefix(
                split_on(v@.subrange(start as int, n as int), seq!['\x1b', ']']),
                key@,
            ),
        decreases n - start,
    {
        let ghost sub = v@.subrange(start as int, n as int);
        let e = find_seq(v, start, n, delim.as_slice());
        let ghost parts = split_on(sub, seq!['\x1b', ']']);
        proof {
            if e < n {
                assert(sub.skip(e - start + 2) =~= v@.subrange(e + 2, n as int));
                assert(parts == seq![sub.take(e - start)] + split_on(
                    v@.subrange(e + 2, n as int),
                    seq!['\x1b', ']'],
                ));
            } else {
                assert(parts == seq![sub]);
            }
            assert(parts[0] =~= v@.subrange(start as int, e as int));
        }
        if has_prefix_at(v, start, e, key) {
            let a = strip_end_bound(v, start, e, '\x07');
            let b = strip_end_bound(v, start, a, '\\');
            let c = strip_end_bound(v, start, b, '\x1b');
            return osc_rgb_range(v, start, c);
        }
        if e >= n {
            assert(parts.drop_first() =~= Seq::<Seq<char>>::empty());
            assert(first_with_prefix(parts.drop_first(), key@) is None);
            return None;
        }
        assert(parts.drop_first() =~= split_on(v@.subrange(e + 2, n as int), seq!['\x1b', ']']));
        start = e + 2;
    }
}

/// The palette read from the terminal's replies to the OSC 10 / OSC 11
/// queries: the foreground and, if reported, the background; the
/// terminal's default colors when no foreground came back.
pub fn palette_from_replies(text: &str) -> (p: Palette)
    ensures
        p == palette_of(text@),
{
    let v = chars_of(text);
    let k10 = ['1', '0', ';'];
    let k11 = ['1', '1', ';'];
    proof {
        reveal_strlit("10;");
        reveal_strlit("11;");
        assert(k10@ =~= "10;"@);
        assert(k11@ =~= "11;"@);
    }
    let fg = reply_color_exec(&v, k10.as_slice());
    let bg = reply_color_exec(&v, k11.as_slice());
    match fg {
        Some(fg) => Palette {
            fg,
            bg: match bg {
                Some(b) => b,
                None => Rgb(0, 0, 0),
            },
            has_bg: bg.is_some(),
            has_fg: true,
        },
        None => Palette { fg: Rgb(255, 255, 255), bg: Rgb(0, 0, 0), has_bg: false, has_fg: false },
    }
}

} // verus!
