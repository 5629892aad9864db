//! Finding lyrics on lrclib.net: the searches to try for a track (with
//! cleaned-up titles and URL-encoded parameters), reading lrclib's JSON
//! replies, and where lyrics are cached. HTTP and the disk are left to
//! the caller.

use vstd::prelude::*;
use crate::lrc::{Lyrics, lrc, parse_lrc};
use crate::player::{TrackInfo, cache_key_of};
use crate::text::{
    decimal, push_decimal,
    alnum_of, char_is_alphanumeric, char_utf8_len, chars_of, find_seq, find_sub, lemma_utf8_len_take, lower_text, occurs_at, ascii_lower, is_ascii_seq, push_range,
    push_str, str_to_lowercase, string_of, string_of_range, trim, trim_bounds, utf8_len, is_ws,
    trim_start, trim_end,
};

verus! {

/// The uppercase hexadecimal digit for `d < 16`.
pub open spec fn hex_upper(d: nat) -> char {
    if d < 10 {
        (48 + d) as char
    } else {
        (55 + d) as char
    }
}

/// An unreserved URL byte: ASCII letters, digits, `-`, `_`, `.`, `~`.
pub open spec fn is_unreserved(b: u8) -> bool {
    ||| 65 <= b <= 90
    ||| 97 <= b <= 122
    ||| 48 <= b <= 57
    ||| b == 45
    ||| b == 95
    ||| b == 46
    ||| b == 126
}

/// One byte of a URL component: itself if unreserved, `%20` for a space,
/// `%XX` (uppercase hex) otherwise.
pub open spec fn encode_byte(b: u8) -> Seq<char> {
    if is_unreserved(b) {
        seq![b as char]
    } else if b == 32 {
        seq!['%', '2', '0']
    } else {
        seq!['%', hex_upper(b as nat / 16), hex_upper(b as nat % 16)]
    }
}

/// The percent-encoding of `bytes`.
pub open spec fn url_encoded(bytes: Seq<u8>) -> Seq<char>
    decreases bytes.len(),
{
    if bytes.len() == 0 {
        Seq::empty()
    } else {
        url_encoded(bytes.drop_last()) + encode_byte(bytes.last())
    }
}

/// The value of an uppercase hexadecimal digit (0 for anything else).
pub open spec fn hex_value(c: char) -> nat {
    if '0' <= c <= '9' {
        (c as u32 - 48) as nat
    } else if 'A' <= c <= 'F' {
        (c as u32 - 55) as nat
    } else {
        0
    }
}

/// Percent-decoding: `%XY` is the byte `0xXY`, any other character the
/// byte of its code.
pub open spec fn url_decoded(s: Seq<char>) -> Seq<u8>
    decreases s.len(),
{
    if s.len() == 0 {
        Seq::empty()
    } else if s[0] == '%' && s.len() >= 3 {
        seq![(hex_value(s[1]) * 16 + hex_value(s[2])) as u8] + url_decoded(s.skip(3))
    } else {
        seq![s[0] as u8] + url_decoded(s.skip(1))
    }
}

proof fn lemma_hex_roundtrip(d: nat)
    requires
        d < 16,
    ensures
        hex_value(hex_upper(d)) == d,
{
}

proof fn lemma_encoded_front(x: u8, b: Seq<u8>)
    ensures
        url_encoded(seq![x] + b) == encode_byte(x) + url_encoded(b),
    decreases b.len(),
{
    if b.len() == 0 {
        assert(seq![x] + b =~= seq![x]);
        assert(seq![x].drop_last() =~= Seq::<u8>::empty());
        assert(url_encoded(seq![x]) =~= url_encoded(Seq::<u8>::empty()) + encode_byte(x));
        assert(encode_byte(x) + url_encoded(b) =~= encode_byte(x));
    } else {
        assert((seq![x] + b).drop_last() =~= seq![x] + b.drop_last());
        assert((seq![x] + b).last() == b.last());
        lemma_encoded_front(x, b.drop_last());
        assert(url_encoded(seq![x] + b) =~= encode_byte(x) + url_encoded(b));
    }
}

proof fn lemma_decode_byte(x: u8, rest: Seq<char>)
    ensures
        url_decoded(encode_byte(x) + rest) == seq![x] + url_decoded(rest),
{
    let e = encode_byte(x) + rest;
    if is_unreserved(x) {
        assert(e.skip(1) =~= rest);
        assert((x as char) as u8 == x);
    } else if x == 32 {
        assert(e.skip(3) =~= rest);
    } else {
        assert(e.skip(3) =~= rest);
        lemma_hex_roundtrip(x as nat / 16);
        lemma_hex_roundtrip(x as nat % 16);
        assert(e[1] == hex_upper(x as nat / 16));
        assert(e[2] == hex_upper(x as nat % 16));
    }
}

/// A character that may stand in an encoded URL component: an RFC 3986
/// unreserved character (`A`-`Z`, `a`-`z`, `0`-`9`, `-`, `_`, `.`, `~`)
/// or the `%` of an escape.
pub open spec fn url_safe(c: char) -> bool {
    ||| 'A' <= c <= 'Z'
    ||| 'a' <= c <= 'z'
    ||| '0' <= c <= '9'
    ||| c == '-'
    ||| c == '_'
    ||| c == '.'
    ||| c == '~'
    ||| c == '%'
}

/// A byte is kept as itself exactly when it is an RFC 3986 unreserved
/// character; every other byte becomes a three-character `%XX` escape.
/// Either way only URL-safe characters come out.
pub proof fn lemma_url_encode_byte(b: u8)
    ensures
        (encode_byte(b) == seq![b as char]) <==> (65 <= b <= 90 || 97 <= b <= 122 || 48 <= b <= 57
            || b == 45 || b == 95 || b == 46 || b == 126),
        encode_byte(b).len() == 1 || (encode_byte(b).len() == 3 && encode_byte(b)[0] == '%'),
        forall|i: int| 0 <= i < encode_byte(b).len() ==> url_safe(#[trigger] encode_byte(b)[i]),
{
    let e = encode_byte(b);
    if !is_unreserved(b) && b != 32 {
        let d1 = b as nat / 16;
        let d2 = b as nat % 16;
        assert(e[1] == hex_upper(d1) && e[2] == hex_upper(d2));
    }
    if e == seq![b as char] {
        assert(e.len() == 1);
    }
}

/// An encoded URL component holds only URL-safe characters: nothing that
/// would end the component or the query (`#`, `&`, `?`, `=`, space, ...).
pub proof fn lemma_url_encoded_safe(bytes: Seq<u8>)
    ensures
        forall|i: int| 0 <= i < url_encoded(bytes).len() ==> url_safe(#[trigger] url_encoded(bytes)[i]),
    decreases bytes.len(),
{
    if bytes.len() > 0 {
        lemma_url_encoded_safe(bytes.drop_last());
        lemma_url_encode_byte(bytes.last());
        let a = url_encoded(bytes.drop_last());
        let e = encode_byte(bytes.last());
        assert forall|i: int| 0 <= i < url_encoded(bytes).len() implies url_safe(
            #[trigger] url_encoded(bytes)[i],
        ) by {
            if i < a.len() {
                assert(url_encoded(bytes)[i] == a[i]);
            } else {
                assert(url_encoded(bytes)[i] == e[i - a.len()]);
            }
        }
    }
}

/// URL encoding loses nothing: percent-decoding gives back the bytes.
pub proof fn lemma_url_roundtrip(bytes: Seq<u8>)
    ensures
        url_decoded(url_encoded(bytes)) == bytes,
    decreases bytes.len(),
{
    if bytes.len() > 0 {
        let rest = bytes.drop_first();
        assert(bytes =~= seq![bytes[0]] + rest);
        lemma_encoded_front(bytes[0], rest);
        lemma_decode_byte(bytes[0], url_encoded(rest));
        lemma_url_roundtrip(rest);
    }
}

fn hex_digit_upper(d: u8) -> (c: char)
    requires
        d < 16,
    ensures
        c == hex_upper(d as nat),
{
    if d < 10 {
        (48 + d) as char
    } else {
        (55 + d) as char
    }
}

/// Appends the URL encoding of `s` (its UTF-8 bytes) to `out`.
fn push_url_encoded(out: &mut String, s: &str)
    ensures
        final(out)@ == old(out)@ + url_encoded(vstd::utf8::encode_utf8(s@)),
{
    let bytes = s.as_bytes();
    let mut i: usize = 0;
    assert(bytes@.take(0) =~= Seq::<u8>::empty());
    while i < bytes.len()
        invariant
            i <= bytes@.len(),
            bytes@ == vstd::utf8::encode_utf8(s@),
            out@ == old(out)@ + url_encoded(bytes@.take(i as int)),
        decreases bytes@.len() - i,
    {
        let b = bytes[i];
        let ghost before = out@;
        if (65 <= b && b <= 90) || (97 <= b && b <= 122) || (48 <= b && b <= 57) || b == 45 || b
            == 95 || b == 46 || b == 126 {
            out.push(b as char);
        } else if b == 32 {
            out.push('%');
            out.push('2');
            out.push('0');
        } else {
            out.push('%');
            out.push(hex_digit_upper(b / 16));
            out.push(hex_digit_upper(b % 16));
        }
        assert(out@ =~= before + encode_byte(b));
        assert(bytes@.take(i + 1).drop_last() =~= bytes@.take(i as int));
        i = i + 1;
    }
    assert(bytes@.take(bytes@.len() as int) =~= bytes@);
}

/// Percent-encodes `s` for a URL query: everything but unreserved URL
/// characters is encoded byte by byte (its UTF-8 bytes).
pub fn url_encode(s: &str) -> (r: String)
    ensures
        r@ == url_encoded(vstd::utf8::encode_utf8(s@)),
{
    let mut out = String::new();
    push_url_encoded(&mut out, s);
    out
}


/// Title noise, matched in any case: "(Official Video)", "- Remastered" and the like.
pub open spec fn noise_patterns() -> Seq<&'static str> {
    seq![
        "(Official Video)",
        "(Official Music Video)",
        "(Official Audio)",
        "(Official Lyric Video)",
        "(Lyric Video)",
        "(Music Video)",
        "(Official Visualizer)",
        "(Visualizer)",
        "(Audio)",
        "(Video)",
        "- Remastered",
        "- Radio Edit",
        "- Single Version",
        "- Album Version",
        "- Extended Version",
        "- Nightcore",
        "- Slowed",
        "- Slowed Down",
        "- Sped Up",
    ]
}

/// Where a featuring credit starts, matched against the lowercased title.
pub open spec fn feat_markers() -> Seq<&'static str> {
    seq![" (feat.", " (ft.", " [feat.", " (with "]
}

/// `String::truncate(pos)` at byte `pos`: unchanged when `pos` is at or
/// past the end, cut at `pos` when it is a character boundary, `None`
/// where the standard library panics (inside a character).
pub open spec fn truncate_at(s: Seq<char>, pos: nat) -> Option<Seq<char>> {
    if pos >= utf8_len(s) {
        Some(s)
    } else if exists|j: int| 0 <= j <= s.len() && utf8_len(s.take(j)) == pos {
        Some(s.take(choose|j: int| 0 <= j <= s.len() && utf8_len(s.take(j)) == pos))
    } else {
        None
    }
}

/// Byte position in `lower` of the first occurrence of `p`, if any.
pub open spec fn match_byte_pos(lower: Seq<char>, p: Seq<char>) -> Option<nat> {
    let k = find_sub(lower, p);
    if 0 <= k && k + p.len() <= lower.len() {
        Some(utf8_len(lower.take(k)))
    } else {
        None
    }
}

/// `s` without its trailing run of `-`, space and `)`.
pub open spec fn strip_noise_end(s: Seq<char>) -> Seq<char>
    decreases s.len(),
{
    if s.len() > 0 && (s.last() == '-' || s.last() == ' ' || s.last() == ')') {
        strip_noise_end(s.drop_last())
    } else {
        s
    }
}

/// One noise pattern: where the lowercased pattern occurs in the
/// lowercased title, the title is cut at that byte position and its
/// trailing `-`, space and `)` are dropped. `None` where the cut would
/// fall inside a character.
pub open spec fn noise_step(title: Seq<char>, pat: Seq<char>) -> Option<Seq<char>> {
    match match_byte_pos(lower_text(title), lower_text(pat)) {
        Some(pos) => match truncate_at(title, pos) {
            Some(t) => Some(strip_noise_end(t)),
            None => None,
        },
        None => Some(title),
    }
}

/// One featuring marker: the title is cut where the marker occurs in the
/// lowercased title. `None` where the cut would fall inside a character.
pub open spec fn marker_step(title: Seq<char>, marker: Seq<char>) -> Option<Seq<char>> {
    match match_byte_pos(lower_text(title), marker) {
        Some(pos) => truncate_at(title, pos),
        None => Some(title),
    }
}

/// The noise patterns `pats` applied in order.
pub open spec fn noise_fold(title: Seq<char>, pats: Seq<&'static str>) -> Option<Seq<char>>
    decreases pats.len(),
{
    if pats.len() == 0 {
        Some(title)
    } else {
        match noise_fold(title, pats.drop_last()) {
            Some(t) => noise_step(t, pats.last()@),
            None => None,
        }
    }
}

/// The featuring markers `ms` applied in order.
pub open spec fn marker_fold(title: Seq<char>, ms: Seq<&'static str>) -> Option<Seq<char>>
    decreases ms.len(),
{
    if ms.len() == 0 {
        Some(title)
    } else {
        match marker_fold(title, ms.drop_last()) {
            Some(t) => marker_step(t, ms.last()@),
            None => None,
        }
    }
}

/// The cleaned title: noise removed, featuring credits cut, trimmed.
/// `None` where cleaning would cut inside a character (the standard
/// library panics there).
pub open spec fn cleaned_title(raw: Seq<char>) -> Option<Seq<char>> {
    match noise_fold(raw, noise_patterns()) {
        Some(t) => match marker_fold(t, feat_markers()) {
            Some(u) => Some(trim(u)),
            None => None,
        },
        None => None,
    }
}

/// `t` is a prefix of `s`.
pub open spec fn is_prefix_of(t: Seq<char>, s: Seq<char>) -> bool {
    t.len() <= s.len() && t == s.take(t.len() as int)
}

proof fn lemma_prefix_trans(u: Seq<char>, t: Seq<char>, s: Seq<char>)
    requires
        is_prefix_of(u, t),
        is_prefix_of(t, s),
    ensures
        is_prefix_of(u, s),
{
    assert(u =~= s.take(u.len() as int));
}

proof fn lemma_strip_noise_prefix(s: Seq<char>)
    ensures
        is_prefix_of(strip_noise_end(s), s),
    decreases s.len(),
{
    if s.len() > 0 && (s.last() == '-' || s.last() == ' ' || s.last() == ')') {
        lemma_strip_noise_prefix(s.drop_last());
        lemma_prefix_trans(strip_noise_end(s.drop_last()), s.drop_last(), s);
    } else {
        assert(s =~= s.take(s.len() as int));
    }
}

proof fn lemma_truncate_prefix(s: Seq<char>, pos: nat)
    ensures
        truncate_at(s, pos) matches Some(t) ==> is_prefix_of(t, s),
{
    assert(s =~= s.take(s.len() as int));
}

proof fn lemma_noise_fold_prefix(title: Seq<char>, pats: Seq<&'static str>)
    ensures
        noise_fold(title, pats) matches Some(t) ==> is_prefix_of(t, title),
    decreases pats.len(),
{
    if pats.len() == 0 {
        assert(title =~= title.take(title.len() as int));
    } else {
        lemma_noise_fold_prefix(title, pats.drop_last());
        if let Some(t) = noise_fold(title, pats.drop_last()) {
            let pat = pats.last()@;
            if let Some(pos) = match_byte_pos(lower_text(t), lower_text(pat)) {
                lemma_truncate_prefix(t, pos);
                if let Some(u) = truncate_at(t, pos) {
                    lemma_strip_noise_prefix(u);
                    lemma_prefix_trans(strip_noise_end(u), u, t);
                    lemma_prefix_trans(strip_noise_end(u), t, title);
                }
            }
        }
    }
}

proof fn lemma_marker_fold_prefix(title: Seq<char>, ms: Seq<&'static str>)
    ensures
        marker_fold(title, ms) matches Some(t) ==> is_prefix_of(t, title),
    decreases ms.len(),
{
    if ms.len() == 0 {
        assert(title =~= title.take(title.len() as int));
    } else {
        lemma_marker_fold_prefix(title, ms.drop_last());
        if let Some(t) = marker_fold(title, ms.drop_last()) {
            if let Some(pos) = match_byte_pos(lower_text(t), ms.last()@) {
                lemma_truncate_prefix(t, pos);
                if let Some(u) = truncate_at(t, pos) {
                    lemma_prefix_trans(u, t, title);
                }
            }
        }
    }
}

proof fn lemma_trim_start_shape(s: Seq<char>)
    ensures
        trim_start(s).len() <= s.len(),
        trim_start(s) == s.skip(s.len() - trim_start(s).len()),
        trim_start(s).len() == 0 || !is_ws(trim_start(s)[0]),
    decreases s.len(),
{
    if s.len() > 0 && is_ws(s[0]) {
        lemma_trim_start_shape(s.drop_first());
        assert(s.drop_first().skip(s.drop_first().len() - trim_start(s).len()) =~= s.skip(
            s.len() - trim_start(s).len(),
        ));
    } else {
        assert(s.skip(0) =~= s);
    }
}

proof fn lemma_trim_end_shape(s: Seq<char>)
    ensures
        is_prefix_of(trim_end(s), s),
        trim_end(s).len() == 0 || !is_ws(trim_end(s).last()),
    decreases s.len(),
{
    if s.len() > 0 && is_ws(s.last()) {
        lemma_trim_end_shape(s.drop_last());
        lemma_prefix_trans(trim_end(s.drop_last()), s.drop_last(), s);
    } else {
        assert(s =~= s.take(s.len() as int));
    }
}

/// The cleaned title lies inside the raw title and is trimmed: it is the
/// raw title's characters from some position `a` to some position `b`,
/// and it neither starts nor ends with whitespace.
pub proof fn lemma_clean_title_inside(raw: Seq<char>)
    ensures
        cleaned_title(raw) matches Some(c) ==> {
            &&& exists|a: int, b: int| 0 <= a <= b <= raw.len() && c == raw.subrange(a, b)
            &&& c.len() == 0 || (!is_ws(c[0]) && !is_ws(c.last()))
        },
{
    lemma_noise_fold_prefix(raw, noise_patterns());
    if let Some(t) = noise_fold(raw, noise_patterns()) {
        lemma_marker_fold_prefix(t, feat_markers());
        if let Some(u) = marker_fold(t, feat_markers()) {
            lemma_prefix_trans(u, t, raw);
            let ts = trim_start(u);
            lemma_trim_start_shape(u);
            lemma_trim_end_shape(ts);
            let c = trim_end(ts);
            let a = u.len() - ts.len();
            let b = a + c.len();
            assert(c =~= raw.subrange(a, b));
            if c.len() > 0 {
                assert(c[0] == ts[0]);
            }
        }
    }
}

/// `p` occurs somewhere in `s`.
pub open spec fn contains_sub(s: Seq<char>, p: Seq<char>) -> bool {
    exists|j: int| occurs_at(s, p, j)
}

/// `find_sub` finds the first occurrence, and none when it ends past `s`.
proof fn lemma_find_sub_first(s: Seq<char>, p: Seq<char>)
    requires
        p.len() > 0,
    ensures
        0 <= find_sub(s, p) <= s.len(),
        forall|j: int| 0 <= j < find_sub(s, p) ==> !#[trigger] occurs_at(s, p, j),
        find_sub(s, p) + p.len() <= s.len() ==> occurs_at(s, p, find_sub(s, p)),
        find_sub(s, p) + p.len() > s.len() ==> !contains_sub(s, p),
    decreases s.len(),
{
    if s.len() == 0 || s.len() < p.len() {
        assert forall|j: int| !occurs_at(s, p, j) by {}
    } else if s.take(p.len() as int) == p {
        assert(s.subrange(0, p.len() as int) =~= s.take(p.len() as int));
    } else {
        assert(s.subrange(0, p.len() as int) =~= s.take(p.len() as int));
        let t = s.drop_first();
        lemma_find_sub_first(t, p);
        assert forall|j: int| 0 <= j < find_sub(s, p) implies !#[trigger] occurs_at(s, p, j) by {
            if j > 0 && occurs_at(s, p, j) {
                assert(s.subrange(j, j + p.len()) =~= t.subrange(j - 1, j - 1 + p.len()));
                assert(occurs_at(t, p, j - 1));
            }
        }
        let k = find_sub(s, p);
        if k + p.len() <= s.len() {
            assert(s.subrange(k, k + p.len()) =~= t.subrange(k - 1, k - 1 + p.len()));
        } else {
            assert forall|j: int| !occurs_at(s, p, j) by {
                if occurs_at(s, p, j) && j > 0 {
                    assert(s.subrange(j, j + p.len()) =~= t.subrange(j - 1, j - 1 + p.len()));
                    assert(occurs_at(t, p, j - 1));
                }
            }
        }
    }
}

/// An occurrence in a part of `s` is an occurrence in `s`.
proof fn lemma_occurs_in_sub(s: Seq<char>, p: Seq<char>, a: int, b: int, j: int)
    requires
        0 <= a <= b <= s.len(),
        occurs_at(s.subrange(a, b), p, j),
    ensures
        occurs_at(s, p, a + j),
{
    assert(s.subrange(a + j, a + j + p.len()) =~= s.subrange(a, b).subrange(j, j + p.len()));
}

/// ASCII text has one byte per character.
proof fn lemma_ascii_utf8_len(s: Seq<char>)
    requires
        is_ascii_seq(s),
    ensures
        utf8_len(s) == s.len(),
    decreases s.len(),
{
    if s.len() > 0 {
        assert(is_ascii_seq(s.drop_first()));
        lemma_ascii_utf8_len(s.drop_first());
        assert((s[0] as u32) < 0x80);
    }
}

/// Lowercasing ASCII text commutes with taking a part of it.
proof fn lemma_lower_sub(s: Seq<char>, a: int, b: int)
    requires
        is_ascii_seq(s),
        0 <= a <= b <= s.len(),
    ensures
        is_ascii_seq(s.subrange(a, b)),
        lower_text(s.subrange(a, b)) == lower_text(s).subrange(a, b),
        is_ascii_seq(lower_text(s)),
        lower_text(s).len() == s.len(),
{
    assert(is_ascii_seq(s.subrange(a, b)));
    assert(lower_text(s.subrange(a, b)) =~= lower_text(s).subrange(a, b));
    assert forall|i: int| 0 <= i < lower_text(s).len() implies (#[trigger] lower_text(s)[i] as u32)
        < 0x80 by {
        let c = s[i];
        assert((c as u32) < 0x80);
        if 'A' <= c <= 'Z' {
            assert(65 <= (c as u32) <= 90);
        }
    }
}

/// On ASCII text the byte cut is the character cut.
proof fn lemma_ascii_truncate(t: Seq<char>, k: nat)
    requires
        is_ascii_seq(t),
        k <= t.len(),
    ensures
        truncate_at(t, k) == Some(t.take(k as int)),
{
    lemma_ascii_utf8_len(t);
    if k < t.len() {
        lemma_lower_sub(t, 0, k as int);
        assert(t.subrange(0, k as int) =~= t.take(k as int));
        lemma_ascii_utf8_len(t.take(k as int));
        let j = choose|j: int| 0 <= j <= t.len() && utf8_len(t.take(j)) == k;
        lemma_lower_sub(t, 0, j);
        assert(t.subrange(0, j) =~= t.take(j));
        lemma_ascii_utf8_len(t.take(j));
    } else {
        assert(t.take(k as int) =~= t);
    }
}

/// Where the pattern occurs, its byte position in ASCII text is its index.
proof fn lemma_ascii_match(t: Seq<char>, p: Seq<char>)
    requires
        is_ascii_seq(t),
        p.len() > 0,
    ensures
        match_byte_pos(lower_text(t), p) == if find_sub(lower_text(t), p) + p.len() <= t.len() {
            Some(find_sub(lower_text(t), p) as nat)
        } else {
            None
        },
        find_sub(lower_text(t), p) + p.len() > t.len() ==> !contains_sub(lower_text(t), p),
        forall|j: int| 0 <= j < find_sub(lower_text(t), p) ==> !#[trigger] occurs_at(
            lower_text(t),
            p,
            j,
        ),
        0 <= find_sub(lower_text(t), p) <= t.len(),
{
    let l = lower_text(t);
    lemma_lower_sub(t, 0, t.len() as int);
    lemma_find_sub_first(l, p);
    let k = find_sub(l, p);
    if k + p.len() <= l.len() {
        lemma_lower_sub(l, 0, k);
        assert(l.subrange(0, k) =~= l.take(k));
        lemma_ascii_utf8_len(l.take(k));
    }
}

/// A prefix of text with no occurrence of `p` (once lowercased) has none.
proof fn lemma_prefix_keeps_absent(t: Seq<char>, r: Seq<char>, p: Seq<char>)
    requires
        is_ascii_seq(t),
        is_prefix_of(r, t),
        !contains_sub(lower_text(t), p),
    ensures
        is_ascii_seq(r),
        !contains_sub(lower_text(r), p),
{
    lemma_lower_sub(t, 0, r.len() as int);
    assert(t.subrange(0, r.len() as int) =~= r);
    if contains_sub(lower_text(r), p) {
        let j = choose|j: int| occurs_at(lower_text(r), p, j);
        lemma_occurs_in_sub(lower_text(t), p, 0, r.len() as int, j);
    }
}

/// One noise or marker cut on ASCII text: a prefix, without the pattern.
proof fn lemma_cut_step(t: Seq<char>, p: Seq<char>, noise: bool)
    requires
        is_ascii_seq(t),
        p.len() > 0,
    ensures
        ({
            let r = match match_byte_pos(lower_text(t), p) {
                Some(pos) => match truncate_at(t, pos) {
                    Some(u) => Some(if noise { strip_noise_end(u) } else { u }),
                    None => None,
                },
                None => Some(t),
            };
            r matches Some(x) && is_prefix_of(x, t) && is_ascii_seq(x) && !contains_sub(
                lower_text(x),
                p,
            )
        }),
{
    lemma_ascii_match(t, p);
    let l = lower_text(t);
    let k = find_sub(l, p);
    if k + p.len() <= t.len() {
        lemma_ascii_truncate(t, k as nat);
        let u = t.take(k);
        assert(is_prefix_of(u, t));
        let x = if noise { strip_noise_end(u) } else { u };
        if noise {
            lemma_strip_noise_prefix(u);
            lemma_prefix_trans(x, u, t);
        }
        lemma_lower_sub(t, 0, x.len() as int);
        assert(t.subrange(0, x.len() as int) =~= x);
        if contains_sub(lower_text(x), p) {
            let j = choose|j: int| occurs_at(lower_text(x), p, j);
            lemma_occurs_in_sub(l, p, 0, x.len() as int, j);
            assert(j < k);
        }
    } else {
        assert(t =~= t.take(t.len() as int));
    }
}

/// The noise patterns, applied to ASCII text: the result is there, a
/// prefix, and none of the patterns occurs in it.
proof fn lemma_noise_fold_ascii(title: Seq<char>, pats: Seq<&'static str>)
    requires
        is_ascii_seq(title),
        forall|k: int| 0 <= k < pats.len() ==> lower_text(#[trigger] pats[k]@).len() > 0,
    ensures
        noise_fold(title, pats) matches Some(t) && is_prefix_of(t, title) && is_ascii_seq(t) && (
        forall|k: int|
            0 <= k < pats.len() ==> !contains_sub(lower_text(t), lower_text(#[trigger] pats[k]@))),
    decreases pats.len(),
{
    if pats.len() == 0 {
        assert(title =~= title.take(title.len() as int));
    } else {
        let d = pats.drop_last();
        assert forall|k: int| 0 <= k < d.len() implies lower_text(#[trigger] d[k]@).len() > 0 by {
            assert(d[k] == pats[k]);
        }
        lemma_noise_fold_ascii(title, d);
        let t0 = noise_fold(title, d).unwrap();
        let lp = lower_text(pats.last()@);
        assert(lower_text(pats[pats.len() - 1]@).len() > 0);
        lemma_cut_step(t0, lp, true);
        let t = noise_fold(title, pats).unwrap();
        lemma_prefix_trans(t, t0, title);
        assert forall|k: int| 0 <= k < pats.len() implies !contains_sub(
            lower_text(t),
            lower_text(#[trigger] pats[k]@),
        ) by {
            if k < d.len() {
                assert(d[k] == pats[k]);
                lemma_prefix_keeps_absent(t0, t, lower_text(pats[k]@));
            }
        }
    }
}

/// The featuring markers, applied to ASCII text without any noise
/// pattern: the result is there, a prefix, and neither markers nor noise
/// patterns occur in it.
proof fn lemma_marker_fold_ascii(title: Seq<char>, ms: Seq<&'static str>, pats: Seq<&'static str>)
    requires
        is_ascii_seq(title),
        forall|k: int| 0 <= k < ms.len() ==> (#[trigger] ms[k]@).len() > 0,
        forall|k: int|
            0 <= k < pats.len() ==> !contains_sub(lower_text(title), lower_text(#[trigger] pats[k]@)),
    ensures
        marker_fold(title, ms) matches Some(t) && is_prefix_of(t, title) && is_ascii_seq(t) && (
        forall|k: int| 0 <= k < ms.len() ==> !contains_sub(lower_text(t), #[trigger] ms[k]@)) && (
        forall|k: int|
            0 <= k < pats.len() ==> !contains_sub(lower_text(t), lower_text(#[trigger] pats[k]@))),
    decreases ms.len(),
{
    if ms.len() == 0 {
        assert(title =~= title.take(title.len() as int));
    } else {
        let d = ms.drop_last();
        assert forall|k: int| 0 <= k < d.len() implies (#[trigger] d[k]@).len() > 0 by {
            assert(d[k] == ms[k]);
        }
        lemma_marker_fold_ascii(title, d, pats);
        let t0 = marker_fold(title, d).unwrap();
        assert(ms[ms.len() - 1]@.len() > 0);
        lemma_cut_step(t0, ms.last()@, false);
        let t = marker_fold(title, ms).unwrap();
        lemma_prefix_trans(t, t0, title);
        assert forall|k: int| 0 <= k < ms.len() implies !contains_sub(
            lower_text(t),
            #[trigger] ms[k]@,
        ) by {
            if k < d.len() {
                assert(d[k] == ms[k]);
                lemma_prefix_keeps_absent(t0, t, ms[k]@);
            }
        }
        assert forall|k: int| 0 <= k < pats.len() implies !contains_sub(
            lower_text(t),
            lower_text(#[trigger] pats[k]@),
        ) by {
            lemma_prefix_keeps_absent(t0, t, lower_text(pats[k]@));
        }
    }
}

/// The noise patterns are ASCII and not empty, and so are the markers.
proof fn lemma_patterns_ok()
    ensures
        forall|k: int|
            0 <= k < noise_patterns().len() ==> lower_text(#[trigger] noise_patterns()[k]@).len()
                > 0,
        forall|k: int| 0 <= k < feat_markers().len() ==> (#[trigger] feat_markers()[k]@).len() > 0,
{
    reveal_strlit("(Official Video)");
    reveal_strlit("(Official Music Video)");
    reveal_strlit("(Official Audio)");
    reveal_strlit("(Official Lyric Video)");
    reveal_strlit("(Lyric Video)");
    reveal_strlit("(Music Video)");
    reveal_strlit("(Official Visualizer)");
    reveal_strlit("(Visualizer)");
    reveal_strlit("(Audio)");
    reveal_strlit("(Video)");
    reveal_strlit("- Remastered");
    reveal_strlit("- Radio Edit");
    reveal_strlit("- Single Version");
    reveal_strlit("- Album Version");
    reveal_strlit("- Extended Version");
    reveal_strlit("- Nightcore");
    reveal_strlit("- Slowed");
    reveal_strlit("- Slowed Down");
    reveal_strlit("- Sped Up");
    reveal_strlit(" (feat.");
    reveal_strlit(" (ft.");
    reveal_strlit(" [feat.");
    reveal_strlit(" (with ");
    assert(is_ascii_seq(noise_patterns()[0]@) && noise_patterns()[0]@.len() > 0);
    assert(is_ascii_seq(noise_patterns()[1]@) && noise_patterns()[1]@.len() > 0);
    assert(is_ascii_seq(noise_patterns()[2]@) && noise_patterns()[2]@.len() > 0);
    assert(is_ascii_seq(noise_patterns()[3]@) && noise_patterns()[3]@.len() > 0);
    assert(is_ascii_seq(noise_patterns()[4]@) && noise_patterns()[4]@.len() > 0);
    assert(is_ascii_seq(noise_patterns()[5]@) && noise_patterns()[5]@.len() > 0);
    assert(is_ascii_seq(noise_patterns()[6]@) && noise_patterns()[6]@.len() > 0);
    assert(is_ascii_seq(noise_patterns()[7]@) && noise_patterns()[7]@.len() > 0);
    assert(is_ascii_seq(noise_patterns()[8]@) && noise_patterns()[8]@.len() > 0);
    assert(is_ascii_seq(noise_patterns()[9]@) && noise_patterns()[9]@.len() > 0);
    assert(is_ascii_seq(noise_patterns()[10]@) && noise_patterns()[10]@.len() > 0);
    assert(is_ascii_seq(noise_patterns()[11]@) && noise_patterns()[11]@.len() > 0);
    assert(is_ascii_seq(noise_patterns()[12]@) && noise_patterns()[12]@.len() > 0);
    assert(is_ascii_seq(noise_patterns()[13]@) && noise_patterns()[13]@.len() > 0);
    assert(is_ascii_seq(noise_patterns()[14]@) && noise_patterns()[14]@.len() > 0);
    assert(is_ascii_seq(noise_patterns()[15]@) && noise_patterns()[15]@.len() > 0);
    assert(is_ascii_seq(noise_patterns()[16]@) && noise_patterns()[16]@.len() > 0);
    assert(is_ascii_seq(noise_patterns()[17]@) && noise_patterns()[17]@.len() > 0);
    assert(is_ascii_seq(noise_patterns()[18]@) && noise_patterns()[18]@.len() > 0);
    assert(feat_markers()[0]@.len() > 0);
    assert(feat_markers()[1]@.len() > 0);
    assert(feat_markers()[2]@.len() > 0);
    assert(feat_markers()[3]@.len() > 0);
    assert forall|k: int|
        0 <= k < noise_patterns().len() implies lower_text(#[trigger] noise_patterns()[k]@).len()
        > 0 by {
        assert(is_ascii_seq(noise_patterns()[k]@));
    }
}

/// Cleaning ASCII text without any pattern changes nothing.
proof fn lemma_noise_fold_clean(c: Seq<char>, pats: Seq<&'static str>)
    requires
        is_ascii_seq(c),
        forall|k: int| 0 <= k < pats.len() ==> lower_text(#[trigger] pats[k]@).len() > 0,
        forall|k: int|
            0 <= k < pats.len() ==> !contains_sub(lower_text(c), lower_text(#[trigger] pats[k]@)),
    ensures
        noise_fold(c, pats) == Some(c),
    decreases pats.len(),
{
    if pats.len() > 0 {
        let d = pats.drop_last();
        assert forall|k: int| 0 <= k < d.len() implies lower_text(#[trigger] d[k]@).len() > 0
            && !contains_sub(lower_text(c), lower_text(d[k]@)) by {
            assert(d[k] == pats[k]);
        }
        lemma_noise_fold_clean(c, d);
        let lp = lower_text(pats.last()@);
        assert(lower_text(pats[pats.len() - 1]@).len() > 0);
        assert(!contains_sub(lower_text(c), lower_text(pats[pats.len() - 1]@)));
        lemma_ascii_match(c, lp);
        if find_sub(lower_text(c), lp) + lp.len() <= c.len() {
            lemma_find_sub_first(lower_text(c), lp);
            lemma_lower_sub(c, 0, c.len() as int);
        }
    }
}

/// Cutting markers from ASCII text without any of them changes nothing.
proof fn lemma_marker_fold_clean(c: Seq<char>, ms: Seq<&'static str>)
    requires
        is_ascii_seq(c),
        forall|k: int| 0 <= k < ms.len() ==> (#[trigger] ms[k]@).len() > 0,
        forall|k: int| 0 <= k < ms.len() ==> !contains_sub(lower_text(c), #[trigger] ms[k]@),
    ensures
        marker_fold(c, ms) == Some(c),
    decreases ms.len(),
{
    if ms.len() > 0 {
        let d = ms.drop_last();
        assert forall|k: int| 0 <= k < d.len() implies (#[trigger] d[k]@).len() > 0
            && !contains_sub(lower_text(c), d[k]@) by {
            assert(d[k] == ms[k]);
        }
        lemma_marker_fold_clean(c, d);
        let m = ms.last()@;
        assert(ms[ms.len() - 1]@.len() > 0);
        assert(!contains_sub(lower_text(c), ms[ms.len() - 1]@));
        lemma_ascii_match(c, m);
        if find_sub(lower_text(c), m) + m.len() <= c.len() {
            lemma_find_sub_first(lower_text(c), m);
            lemma_lower_sub(c, 0, c.len() as int);
        }
    }
}

/// A part of ASCII text with no occurrence of `p` (lowercased) has none.
proof fn lemma_sub_keeps_absent(t: Seq<char>, a: int, b: int, p: Seq<char>)
    requires
        is_ascii_seq(t),
        0 <= a <= b <= t.len(),
        !contains_sub(lower_text(t), p),
    ensures
        !contains_sub(lower_text(t.subrange(a, b)), p),
{
    lemma_lower_sub(t, a, b);
    if contains_sub(lower_text(t.subrange(a, b)), p) {
        let j = choose|j: int| occurs_at(lower_text(t.subrange(a, b)), p, j);
        lemma_occurs_in_sub(lower_text(t), p, a, b, j);
    }
}

/// For ASCII titles cleaning always succeeds, leaves none of the noise
/// patterns (in any case) and none of the featuring markers in the title,
/// and cleaning the result again changes nothing.
pub proof fn lemma_clean_title_ascii(raw: Seq<char>)
    requires
        is_ascii_seq(raw),
    ensures
        cleaned_title(raw) matches Some(c) && cleaned_title(c) == Some(c) && (forall|k: int|
            0 <= k < noise_patterns().len() ==> !contains_sub(
                lower_text(c),
                lower_text(#[trigger] noise_patterns()[k]@),
            )) && (forall|k: int|
            0 <= k < feat_markers().len() ==> !contains_sub(
                lower_text(c),
                #[trigger] feat_markers()[k]@,
            )),
{
    lemma_patterns_ok();
    let pats = noise_patterns();
    let ms = feat_markers();
    lemma_noise_fold_ascii(raw, pats);
    let t = noise_fold(raw, pats).unwrap();
    lemma_marker_fold_ascii(t, ms, pats);
    let u = marker_fold(t, ms).unwrap();
    let ts = trim_start(u);
    lemma_trim_start_shape(u);
    lemma_trim_end_shape(ts);
    let c = trim_end(ts);
    let a = u.len() - ts.len();
    let b = a + c.len();
    assert(c =~= u.subrange(a, b));
    assert(c == trim(u));
    lemma_lower_sub(u, a, b);
    assert forall|k: int| 0 <= k < pats.len() implies !contains_sub(
        lower_text(c),
        lower_text(#[trigger] pats[k]@),
    ) by {
        lemma_sub_keeps_absent(u, a, b, lower_text(pats[k]@));
    }
    assert forall|k: int| 0 <= k < ms.len() implies !contains_sub(lower_text(c), #[trigger] ms[k]@) by {
        lemma_sub_keeps_absent(u, a, b, ms[k]@);
    }
    lemma_noise_fold_clean(c, pats);
    lemma_marker_fold_clean(c, ms);
    if c.len() > 0 {
        assert(c[0] == ts[0]);
        assert(trim_start(c) == c);
        assert(trim_end(c) == c);
    } else {
        assert(trim_start(c) == c);
        assert(trim_end(c) == c);
    }
}

/// An ASCII letter or digit.
pub open spec fn is_ascii_alnum(c: char) -> bool {
    'a' <= c <= 'z' || 'A' <= c <= 'Z' || '0' <= c <= '9'
}

/// A pattern with `(` or `-` first and nowhere else.
spec fn opens_once(p: Seq<char>) -> bool {
    &&& p.len() > 0
    &&& p[0] == '(' || p[0] == '-'
    &&& forall|i: int| 1 <= i < p.len() ==> #[trigger] p[i] != '(' && p[i] != '-'
}

/// Every noise pattern is ASCII, not empty, and starts with `(` or `-`;
/// every featuring marker starts with a space.
proof fn lemma_pattern_starts()
    ensures
        forall|k: int|
            0 <= k < noise_patterns().len() ==> is_ascii_seq(#[trigger] noise_patterns()[k]@)
                && noise_patterns()[k]@.len() > 0 && (noise_patterns()[k]@[0] == '('
                || noise_patterns()[k]@[0] == '-'),
        forall|k: int|
            0 <= k < feat_markers().len() ==> (#[trigger] feat_markers()[k]@).len() > 0
                && feat_markers()[k]@[0] == ' ',
{
    reveal_strlit("(Official Video)");
    reveal_strlit("(Official Music Video)");
    reveal_strlit("(Official Audio)");
    reveal_strlit("(Official Lyric Video)");
    reveal_strlit("(Lyric Video)");
    reveal_strlit("(Music Video)");
    reveal_strlit("(Official Visualizer)");
    reveal_strlit("(Visualizer)");
    reveal_strlit("(Audio)");
    reveal_strlit("(Video)");
    reveal_strlit("- Remastered");
    reveal_strlit("- Radio Edit");
    reveal_strlit("- Single Version");
    reveal_strlit("- Album Version");
    reveal_strlit("- Extended Version");
    reveal_strlit("- Nightcore");
    reveal_strlit("- Slowed");
    reveal_strlit("- Slowed Down");
    reveal_strlit("- Sped Up");
    reveal_strlit(" (feat.");
    reveal_strlit(" (ft.");
    reveal_strlit(" [feat.");
    reveal_strlit(" (with ");
    assert(is_ascii_seq(noise_patterns()[0]@) && noise_patterns()[0]@.len() > 0 && (noise_patterns()[0]@[0] == '(' || noise_patterns()[0]@[0] == '-'));
    assert(is_ascii_seq(noise_patterns()[1]@) && noise_patterns()[1]@.len() > 0 && (noise_patterns()[1]@[0] == '(' || noise_patterns()[1]@[0] == '-'));
    assert(is_ascii_seq(noise_patterns()[2]@) && noise_patterns()[2]@.len() > 0 && (noise_patterns()[2]@[0] == '(' || noise_patterns()[2]@[0] == '-'));
    assert(is_ascii_seq(noise_patterns()[3]@) && noise_patterns()[3]@.len() > 0 && (noise_patterns()[3]@[0] == '(' || noise_patterns()[3]@[0] == '-'));
    assert(is_ascii_seq(noise_patterns()[4]@) && noise_patterns()[4]@.len() > 0 && (noise_patterns()[4]@[0] == '(' || noise_patterns()[4]@[0] == '-'));
    assert(is_ascii_seq(noise_patterns()[5]@) && noise_patterns()[5]@.len() > 0 && (noise_patterns()[5]@[0] == '(' || noise_patterns()[5]@[0] == '-'));
    assert(is_ascii_seq(noise_patterns()[6]@) && noise_patterns()[6]@.len() > 0 && (noise_patterns()[6]@[0] == '(' || noise_patterns()[6]@[0] == '-'));
    assert(is_ascii_seq(noise_patterns()[7]@) && noise_patterns()[7]@.len() > 0 && (noise_patterns()[7]@[0] == '(' || noise_patterns()[7]@[0] == '-'));
    assert(is_ascii_seq(noise_patterns()[8]@) && noise_patterns()[8]@.len() > 0 && (noise_patterns()[8]@[0] == '(' || noise_patterns()[8]@[0] == '-'));
    assert(is_ascii_seq(noise_patterns()[9]@) && noise_patterns()[9]@.len() > 0 && (noise_patterns()[9]@[0] == '(' || noise_patterns()[9]@[0] == '-'));
    assert(is_ascii_seq(noise_patterns()[10]@) && noise_patterns()[10]@.len() > 0 && (noise_patterns()[10]@[0] == '(' || noise_patterns()[10]@[0] == '-'));
    assert(is_ascii_seq(noise_patterns()[11]@) && noise_patterns()[11]@.len() > 0 && (noise_patterns()[11]@[0] == '(' || noise_patterns()[11]@[0] == '-'));
    assert(is_ascii_seq(noise_patterns()[12]@) && noise_patterns()[12]@.len() > 0 && (noise_patterns()[12]@[0] == '(' || noise_patterns()[12]@[0] == '-'));
    assert(is_ascii_seq(noise_patterns()[13]@) && noise_patterns()[13]@.len() > 0 && (noise_patterns()[13]@[0] == '(' || noise_patterns()[13]@[0] == '-'));
    assert(is_ascii_seq(noise_patterns()[14]@) && noise_patterns()[14]@.len() > 0 && (noise_patterns()[14]@[0] == '(' || noise_patterns()[14]@[0] == '-'));
    assert(is_ascii_seq(noise_patterns()[15]@) && noise_patterns()[15]@.len() > 0 && (noise_patterns()[15]@[0] == '(' || noise_patterns()[15]@[0] == '-'));
    assert(is_ascii_seq(noise_patterns()[16]@) && noise_patterns()[16]@.len() > 0 && (noise_patterns()[16]@[0] == '(' || noise_patterns()[16]@[0] == '-'));
    assert(is_ascii_seq(noise_patterns()[17]@) && noise_patterns()[17]@.len() > 0 && (noise_patterns()[17]@[0] == '(' || noise_patterns()[17]@[0] == '-'));
    assert(is_ascii_seq(noise_patterns()[18]@) && noise_patterns()[18]@.len() > 0 && (noise_patterns()[18]@[0] == '(' || noise_patterns()[18]@[0] == '-'));
    assert(feat_markers()[0]@.len() > 0 && feat_markers()[0]@[0] == ' ');
    assert(feat_markers()[1]@.len() > 0 && feat_markers()[1]@[0] == ' ');
    assert(feat_markers()[2]@.len() > 0 && feat_markers()[2]@[0] == ' ');
    assert(feat_markers()[3]@.len() > 0 && feat_markers()[3]@[0] == ' ');
}

/// Lowercase of an ASCII alphanumeric text followed by a space and an ASCII pattern.
proof fn lemma_tail_lower(s: Seq<char>, p: Seq<char>)
    requires
        forall|i: int| 0 <= i < s.len() ==> is_ascii_alnum(#[trigger] s[i]),
        is_ascii_seq(p),
    ensures
        is_ascii_seq(s + seq![' '] + p),
        lower_text(s + seq![' '] + p) == lower_text(s) + seq![' '] + lower_text(p),
        is_ascii_seq(s),
        forall|i: int| 0 <= i < s.len() ==> is_ascii_alnum(#[trigger] lower_text(s)[i]),
        lower_text(s).len() == s.len(),
        lower_text(p).len() == p.len(),
{
    let t = s + seq![' '] + p;
    assert forall|i: int| 0 <= i < t.len() implies (#[trigger] t[i] as u32) < 0x80 by {
        if i < s.len() {
            assert(t[i] == s[i]);
            assert(is_ascii_alnum(s[i]));
        } else if i > s.len() {
            assert(t[i] == p[i - s.len() - 1]);
        }
    }
    assert(is_ascii_seq(s)) by {
        assert forall|i: int| 0 <= i < s.len() implies (#[trigger] s[i] as u32) < 0x80 by {
            assert(is_ascii_alnum(s[i]));
        }
    }
    assert(lower_text(t) =~= lower_text(s) + seq![' '] + lower_text(p));
    assert forall|i: int| 0 <= i < s.len() implies is_ascii_alnum(#[trigger] lower_text(s)[i]) by {
        let c = s[i];
        assert(is_ascii_alnum(c));
        if 'A' <= c <= 'Z' {
            assert(65 <= (c as u32) <= 90);
        }
    }
}

/// In lowercased ASCII text a `(` or `-` stays what it was, and nothing
/// else turns into one.
proof fn lemma_lower_keeps_marks(p: Seq<char>)
    requires
        is_ascii_seq(p),
    ensures
        lower_text(p).len() == p.len(),
        forall|i: int|
            0 <= i < p.len() ==> ((#[trigger] lower_text(p)[i] == '(') == (p[i] == '(')) && ((
            lower_text(p)[i] == '-') == (p[i] == '-')),
{
    assert forall|i: int| 0 <= i < p.len() implies ((#[trigger] lower_text(p)[i] == '(') == (p[i]
        == '(')) && ((lower_text(p)[i] == '-') == (p[i] == '-')) by {
        let c = p[i];
        if 'A' <= c <= 'Z' {
            assert(65 <= (c as u32) <= 90);
            assert(97 <= (ascii_lower(c) as u32) <= 122);
        }
    }
}

/// One noise step on `s + " " + p`, where `p` has `(` or `-` only first:
/// a pattern that starts with `(` or `-` can only match at the start of
/// `p`, so the title is either cut back to `s` or left as it is; on `s`
/// alone nothing matches.
proof fn lemma_tail_step(s: Seq<char>, p: Seq<char>, q: Seq<char>)
    requires
        forall|i: int| 0 <= i < s.len() ==> is_ascii_alnum(#[trigger] s[i]),
        is_ascii_seq(p),
        opens_once(p),
        is_ascii_seq(q),
        q.len() > 0,
        q[0] == '(' || q[0] == '-',
    ensures
        noise_step(s + seq![' '] + p, q) == if q.len() <= p.len() && lower_text(p).take(
            q.len() as int,
        ) == lower_text(q) {
            Some(s)
        } else {
            Some(s + seq![' '] + p)
        },
        noise_step(s, q) == Some(s),
{
    let t = s + seq![' '] + p;
    lemma_tail_lower(s, p);
    lemma_lower_keeps_marks(p);
    lemma_lower_keeps_marks(q);
    let lq = lower_text(q);
    let lt = lower_text(t);
    let ls = lower_text(s);
    let n = s.len() as int;
    assert(lq[0] == '(' || lq[0] == '-');
    // where the pattern can occur
    assert forall|j: int| #![trigger occurs_at(lt, lq, j)] occurs_at(lt, lq, j) implies j == n + 1 by {
        assert(lt[j] == lq[0]) by {
            assert(lt.subrange(j, j + lq.len())[0] == lq[0]);
        }
        if j < n {
            assert(lt[j] == ls[j]);
            assert(is_ascii_alnum(ls[j]));
        } else if j > n + 1 {
            assert(lt[j] == lower_text(p)[j - n - 1]);
            assert(p[j - n - 1] != '(' && p[j - n - 1] != '-');
        }
    }
    let hit = q.len() <= p.len() && lower_text(p).take(q.len() as int) == lq;
    if q.len() <= p.len() {
        assert(lt.subrange(n + 1, n + 1 + lq.len()) =~= lower_text(p).take(q.len() as int));
    }
    lemma_ascii_match(t, lq);
    lemma_find_sub_first(lt, lq);
    let k = find_sub(lt, lq);
    if hit {
        assert(occurs_at(lt, lq, n + 1));
        if k < n + 1 {
            assert(!occurs_at(lt, lq, k));
        }
        assert(k == n + 1);
        lemma_ascii_truncate(t, k as nat);
        assert(t.take(k) =~= s.push(' '));
        assert(s.push(' ').drop_last() =~= s);
        if s.len() > 0 {
            assert(is_ascii_alnum(s.last()));
        }
        assert(strip_noise_end(s.push(' ')) == strip_noise_end(s));
        assert(strip_noise_end(s) == s);
        assert(match_byte_pos(lt, lq) == Some(k as nat));
        assert(noise_step(t, q) == Some(s));
    } else {
        if k + lq.len() <= lt.len() {
            assert(occurs_at(lt, lq, k));
            assert(k == n + 1);
        }
        assert(match_byte_pos(lt, lq) is None);
        assert(noise_step(t, q) == Some(t));
    }
    // on s alone
    lemma_ascii_match(s, lq);
    lemma_find_sub_first(ls, lq);
    let k2 = find_sub(ls, lq);
    if k2 + lq.len() <= ls.len() {
        assert(occurs_at(ls, lq, k2));
        assert(ls[k2] == lq[0]) by {
            assert(ls.subrange(k2, k2 + lq.len())[0] == lq[0]);
        }
        assert(is_ascii_alnum(ls[k2]));
    }
    assert(match_byte_pos(ls, lq) is None);
}

/// The noise patterns applied to `s + " " + p`: the title is cut back to
/// `s` or kept, and cut back to `s` when `p` is one of the patterns.
proof fn lemma_tail_fold(s: Seq<char>, p: Seq<char>, pats: Seq<&'static str>)
    requires
        forall|i: int| 0 <= i < s.len() ==> is_ascii_alnum(#[trigger] s[i]),
        is_ascii_seq(p),
        opens_once(p),
        forall|k: int|
            0 <= k < pats.len() ==> is_ascii_seq(#[trigger] pats[k]@) && pats[k]@.len() > 0 && (
            pats[k]@[0] == '(' || pats[k]@[0] == '-'),
    ensures
        noise_fold(s + seq![' '] + p, pats) == Some(s) || noise_fold(s + seq![' '] + p, pats)
            == Some(s + seq![' '] + p),
        (exists|k: int| 0 <= k < pats.len() && #[trigger] pats[k]@ == p) ==> noise_fold(
            s + seq![' '] + p,
            pats,
        ) == Some(s),
    decreases pats.len(),
{
    if pats.len() > 0 {
        let d = pats.drop_last();
        assert forall|k: int| 0 <= k < d.len() implies is_ascii_seq(#[trigger] d[k]@) && d[k]@.len()
            > 0 && (d[k]@[0] == '(' || d[k]@[0] == '-') by {
            assert(d[k] == pats[k]);
        }
        lemma_tail_fold(s, p, d);
        let q = pats.last()@;
        assert(pats[pats.len() - 1]@ == q);
        lemma_tail_step(s, p, q);
        if exists|k: int| 0 <= k < pats.len() && #[trigger] pats[k]@ == p {
            let k = choose|k: int| 0 <= k < pats.len() && #[trigger] pats[k]@ == p;
            if k < d.len() {
                assert(d[k] == pats[k]);
                assert(exists|k: int| 0 <= k < d.len() && #[trigger] d[k]@ == p);
            } else {
                assert(q == p);
                assert(lower_text(p).take(q.len() as int) =~= lower_text(q));
            }
        }
    }
}

/// Each noise pattern has `(` or `-` first and nowhere else.
proof fn lemma_patterns_open_once()
    ensures
        forall|k: int| 0 <= k < noise_patterns().len() ==> opens_once(#[trigger] noise_patterns()[k]@),
{
    reveal_strlit("(Official Video)");
    reveal_strlit("(Official Music Video)");
    reveal_strlit("(Official Audio)");
    reveal_strlit("(Official Lyric Video)");
    reveal_strlit("(Lyric Video)");
    reveal_strlit("(Music Video)");
    reveal_strlit("(Official Visualizer)");
    reveal_strlit("(Visualizer)");
    reveal_strlit("(Audio)");
    reveal_strlit("(Video)");
    reveal_strlit("- Remastered");
    reveal_strlit("- Radio Edit");
    reveal_strlit("- Single Version");
    reveal_strlit("- Album Version");
    reveal_strlit("- Extended Version");
    reveal_strlit("- Nightcore");
    reveal_strlit("- Slowed");
    reveal_strlit("- Slowed Down");
    reveal_strlit("- Sped Up");
    assert(opens_once(noise_patterns()[0]@));
    assert(opens_once(noise_patterns()[1]@));
    assert(opens_once(noise_patterns()[2]@));
    assert(opens_once(noise_patterns()[3]@));
    assert(opens_once(noise_patterns()[4]@));
    assert(opens_once(noise_patterns()[5]@));
    assert(opens_once(noise_patterns()[6]@));
    assert(opens_once(noise_patterns()[7]@));
    assert(opens_once(noise_patterns()[8]@));
    assert(opens_once(noise_patterns()[9]@));
    assert(opens_once(noise_patterns()[10]@));
    assert(opens_once(noise_patterns()[11]@));
    assert(opens_once(noise_patterns()[12]@));
    assert(opens_once(noise_patterns()[13]@));
    assert(opens_once(noise_patterns()[14]@));
    assert(opens_once(noise_patterns()[15]@));
    assert(opens_once(noise_patterns()[16]@));
    assert(opens_once(noise_patterns()[17]@));
    assert(opens_once(noise_patterns()[18]@));
}

/// Cleaning `s + " " + p`, `p` the `k`-th noise pattern, gives `s`.
proof fn lemma_clean_noise_one(s: Seq<char>, k: int)
    requires
        forall|i: int| 0 <= i < s.len() ==> is_ascii_alnum(#[trigger] s[i]),
        0 <= k < noise_patterns().len(),
    ensures
        cleaned_title(s + seq![' '] + noise_patterns()[k]@) == Some(s),
{
    let pats = noise_patterns();
    let p = pats[k]@;
    lemma_pattern_starts();
    lemma_patterns_ok();
    lemma_patterns_open_once();
    assert(is_ascii_seq(p) && opens_once(p));
    lemma_tail_fold(s, p, pats);
    assert(exists|j: int| 0 <= j < pats.len() && #[trigger] pats[j]@ == p);
    lemma_tail_lower(s, Seq::empty());
    assert forall|m: int| 0 <= m < feat_markers().len() implies !contains_sub(
        lower_text(s),
        #[trigger] feat_markers()[m]@,
    ) by {
        let mk = feat_markers()[m]@;
        if contains_sub(lower_text(s), mk) {
            let j = choose|j: int| occurs_at(lower_text(s), mk, j);
            assert(lower_text(s)[j] == mk[0]) by {
                assert(lower_text(s).subrange(j, j + mk.len())[0] == mk[0]);
            }
            assert(is_ascii_alnum(lower_text(s)[j]));
        }
    }
    lemma_marker_fold_clean(s, feat_markers());
    assert(trim_start(s) == s) by {
        if s.len() > 0 {
            assert(is_ascii_alnum(s[0]));
        }
    }
    assert(trim_end(s) == s) by {
        if s.len() > 0 {
            assert(is_ascii_alnum(s.last()));
        }
    }
}

/// The cleaned title of an ASCII alphanumeric title `s` followed by a
/// space and one of the noise suffixes the lookup strips ("(Official
/// Video)", "(Official Music Video)", ..., "- Sped Up") is `s` itself.
pub proof fn lemma_clean_noise_suffix(s: Seq<char>)
    requires
        forall|i: int| 0 <= i < s.len() ==> is_ascii_alnum(#[trigger] s[i]),
    ensures
        cleaned_title(s + " "@ + "(Official Video)"@) == Some(s),
        cleaned_title(s + " "@ + "(Official Music Video)"@) == Some(s),
        cleaned_title(s + " "@ + "(Official Audio)"@) == Some(s),
        cleaned_title(s + " "@ + "(Official Lyric Video)"@) == Some(s),
        cleaned_title(s + " "@ + "(Lyric Video)"@) == Some(s),
        cleaned_title(s + " "@ + "(Music Video)"@) == Some(s),
        cleaned_title(s + " "@ + "(Official Visualizer)"@) == Some(s),
        cleaned_title(s + " "@ + "(Visualizer)"@) == Some(s),
        cleaned_title(s + " "@ + "(Audio)"@) == Some(s),
        cleaned_title(s + " "@ + "(Video)"@) == Some(s),
        cleaned_title(s + " "@ + "- Remastered"@) == Some(s),
        cleaned_title(s + " "@ + "- Radio Edit"@) == Some(s),
        cleaned_title(s + " "@ + "- Single Version"@) == Some(s),
        cleaned_title(s + " "@ + "- Album Version"@) == Some(s),
        cleaned_title(s + " "@ + "- Extended Version"@) == Some(s),
        cleaned_title(s + " "@ + "- Nightcore"@) == Some(s),
        cleaned_title(s + " "@ + "- Slowed"@) == Some(s),
        cleaned_title(s + " "@ + "- Slowed Down"@) == Some(s),
        cleaned_title(s + " "@ + "- Sped Up"@) == Some(s),
{
    reveal_strlit(" ");
    assert(" "@ =~= seq![' ']);
    lemma_clean_noise_one(s, 0);
    assert(noise_patterns()[0]@ == "(Official Video)"@);
    lemma_clean_noise_one(s, 1);
    assert(noise_patterns()[1]@ == "(Official Music Video)"@);
    lemma_clean_noise_one(s, 2);
    assert(noise_patterns()[2]@ == "(Official Audio)"@);
    lemma_clean_noise_one(s, 3);
    assert(noise_patterns()[3]@ == "(Official Lyric Video)"@);
    lemma_clean_noise_one(s, 4);
    assert(noise_patterns()[4]@ == "(Lyric Video)"@);
    lemma_clean_noise_one(s, 5);
    assert(noise_patterns()[5]@ == "(Music Video)"@);
    lemma_clean_noise_one(s, 6);
    assert(noise_patterns()[6]@ == "(Official Visualizer)"@);
    lemma_clean_noise_one(s, 7);
    assert(noise_patterns()[7]@ == "(Visualizer)"@);
    lemma_clean_noise_one(s, 8);
    assert(noise_patterns()[8]@ == "(Audio)"@);
    lemma_clean_noise_one(s, 9);
    assert(noise_patterns()[9]@ == "(Video)"@);
    lemma_clean_noise_one(s, 10);
    assert(noise_patterns()[10]@ == "- Remastered"@);
    lemma_clean_noise_one(s, 11);
    assert(noise_patterns()[11]@ == "- Radio Edit"@);
    lemma_clean_noise_one(s, 12);
    assert(noise_patterns()[12]@ == "- Single Version"@);
    lemma_clean_noise_one(s, 13);
    assert(noise_patterns()[13]@ == "- Album Version"@);
    lemma_clean_noise_one(s, 14);
    assert(noise_patterns()[14]@ == "- Extended Version"@);
    lemma_clean_noise_one(s, 15);
    assert(noise_patterns()[15]@ == "- Nightcore"@);
    lemma_clean_noise_one(s, 16);
    assert(noise_patterns()[16]@ == "- Slowed"@);
    lemma_clean_noise_one(s, 17);
    assert(noise_patterns()[17]@ == "- Slowed Down"@);
    lemma_clean_noise_one(s, 18);
    assert(noise_patterns()[18]@ == "- Sped Up"@);
}

/// A longer prefix has more bytes.
proof fn lemma_utf8_len_take_mono(s: Seq<char>, a: int, b: int)
    requires
        0 <= a < b <= s.len(),
    ensures
        utf8_len(s.take(a)) < utf8_len(s.take(b)),
    decreases b - a,
{
    lemma_utf8_len_take(s, b - 1);
    if a < b - 1 {
        lemma_utf8_len_take_mono(s, a, b - 1);
    }
}

/// `utf8_len(v[..k])`, given the byte length of `v`.
fn byte_offset(v: &Vec<char>, k: usize, total: usize) -> (r: usize)
    requires
        k <= v@.len(),
        total == utf8_len(v@),
    ensures
        r == utf8_len(v@.take(k as int)),
{
    let mut acc: usize = 0;
    let mut j: usize = 0;
    assert(v@.take(0) =~= Seq::<char>::empty());
    while j < k
        invariant
            j <= k <= v@.len(),
            total == utf8_len(v@),
            acc == utf8_len(v@.take(j as int)),
        decreases k - j,
    {
        proof {
            lemma_utf8_len_take(v@, j as int);
        }
        acc = acc + char_utf8_len(v[j]);
        j = j + 1;
    }
    acc
}

/// `truncate_at(s, pos)`.
fn truncate_exec(s: &str, pos: usize) -> (r: Option<String>)
    ensures
        opt_chars(r) == truncate_at(s@, pos as nat),
{
    let v = chars_of(s);
    let total = s.as_bytes().len();
    let n = v.len();
    let mut acc: usize = 0;
    let mut j: usize = 0;
    assert(v@.take(0) =~= Seq::<char>::empty());
    while j < n && acc < pos
        invariant
            j <= n == v@.len(),
            v@ == s@,
            total == utf8_len(v@),
            acc == utf8_len(v@.take(j as int)),
            j > 0 ==> utf8_len(v@.take(j - 1)) < pos,
        decreases n - j,
    {
        proof {
            lemma_utf8_len_take(v@, j as int);
        }
        acc = acc + char_utf8_len(v[j]);
        j = j + 1;
    }
    assert(v@.take(n as int) =~= v@);
    if acc == pos {
        proof {
            assert(0 <= j <= v@.len() && utf8_len(v@.take(j as int)) == pos);
            let c = choose|i: int| 0 <= i <= v@.len() && utf8_len(v@.take(i)) == pos;
            if c < j {
                lemma_utf8_len_take_mono(v@, c, j as int);
            } else if c > j {
                lemma_utf8_len_take_mono(v@, j as int, c);
            }
            if pos >= utf8_len(v@) {
                if j < n {
                    lemma_utf8_len_take_mono(v@, j as int, n as int);
                }
            }
        }
        Some(string_of_range(&v, 0, j))
    } else if acc < pos {
        Some(string_of(&v))
    } else {
        proof {
            assert forall|i: int| 0 <= i <= v@.len() implies utf8_len(v@.take(i)) != pos by {
                if i < j - 1 {
                    lemma_utf8_len_take_mono(v@, i, j - 1);
                } else if i > j {
                    lemma_utf8_len_take_mono(v@, j as int, i);
                }
            }
            if j < n {
                lemma_utf8_len_take_mono(v@, j as int, n as int);
            }
        }
        None
    }
}

/// The characters of an optional string.
pub open spec fn opt_chars(o: Option<String>) -> Option<Seq<char>> {
    match o {
        Some(s) => Some(s@),
        None => None,
    }
}

/// `match_byte_pos(lower, p)`.
fn match_byte_pos_exec(lower: &str, p: &str) -> (r: Option<usize>)
    ensures
        r matches Some(x) ==> match_byte_pos(lower@, p@) == Some(x as nat),
        r is None <==> match_byte_pos(lower@, p@) is None,
{
    let lv = chars_of(lower);
    let pv = chars_of(p);
    let n = lv.len();
    let total = lower.as_bytes().len();
    assert(lv@.subrange(0, n as int) =~= lv@);
    let k = if pv.len() == 0 {
        assert(lv@.take(0) =~= pv@);
        0
    } else {
        find_seq(&lv, 0, n, pv.as_slice())
    };
    if k <= n && pv.len() <= n - k {
        Some(byte_offset(&lv, k, total))
    } else {
        None
    }
}

/// End of `strip_noise_end(v[..hi])`.
fn strip_noise_end_bound(v: &Vec<char>, hi: usize) -> (r: usize)
    requires
        hi <= v@.len(),
    ensures
        r <= hi,
        v@.take(r as int) == strip_noise_end(v@.take(hi as int)),
    decreases hi,
{
    if hi > 0 && (v[hi - 1] == '-' || v[hi - 1] == ' ' || v[hi - 1] == ')') {
        assert(v@.take(hi as int).drop_last() =~= v@.take(hi - 1));
        strip_noise_end_bound(v, hi - 1)
    } else {
        hi
    }
}

/// `noise_step(title, pat)`.
fn noise_step_exec(title: String, pat: &str) -> (r: Option<String>)
    ensures
        opt_chars(r) == noise_step(title@, pat@),
{
    let lower = str_to_lowercase(title.as_str());
    let lp = str_to_lowercase(pat);
    assert(lower@ == lower_text(title@));
    assert(lp@ == lower_text(pat@));
    match match_byte_pos_exec(lower.as_str(), lp.as_str()) {
        Some(pos) => match truncate_exec(title.as_str(), pos) {
            Some(t) => {
                let tv = chars_of(t.as_str());
                let e = strip_noise_end_bound(&tv, tv.len());
                assert(tv@.take(tv@.len() as int) =~= tv@);
                assert(tv@.subrange(0, e as int) =~= tv@.take(e as int));
                Some(string_of_range(&tv, 0, e))
            },
            None => None,
        },
        None => Some(title),
    }
}

/// `marker_step(title, marker)`.
fn marker_step_exec(title: String, marker: &str) -> (r: Option<String>)
    ensures
        opt_chars(r) == marker_step(title@, marker@),
{
    let lower = str_to_lowercase(title.as_str());
    assert(lower@ == lower_text(title@));
    match match_byte_pos_exec(lower.as_str(), marker) {
        Some(pos) => truncate_exec(title.as_str(), pos),
        None => Some(title),
    }
}

/// `cleaned_title(raw)`: `None` where cleaning would cut inside a character.
fn clean_title_core(raw: &str) -> (r: Option<String>)
    ensures
        opt_chars(r) == cleaned_title(raw@),
{
    let noise: [&'static str; 19] = [
        "(Official Video)",
        "(Official Music Video)",
        "(Official Audio)",
        "(Official Lyric Video)",
        "(Lyric Video)",
        "(Music Video)",
        "(Official Visualizer)",
        "(Visualizer)",
        "(Audio)",
        "(Video)",
        "- Remastered",
        "- Radio Edit",
        "- Single Version",
        "- Album Version",
        "- Extended Version",
        "- Nightcore",
        "- Slowed",
        "- Slowed Down",
        "- Sped Up",
    ];
    assert(noise@ =~= noise_patterns());
    let markers: [&'static str; 4] = [" (feat.", " (ft.", " [feat.", " (with "];
    assert(markers@ =~= feat_markers());
    let mut title = String::new();
    push_str(&mut title, raw);
    let mut i: usize = 0;
    assert(noise@.take(0) =~= Seq::<&'static str>::empty());
    while i < 19
        invariant
            i <= 19,
            noise@ == noise_patterns(),
            noise_fold(raw@, noise@.take(i as int)) == Some(title@),
            noise_fold(raw@, noise_patterns()) is Some ==> noise_fold(raw@, noise@.take(i as int))
                is Some,
        decreases 19 - i,
    {
        proof {
            assert(noise@.take(i + 1).drop_last() =~= noise@.take(i as int));
        }
        match noise_step_exec(title, noise[i]) {
            Some(t) => title = t,
            None => {
                proof {
                    lemma_noise_fold_stuck(raw@, noise@, i as int + 1);
                    assert(noise@.take(19) =~= noise@);
                }
                return None;
            },
        }
        i = i + 1;
    }
    assert(noise@.take(19) =~= noise@);
    let ghost t0 = title@;
    let mut j: usize = 0;
    assert(markers@.take(0) =~= Seq::<&'static str>::empty());
    while j < 4
        invariant
            j <= 4,
            markers@ == feat_markers(),
            noise_fold(raw@, noise_patterns()) == Some(t0),
            marker_fold(t0, markers@.take(j as int)) == Some(title@),
        decreases 4 - j,
    {
        proof {
            assert(markers@.take(j + 1).drop_last() =~= markers@.take(j as int));
        }
        match marker_step_exec(title, markers[j]) {
            Some(t) => title = t,
            None => {
                proof {
                    lemma_marker_fold_stuck(t0, markers@, j as int + 1);
                    assert(markers@.take(4) =~= markers@);
                }
                return None;
            },
        }
        j = j + 1;
    }
    assert(markers@.take(4) =~= markers@);
    let v = chars_of(title.as_str());
    let (a, b) = trim_bounds(&v, 0, v.len());
    assert(v@.subrange(0, v@.len() as int) =~= v@);
    Some(string_of_range(&v, a, b))
}

/// Once a step fails, the rest of the noise patterns fail too.
proof fn lemma_noise_fold_stuck(t: Seq<char>, pats: Seq<&'static str>, k: int)
    requires
        0 < k <= pats.len(),
        noise_fold(t, pats.take(k)) is None,
    ensures
        noise_fold(t, pats) is None,
    decreases pats.len() - k,
{
    if k < pats.len() {
        assert(pats.take(k + 1).drop_last() =~= pats.take(k));
        lemma_noise_fold_stuck(t, pats, k + 1);
    } else {
        assert(pats.take(k) =~= pats);
    }
}

/// Once a step fails, the rest of the markers fail too.
proof fn lemma_marker_fold_stuck(t: Seq<char>, ms: Seq<&'static str>, k: int)
    requires
        0 < k <= ms.len(),
        marker_fold(t, ms.take(k)) is None,
    ensures
        marker_fold(t, ms) is None,
    decreases ms.len() - k,
{
    if k < ms.len() {
        assert(ms.take(k + 1).drop_last() =~= ms.take(k));
        lemma_marker_fold_stuck(t, ms, k + 1);
    } else {
        assert(ms.take(k) =~= ms);
    }
}

/// Strip "(Official Video)", "- Remastered", "feat. ..." etc. from titles.
///
/// A noise pattern is found in the lowercased title and the title is cut
/// at that byte position; where lowercasing changes the byte length of
/// earlier characters, that position can fall inside a character, where
/// cutting panics. `try_clean_title` tells those titles apart.
pub fn clean_title(raw: &str) -> (r: String)
    requires
        cleaned_title(raw@) is Some,
    ensures
        r@ == cleaned_title(raw@).unwrap(),
{
    match clean_title_core(raw) {
        Some(t) => t,
        None => String::new(),
    }
}

/// The cleaned title, or `None` where cleaning would cut inside a
/// character.
pub fn try_clean_title(raw: &str) -> (r: Option<String>)
    ensures
        opt_chars(r) == cleaned_title(raw@),
{
    if clean_title_core(raw).is_some() {
        Some(clean_title(raw))
    } else {
        None
    }
}


/// The `syncedLyrics` string of the JSON object `body`.
pub uninterp spec fn synced_field(body: Seq<char>) -> Option<Seq<char>>;

/// `serde_json::from_str` on `body`, then the object's `syncedLyrics`
/// member when it is a JSON string (`None` for invalid JSON, a missing
/// member or another kind of value). The JSON grammar is not stated; the
/// result is named `synced_field(body)`.
#[verifier::external_body]
fn json_synced_lyrics(body: &str) -> (r: Option<String>)
    ensures
        opt_chars(r) == synced_field(body@),
{
    match serde_json::from_str::<serde_json::Value>(body) {
        Ok(v) => match v.get("syncedLyrics") {
            Some(serde_json::Value::String(s)) => Some(s.clone()),
            _ => None,
        },
        Err(_) => None,
    }
}

/// For a JSON array `body`, the `syncedLyrics` string of each element.
pub uninterp spec fn synced_fields(body: Seq<char>) -> Option<Seq<Option<Seq<char>>>>;

/// `serde_json::from_str` on `body`; for a JSON array, each element's
/// `syncedLyrics` member when it is a JSON string (`None` when the text is
/// not a JSON array). The JSON grammar is not stated; the result is named
/// `synced_fields(body)`.
#[verifier::external_body]
fn json_array_synced_lyrics(body: &str) -> (r: Option<Vec<Option<String>>>)
    ensures
        r is Some <==> synced_fields(body@) is Some,
        r matches Some(v) ==> synced_fields(body@) == Some(v@.map_values(|o: Option<String>| opt_chars(o))),
{
    match serde_json::from_str::<serde_json::Value>(body) {
        Ok(serde_json::Value::Array(items)) => {
            let mut out = Vec::new();
            for e in &items {
                out.push(match e.get("syncedLyrics") {
                    Some(serde_json::Value::String(s)) => Some(s.clone()),
                    _ => None,
                });
            }
            Some(out)
        },
        _ => None,
    }
}

/// Synced lyrics are usable when they are not blank.
pub open spec fn usable(field: Option<Seq<char>>) -> Option<Seq<char>> {
    match field {
        Some(s) => if trim(s).len() > 0 {
            Some(s)
        } else {
            None
        },
        None => None,
    }
}

/// `text`, unless it is blank.
pub fn non_blank(text: String) -> (r: Option<String>)
    ensures
        opt_chars(r) == usable(Some(text@)),
{
    let v = chars_of(text.as_str());
    let (a, b) = trim_bounds(&v, 0, v.len());
    assert(v@.subrange(0, v@.len() as int) =~= v@);
    if a < b {
        Some(text)
    } else {
        None
    }
}

/// The synced lyrics of an lrclib entry's `syncedLyrics` member, unless
/// blank (plain, unsynced lyrics are useless for a synced visualizer).
pub fn synced_text(field: Option<String>) -> (r: Option<String>)
    ensures
        opt_chars(r) == usable(opt_chars(field)),
{
    match field {
        Some(s) => non_blank(s),
        None => None,
    }
}

/// The synced lyrics of the lrclib entry `entry` (JSON text), unless absent
/// or blank.
pub fn synced_or_plain(entry: &str) -> (r: Option<String>)
    ensures
        opt_chars(r) == usable(synced_field(entry@)),
{
    synced_text(json_synced_lyrics(entry))
}

/// The first usable synced lyrics among the entries' `syncedLyrics`.
pub open spec fn first_usable(fields: Seq<Option<Seq<char>>>) -> Option<Seq<char>>
    decreases fields.len(),
{
    if fields.len() == 0 {
        None
    } else if usable(fields[0]) is Some {
        usable(fields[0])
    } else {
        first_usable(fields.drop_first())
    }
}

/// The first of the entries' `syncedLyrics` that holds usable lyrics.
pub fn first_synced(fields: &Vec<Option<String>>) -> (r: Option<String>)
    ensures
        opt_chars(r) == first_usable(fields@.map_values(|o: Option<String>| opt_chars(o))),
{
    let ghost fs = fields@.map_values(|o: Option<String>| opt_chars(o));
    let mut i: usize = 0;
    let n = fields.len();
    assert(fs.skip(0) =~= fs);
    while i < n
        invariant
            i <= n == fields@.len() == fs.len(),
            fs == fields@.map_values(|o: Option<String>| opt_chars(o)),
            forall|j: int| i <= j < n ==> #[trigger] opt_chars(fields@[j]) == fs[j],
            first_usable(fs) == first_usable(fs.skip(i as int)),
        decreases n - i,
    {
        let f = match &fields[i] {
            Some(s) => Some(s.clone()),
            None => None,
        };
        assert(opt_chars(f) == fs[i as int]);
        assert(fs.skip(i as int)[0] == fs[i as int]);
        assert(fs.skip(i as int).drop_first() =~= fs.skip(i + 1));
        if let Some(t) = synced_text(f) {
            assert(first_usable(fs.skip(i as int)) == usable(fs[i as int]));
            return Some(t);
        }
        i = i + 1;
    }
    None
}

/// How lrclib's reply to a request is read.
#[derive(Debug, Clone, Copy, PartialEq, Eq, Structural)]
pub enum ReplyKind {
    /// `/get`: one entry.
    Get,
    /// `/search`: an array of entries.
    Search,
}

/// The lyrics in lrclib's reply `body` (the text of a `200` reply).
pub open spec fn reply_lyrics(kind: ReplyKind, body: Seq<char>) -> Option<Seq<char>> {
    match kind {
        ReplyKind::Get => usable(synced_field(body)),
        ReplyKind::Search => match synced_fields(body) {
            Some(fs) => first_usable(fs),
            None => None,
        },
    }
}

/// The lyrics in lrclib's reply `body` (the text of a `200` reply): the
/// entry's synced lyrics for `/get`, the first entry with synced lyrics
/// for `/search`.
pub fn lyrics_in_reply(kind: ReplyKind, body: &str) -> (r: Option<String>)
    ensures
        opt_chars(r) == reply_lyrics(kind, body@),
{
    match kind {
        ReplyKind::Get => synced_or_plain(body),
        ReplyKind::Search => match json_array_synced_lyrics(body) {
            Some(fields) => first_synced(&fields),
            None => None,
        },
    }
}


/// A URL query component: percent-encoded UTF-8.
pub open spec fn enc(s: Seq<char>) -> Seq<char> {
    url_encoded(vstd::utf8::encode_utf8(s))
}

/// `&duration=<seconds>` when the duration is known.
pub open spec fn duration_part(dur: Option<nat>) -> Seq<char> {
    match dur {
        Some(d) => "&duration="@ + decimal(d),
        None => Seq::empty(),
    }
}

/// `&album_name=<album>` when the album is known and not empty.
pub open spec fn album_part(album: Option<String>) -> Seq<char> {
    match album {
        Some(a) => if a@.len() > 0 {
            "&album_name="@ + enc(a@)
        } else {
            Seq::empty()
        },
        None => Seq::empty(),
    }
}

/// The lrclib API root.
pub open spec fn api_root() -> Seq<char> {
    "https://lrclib.net/api"@
}

/// Exact `/get` with full metadata (best match, honors duration).
pub open spec fn get_url(t: TrackInfo, dur: Option<nat>) -> Seq<char> {
    api_root() + "/get?track_name="@ + enc(t.title@) + "&artist_name="@ + enc(t.artist@)
        + album_part(t.album) + duration_part(dur)
}

/// `/search` by track name and artist.
pub open spec fn search_url(artist: Seq<char>, title: Seq<char>, dur: Option<nat>) -> Seq<char> {
    api_root() + "/search?track_name="@ + enc(title) + "&artist_name="@ + enc(artist)
        + duration_part(dur)
}

/// `/search` by free query.
pub open spec fn query_url(q: Seq<char>, dur: Option<nat>) -> Seq<char> {
    api_root() + "/search?q="@ + enc(q) + duration_part(dur)
}

/// The track length in whole seconds.
pub open spec fn duration_secs(t: TrackInfo) -> Option<nat> {
    match t.length {
        Some(us) => Some(us as nat / 1_000_000),
        None => None,
    }
}

/// The lookups to try, loosest last: `/get` with full metadata; `/search`
/// with the cleaned title (when cleaning changed it); `/search` with the
/// raw metadata; and last a free query on the title.
pub open spec fn plan(t: TrackInfo, clean: Seq<char>) -> Seq<(Seq<char>, ReplyKind)> {
    let dur = duration_secs(t);
    seq![(get_url(t, dur), ReplyKind::Get)] + (if clean != t.title@ {
        seq![(search_url(t.artist@, clean, dur), ReplyKind::Search)]
    } else {
        Seq::empty()
    }) + seq![(search_url(t.artist@, t.title@, dur), ReplyKind::Search)] + seq![
        (query_url(t.title@, dur), ReplyKind::Search),
    ]
}

/// One request to lrclib: the URL to GET and how to read the reply.
#[derive(Debug, Clone)]
pub struct LrclibRequest {
    pub url: String,
    pub kind: ReplyKind,
}

/// What to do next while looking lyrics up.
#[derive(Debug, Clone)]
pub enum FetchAction {
    /// GET this URL and hand its reply body to `step` (or `None` when the
    /// request failed or did not answer `200`).
    Send(String),
    /// The lookup is over: the synced lyrics, or `None` when lrclib has none.
    Done(Option<String>),
    /// `/get` found nothing and the later lookups need the cleaned title,
    /// but cleaning it would cut inside a character (where the standard
    /// library panics; see `clean_title`).
    Uncleanable,
}

/// A lookup in progress: the requests to try, how many were sent, and
/// whether the title could be cleaned for the lookups after `/get`.
#[derive(Debug, Clone)]
pub struct LyricsFetch {
    pub requests: Vec<LrclibRequest>,
    pub next: usize,
    pub cleanable: bool,
}

/// The lookups for a track: the full `plan` when its title can be cleaned,
/// else `/get` alone (the later lookups need the cleaned title).
pub open spec fn fetch_plan(t: TrackInfo) -> Seq<(Seq<char>, ReplyKind)> {
    match cleaned_title(t.title@) {
        Some(c) => plan(t, c),
        None => seq![(get_url(t, duration_secs(t)), ReplyKind::Get)],
    }
}

/// Appends `&duration=<d>` when `dur` is known.
fn push_duration(url: &mut String, dur: Option<u64>)
    ensures
        final(url)@ == old(url)@ + duration_part(match dur {
            Some(d) => Some(d as nat),
            None => None,
        }),
{
    if let Some(d) = dur {
        push_str(url, "&duration=");
        push_decimal(url, d);
    }
}

fn build_get_url(t: &TrackInfo, dur: Option<u64>) -> (r: String)
    ensures
        r@ == get_url(*t, match dur {
            Some(d) => Some(d as nat),
            None => None,
        }),
{
    let mut url = String::new();
    push_str(&mut url, "https://lrclib.net/api");
    push_str(&mut url, "/get?track_name=");
    push_url_encoded(&mut url, t.title.as_str());
    push_str(&mut url, "&artist_name=");
    push_url_encoded(&mut url, t.artist.as_str());
    if let Some(album) = &t.album {
        if !album.as_str().is_empty() {
            push_str(&mut url, "&album_name=");
            push_url_encoded(&mut url, album.as_str());
        }
    }
    push_duration(&mut url, dur);
    url
}

fn build_search_url(artist: &str, title: &str, dur: Option<u64>) -> (r: String)
    ensures
        r@ == search_url(artist@, title@, match dur {
            Some(d) => Some(d as nat),
            None => None,
        }),
{
    let mut url = String::new();
    push_str(&mut url, "https://lrclib.net/api");
    push_str(&mut url, "/search?track_name=");
    push_url_encoded(&mut url, title);
    push_str(&mut url, "&artist_name=");
    push_url_encoded(&mut url, artist);
    push_duration(&mut url, dur);
    url
}

fn build_query_url(q: &str, dur: Option<u64>) -> (r: String)
    ensures
        r@ == query_url(q@, match dur {
            Some(d) => Some(d as nat),
            None => None,
        }),
{
    let mut url = String::new();
    push_str(&mut url, "https://lrclib.net/api");
    push_str(&mut url, "/search?q=");
    push_url_encoded(&mut url, q);
    push_duration(&mut url, dur);
    url
}

impl LyricsFetch {
    /// The requests as `(url, kind)` pairs.
    pub open spec fn plan_view(&self) -> Seq<(Seq<char>, ReplyKind)> {
        self.requests@.map_values(|r: LrclibRequest| (r.url@, r.kind))
    }

    /// Starts a lookup for `track`: `/get` first; the title is cleaned only
    /// for the lookups after it.
    pub fn new(track: &TrackInfo) -> (r: LyricsFetch)
        ensures
            r.next == 0,
            r.plan_view() == fetch_plan(*track),
            r.cleanable == cleaned_title(track.title@) is Some,
    {
        let dur: Option<u64> = match track.length {
            Some(us) => Some(us / 1_000_000),
            None => None,
        };
        let ghost d = duration_secs(*track);
        assert(d == match dur {
            Some(x) => Some(x as nat),
            None => None::<nat>,
        });
        let mut requests: Vec<LrclibRequest> = Vec::new();
        requests.push(LrclibRequest { url: build_get_url(track, dur), kind: ReplyKind::Get });
        let ghost p1: Seq<(Seq<char>, ReplyKind)> = seq![(get_url(*track, d), ReplyKind::Get)];
        assert(requests@.map_values(|r: LrclibRequest| (r.url@, r.kind)) =~= p1);
        let clean = match try_clean_title(track.title.as_str()) {
            Some(c) => c,
            None => return LyricsFetch { requests, next: 0, cleanable: false },
        };
        let changed = !crate::text::same_chars(clean.as_str(), track.title.as_str());
        let ghost p2: Seq<(Seq<char>, ReplyKind)> = if changed {
            seq![(search_url(track.artist@, clean@, d), ReplyKind::Search)]
        } else {
            Seq::empty()
        };
        if changed {
            requests.push(
                LrclibRequest {
                    url: build_search_url(track.artist.as_str(), clean.as_str(), dur),
                    kind: ReplyKind::Search,
                },
            );
        }
        assert(requests@.map_values(|r: LrclibRequest| (r.url@, r.kind)) =~= p1 + p2);
        requests.push(
            LrclibRequest {
                url: build_search_url(track.artist.as_str(), track.title.as_str(), dur),
                kind: ReplyKind::Search,
            },
        );
        let ghost p3: Seq<(Seq<char>, ReplyKind)> = seq![
            (search_url(track.artist@, track.title@, d), ReplyKind::Search),
        ];
        assert(requests@.map_values(|r: LrclibRequest| (r.url@, r.kind)) =~= p1 + p2 + p3);
        let ghost p4: Seq<(Seq<char>, ReplyKind)> = seq![
            (query_url(track.title@, d), ReplyKind::Search),
        ];
        requests.push(
            LrclibRequest { url: build_query_url(track.title.as_str(), dur), kind: ReplyKind::Search },
        );
        assert(requests@.map_values(|r: LrclibRequest| (r.url@, r.kind)) =~= p1 + p2 + p3 + p4);
        LyricsFetch { requests, next: 0, cleanable: true }
    }

    /// Takes the reply to the last request sent (`None` on the first call,
    /// or when that request failed) and says what to do next: stop with the
    /// lyrics that reply holds, else send the next request, else stop empty
    /// (or, when the title could not be cleaned, report that).
    pub fn step(&mut self, reply: Option<String>) -> (a: FetchAction)
        ensures
            final(self).requests@ == old(self).requests@,
            final(self).cleanable == old(self).cleanable,
            ({
                let p = old(self).plan_view();
                let n = old(self).next as int;
                let found = if 0 < n <= p.len() {
                    match reply {
                        Some(body) => reply_lyrics(p[n - 1].1, body@),
                        None => None,
                    }
                } else {
                    None
                };
                match found {
                    Some(l) => a matches FetchAction::Done(Some(x)) && x@ == l && final(self).next
                        == p.len(),
                    None => if n < p.len() {
                        a matches FetchAction::Send(u) && u@ == p[n].0 && final(self).next == n + 1
                    } else if old(self).cleanable {
                        a matches FetchAction::Done(None) && final(self).next == n
                    } else {
                        a matches FetchAction::Uncleanable && final(self).next == n
                    },
                }
            }),
    {
        let n = self.next;
        let len = self.requests.len();
        if 0 < n && n <= len {
            if let Some(body) = &reply {
                let kind = self.requests[n - 1].kind;
                if let Some(l) = lyrics_in_reply(kind, body.as_str()) {
                    self.next = len;
                    return FetchAction::Done(Some(l));
                }
            }
        }
        if n < len {
            let url = self.requests[n].url.clone();
            self.next = n + 1;
            FetchAction::Send(url)
        } else if self.cleanable {
            FetchAction::Done(None)
        } else {
            FetchAction::Uncleanable
        }
    }
}


/// Characters kept in cache file names: alphanumerics, space and `-`.
pub open spec fn keep_for_file(s: Seq<char>) -> Seq<char>
    decreases s.len(),
{
    if s.len() == 0 {
        s
    } else {
        keep_for_file(s.drop_last()) + if alnum_of(s.last()) || s.last() == ' ' || s.last() == '-' {
            seq![s.last()]
        } else {
            Seq::empty()
        }
    }
}

/// `s` with characters popped off its end until it has at most `n` bytes.
pub open spec fn pop_to_bytes(s: Seq<char>, n: nat) -> Seq<char>
    decreases s.len(),
{
    if s.len() > 0 && utf8_len(s) > n {
        pop_to_bytes(s.drop_last(), n)
    } else {
        s
    }
}

/// The cache file name for a track: its cache key reduced to
/// alphanumerics, spaces and `-`, cut to at most 80 bytes, trimmed, plus
/// `.lrc`; `_.lrc` when nothing is left.
pub open spec fn cache_file_name_of(t: TrackInfo) -> Seq<char> {
    let key = trim(pop_to_bytes(keep_for_file(cache_key_of(t.title@, t.artist@)), 80));
    if key.len() == 0 {
        "_.lrc"@
    } else {
        key + ".lrc"@
    }
}

/// The file name under the cache directory where `track`'s lyrics are kept.
pub fn cache_file_name(track: &TrackInfo) -> (r: String)
    ensures
        r@ == cache_file_name_of(*track),
{
    let key = track.cache_key();
    let kv = chars_of(key.as_str());
    let mut kept: Vec<char> = Vec::new();
    let mut i: usize = 0;
    assert(kv@.take(0) =~= Seq::<char>::empty());
    while i < kv.len()
        invariant
            i <= kv@.len(),
            kept@ == keep_for_file(kv@.take(i as int)),
        decreases kv@.len() - i,
    {
        let c = kv[i];
        if char_is_alphanumeric(c) || c == ' ' || c == '-' {
            kept.push(c);
        }
        assert(kv@.take(i + 1).drop_last() =~= kv@.take(i as int));
        assert(keep_for_file(kv@.take(i + 1)) =~= keep_for_file(kv@.take(i as int)) + if alnum_of(c)
            || c == ' ' || c == '-' {
            seq![c]
        } else {
            Seq::empty()
        });
        i = i + 1;
    }
    assert(kv@.take(kv@.len() as int) =~= kv@);
    let kept_str = string_of(&kept);
    let total = kept_str.as_str().as_bytes().len();
    let mut end = kept.len();
    let mut bytes = total;
    assert(kept@.take(end as int) =~= kept@);
    while end > 0 && bytes > 80
        invariant
            end <= kept@.len(),
            bytes == utf8_len(kept@.take(end as int)),
            pop_to_bytes(kept@, 80) == pop_to_bytes(kept@.take(end as int), 80),
        decreases end,
    {
        proof {
            lemma_utf8_len_take(kept@, end - 1);
            assert(kept@.take(end as int).drop_last() =~= kept@.take(end - 1));
        }
        bytes = bytes - char_utf8_len(kept[end - 1]);
        end = end - 1;
    }
    let (a, b) = trim_bounds(&kept, 0, end);
    assert(kept@.subrange(0, end as int) =~= kept@.take(end as int));
    let mut name = string_of_range(&kept, a, b);
    if a == b {
        let mut empty = String::new();
        push_str(&mut empty, "_.lrc");
        empty
    } else {
        push_str(&mut name, ".lrc");
        name
    }
}

/// Lyrics read from `text`, when it holds at least one timed line.
pub fn lyrics_from_text(text: &str) -> (r: Option<Lyrics>)
    ensures
        r is Some <==> lrc(text@).0.len() > 0,
        r matches Some(l) ==> l.doc() == lrc(text@),
{
    let l = parse_lrc(text);
    if l.lines.len() > 0 {
        Some(l)
    } else {
        None
    }
}

} // verus!
