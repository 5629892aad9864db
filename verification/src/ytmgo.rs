//! The ytmgo fallback: ytmgo plays through an mpv without MPRIS; its
//! playback state is read over mpv's JSON IPC socket, its queue and lyrics
//! cache from its database. This module holds what those reads decide:
//! which sockets are ytmgo's, the request line, how a reply line is read,
//! the track of a queue entry, and which cached lyrics are usable. The
//! socket and the database themselves are the caller's.

use vstd::prelude::*;
use crate::lrc::{lrc, parse_lrc};
use crate::lyrics::opt_chars;
use crate::player::TrackInfo;
use crate::text::{chars_of, push_str};

verus! {

/// `s` starts with `p`.
pub open spec fn starts_with(s: Seq<char>, p: Seq<char>) -> bool {
    p.len() <= s.len() && s.take(p.len() as int) == p
}

/// `s` ends with `p`.
pub open spec fn ends_with(s: Seq<char>, p: Seq<char>) -> bool {
    p.len() <= s.len() && s.skip(s.len() - p.len()) == p
}

/// Whether `v[lo..lo + p.len()]` is `p`.
pub(crate) fn matches_at(v: &Vec<char>, lo: usize, p: &Vec<char>) -> (r: bool)
    requires
        lo + p@.len() <= v@.len(),
    ensures
        r == (v@.subrange(lo as int, lo + p@.len()) == p@),
{
    let n = v.len();
    let mut k: usize = 0;
    while k < p.len()
        invariant
            n == v@.len(),
            lo + p@.len() <= v@.len(),
            k <= p@.len(),
            forall|j: int| 0 <= j < k ==> v@[lo + j] == p@[j],
        decreases p@.len() - k,
    {
        if v[lo + k] != p[k] {
            assert(v@.subrange(lo as int, lo + p@.len())[k as int] != p@[k as int]);
            return false;
        }
        k = k + 1;
    }
    assert(v@.subrange(lo as int, lo + p@.len()) =~= p@);
    true
}

/// Whether a file name is one of ytmgo's mpv IPC sockets
/// (`ytmgo-mpv-*.sock`).
pub fn is_mpv_socket_name(name: &str) -> (r: bool)
    ensures
        r == (starts_with(name@, "ytmgo-mpv-"@) && ends_with(name@, ".sock"@)),
{
    let v = chars_of(name);
    let pre = chars_of("ytmgo-mpv-");
    let suf = chars_of(".sock");
    let n = v.len();
    let starts = pre.len() <= n && matches_at(&v, 0, &pre);
    let ends = suf.len() <= n && matches_at(&v, n - suf.len(), &suf);
    proof {
        if pre@.len() <= n {
            assert(v@.subrange(0, pre@.len() as int) =~= v@.take(pre@.len() as int));
        }
        if suf@.len() <= n {
            assert(v@.subrange(n - suf@.len(), n as int) =~= v@.skip(n - suf@.len()));
        }
    }
    starts && ends
}

/// The IPC request line asking mpv for property `prop`.
pub open spec fn request_line(prop: Seq<char>) -> Seq<char> {
    "{\"command\":[\"get_property\",\""@ + prop + "\"]}\n"@
}

/// The IPC request line asking mpv for property `prop`.
pub fn mpv_request(prop: &str) -> (r: String)
    ensures
        r@ == request_line(prop@),
{
    let mut s = String::new();
    push_str(&mut s, "{\"command\":[\"get_property\",\"");
    push_str(&mut s, prop);
    push_str(&mut s, "\"]}\n");
    s
}

/// A reply line of mpv's IPC read as JSON: its `error` string and its
/// `data` boolean.
pub uninterp spec fn reply_fields(line: Seq<char>) -> Option<(Option<Seq<char>>, Option<bool>)>;

/// `serde_json::from_str` on a reply line: `None` when it is not JSON;
/// else the `error` member when it is a string, and the `data` member
/// when it is a boolean. The JSON grammar is not stated; the result is
/// named `reply_fields(line)`.
#[verifier::external_body]
fn json_reply_fields(line: &str) -> (r: Option<(Option<String>, Option<bool>)>)
    ensures
        r is Some <==> reply_fields(line@) is Some,
        r matches Some(f) ==> reply_fields(line@) == Some((opt_chars(f.0), f.1)),
{
    match serde_json::from_str::<serde_json::Value>(line) {
        Ok(v) => Some((
            match v.get("error") {
                Some(serde_json::Value::String(s)) => Some(s.clone()),
                _ => None,
            },
            match v.get("data") {
                Some(serde_json::Value::Bool(b)) => Some(*b),
                _ => None,
            },
        )),
        Err(_) => None,
    }
}

/// Reading a `pause` reply line: `Some(data)` once a reply says
/// `"error":"success"` (its `data` as a boolean, if it is one); `None`
/// when the line is something else and reading goes on.
pub open spec fn pause_reply(line: Seq<char>) -> Option<Option<bool>> {
    match reply_fields(line) {
        Some((Some(e), d)) => if e == "success"@ {
            Some(d)
        } else {
            None
        },
        _ => None,
    }
}

/// Reads one reply line to a `pause` request: `Some(paused)` once mpv
/// answered with success (`paused` is `None` when its data is not a
/// boolean), `None` when the line is not that answer.
pub fn pause_in_reply(line: &str) -> (r: Option<Option<bool>>)
    ensures
        r == pause_reply(line@),
{
    match json_reply_fields(line) {
        Some((Some(e), d)) => {
            let ev = chars_of(e.as_str());
            let sv = chars_of("success");
            if ev.len() == sv.len() {
                let mut k: usize = 0;
                while k < ev.len()
                    invariant
                        k <= ev@.len() == sv@.len(),
                        ev@ == e@,
                        sv@ == "success"@,
                        reply_fields(line@) == Some((Some(e@), d)),
                        forall|j: int| 0 <= j < k ==> ev@[j] == sv@[j],
                    decreases ev@.len() - k,
                {
                    if ev[k] != sv[k] {
                        assert(ev@ != sv@);
                        return None;
                    }
                    k = k + 1;
                }
                assert(ev@ =~= sv@);
                Some(d)
            } else {
                None
            }
        },
        _ => None,
    }
}

/// A queue entry of ytmgo's database read as JSON: its `title`, `artist`
/// and `album` members, each when it is a string.
pub uninterp spec fn queue_entry_fields(raw: Seq<char>) -> Option<
    (Option<Seq<char>>, Option<Seq<char>>, Option<Seq<char>>),
>;

/// `serde_json::from_str` on a queue entry: `None` when it is not JSON;
/// else its `title`, `artist` and `album` members, each when it is a
/// string. The JSON grammar is not stated; the result is named
/// `queue_entry_fields(raw)`.
#[verifier::external_body]
fn json_queue_entry(raw: &str) -> (r: Option<(Option<String>, Option<String>, Option<String>)>)
    ensures
        r is Some <==> queue_entry_fields(raw@) is Some,
        r matches Some(f) ==> queue_entry_fields(raw@) == Some(
            (opt_chars(f.0), opt_chars(f.1), opt_chars(f.2)),
        ),
{
    match serde_json::from_str::<serde_json::Value>(raw) {
        Ok(v) => Some((
            match v.get("title") { Some(serde_json::Value::String(s)) => Some(s.clone()), _ => None },
            match v.get("artist") { Some(serde_json::Value::String(s)) => Some(s.clone()), _ => None },
            match v.get("album") { Some(serde_json::Value::String(s)) => Some(s.clone()), _ => None },
        )),
        Err(_) => None,
    }
}

/// The track of a queue entry: `None` unless the entry is JSON with a
/// non-empty string `title`; the artist is empty when it is not a string,
/// the album is the `album` string if there is one, and the length is
/// `length_us` (the caller reads it from the entry's `duration_sec`).
pub fn track_from_queue_entry(raw: &str, length_us: Option<u64>) -> (r: Option<TrackInfo>)
    ensures
        r is Some <==> (queue_entry_fields(raw@) matches Some(f) && f.0 matches Some(t)
            && t.len() > 0),
        r matches Some(t) ==> {
            let f = queue_entry_fields(raw@).unwrap();
            &&& t.title@ == f.0.unwrap()
            &&& t.artist@ == match f.1 {
                Some(a) => a,
                None => Seq::empty(),
            }
            &&& opt_chars(t.album) == f.2
            &&& t.length == length_us
        },
{
    match json_queue_entry(raw) {
        Some((Some(title), artist, album)) => {
            if title.as_str().is_empty() {
                return None;
            }
            let artist = match artist {
                Some(a) => a,
                None => String::new(),
            };
            Some(TrackInfo { title, artist, album, length: length_us })
        },
        _ => None,
    }
}

/// ytmgo's cached lyrics for the current track, when they hold at least
/// one timed line.
pub fn usable_cached_lyrics(raw: String) -> (r: Option<String>)
    ensures
        r is Some <==> lrc(raw@).0.len() > 0,
        r matches Some(s) ==> s@ == raw@,
{
    let l = parse_lrc(raw.as_str());
    if l.lines.len() > 0 {
        Some(raw)
    } else {
        None
    }
}

} // verus!
