//! Tracks and players: what a media player reports about its current
//! track, the key the lyrics cache is filed under, and which of several
//! players is the most relevant one. Talking to the players is left to
//! the caller.

use vstd::prelude::*;
use crate::lrc::{PlaybackStatus, opt_view};
use crate::text::{
    ascii_lower, chars_of, is_ascii_seq, is_ws, lower_of, push_str, str_to_lowercase,
    string_of_range, trim, trim_bounds, trim_end, trim_start,
};

verus! {

/// A track snapshot taken from a media player.
#[derive(Debug, Clone, PartialEq, Eq)]
pub struct TrackInfo {
    pub title: String,
    pub artist: String,
    pub album: Option<String>,
    /// Track length in microseconds.
    pub length: Option<u64>,
}

/// What a player's metadata says about its track, as plain values: the
/// fields that `TrackInfo::from_metadata` reads.
#[derive(Debug, Clone)]
pub struct TrackMetadata {
    pub title: Option<String>,
    pub artists: Option<Vec<String>>,
    pub album_artists: Option<Vec<String>>,
    pub album_name: Option<String>,
    /// Track length in microseconds.
    pub length_us: Option<u64>,
}

/// The characters of each string.
pub open spec fn strings_view(v: Seq<String>) -> Seq<Seq<char>> {
    v.map_values(|s: String| s@)
}

/// `parts` joined with `sep` between them (`[&str]::join`).
pub open spec fn join_with(parts: Seq<Seq<char>>, sep: Seq<char>) -> Seq<char>
    decreases parts.len(),
{
    if parts.len() == 0 {
        Seq::empty()
    } else if parts.len() == 1 {
        parts[0]
    } else {
        join_with(parts.drop_last(), sep) + sep + parts.last()
    }
}

/// The artist line: the artists joined by `, `, else the album artists,
/// else empty.
pub open spec fn artist_line(md: TrackMetadata) -> Seq<char> {
    match md.artists {
        Some(a) => join_with(strings_view(a@), ", "@),
        None => match md.album_artists {
            Some(b) => join_with(strings_view(b@), ", "@),
            None => Seq::empty(),
        },
    }
}

/// `artist - title`, or the title alone without an artist.
pub open spec fn raw_key(title: Seq<char>, artist: Seq<char>) -> Seq<char> {
    if artist.len() == 0 {
        title
    } else {
        artist + " - "@ + title
    }
}

/// The cache key: `artist - title` (or the title alone), trimmed, lowercased.
pub open spec fn cache_key_of(title: Seq<char>, artist: Seq<char>) -> Seq<char> {
    lower_of(trim(raw_key(title, artist)))
}

/// ASCII lowercase, character by character.
pub open spec fn lower_ascii(s: Seq<char>) -> Seq<char> {
    s.map_values(|c: char| ascii_lower(c))
}

proof fn lemma_ascii_lower_ws(c: char)
    ensures
        is_ws(ascii_lower(c)) == is_ws(c),
{
}

proof fn lemma_trim_start_lower(s: Seq<char>)
    ensures
        trim_start(lower_ascii(s)) == lower_ascii(trim_start(s)),
    decreases s.len(),
{
    if s.len() > 0 {
        lemma_ascii_lower_ws(s[0]);
        if is_ws(s[0]) {
            assert(lower_ascii(s).drop_first() =~= lower_ascii(s.drop_first()));
            lemma_trim_start_lower(s.drop_first());
        }
    }
}

proof fn lemma_trim_end_lower(s: Seq<char>)
    ensures
        trim_end(lower_ascii(s)) == lower_ascii(trim_end(s)),
    decreases s.len(),
{
    if s.len() > 0 {
        lemma_ascii_lower_ws(s.last());
        if is_ws(s.last()) {
            assert(lower_ascii(s).drop_last() =~= lower_ascii(s.drop_last()));
            lemma_trim_end_lower(s.drop_last());
        }
    }
}

/// Trimming and ASCII lowercasing can be done in either order.
proof fn lemma_trim_lower(s: Seq<char>)
    ensures
        trim(lower_ascii(s)) == lower_ascii(trim(s)),
{
    lemma_trim_start_lower(s);
    lemma_trim_end_lower(trim_start(s));
}

/// The cache key is stable: it depends on the title and artist alone (not
/// on album or length), and for ASCII titles and artists not on their
/// letter case.
pub proof fn lemma_cache_key_stable(a: TrackInfo, b: TrackInfo)
    requires
        is_ascii_seq(a.title@) && is_ascii_seq(a.artist@),
        is_ascii_seq(b.title@) && is_ascii_seq(b.artist@),
        lower_ascii(a.title@) == lower_ascii(b.title@),
        lower_ascii(a.artist@) == lower_ascii(b.artist@),
    ensures
        lower_ascii(trim(raw_key(a.title@, a.artist@))) == lower_ascii(
            trim(raw_key(b.title@, b.artist@)),
        ),
        a.title@ == b.title@ && a.artist@ == b.artist@ ==> cache_key_of(a.title@, a.artist@)
            == cache_key_of(b.title@, b.artist@),
{
    let sep = " - "@;
    assert(lower_ascii(a.artist@).len() == a.artist@.len());
    assert(lower_ascii(b.artist@).len() == b.artist@.len());
    assert(lower_ascii(a.artist@ + sep + a.title@) =~= lower_ascii(a.artist@) + lower_ascii(sep)
        + lower_ascii(a.title@));
    assert(lower_ascii(b.artist@ + sep + b.title@) =~= lower_ascii(b.artist@) + lower_ascii(sep)
        + lower_ascii(b.title@));
    assert(lower_ascii(raw_key(a.title@, a.artist@)) == lower_ascii(raw_key(b.title@, b.artist@)));
    lemma_trim_lower(raw_key(a.title@, a.artist@));
    lemma_trim_lower(raw_key(b.title@, b.artist@));
}

/// Joins `parts` with `", "`.
fn join_comma(parts: &Vec<String>) -> (r: String)
    ensures
        r@ == join_with(strings_view(parts@), ", "@),
{
    let ghost ps = strings_view(parts@);
    let mut out = String::new();
    let mut i: usize = 0;
    assert(ps.take(0) =~= Seq::<Seq<char>>::empty());
    while i < parts.len()
        invariant
            i <= parts@.len(),
            ps == strings_view(parts@),
            out@ == join_with(ps.take(i as int), ", "@),
        decreases parts@.len() - i,
    {
        if i > 0 {
            push_str(&mut out, ", ");
        }
        push_str(&mut out, parts[i].as_str());
        proof {
            assert(ps.take(i + 1).drop_last() =~= ps.take(i as int));
            assert(ps[i as int] == parts@[i as int]@);
            if i == 0 {
                assert(ps.take(1).len() == 1);
            }
        }
        i = i + 1;
    }
    assert(ps.take(parts@.len() as int) =~= ps);
    out
}

impl TrackInfo {
    /// The track a player reports: `None` without a title that is
    /// non-blank once trimmed.
    pub fn from_metadata(md: &TrackMetadata) -> (r: Option<TrackInfo>)
        ensures
            r is Some <==> (md.title matches Some(t) && trim(t@).len() > 0),
            r matches Some(t) ==> {
                &&& t.title@ == trim(md.title.unwrap()@)
                &&& t.artist@ == artist_line(*md)
                &&& opt_view(t.album) == opt_view(md.album_name)
                &&& t.length == md.length_us
            },
    {
        let raw = match &md.title {
            Some(t) => t,
            None => return None,
        };
        let v = chars_of(raw.as_str());
        let (a, b) = trim_bounds(&v, 0, v.len());
        assert(v@.subrange(0, v@.len() as int) =~= v@);
        if a == b {
            return None;
        }
        let title = string_of_range(&v, a, b);
        let artist = match &md.artists {
            Some(list) => join_comma(list),
            None => match &md.album_artists {
                Some(list) => join_comma(list),
                None => String::new(),
            },
        };
        let album = match &md.album_name {
            Some(s) => Some(s.clone()),
            None => None,
        };
        Some(TrackInfo { title, artist, album, length: md.length_us })
    }

    /// Stable key used for the lyrics cache: "artist - title" lowercased.
    pub fn cache_key(&self) -> (r: String)
        ensures
            r@ == cache_key_of(self.title@, self.artist@),
            is_ascii_seq(self.title@) && is_ascii_seq(self.artist@) ==> r@ == lower_ascii(
                trim(raw_key(self.title@, self.artist@)),
            ),
    {
        let mut key = String::new();
        if self.artist.as_str().is_empty() {
            push_str(&mut key, self.title.as_str());
        } else {
            push_str(&mut key, self.artist.as_str());
            push_str(&mut key, " - ");
            push_str(&mut key, self.title.as_str());
        }
        let v = chars_of(key.as_str());
        let (a, b) = trim_bounds(&v, 0, v.len());
        assert(v@.subrange(0, v@.len() as int) =~= v@);
        let trimmed = string_of_range(&v, a, b);
        proof {
            if is_ascii_seq(self.title@) && is_ascii_seq(self.artist@) {
                reveal_strlit(" - ");
                assert(is_ascii_seq(v@));
                assert(is_ascii_seq(trimmed@));
                assert(trimmed@.map_values(|c: char| ascii_lower(c)) =~= lower_ascii(trimmed@));
            }
        }
        str_to_lowercase(trimmed.as_str())
    }
}

/// A currently active player and its current track.
#[derive(Debug, Clone)]
pub struct ActivePlayer {
    pub name: String,
    pub track: TrackInfo,
}

/// How relevant a player is: playing 3, paused 2, anything else 1.
pub open spec fn score_of(status: Option<PlaybackStatus>) -> u8 {
    match status {
        Some(PlaybackStatus::Playing) => 3,
        Some(PlaybackStatus::Paused) => 2,
        _ => 1,
    }
}

/// How relevant a player is: playing 3, paused 2, anything else (stopped,
/// or a status that could not be read) 1.
pub fn status_score(status: Option<PlaybackStatus>) -> (r: u8)
    ensures
        r == score_of(status),
{
    match status {
        Some(PlaybackStatus::Playing) => 3,
        Some(PlaybackStatus::Paused) => 2,
        _ => 1,
    }
}

/// `i` is the first of the candidates (the `Some` values) with the
/// greatest value.
pub open spec fn is_first_best(values: Seq<Option<u128>>, i: int) -> bool {
    &&& 0 <= i < values.len()
    &&& values[i] is Some
    &&& forall|j: int| 0 <= j < values.len() && values[j] is Some ==> values[j].unwrap()
        <= values[i].unwrap()
    &&& forall|j: int| 0 <= j < i && values[j] is Some ==> values[j].unwrap() < values[i].unwrap()
}

/// The first candidate with the greatest value, skipping `None`s: a later
/// candidate wins only with a strictly greater value. `None` when there is
/// no candidate.
pub fn best_candidate(values: &Vec<Option<u128>>) -> (r: Option<usize>)
    ensures
        r is None <==> forall|j: int| 0 <= j < values@.len() ==> values@[j] is None,
        r matches Some(i) ==> is_first_best(values@, i as int),
{
    let mut best: Option<usize> = None;
    let mut best_val: u128 = 0;
    let mut i: usize = 0;
    while i < values.len()
        invariant
            i <= values@.len(),
            best is None <==> forall|j: int| 0 <= j < i ==> values@[j] is None,
            best matches Some(b) ==> {
                &&& b < i
                &&& values@[b as int] == Some(best_val)
                &&& forall|j: int| 0 <= j < i && values@[j] is Some ==> values@[j].unwrap()
                    <= best_val
                &&& forall|j: int| 0 <= j < b && values@[j] is Some ==> values@[j].unwrap()
                    < best_val
            },
        decreases values@.len() - i,
    {
        match values[i] {
            Some(x) => {
                if best.is_none() || x > best_val {
                    best = Some(i);
                    best_val = x;
                }
            },
            None => {},
        }
        i = i + 1;
    }
    best
}

} // verus!
