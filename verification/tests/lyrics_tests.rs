use tacos_lyrics::lrc::parse_lrc;
use tacos_lyrics::lyrics::{
    cache_file_name, clean_title, first_synced, lyrics_from_text, lyrics_in_reply, non_blank,
    synced_or_plain, synced_text, try_clean_title, url_encode, FetchAction, LyricsFetch, ReplyKind,
};
use tacos_lyrics::player::TrackInfo;

fn track(title: &str, artist: &str, album: Option<&str>, length: Option<u64>) -> TrackInfo {
    TrackInfo {
        title: title.to_string(),
        artist: artist.to_string(),
        album: album.map(|s| s.to_string()),
        length,
    }
}

#[test]
fn cleans_noisy_titles() {
    assert_eq!(clean_title("Song (Official Video)"), "Song");
    assert_eq!(clean_title("Song - Remastered 2011"), "Song");
    assert_eq!(clean_title("Song (feat. Someone)"), "Song");
    assert_eq!(clean_title("Song"), "Song");
}

#[test]
fn encodes_urls() {
    assert_eq!(url_encode("a b&c"), "a%20b%26c");
    assert_eq!(url_encode("möp"), "m%C3%B6p");
}

#[test]
fn picks_synced_over_plain() {
    let v = r#"{"syncedLyrics":"[00:01.00]hi","plainLyrics":"hi"}"#;
    assert_eq!(synced_or_plain(v).as_deref(), Some("[00:01.00]hi"));
    let p = r#"{"plainLyrics":"hi"}"#;
    assert!(synced_or_plain(p).is_none());
}

#[test]
fn clean_title_cases() {
    assert_eq!(clean_title("Song (LYRIC VIDEO)"), "Song");
    assert_eq!(clean_title("Song - Slowed Down (Audio)"), "Song");
    assert_eq!(clean_title("  Song [feat. X]  "), "Song");
    assert_eq!(clean_title("Song (with Y) (Official Audio)"), "Song");
    assert_eq!(try_clean_title("Plain").as_deref(), Some("Plain"));
}

#[test]
fn clean_title_cut_inside_a_character() {
    // The Kelvin sign (3 bytes) lowercases to 'k' (1 byte): the match
    // position in the lowercased title falls inside the first Kelvin sign.
    assert_eq!(try_clean_title("\u{212A}\u{212A}(Video)"), None);
}

#[test]
fn url_encode_keeps_unreserved() {
    assert_eq!(url_encode("Az09-_.~"), "Az09-_.~");
    assert_eq!(url_encode("/?="), "%2F%3F%3D");
    assert_eq!(url_encode(""), "");
}

#[test]
fn blank_synced_lyrics_are_unusable() {
    assert!(synced_or_plain(r#"{"syncedLyrics":"   \n"}"#).is_none());
    assert!(synced_or_plain(r#"{"syncedLyrics":null}"#).is_none());
    assert!(synced_or_plain("not json").is_none());
    assert_eq!(synced_text(Some("x".to_string())).as_deref(), Some("x"));
    assert_eq!(synced_text(None), None);
    assert_eq!(non_blank(" \t".to_string()), None);
}

#[test]
fn search_replies_take_the_first_synced_entry() {
    let body = r#"[{"plainLyrics":"p"},{"syncedLyrics":" "},{"syncedLyrics":"[00:01.00]a"},{"syncedLyrics":"[00:02.00]b"}]"#;
    assert_eq!(lyrics_in_reply(ReplyKind::Search, body).as_deref(), Some("[00:01.00]a"));
    assert_eq!(lyrics_in_reply(ReplyKind::Search, "[]"), None);
    assert_eq!(lyrics_in_reply(ReplyKind::Search, r#"{"syncedLyrics":"x"}"#), None);
    assert_eq!(lyrics_in_reply(ReplyKind::Get, r#"{"syncedLyrics":"x"}"#).as_deref(), Some("x"));
    assert_eq!(first_synced(&vec![None, Some("".to_string()), Some("y".to_string())]).as_deref(), Some("y"));
}

fn urls(f: &LyricsFetch) -> Vec<String> {
    f.requests.iter().map(|r| r.url.clone()).collect()
}

#[test]
fn fetch_plan_with_full_metadata() {
    let t = track("Song (Official Video)", "Art ist", Some("Al"), Some(215_500_000));
    let f = LyricsFetch::new(&t);
    assert_eq!(
        urls(&f),
        vec![
            "https://lrclib.net/api/get?track_name=Song%20%28Official%20Video%29&artist_name=Art%20ist&album_name=Al&duration=215".to_string(),
            "https://lrclib.net/api/search?track_name=Song&artist_name=Art%20ist&duration=215".to_string(),
            "https://lrclib.net/api/search?track_name=Song%20%28Official%20Video%29&artist_name=Art%20ist&duration=215".to_string(),
            "https://lrclib.net/api/search?q=Song%20%28Official%20Video%29&duration=215".to_string(),
        ]
    );
    assert_eq!(f.requests[0].kind, ReplyKind::Get);
    assert_eq!(f.requests[1].kind, ReplyKind::Search);
}

#[test]
fn fetch_plan_without_artist_or_album() {
    let t = track("Tune", "", Some(""), None);
    let f = LyricsFetch::new(&t);
    assert_eq!(
        urls(&f),
        vec![
            "https://lrclib.net/api/get?track_name=Tune&artist_name=".to_string(),
            "https://lrclib.net/api/search?track_name=Tune&artist_name=".to_string(),
            "https://lrclib.net/api/search?q=Tune".to_string(),
        ]
    );
}

#[test]
fn fetch_steps_until_lyrics() {
    let t = track("Tune", "A", None, None);
    let mut f = LyricsFetch::new(&t);
    let first = match f.step(None) {
        FetchAction::Send(u) => u,
        other => panic!("unexpected {other:?}"),
    };
    assert_eq!(first, "https://lrclib.net/api/get?track_name=Tune&artist_name=A");
    // the /get reply has no synced lyrics: go on with the search
    match f.step(Some(r#"{"plainLyrics":"x"}"#.to_string())) {
        FetchAction::Send(u) => assert_eq!(u, "https://lrclib.net/api/search?track_name=Tune&artist_name=A"),
        other => panic!("unexpected {other:?}"),
    }
    match f.step(Some(r#"[{"syncedLyrics":"[00:01.00]x"}]"#.to_string())) {
        FetchAction::Done(Some(l)) => assert_eq!(l, "[00:01.00]x"),
        other => panic!("unexpected {other:?}"),
    }
}

#[test]
fn fetch_steps_end_empty() {
    let t = track("Tune", "A", None, None);
    let mut f = LyricsFetch::new(&t);
    assert!(matches!(f.step(None), FetchAction::Send(_)));
    assert!(matches!(f.step(None), FetchAction::Send(_)));
    match f.step(None) {
        FetchAction::Send(u) => assert_eq!(u, "https://lrclib.net/api/search?q=Tune"),
        other => panic!("unexpected {other:?}"),
    }
    assert!(matches!(f.step(None), FetchAction::Done(None)));
    assert!(matches!(f.step(None), FetchAction::Done(None)));
}

#[test]
fn cache_file_names() {
    assert_eq!(cache_file_name(&track("Song X", "Artist", None, None)), "artist - song x.lrc");
    assert_eq!(cache_file_name(&track("???", "", None, None)), "_.lrc");
    assert_eq!(cache_file_name(&track("a/b:c", "", None, None)), "abc.lrc");
    let long = "x".repeat(100);
    assert_eq!(cache_file_name(&track(&long, "", None, None)), format!("{}.lrc", "x".repeat(80)));
    // 81 bytes: the two-byte 'é' at the end is popped whole
    let name = format!("{}é", "y".repeat(79));
    assert_eq!(cache_file_name(&track(&name, "", None, None)), format!("{}.lrc", "y".repeat(79)));
}

#[test]
fn lyrics_from_text_needs_a_timed_line() {
    assert!(lyrics_from_text("").is_none());
    assert!(lyrics_from_text("[ti:x]\nplain\n").is_none());
    let l = lyrics_from_text("[00:01.00]a").unwrap();
    assert_eq!(l.lines.len(), parse_lrc("[00:01.00]a").lines.len());
}

#[test]
fn fetch_sends_get_before_cleaning_the_title() {
    let t = track("\u{212A}\u{212A}(Video)", "A", None, None);
    let mut f = LyricsFetch::new(&t);
    assert!(!f.cleanable);
    assert_eq!(f.requests.len(), 1);
    match f.step(None) {
        FetchAction::Send(u) => assert!(u.starts_with("https://lrclib.net/api/get?track_name=")),
        other => panic!("unexpected {other:?}"),
    }
    assert!(matches!(f.step(None), FetchAction::Uncleanable));
    // /get still answers with lyrics
    let mut g = LyricsFetch::new(&t);
    let _ = g.step(None);
    match g.step(Some(r#"{"syncedLyrics":"[00:01.00]x"}"#.to_string())) {
        FetchAction::Done(Some(l)) => assert_eq!(l, "[00:01.00]x"),
        other => panic!("unexpected {other:?}"),
    }
}

#[test]
fn cleaning_twice_changes_nothing() {
    for raw in [
        "Song (Official Video)",
        "Song - Remastered 2011 (feat. X)",
        "Tune (Audio) (Video)",
        "  A (Lyric Video) - Sped Up ",
        "Plain",
    ] {
        let c = clean_title(raw);
        assert_eq!(clean_title(&c), c);
        assert!(raw.contains(c.as_str()));
        assert!(!c.to_lowercase().contains("(video)"));
    }
}
