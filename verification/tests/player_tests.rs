use tacos_lyrics::lrc::PlaybackStatus;
use tacos_lyrics::player::{best_candidate, status_score, TrackInfo, TrackMetadata};

#[test]
fn cache_key_normalizes() {
    let t = TrackInfo {
        title: "Song X".into(),
        artist: "Artist".into(),
        album: None,
        length: None,
    };
    assert_eq!(t.cache_key(), "artist - song x");
    let t2 = TrackInfo {
        title: "Solo".into(),
        artist: String::new(),
        album: None,
        length: None,
    };
    assert_eq!(t2.cache_key(), "solo");
}

fn md(title: Option<&str>, artists: Option<Vec<&str>>, album_artists: Option<Vec<&str>>) -> TrackMetadata {
    TrackMetadata {
        title: title.map(|s| s.to_string()),
        artists: artists.map(|v| v.into_iter().map(|s| s.to_string()).collect()),
        album_artists: album_artists.map(|v| v.into_iter().map(|s| s.to_string()).collect()),
        album_name: Some("Album".into()),
        length_us: Some(42),
    }
}

#[test]
fn track_from_metadata() {
    let t = TrackInfo::from_metadata(&md(Some("  Title "), Some(vec!["A", "B"]), Some(vec!["C"]))).unwrap();
    assert_eq!(t.title, "Title");
    assert_eq!(t.artist, "A, B");
    assert_eq!(t.album.as_deref(), Some("Album"));
    assert_eq!(t.length, Some(42));
    let t = TrackInfo::from_metadata(&md(Some("T"), None, Some(vec!["C"]))).unwrap();
    assert_eq!(t.artist, "C");
    let t = TrackInfo::from_metadata(&md(Some("T"), Some(vec![]), Some(vec!["C"]))).unwrap();
    assert_eq!(t.artist, "");
    let t = TrackInfo::from_metadata(&md(Some("T"), None, None)).unwrap();
    assert_eq!(t.artist, "");
    assert!(TrackInfo::from_metadata(&md(Some("   "), None, None)).is_none());
    assert!(TrackInfo::from_metadata(&md(None, None, None)).is_none());
}

#[test]
fn cache_key_trims_and_lowercases() {
    let t = TrackInfo { title: " ÁB ".into(), artist: String::new(), album: None, length: None };
    assert_eq!(t.cache_key(), "áb");
}

#[test]
fn player_scores() {
    assert_eq!(status_score(Some(PlaybackStatus::Playing)), 3);
    assert_eq!(status_score(Some(PlaybackStatus::Paused)), 2);
    assert_eq!(status_score(Some(PlaybackStatus::Stopped)), 1);
    assert_eq!(status_score(None), 1);
}

#[test]
fn first_best_candidate_wins() {
    assert_eq!(best_candidate(&vec![]), None);
    assert_eq!(best_candidate(&vec![None, None]), None);
    assert_eq!(best_candidate(&vec![Some(1), None, Some(3), Some(3), Some(2)]), Some(2));
    assert_eq!(best_candidate(&vec![None, Some(0)]), Some(1));
}
