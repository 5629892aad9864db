use tacos_lyrics::ytmgo::{
    is_mpv_socket_name, mpv_request, pause_in_reply, track_from_queue_entry, usable_cached_lyrics,
};

#[test]
fn socket_names() {
    assert!(is_mpv_socket_name("ytmgo-mpv-1234.sock"));
    assert!(is_mpv_socket_name("ytmgo-mpv-.sock"));
    assert!(!is_mpv_socket_name("ytmgo-mpv-1234.socket"));
    assert!(!is_mpv_socket_name("other-mpv-1.sock"));
    assert!(!is_mpv_socket_name("ytmgo-mpv.sock"));
}

#[test]
fn request_line() {
    assert_eq!(mpv_request("pause"), "{\"command\":[\"get_property\",\"pause\"]}\n");
}

#[test]
fn pause_replies() {
    assert_eq!(pause_in_reply(r#"{"data":true,"error":"success","request_id":0}"#), Some(Some(true)));
    assert_eq!(pause_in_reply(r#"{"data":false,"error":"success"}"#), Some(Some(false)));
    assert_eq!(pause_in_reply(r#"{"error":"success"}"#), Some(None));
    assert_eq!(pause_in_reply(r#"{"event":"pause"}"#), None);
    assert_eq!(pause_in_reply(r#"{"error":"property unavailable"}"#), None);
    assert_eq!(pause_in_reply("garbage"), None);
}

#[test]
fn queue_entries_give_tracks() {
    let t = track_from_queue_entry(
        r#"{"id":"x","title":"Song","artist":"Art","album":"Al","duration_sec":12.5}"#,
        Some(12_500_000),
    )
    .unwrap();
    assert_eq!(t.title, "Song");
    assert_eq!(t.artist, "Art");
    assert_eq!(t.album.as_deref(), Some("Al"));
    assert_eq!(t.length, Some(12_500_000));
    let t = track_from_queue_entry(r#"{"title":"Solo","artist":7}"#, None).unwrap();
    assert_eq!(t.artist, "");
    assert!(t.album.is_none());
    assert!(track_from_queue_entry(r#"{"title":""}"#, None).is_none());
    assert!(track_from_queue_entry(r#"{"title":3}"#, None).is_none());
    assert!(track_from_queue_entry("not json", None).is_none());
}

#[test]
fn cached_lyrics_need_a_timed_line() {
    assert_eq!(
        usable_cached_lyrics("[00:01.00]hi".to_string()).as_deref(),
        Some("[00:01.00]hi")
    );
    assert!(usable_cached_lyrics("just words".to_string()).is_none());
    assert!(usable_cached_lyrics("  ".to_string()).is_none());
}
