use tacos_lyrics::lrc::{parse_lrc, LyricLine, Lyrics, PlaybackStatus};
use tacos_lyrics::player::TrackInfo;
use tacos_lyrics::render::{big_width, render_big, Font};
use tacos_lyrics::screen::{
    build_frame, draw_lyric_frame, draw_simple, tick_step, TickStep, is_quit_key, player_update, shows_paused, Frame,
    ScreenColors,
};

fn colors() -> ScreenColors {
    ScreenColors { header: "<H>".into(), sung: "<S>".into(), unsung: "<U>".into(), paused: "<P>".into() }
}

#[test]
fn frame_follows_the_active_line() {
    let lyr = parse_lrc("[00:01.00]la la\n[00:05.00]   \n[00:09.00]end\n");
    let f = build_frame(&lyr, 0, false, Font::Block, true, 200);
    assert_eq!(f.line, "la la");
    let f = build_frame(&lyr, 6000, false, Font::Block, true, 200);
    assert_eq!(f.line, "•••");
    let f = build_frame(&lyr, 3500, true, Font::Block, true, 200);
    assert_eq!(f.sung_cols, usize::MAX);
    assert!(f.paused);
    let f = build_frame(&lyr, 3500, false, Font::Block, false, 200);
    assert_eq!(f.sung_cols, 0);
}

#[test]
fn karaoke_columns_advance_by_word() {
    let lyr = parse_lrc("[00:01.00]la la\n[00:05.00]next\n");
    // words at 1.0 s and 3.0 s: "LA" ends at col 16, "LA LA" at 37
    assert_eq!(build_frame(&lyr, 1000, false, Font::Block, true, 200).sung_cols, 16);
    assert_eq!(build_frame(&lyr, 2999, false, Font::Block, true, 200).sung_cols, 16);
    assert_eq!(build_frame(&lyr, 3000, false, Font::Block, true, 200).sung_cols, 37);
    assert_eq!(big_width("la la", Font::Block), 37);
}

#[test]
fn frame_line_is_fitted() {
    let lyr = parse_lrc("[00:00.00]one two three\n");
    let f = build_frame(&lyr, 0, false, Font::Block, true, 60);
    assert_eq!(f.line, "three");
}

#[test]
fn screen_layout() {
    let frame = Frame { line: "A".into(), sung_cols: 4, paused: false };
    let track = TrackInfo { title: "T".into(), artist: "A".into(), album: None, length: None };
    let out = draw_lyric_frame(&colors(), &frame, &track, 12, 10, Font::Compact, true, true);
    let rows = render_big("A", Font::Compact);
    let mut want = String::from("\x1b[H");
    want.push_str("<H>");
    want.push_str(&"─".repeat(5));
    want.push_str(" A - T \x1b[0m\x1b[K\r\n");
    // 10 rows - (3 + 1) = 6 free, half of it, plus one under the header
    want.push_str(&"\x1b[K\r\n".repeat(4));
    for row in &rows {
        let cut: String = row.chars().take(4).collect();
        let rest: String = row.chars().skip(4).collect();
        want.push_str(&format!("\x1b[K    <S>{cut}<U>{rest}\x1b[0m\r\n"));
    }
    want.push_str("\x1b[J");
    assert_eq!(out, want);
}

#[test]
fn simple_screen_shows_big_text() {
    let (out, frame) = draw_simple(&colors(), "•••", "waiting", 80, 24, Font::Block, true, false);
    assert_eq!(frame.line, "•••");
    assert_eq!(frame.sung_cols, 0);
    assert!(!frame.paused);
    assert!(out.starts_with("\x1b[H\x1b[K\r\n"));
    assert!(out.ends_with("\x1b[0m\r\n\x1b[J"));
    assert!(out.contains("<S>"));
}

#[test]
fn paused_rows_use_the_paused_color() {
    let frame = Frame { line: "A".into(), sung_cols: usize::MAX, paused: true };
    let track = TrackInfo { title: "T".into(), artist: String::new(), album: None, length: None };
    let out = draw_lyric_frame(&colors(), &frame, &track, 1, 1, Font::Compact, true, false);
    assert_eq!(out.matches("<P>").count(), 3);
    assert!(!out.contains("<U>"));
}

#[test]
fn player_updates() {
    let a = ("p".to_string(), TrackInfo { title: "t".into(), artist: "a".into(), album: None, length: Some(1) });
    let b = ("p".to_string(), TrackInfo { title: "t".into(), artist: "a".into(), album: None, length: Some(2) });
    assert_eq!(player_update(&None, None), None);
    assert_eq!(player_update(&None, Some(a.clone())), Some(Some(a.clone())));
    assert_eq!(player_update(&Some(a.clone()), Some(a.clone())), None);
    assert_eq!(player_update(&Some(a.clone()), Some(b.clone())), Some(Some(b)));
    assert_eq!(player_update(&Some(a), None), Some(None));
}

#[test]
fn keys_and_pause_state() {
    assert!(is_quit_key(b'q'));
    assert!(is_quit_key(3));
    assert!(!is_quit_key(b'Q'));
    assert!(shows_paused(None));
    assert!(shows_paused(Some(PlaybackStatus::Paused)));
    assert!(shows_paused(Some(PlaybackStatus::Stopped)));
    assert!(!shows_paused(Some(PlaybackStatus::Playing)));
}

#[test]
fn karaoke_never_goes_back_within_a_line() {
    let lyr = parse_lrc("[00:01.00]one two three four\n[00:09.00]next\n");
    let mut last = 0;
    let mut t = 1000;
    while t < 9000 {
        let c = build_frame(&lyr, t, false, Font::Compact, true, 400).sung_cols;
        assert!(c >= last, "at {t} ms: {c} < {last}");
        last = c;
        t += 250;
    }
    assert_eq!(last, big_width("one two three four", Font::Compact));
}

#[test]
fn seeking_shows_the_line_of_the_new_position() {
    let lyr = parse_lrc("[00:09.00]end\n[00:01.00]first\n[00:05.00]middle\n");
    assert_eq!(build_frame(&lyr, 9500, false, Font::Block, false, 200).line, "end");
    assert_eq!(build_frame(&lyr, 1500, false, Font::Block, false, 200).line, "first");
    assert_eq!(build_frame(&lyr, 5000, false, Font::Block, false, 200).line, "middle");
    assert_eq!(build_frame(&lyr, 500, false, Font::Block, false, 200).line, "first");
}

#[test]
fn frame_of_unordered_lines_follows_line_at() {
    let lyr = Lyrics {
        lines: vec![
            LyricLine { time_ms: 5000, text: "b".into() },
            LyricLine { time_ms: 1000, text: "a".into() },
            LyricLine { time_ms: 9000, text: "c".into() },
        ],
        title: None,
        artist: None,
    };
    for t in [0u64, 1500, 5500, 9500] {
        let idx = lyr.line_at(t).unwrap_or(0);
        let f = build_frame(&lyr, t, false, Font::Block, false, 200);
        assert_eq!(f.line, lyr.lines[idx].text);
    }
}

#[test]
fn tick_decisions_come_in_order() {
    let t = TrackInfo { title: "T".into(), artist: "".into(), album: None, length: None };
    let cur = Some(("p".to_string(), t));
    let lyr = Some(parse_lrc("[00:01.00]x"));
    assert_eq!(tick_step(Some(b'q'), &cur, &lyr, false), TickStep::Quit);
    assert_eq!(tick_step(Some(3), &None, &None, false), TickStep::Quit);
    assert_eq!(tick_step(Some(b'x'), &None, &None, false), TickStep::Idle);
    assert_eq!(tick_step(None, &cur, &None, false), TickStep::Lookup);
    assert_eq!(tick_step(None, &cur, &None, true), TickStep::Idle);
    assert_eq!(tick_step(None, &cur, &lyr, false), TickStep::Frame);
}
