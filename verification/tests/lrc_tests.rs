use tacos_lyrics::lrc::{parse_lrc, LyricLine, Lyrics, PlaybackStatus};

fn secs(ms: u64) -> f64 {
    ms as f64 / 1000.0
}

#[test]
fn parses_basic_lrc() {
    let lrc = parse_lrc("[00:01.00]hello\n[00:05.50] world \n[ti:Song]\n[ar:Someone]\n");
    assert_eq!(lrc.lines.len(), 2);
    assert_eq!(secs(lrc.lines[0].time_ms), 1.0);
    assert_eq!(lrc.lines[0].text, "hello");
    assert_eq!(secs(lrc.lines[1].time_ms), 5.5);
    assert_eq!(lrc.lines[1].text, "world");
    assert_eq!(lrc.title.as_deref(), Some("Song"));
    assert_eq!(lrc.artist.as_deref(), Some("Someone"));
}

#[test]
fn multi_timestamp_line() {
    let lrc = parse_lrc("[00:10.00][01:20.50]chorus\n");
    assert_eq!(lrc.lines.len(), 2);
    assert_eq!(secs(lrc.lines[1].time_ms), 80.5);
}

#[test]
fn line_at_current() {
    let lrc = parse_lrc("[00:01.00]one\n[00:05.00]two\n[00:09.00]three\n");
    assert_eq!(lrc.line_at(0), None);
    assert_eq!(lrc.line_at(1000), Some(0));
    assert_eq!(lrc.line_at(6200), Some(1));
    assert_eq!(lrc.line_at(999_000), Some(2));
}

#[test]
fn ignores_plain_lines_and_junk() {
    let lrc = parse_lrc("no timestamps here\n[garbage tag]\n[offset:500]\n");
    assert!(lrc.lines.is_empty());
}

#[test]
fn three_fraction_digits() {
    let lrc = parse_lrc("[00:01.123]x\n");
    assert!((secs(lrc.lines[0].time_ms) - 1.123).abs() < 1e-9);
}

#[test]
fn lines_come_out_sorted_and_stable() {
    let lrc = parse_lrc("[00:05.00]b\n[00:01.00]a\n[00:05.00]c\n[00:03.00][00:07.00]d\n");
    let got: Vec<(u64, &str)> = lrc.lines.iter().map(|l| (l.time_ms, l.text.as_str())).collect();
    assert_eq!(got, vec![(1000, "a"), (3000, "d"), (5000, "b"), (5000, "c"), (7000, "d")]);
}

#[test]
fn comments_blank_lines_and_crlf() {
    let lrc = parse_lrc("# a comment [00:01.00]x\r\n\r\n  [00:02.00]  two words  \r\n");
    assert_eq!(lrc.lines.len(), 1);
    assert_eq!(lrc.lines[0].time_ms, 2000);
    assert_eq!(lrc.lines[0].text, "two words");
}

#[test]
fn metadata_keys_any_case_last_wins() {
    let lrc = parse_lrc("[TI: First ]\n[Ar:X]\n[ti:Second]\n");
    assert_eq!(lrc.title.as_deref(), Some("Second"));
    assert_eq!(lrc.artist.as_deref(), Some("X"));
    assert!(lrc.lines.is_empty());
}

#[test]
fn timestamp_forms_and_ranges() {
    // minutes up to 99, seconds up to 60, sign and spaces accepted
    let lrc = parse_lrc("[99:60]max\n[ +1 : 2. ]a\n[-0:.5]z\n[100:00]no\n[00:60.5]no\n[1:x]no\n");
    let got: Vec<(u64, &str)> = lrc.lines.iter().map(|l| (l.time_ms, l.text.as_str())).collect();
    assert_eq!(got, vec![(500, "z"), (62_000, "a"), (6_000_000, "max")]);
}

#[test]
fn fractional_minutes() {
    let lrc = parse_lrc("[1.5:00]half\n");
    assert_eq!(lrc.lines[0].time_ms, 90_000);
}

#[test]
fn unterminated_tag_stays_in_text() {
    let lrc = parse_lrc("[00:01.00][abc\n");
    assert_eq!(lrc.lines.len(), 1);
    assert_eq!(lrc.lines[0].text, "[abc");
}

#[test]
fn first_tag_may_start_with_any_ascii() {
    // the first tag body starts after the line's first character
    let lrc = parse_lrc("x00:02]y\n");
    assert_eq!(lrc.lines.len(), 1);
    assert_eq!(lrc.lines[0].time_ms, 2000);
    assert_eq!(lrc.lines[0].text, "y");
}

#[test]
fn junk_lines_are_skipped() {
    let lrc = parse_lrc("]\n[00:01.00]a\n");
    assert_eq!(lrc.lines.len(), 1);
    assert_eq!(lrc.lines[0].time_ms, 1000);
    assert_eq!(lrc.lines[0].text, "a");
    let lrc = parse_lrc("é]oops [00:02.00]\n[ti:T]\n]x[00:03.00]y\n");
    assert!(lrc.lines.is_empty());
    assert_eq!(lrc.title.as_deref(), Some("T"));
    let lrc = parse_lrc("é without tags\n[00:04.00]z");
    assert_eq!(lrc.lines.len(), 1);
}

#[test]
fn line_at_on_empty_and_exact_times() {
    let empty = Lyrics::default();
    assert_eq!(empty.line_at(5), None);
    let lrc = Lyrics {
        lines: vec![
            LyricLine { time_ms: 10, text: "a".into() },
            LyricLine { time_ms: 10, text: "b".into() },
            LyricLine { time_ms: 20, text: "c".into() },
        ],
        title: None,
        artist: None,
    };
    assert_eq!(lrc.line_at(9), None);
    assert_eq!(lrc.line_at(10), Some(1));
    assert_eq!(lrc.line_at(19), Some(1));
    assert_eq!(lrc.line_at(20), Some(2));
}

#[test]
fn playback_status_labels() {
    assert_eq!(PlaybackStatus::Playing.label(), "Playing");
    assert_eq!(PlaybackStatus::Paused.label(), "Paused");
    assert_eq!(PlaybackStatus::Stopped.label(), "Stopped");
}

#[test]
fn timestamps_with_exponents() {
    let lrc = parse_lrc(
        "[1e1:00]a\n[0:1.5e1]b\n[0:6E1]c\n[0:6.1e1]no\n[0:1e-1]d\n[1e:00]no\n[0:1e400]no\n[0:0e400]e\n[0:5e-400]f\n[0:+25e-1]g\n",
    );
    let got: Vec<(u64, &str)> = lrc.lines.iter().map(|l| (l.time_ms, l.text.as_str())).collect();
    assert_eq!(
        got,
        vec![(0, "e"), (0, "f"), (100, "d"), (2_500, "g"), (15_000, "b"), (60_000, "c"), (600_000, "a")]
    );
}
