use tacos_lyrics::cli::{parse_args, ArgsOutcome};
use tacos_lyrics::render::Font;

fn args(v: &[&str]) -> Vec<String> {
    v.iter().map(|s| s.to_string()).collect()
}

#[test]
fn defaults_without_flags() {
    match parse_args(&args(&[])).unwrap() {
        ArgsOutcome::Run(a) => {
            assert_eq!(a.font, Font::Block);
            assert!(a.karaoke);
            assert_eq!(a.refresh_ms, 50);
            assert!(a.show_header);
            assert!(a.theme_path.is_none());
        }
        _ => panic!("expected settings"),
    }
}

#[test]
fn flags_set_settings() {
    match parse_args(&args(&["-c", "--no-karaoke", "--refresh", "+120", "--theme", "t.txt", "--no-header"])).unwrap() {
        ArgsOutcome::Run(a) => {
            assert_eq!(a.font, Font::Compact);
            assert!(!a.karaoke);
            assert_eq!(a.refresh_ms, 120);
            assert_eq!(a.theme_path.as_deref(), Some("t.txt"));
        }
        _ => panic!("expected settings"),
    }
    match parse_args(&args(&["--compact", "-b"])).unwrap() {
        ArgsOutcome::Run(a) => assert_eq!(a.font, Font::Block),
        _ => panic!("expected settings"),
    }
}

#[test]
fn help_and_version_stop_reading() {
    assert!(matches!(parse_args(&args(&["-h", "--bogus"])), Ok(ArgsOutcome::Help)));
    assert!(matches!(parse_args(&args(&["--version"])), Ok(ArgsOutcome::Version)));
    assert!(matches!(parse_args(&args(&["-V"])), Ok(ArgsOutcome::Version)));
}

#[test]
fn flag_errors() {
    assert_eq!(parse_args(&args(&["--refresh"])).err().unwrap(), "--refresh needs a value (ms)");
    assert_eq!(parse_args(&args(&["--refresh", "abc"])).err().unwrap(), "bad --refresh value");
    assert_eq!(parse_args(&args(&["--refresh", "99999999999999999999"])).err().unwrap(), "bad --refresh value");
    assert_eq!(parse_args(&args(&["--refresh", "9"])).err().unwrap(), "--refresh minimum is 10ms");
    assert_eq!(parse_args(&args(&["--theme"])).err().unwrap(), "--theme needs a file path");
    assert_eq!(parse_args(&args(&["--bogus"])).err().unwrap(), "unknown argument: --bogus");
}
