use tacos_lyrics::screen::ScreenColors;
use tacos_lyrics::theme::{apply_theme, theme_sgr_exec, ThemeColor};

fn base() -> ScreenColors {
    ScreenColors { header: "H".into(), sung: "S".into(), unsung: "U".into(), paused: "P".into() }
}

#[test]
fn theme_file_sets_the_four_colors() {
    let mut c = base();
    apply_theme(
        &mut c,
        "# ~/.config/tacos-lyrics/theme.txt\nsung   = #cba6f7      # sung words\nunsung = palette:8\npaused = dim\nheader = default\n",
    );
    assert_eq!(c.sung, "\x1b[38;2;203;166;247m");
    assert_eq!(c.unsung, "\x1b[38;5;8m");
    assert_eq!(c.paused, "\x1b[2m");
    assert_eq!(c.header, "\x1b[39m");
}

#[test]
fn theme_short_hex_and_bad_lines() {
    let mut c = base();
    apply_theme(&mut c, "sung=#f80\nunsung = palette:256\npaused = #12345\ncolor = dim\nheader\n  # header = dim\n");
    assert_eq!(c.sung, "\x1b[38;2;255;136;0m");
    assert_eq!(c.unsung, "U");
    assert_eq!(c.paused, "P");
    assert_eq!(c.header, "H");
    let mut c = base();
    apply_theme(&mut c, "");
    assert_eq!(c.sung, "S");
}

#[test]
fn theme_color_codes() {
    assert_eq!(theme_sgr_exec(ThemeColor::Slot(255)), "\x1b[38;5;255m");
    assert_eq!(theme_sgr_exec(ThemeColor::Rgb(1, 2, 3)), "\x1b[38;2;1;2;3m");
    assert_eq!(theme_sgr_exec(ThemeColor::Default), "\x1b[39m");
    assert_eq!(theme_sgr_exec(ThemeColor::Dim), "\x1b[2m");
}
