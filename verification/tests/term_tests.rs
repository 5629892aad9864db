use tacos_lyrics::term::{palette_from_replies, parse_osc_rgb, Palette, Rgb};

#[test]
fn parse_rgb_replies() {
    // 4-digit form: scale each 16-bit channel to 8-bit (with rounding)
    assert_eq!(parse_osc_rgb("10;rgb:ffff/0000/00ff"), Some(Rgb(255, 0, 1)));
    // 2-digit form is already 8-bit
    assert_eq!(
        parse_osc_rgb("11;rgb:1a2b/3c4d/5e6f"),
        Some(Rgb(0x1a, 0x3c, 0x5e))
    );
    assert_eq!(parse_osc_rgb("10;rgb:ff/00/99"), Some(Rgb(255, 0, 153)));
    assert_eq!(parse_osc_rgb("garbage"), None);
}

#[test]
fn dim_blends() {
    let p = Palette {
        fg: Rgb(255, 255, 255),
        bg: Rgb(0, 0, 0),
        has_bg: true,
        has_fg: true,
    };
    let dim = p.dim();
    assert!(dim.contains("38;2;"), "{dim}");
    // 255*0.55 = 140
    assert!(dim.contains("140;140;140"), "{dim}");
}

#[test]
fn osc_rgb_channel_forms() {
    assert_eq!(parse_osc_rgb("rgb:f/8/0"), Some(Rgb(255, 136, 0)));
    assert_eq!(parse_osc_rgb("rgb:fff/800/000"), Some(Rgb(255, 127, 0)));
    assert_eq!(parse_osc_rgb("rgb: ff / 10 /20 "), Some(Rgb(255, 16, 32)));
    // missing channels are 0, extra ones are ignored
    assert_eq!(parse_osc_rgb("rgb:ff"), Some(Rgb(255, 0, 0)));
    assert_eq!(parse_osc_rgb("rgb:01/02/03/zz"), Some(Rgb(1, 2, 3)));
    // a leading '+' is part of the number
    assert_eq!(parse_osc_rgb("rgb:+f/0/0"), Some(Rgb(15, 0, 0)));
    assert_eq!(parse_osc_rgb("rgb:"), None);
    assert_eq!(parse_osc_rgb("rgb:fffff/0/0"), None);
    assert_eq!(parse_osc_rgb("rgb:gg/0/0"), None);
}

#[test]
fn lyric_color_code() {
    let p = Palette { fg: Rgb(1, 22, 255), bg: Rgb(0, 0, 0), has_bg: false, has_fg: true };
    assert_eq!(p.lyric(), "\x1b[38;2;1;22;255m");
    let q = Palette { fg: Rgb(100, 100, 100), bg: Rgb(200, 0, 50), has_bg: true, has_fg: true };
    assert_eq!(q.dim(), "\x1b[38;2;145;55;77m");
    let r = Palette { fg: Rgb(100, 100, 100), bg: Rgb(200, 0, 50), has_bg: false, has_fg: true };
    assert_eq!(r.dim(), "\x1b[38;2;55;55;55m");
}

#[test]
fn palette_from_terminal_replies() {
    let bel = "\x1b]10;rgb:ffff/8080/0000\x07\x1b]11;rgb:0000/0000/0000\x07";
    let p = palette_from_replies(bel);
    assert_eq!(p.fg, Rgb(255, 128, 0));
    assert_eq!(p.bg, Rgb(0, 0, 0));
    assert!(p.has_bg);
    // no answer: the terminal's own default and faint colors
    let none = palette_from_replies("");
    assert!(!none.has_fg);
    assert!(!none.has_bg);
    assert_eq!(none.lyric(), "\x1b[39m");
    assert_eq!(none.dim(), "\x1b[2m");
    // only a foreground answer
    let fg_only = palette_from_replies("\x1b]10;rgb:10/20/30\x07");
    assert_eq!(fg_only.fg, Rgb(16, 32, 48));
    assert!(!fg_only.has_bg);
    // ST-terminated (ESC \) replies are read too
    let st = palette_from_replies("\x1b]10;rgb:cccc/dddd/eeee\x1b\\\x1b]11;rgb:1111/2222/3333\x1b\\");
    assert_eq!(st.fg, Rgb(204, 221, 238));
    assert_eq!(st.bg, Rgb(17, 34, 51));
    assert!(st.has_fg && st.has_bg);
}
