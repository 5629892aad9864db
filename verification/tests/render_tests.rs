use tacos_lyrics::render::{big_width, fit_big, render_big, word_cols, word_times, words_of, Font};

#[test]
fn block_render_shape() {
    let rows = render_big("AB", Font::Block);
    assert_eq!(rows.len(), 5);
    // A(7)+sep(1)+B(7) = 15, plus B's trailing separator = 16
    assert_eq!(rows[0].chars().count(), 16);
    assert!(rows[0].contains("██"));
    // every row is the same width -> vertical alignment is exact
    assert!(rows.iter().all(|r| r.chars().count() == 16));
}

#[test]
fn compact_render_shape() {
    let rows = render_big("A", Font::Compact);
    assert_eq!(rows.len(), 3);
    // glyph + trailing separator space (rows keep uniform width)
    assert_eq!(rows[0], "▄▀▄ ");
}

#[test]
fn unknown_char_is_space() {
    let rows = render_big("Ω", Font::Block);
    assert!(rows.iter().all(|r| r.trim().is_empty()));
}

#[test]
fn width_matches_render() {
    for (t, f) in [("HELLO", Font::Block), ("HEY", Font::Compact)] {
        assert_eq!(big_width(t, f), render_big(t, f)[0].chars().count());
    }
}

#[test]
fn fit_truncates_words() {
    let long = "one two three four five six seven eight";
    let fit = fit_big(long, Font::Block, 40);
    assert!(big_width(&fit, Font::Block) <= 40);
    assert!(long.contains(fit.trim()) || fit == "...");
}

#[test]
fn words_split() {
    let v = word_times("la la la", 10_000, 13_000);
    assert_eq!(v.len(), 3);
    assert_eq!(v[0].1, "la");
    assert!((v[0].0 as f64 / 1000.0 - 10.0).abs() < 1e-9);
    assert!((v[1].0 as f64 / 1000.0 - 11.0).abs() < 1e-9);
    assert!((v[2].0 as f64 / 1000.0 - 12.0).abs() < 1e-9);
}

#[test]
fn words_with_punct() {
    let v = word_times("don't stop!", 0, 2000);
    assert_eq!(v.len(), 2);
    assert_eq!(v[0].1, "don't");
    assert_eq!(v[1].1, "stop!");
}

#[test]
fn word_cols_align_with_words() {
    let line = "la la";
    let wc = word_cols(line, Font::Block);
    assert_eq!(wc.len(), 2);
    // block glyphs are 7 cols wide + 1 separator: L(8) + A(8) = 16
    assert_eq!(wc[0], (0, 16));
    // space glyph 4+1=5, so second word starts at 16+5=21
    assert_eq!(wc[1].0, 21);
    assert_eq!(wc[1].1, 21 + 16);
}

#[test]
fn word_cols_count_matches_word_times() {
    let line = "one two three";
    assert_eq!(
        word_cols(line, Font::Block).len(),
        word_times(line, 0, 9000).len()
    );
    let wc = word_cols(line, Font::Block);
    assert!(wc.windows(2).all(|w| w[0].1 <= w[1].0));
    // last word's end == total render width (incl. trailing separator)
    assert_eq!(wc[2].1, big_width(line, Font::Block));
}

#[test]
fn lowercase_and_accents_render_as_capitals() {
    assert_eq!(render_big("ñá", Font::Block), render_big("NA", Font::Block));
    assert_eq!(big_width("i", Font::Block), 4);
    assert_eq!(render_big("b", Font::Compact), vec!["█▀▄ ", "█▀▄ ", "▀▀  "]);
}

#[test]
fn compact_has_no_punctuation() {
    // '!' is a block glyph but not a compact one: drawn as a space there
    assert_eq!(render_big("!", Font::Compact), render_big(" ", Font::Compact));
    assert_eq!(big_width("!", Font::Block), 3);
    assert!(Font::Compact.glyph('!').is_none());
    assert_eq!(Font::Block.glyph('¡'), Font::Block.glyph('!'));
}

#[test]
fn empty_text_renders_empty_rows() {
    let rows = render_big("", Font::Block);
    assert_eq!(rows.len(), 5);
    assert!(rows.iter().all(|r| r.is_empty()));
    assert_eq!(big_width("", Font::Compact), 0);
}

#[test]
fn fit_keeps_text_that_fits_and_falls_back() {
    assert_eq!(fit_big("hi", Font::Block, 100), "hi");
    // drops leading words
    assert_eq!(fit_big("aaa bbb c", Font::Block, 16), "c");
    assert_eq!(fit_big("aaa bbb cc", Font::Block, 45), "bbb cc");
    assert_eq!(fit_big("aaa bbb cc", Font::Block, 44), "cc");
    // no word fits: "..." where it fits, else nothing
    assert_eq!(fit_big("wwww", Font::Block, 5), "");
    let dots = big_width("...", Font::Block);
    assert_eq!(fit_big("wwww", Font::Block, dots), "...");
    assert!(big_width(&fit_big("A", Font::Block, 0), Font::Block) == 0);
    // only blanks: no words, empty result fits
    assert_eq!(fit_big("     ", Font::Block, 3), "");
}

#[test]
fn words_of_are_byte_ranges() {
    assert_eq!(words_of("  ab  ü c "), vec![(2, 2), (6, 2), (9, 1)]);
    assert_eq!(words_of(""), vec![]);
}

#[test]
fn word_times_spreads_at_least_half_a_second() {
    let v = word_times("a b", 1000, 1100);
    assert_eq!(v[0].0, 1000);
    assert_eq!(v[1].0, 1250);
    let v = word_times("a b c", 0, 1000);
    assert_eq!(v.iter().map(|w| w.0).collect::<Vec<_>>(), vec![0, 333, 666]);
    assert!(word_times("   ", 0, 10).is_empty());
}

#[test]
fn word_starts_are_ordered_within_the_line() {
    let v = word_times("a b c d e f g", 4000, 4700);
    assert_eq!(v[0].0, 4000);
    for w in v.windows(2) {
        assert!(w[0].0 <= w[1].0);
    }
    assert!(v.iter().all(|w| w.0 < 4700));
}

#[test]
fn word_cols_are_widths_of_prefixes() {
    let line = "go  on now";
    let cols = word_cols(line, Font::Block);
    let ws = words_of(line);
    assert_eq!(cols.len(), ws.len());
    for (c, w) in cols.iter().zip(ws.iter()) {
        assert_eq!(c.0, big_width(&line[..w.0], Font::Block));
        assert_eq!(c.1, big_width(&line[..w.0 + w.1], Font::Block));
    }
    assert_eq!(cols.last().unwrap().1, big_width(line, Font::Block));
}

#[test]
fn words_of_slices_are_split_whitespace() {
    for line in ["  héllo wörld\tx ", "", "one", " a  b "] {
        let ws = words_of(line);
        let slices: Vec<&str> = ws.iter().map(|&(s, l)| &line[s..s + l]).collect();
        assert_eq!(slices, line.split_whitespace().collect::<Vec<_>>());
        for w in ws.windows(2) {
            assert!(w[0].0 + w[0].1 < w[1].0);
        }
    }
}
