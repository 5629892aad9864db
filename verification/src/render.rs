//! Pure rendering: the block and compact big-letter fonts, layout of a
//! lyric line in big letters, and karaoke word timing. No terminal I/O.

use vstd::prelude::*;
use crate::text::{
    ascii_upper, byte_words, char_utf8_len, chars_of, is_ascii_seq, is_ws, lemma_upper_ascii_take,
    upper_of, spans_from, lemma_ascii_upper_same_ws, lemma_spans_from,
    lemma_spans_same_ws, lemma_utf8_len_sub, lemma_utf8_len_take, spans, upper_chars, upper_seq,
    utf8_len, word_spans, words,
};

verus! {

/// The two big-letter fonts.
#[derive(Debug, Clone, Copy, PartialEq, Eq, Structural)]
pub enum Font {
    /// Five rows of full blocks.
    Block,
    /// Three rows of half blocks (letters and space only).
    Compact,
}

impl Font {
    /// The rows of the glyph for `c`, if the font has one.
    pub open spec fn glyph_rows(self, c: char) -> Option<Seq<&'static str>> {
        match self {
            Font::Block => block_rows(base_letter(c)),
            Font::Compact => compact_rows(c),
        }
    }

    /// Number of rows of the font.
    pub open spec fn height_spec(self) -> nat {
        match self {
            Font::Block => 5,
            Font::Compact => 3,
        }
    }

    /// The glyph for `c`, one string per row, if the font has one.
    pub fn glyph(self, c: char) -> (r: Option<&'static [&'static str]>)
        ensures
            r matches Some(g) ==> self.glyph_rows(c) == Some(g@),
            r is None <==> self.glyph_rows(c) is None,
    {
        match self {
            Font::Block => block(base_letter_exec(c)),
            Font::Compact => compact(c),
        }
    }

    /// Number of rows of the font.
    fn height(self) -> (r: usize)
        ensures
            r == self.height_spec(),
    {
        match self {
            Font::Block => 5,
            Font::Compact => 3,
        }
    }
}

/// The rows of the block-font glyph for `c` (5 rows), if the font has one.
pub open spec fn block_rows(c: char) -> Option<Seq<&'static str>> {
    match c {
        'A' => Some(seq!["  ███  ", " ██ ██ ", "███████", "██   ██", "██   ██"]),
        'B' => Some(seq!["██████ ", "██   ██", "██████ ", "██   ██", "██████ "]),
        'C' => Some(seq![" █████ ", "██   ██", "██     ", "██   ██", " █████ "]),
        'D' => Some(seq!["██████ ", "██   ██", "██   ██", "██   ██", "██████ "]),
        'E' => Some(seq!["███████", "██     ", "█████  ", "██     ", "███████"]),
        'F' => Some(seq!["███████", "██     ", "█████  ", "██     ", "██     "]),
        'G' => Some(seq![" █████ ", "██     ", "██  ███", "██   ██", " █████ "]),
        'H' => Some(seq!["██   ██", "██   ██", "███████", "██   ██", "██   ██"]),
        'I' => Some(seq!["███", " ██", " ██", " ██", "███"]),
        'J' => Some(seq!["     ██", "     ██", "     ██", "██   ██", " █████ "]),
        'K' => Some(seq!["██   ██", "██  ██ ", "█████  ", "██  ██ ", "██   ██"]),
        'L' => Some(seq!["██     ", "██     ", "██     ", "██     ", "███████"]),
        'M' => Some(seq!["██   ██", "███ ███", "███████", "██ █ ██", "██   ██"]),
        'N' => Some(seq!["██   ██", "███  ██", "████ ██", "██ ████", "██   ██"]),
        'O' => Some(seq![" █████ ", "██   ██", "██   ██", "██   ██", " █████ "]),
        'P' => Some(seq!["██████ ", "██   ██", "██████ ", "██     ", "██     "]),
        'Q' => Some(seq![" █████ ", "██   ██", "██   ██", "██  ███", " ██████"]),
        'R' => Some(seq!["██████ ", "██   ██", "██████ ", "██  ██ ", "██   ██"]),
        'S' => Some(seq![" █████ ", "██     ", " █████ ", "     ██", " █████ "]),
        'T' => Some(seq!["███████", "  ██   ", "  ██   ", "  ██   ", "  ██   "]),
        'U' => Some(seq!["██   ██", "██   ██", "██   ██", "██   ██", " █████ "]),
        'V' => Some(seq!["██   ██", "██   ██", "██   ██", " ██ ██ ", "  ███  "]),
        'W' => Some(seq!["██   ██", "██   ██", "██ █ ██", "███████", "███ ███"]),
        'X' => Some(seq!["██   ██", " ██ ██ ", "  ███  ", " ██ ██ ", "██   ██"]),
        'Y' => Some(seq!["██   ██", " ██ ██ ", "  ███  ", "  ██   ", "  ██   "]),
        'Z' => Some(seq!["███████", "    ██ ", "  ███  ", " ██    ", "███████"]),
        ' ' => Some(seq!["    ", "    ", "    ", "    ", "    "]),
        '0' => Some(seq![" █████ ", "██   ██", "██   ██", "██   ██", " █████ "]),
        '1' => Some(seq!["  ██   ", " ███   ", "  ██   ", "  ██   ", "███████"]),
        '2' => Some(seq![" █████ ", "██   ██", "   ███ ", " ██    ", "███████"]),
        '3' => Some(seq![" █████ ", "██   ██", "  ████ ", "██   ██", " █████ "]),
        '4' => Some(seq!["██   ██", "██   ██", "███████", "     ██", "     ██"]),
        '5' => Some(seq!["███████", "██     ", "██████ ", "     ██", "██████ "]),
        '6' => Some(seq![" █████ ", "██     ", "██████ ", "██   ██", " █████ "]),
        '7' => Some(seq!["███████", "     ██", "    ██ ", "   ██  ", "  ██   "]),
        '8' => Some(seq![" █████ ", "██   ██", " █████ ", "██   ██", " █████ "]),
        '9' => Some(seq![" █████ ", "██   ██", " ██████", "     ██", " █████ "]),
        '[' => Some(seq!["███", "██ ", "██ ", "██ ", "███"]),
        ']' => Some(seq!["███", " ██", " ██", " ██", "███"]),
        '\'' => Some(seq!["██", "██", "  ", "  ", "  "]),
        ',' => Some(seq!["  ", "  ", "  ", "██", "█ "]),
        '.' => Some(seq!["  ", "  ", "  ", "  ", "██"]),
        '!' => Some(seq!["██", "██", "██", "  ", "██"]),
        '?' => Some(seq![" ███ ", "█   █", "   █ ", "     ", "  █  "]),
        '-' => Some(seq!["      ", "      ", "██████", "      ", "      "]),
        '(' => Some(seq![" ██", "██ ", "██ ", "██ ", " ██"]),
        ')' => Some(seq!["██ ", " ██", " ██", " ██", "██ "]),
        ':' => Some(seq!["  ", "██", "  ", "██", "  "]),
        ';' => Some(seq!["  ", "██", "  ", "██", "█ "]),
        '/' => Some(seq!["    ██", "   ██ ", "  ██  ", " ██   ", "██    "]),
        '\\' => Some(seq!["██    ", " ██   ", "  ██  ", "   ██ ", "    ██"]),
        '"' => Some(seq!["██ ██", "██ ██", "     ", "     ", "     "]),
        '&' => Some(seq![" ███  ", "█   █ ", " ███  ", "█ █ █ ", " ███ █"]),
        '#' => Some(seq![" █ █ ", "█████", " █ █ ", "█████", " █ █ "]),
        '*' => Some(seq!["█ █ █", " ███ ", "█████", " ███ ", "█ █ █"]),
        '+' => Some(seq!["  ██  ", "  ██  ", "██████", "  ██  ", "  ██  "]),
        '=' => Some(seq!["      ", "██████", "      ", "██████", "      "]),
        '<' => Some(seq!["   ██ ", "  ██  ", " ██   ", "  ██  ", "   ██ "]),
        '>' => Some(seq![" ██   ", "  ██  ", "   ██ ", "  ██  ", " ██   "]),
        '@' => Some(seq![" ████ ", "█    █", "█ ██ █", "█ ██ █", " ████ "]),
        '•' => Some(seq!["      ", "  ██  ", "  ██  ", "      ", "      "]),
        _ => None,
    }
}

/// The block-font glyph for `c`, if the font has one.
fn block(c: char) -> (r: Option<&'static [&'static str]>)
    ensures
        r matches Some(g) ==> block_rows(c) == Some(g@),
        r is None <==> block_rows(c) is None,
{
    match c {
        'A' => Some(&["  ███  ", " ██ ██ ", "███████", "██   ██", "██   ██"]),
        'B' => Some(&["██████ ", "██   ██", "██████ ", "██   ██", "██████ "]),
        'C' => Some(&[" █████ ", "██   ██", "██     ", "██   ██", " █████ "]),
        'D' => Some(&["██████ ", "██   ██", "██   ██", "██   ██", "██████ "]),
        'E' => Some(&["███████", "██     ", "█████  ", "██     ", "███████"]),
        'F' => Some(&["███████", "██     ", "█████  ", "██     ", "██     "]),
        'G' => Some(&[" █████ ", "██     ", "██  ███", "██   ██", " █████ "]),
        'H' => Some(&["██   ██", "██   ██", "███████", "██   ██", "██   ██"]),
        'I' => Some(&["███", " ██", " ██", " ██", "███"]),
        'J' => Some(&["     ██", "     ██", "     ██", "██   ██", " █████ "]),
        'K' => Some(&["██   ██", "██  ██ ", "█████  ", "██  ██ ", "██   ██"]),
        'L' => Some(&["██     ", "██     ", "██     ", "██     ", "███████"]),
        'M' => Some(&["██   ██", "███ ███", "███████", "██ █ ██", "██   ██"]),
        'N' => Some(&["██   ██", "███  ██", "████ ██", "██ ████", "██   ██"]),
        'O' => Some(&[" █████ ", "██   ██", "██   ██", "██   ██", " █████ "]),
        'P' => Some(&["██████ ", "██   ██", "██████ ", "██     ", "██     "]),
        'Q' => Some(&[" █████ ", "██   ██", "██   ██", "██  ███", " ██████"]),
        'R' => Some(&["██████ ", "██   ██", "██████ ", "██  ██ ", "██   ██"]),
        'S' => Some(&[" █████ ", "██     ", " █████ ", "     ██", " █████ "]),
        'T' => Some(&["███████", "  ██   ", "  ██   ", "  ██   ", "  ██   "]),
        'U' => Some(&["██   ██", "██   ██", "██   ██", "██   ██", " █████ "]),
        'V' => Some(&["██   ██", "██   ██", "██   ██", " ██ ██ ", "  ███  "]),
        'W' => Some(&["██   ██", "██   ██", "██ █ ██", "███████", "███ ███"]),
        'X' => Some(&["██   ██", " ██ ██ ", "  ███  ", " ██ ██ ", "██   ██"]),
        'Y' => Some(&["██   ██", " ██ ██ ", "  ███  ", "  ██   ", "  ██   "]),
        'Z' => Some(&["███████", "    ██ ", "  ███  ", " ██    ", "███████"]),
        ' ' => Some(&["    ", "    ", "    ", "    ", "    "]),
        '0' => Some(&[" █████ ", "██   ██", "██   ██", "██   ██", " █████ "]),
        '1' => Some(&["  ██   ", " ███   ", "  ██   ", "  ██   ", "███████"]),
        '2' => Some(&[" █████ ", "██   ██", "   ███ ", " ██    ", "███████"]),
        '3' => Some(&[" █████ ", "██   ██", "  ████ ", "██   ██", " █████ "]),
        '4' => Some(&["██   ██", "██   ██", "███████", "     ██", "     ██"]),
        '5' => Some(&["███████", "██     ", "██████ ", "     ██", "██████ "]),
        '6' => Some(&[" █████ ", "██     ", "██████ ", "██   ██", " █████ "]),
        '7' => Some(&["███████", "     ██", "    ██ ", "   ██  ", "  ██   "]),
        '8' => Some(&[" █████ ", "██   ██", " █████ ", "██   ██", " █████ "]),
        '9' => Some(&[" █████ ", "██   ██", " ██████", "     ██", " █████ "]),
        '[' => Some(&["███", "██ ", "██ ", "██ ", "███"]),
        ']' => Some(&["███", " ██", " ██", " ██", "███"]),
        '\'' => Some(&["██", "██", "  ", "  ", "  "]),
        ',' => Some(&["  ", "  ", "  ", "██", "█ "]),
        '.' => Some(&["  ", "  ", "  ", "  ", "██"]),
        '!' => Some(&["██", "██", "██", "  ", "██"]),
        '?' => Some(&[" ███ ", "█   █", "   █ ", "     ", "  █  "]),
        '-' => Some(&["      ", "      ", "██████", "      ", "      "]),
        '(' => Some(&[" ██", "██ ", "██ ", "██ ", " ██"]),
        ')' => Some(&["██ ", " ██", " ██", " ██", "██ "]),
        ':' => Some(&["  ", "██", "  ", "██", "  "]),
        ';' => Some(&["  ", "██", "  ", "██", "█ "]),
        '/' => Some(&["    ██", "   ██ ", "  ██  ", " ██   ", "██    "]),
        '\\' => Some(&["██    ", " ██   ", "  ██  ", "   ██ ", "    ██"]),
        '"' => Some(&["██ ██", "██ ██", "     ", "     ", "     "]),
        '&' => Some(&[" ███  ", "█   █ ", " ███  ", "█ █ █ ", " ███ █"]),
        '#' => Some(&[" █ █ ", "█████", " █ █ ", "█████", " █ █ "]),
        '*' => Some(&["█ █ █", " ███ ", "█████", " ███ ", "█ █ █"]),
        '+' => Some(&["  ██  ", "  ██  ", "██████", "  ██  ", "  ██  "]),
        '=' => Some(&["      ", "██████", "      ", "██████", "      "]),
        '<' => Some(&["   ██ ", "  ██  ", " ██   ", "  ██  ", "   ██ "]),
        '>' => Some(&[" ██   ", "  ██  ", "   ██ ", "  ██  ", " ██   "]),
        '@' => Some(&[" ████ ", "█    █", "█ ██ █", "█ ██ █", " ████ "]),
        '•' => Some(&["      ", "  ██  ", "  ██  ", "      ", "      "]),
        _ => None,
    }
}

/// The rows of the compact-font glyph for `c` (3 rows), if the font has one.
pub open spec fn compact_rows(c: char) -> Option<Seq<&'static str>> {
    match c {
        'A' => Some(seq!["▄▀▄", "█▀█", "▀ ▀"]),
        'B' => Some(seq!["█▀▄", "█▀▄", "▀▀ "]),
        'C' => Some(seq!["▄▀▀", "█  ", "▀▀▀"]),
        'D' => Some(seq!["█▀▄", "█ █", "▀▀ "]),
        'E' => Some(seq!["█▀▀", "█▀ ", "▀▀▀"]),
        'F' => Some(seq!["█▀▀", "█▀ ", "▀  "]),
        'G' => Some(seq!["▄▀▀", "█ ▀", "▀▀▀"]),
        'H' => Some(seq!["█ █", "█▀█", "▀ ▀"]),
        'I' => Some(seq!["█", "█", "▀"]),
        'J' => Some(seq![" █", " █", "▀ "]),
        'K' => Some(seq!["█ █", "█▀ ", "▀ ▀"]),
        'L' => Some(seq!["█  ", "█  ", "▀▀▀"]),
        'M' => Some(seq!["█▄▀▄█", "█ ▀ █", "▀   ▀"]),
        'N' => Some(seq!["█▄█", "█ █", "▀ ▀"]),
        'O' => Some(seq!["▄▀▀▄", "█  █", "▀▀▀ "]),
        'P' => Some(seq!["█▀▄", "█▀ ", "▀  "]),
        'Q' => Some(seq!["▄▀▀▄", "█ ▀█", "▀▀ ▀"]),
        'R' => Some(seq!["█▀▄", "█▀▄", "▀ ▀"]),
        'S' => Some(seq!["▄▀▀", " ▀▄", "▀▀ "]),
        'T' => Some(seq!["▀█▀", " █ ", " ▀ "]),
        'U' => Some(seq!["█ █", "█ █", "▀▀▀"]),
        'V' => Some(seq!["█ █", "█ █", " ▀ "]),
        'W' => Some(seq!["█   █", "█ ▄ █", "▀▀▀▀▀"]),
        'X' => Some(seq!["█ █", " ▀ ", "▀ ▀"]),
        'Y' => Some(seq!["█ █", " ▀ ", " ▀ "]),
        'Z' => Some(seq!["▀▀█", " █ ", "█▀▀"]),
        ' ' => Some(seq!["   ", "   ", "   "]),
        _ => None,
    }
}

/// The compact-font glyph for `c`, if the font has one.
fn compact(c: char) -> (r: Option<&'static [&'static str]>)
    ensures
        r matches Some(g) ==> compact_rows(c) == Some(g@),
        r is None <==> compact_rows(c) is None,
{
    match c {
        'A' => Some(&["▄▀▄", "█▀█", "▀ ▀"]),
        'B' => Some(&["█▀▄", "█▀▄", "▀▀ "]),
        'C' => Some(&["▄▀▀", "█  ", "▀▀▀"]),
        'D' => Some(&["█▀▄", "█ █", "▀▀ "]),
        'E' => Some(&["█▀▀", "█▀ ", "▀▀▀"]),
        'F' => Some(&["█▀▀", "█▀ ", "▀  "]),
        'G' => Some(&["▄▀▀", "█ ▀", "▀▀▀"]),
        'H' => Some(&["█ █", "█▀█", "▀ ▀"]),
        'I' => Some(&["█", "█", "▀"]),
        'J' => Some(&[" █", " █", "▀ "]),
        'K' => Some(&["█ █", "█▀ ", "▀ ▀"]),
        'L' => Some(&["█  ", "█  ", "▀▀▀"]),
        'M' => Some(&["█▄▀▄█", "█ ▀ █", "▀   ▀"]),
        'N' => Some(&["█▄█", "█ █", "▀ ▀"]),
        'O' => Some(&["▄▀▀▄", "█  █", "▀▀▀ "]),
        'P' => Some(&["█▀▄", "█▀ ", "▀  "]),
        'Q' => Some(&["▄▀▀▄", "█ ▀█", "▀▀ ▀"]),
        'R' => Some(&["█▀▄", "█▀▄", "▀ ▀"]),
        'S' => Some(&["▄▀▀", " ▀▄", "▀▀ "]),
        'T' => Some(&["▀█▀", " █ ", " ▀ "]),
        'U' => Some(&["█ █", "█ █", "▀▀▀"]),
        'V' => Some(&["█ █", "█ █", " ▀ "]),
        'W' => Some(&["█   █", "█ ▄ █", "▀▀▀▀▀"]),
        'X' => Some(&["█ █", " ▀ ", "▀ ▀"]),
        'Y' => Some(&["█ █", " ▀ ", " ▀ "]),
        'Z' => Some(&["▀▀█", " █ ", "█▀▀"]),
        ' ' => Some(&["   ", "   ", "   "]),
        _ => None,
    }
}

/// Accented capitals (and the Spanish opening marks) drawn as their base letter.
pub open spec fn base_letter(c: char) -> char {
    match c {
        'Á' => 'A',
        'À' => 'A',
        'Ä' => 'A',
        'Â' => 'A',
        'Ã' => 'A',
        'Å' => 'A',
        'É' => 'E',
        'È' => 'E',
        'Ë' => 'E',
        'Ê' => 'E',
        'Í' => 'I',
        'Ì' => 'I',
        'Ï' => 'I',
        'Î' => 'I',
        'Ó' => 'O',
        'Ò' => 'O',
        'Ö' => 'O',
        'Ô' => 'O',
        'Õ' => 'O',
        'Ú' => 'U',
        'Ù' => 'U',
        'Ü' => 'U',
        'Û' => 'U',
        'Ñ' => 'N',
        'Ç' => 'C',
        'Ý' => 'Y',
        '¡' => '!',
        '¿' => '?',
        _ => c,
    }
}

/// Accented capitals (and the Spanish opening marks) drawn as their base letter.
fn base_letter_exec(c: char) -> (r: char)
    ensures
        r == base_letter(c),
{
    match c {
        'Á' => 'A',
        'À' => 'A',
        'Ä' => 'A',
        'Â' => 'A',
        'Ã' => 'A',
        'Å' => 'A',
        'É' => 'E',
        'È' => 'E',
        'Ë' => 'E',
        'Ê' => 'E',
        'Í' => 'I',
        'Ì' => 'I',
        'Ï' => 'I',
        'Î' => 'I',
        'Ó' => 'O',
        'Ò' => 'O',
        'Ö' => 'O',
        'Ô' => 'O',
        'Õ' => 'O',
        'Ú' => 'U',
        'Ù' => 'U',
        'Ü' => 'U',
        'Û' => 'U',
        'Ñ' => 'N',
        'Ç' => 'C',
        'Ý' => 'Y',
        '¡' => '!',
        '¿' => '?',
        _ => c,
    }
}

/// A character glyphs are drawn with: a full, upper-half or lower-half
/// block, or a space.
pub open spec fn is_block_char(c: char) -> bool {
    c == '█' || c == '▀' || c == '▄' || c == ' '
}

/// Accented capitals (and `¡`, `¿`) are drawn in the block font with the
/// glyph of their base letter (`Ó` as `O`, `Ñ` as `N`, `¡` as `!`, ...),
/// and those base glyphs exist; so a line renders as it would without its
/// accents.
pub proof fn lemma_accents_drawn_as_base()
    ensures
        Font::Block.glyph_rows('Á') == Font::Block.glyph_rows('A'),
        Font::Block.glyph_rows('À') == Font::Block.glyph_rows('A'),
        Font::Block.glyph_rows('Ä') == Font::Block.glyph_rows('A'),
        Font::Block.glyph_rows('Â') == Font::Block.glyph_rows('A'),
        Font::Block.glyph_rows('Ã') == Font::Block.glyph_rows('A'),
        Font::Block.glyph_rows('Å') == Font::Block.glyph_rows('A'),
        Font::Block.glyph_rows('É') == Font::Block.glyph_rows('E'),
        Font::Block.glyph_rows('È') == Font::Block.glyph_rows('E'),
        Font::Block.glyph_rows('Ë') == Font::Block.glyph_rows('E'),
        Font::Block.glyph_rows('Ê') == Font::Block.glyph_rows('E'),
        Font::Block.glyph_rows('Í') == Font::Block.glyph_rows('I'),
        Font::Block.glyph_rows('Ì') == Font::Block.glyph_rows('I'),
        Font::Block.glyph_rows('Ï') == Font::Block.glyph_rows('I'),
        Font::Block.glyph_rows('Î') == Font::Block.glyph_rows('I'),
        Font::Block.glyph_rows('Ó') == Font::Block.glyph_rows('O'),
        Font::Block.glyph_rows('Ò') == Font::Block.glyph_rows('O'),
        Font::Block.glyph_rows('Ö') == Font::Block.glyph_rows('O'),
        Font::Block.glyph_rows('Ô') == Font::Block.glyph_rows('O'),
        Font::Block.glyph_rows('Õ') == Font::Block.glyph_rows('O'),
        Font::Block.glyph_rows('Ú') == Font::Block.glyph_rows('U'),
        Font::Block.glyph_rows('Ù') == Font::Block.glyph_rows('U'),
        Font::Block.glyph_rows('Ü') == Font::Block.glyph_rows('U'),
        Font::Block.glyph_rows('Û') == Font::Block.glyph_rows('U'),
        Font::Block.glyph_rows('Ñ') == Font::Block.glyph_rows('N'),
        Font::Block.glyph_rows('Ç') == Font::Block.glyph_rows('C'),
        Font::Block.glyph_rows('Ý') == Font::Block.glyph_rows('Y'),
        Font::Block.glyph_rows('¡') == Font::Block.glyph_rows('!'),
        Font::Block.glyph_rows('¿') == Font::Block.glyph_rows('?'),
        Font::Block.glyph_rows('!') is Some,
        Font::Block.glyph_rows('?') is Some,
        Font::Block.glyph_rows('A') is Some,
        Font::Block.glyph_rows('C') is Some,
        Font::Block.glyph_rows('E') is Some,
        Font::Block.glyph_rows('I') is Some,
        Font::Block.glyph_rows('N') is Some,
        Font::Block.glyph_rows('O') is Some,
        Font::Block.glyph_rows('U') is Some,
        Font::Block.glyph_rows('Y') is Some,
{
}

/// Every glyph has the font's height, all its rows have the width of its
/// first row, which is not zero, and it is drawn with block characters
/// and spaces only.
pub proof fn lemma_glyph_shape(font: Font, c: char)
    ensures
        font.glyph_rows(c) matches Some(g) ==> g.len() == font.height_spec() && 0 < g[0]@.len() <= 7
            && forall|i: int| 0 <= i < g.len() ==> #[trigger] g[i]@.len() == g[0]@.len(),
        font.glyph_rows(c) matches Some(g) ==> forall|i: int, j: int|
            0 <= i < g.len() && 0 <= j < g[i]@.len() ==> is_block_char(#[trigger] g[i]@[j]),
{
    reveal_strlit("  ");
    reveal_strlit("   ");
    reveal_strlit("    ");
    reveal_strlit("     ");
    reveal_strlit("      ");
    reveal_strlit("     ██");
    reveal_strlit("    ██");
    reveal_strlit("    ██ ");
    reveal_strlit("   █ ");
    reveal_strlit("   ██ ");
    reveal_strlit("   ██  ");
    reveal_strlit("   ███ ");
    reveal_strlit("  █  ");
    reveal_strlit("  ██  ");
    reveal_strlit("  ██   ");
    reveal_strlit("  ███  ");
    reveal_strlit("  ████ ");
    reveal_strlit(" ▀ ");
    reveal_strlit(" ▀▄");
    reveal_strlit(" █");
    reveal_strlit(" █ ");
    reveal_strlit(" █ █ ");
    reveal_strlit(" ██");
    reveal_strlit(" ██   ");
    reveal_strlit(" ██    ");
    reveal_strlit(" ██ ██ ");
    reveal_strlit(" ███ ");
    reveal_strlit(" ███  ");
    reveal_strlit(" ███   ");
    reveal_strlit(" ███ █");
    reveal_strlit(" ████ ");
    reveal_strlit(" █████ ");
    reveal_strlit(" ██████");
    reveal_strlit("▀");
    reveal_strlit("▀ ");
    reveal_strlit("▀  ");
    reveal_strlit("▀   ▀");
    reveal_strlit("▀ ▀");
    reveal_strlit("▀▀ ");
    reveal_strlit("▀▀ ▀");
    reveal_strlit("▀▀▀");
    reveal_strlit("▀▀▀ ");
    reveal_strlit("▀▀▀▀▀");
    reveal_strlit("▀▀█");
    reveal_strlit("▀█▀");
    reveal_strlit("▄▀▀");
    reveal_strlit("▄▀▀▄");
    reveal_strlit("▄▀▄");
    reveal_strlit("█");
    reveal_strlit("█ ");
    reveal_strlit("█  ");
    reveal_strlit("█    █");
    reveal_strlit("█   █");
    reveal_strlit("█   █ ");
    reveal_strlit("█  █");
    reveal_strlit("█ ▀");
    reveal_strlit("█ ▀ █");
    reveal_strlit("█ ▀█");
    reveal_strlit("█ ▄ █");
    reveal_strlit("█ █");
    reveal_strlit("█ █ █");
    reveal_strlit("█ █ █ ");
    reveal_strlit("█ ██ █");
    reveal_strlit("█▀ ");
    reveal_strlit("█▀▀");
    reveal_strlit("█▀▄");
    reveal_strlit("█▀█");
    reveal_strlit("█▄▀▄█");
    reveal_strlit("█▄█");
    reveal_strlit("██");
    reveal_strlit("██ ");
    reveal_strlit("██    ");
    reveal_strlit("██     ");
    reveal_strlit("██   ██");
    reveal_strlit("██  ██ ");
    reveal_strlit("██  ███");
    reveal_strlit("██ █ ██");
    reveal_strlit("██ ██");
    reveal_strlit("██ ████");
    reveal_strlit("███");
    reveal_strlit("███  ██");
    reveal_strlit("███ ███");
    reveal_strlit("████ ██");
    reveal_strlit("█████");
    reveal_strlit("█████  ");
    reveal_strlit("██████");
    reveal_strlit("██████ ");
    reveal_strlit("███████");
}


/// The glyph drawn for `c`: its own, or the space glyph when the font has none.
pub open spec fn drawn(font: Font, c: char) -> Seq<&'static str> {
    match font.glyph_rows(c) {
        Some(g) => g,
        None => font.glyph_rows(' ').unwrap(),
    }
}

/// Columns one character occupies in the big render: glyph width + 1 separator.
pub open spec fn cols_of(font: Font, c: char) -> nat {
    drawn(font, c)[0]@.len() + 1
}

/// Columns the big render of the (already uppercased) characters `s` occupies.
pub open spec fn width_of(font: Font, s: Seq<char>) -> nat
    decreases s.len(),
{
    if s.len() == 0 {
        0
    } else {
        width_of(font, s.drop_last()) + cols_of(font, s.last())
    }
}

/// `n` spaces.
pub open spec fn spaces(n: nat) -> Seq<char> {
    Seq::new(n, |i: int| ' ')
}

/// Row `i` of the glyph drawn for `c` (blank when the glyph has fewer
/// rows), followed by one separator space.
pub open spec fn cell(font: Font, c: char, i: int) -> Seq<char> {
    let g = drawn(font, c);
    (if i < g.len() {
        g[i]@
    } else {
        spaces(g[0]@.len())
    }).push(' ')
}

/// Row `i` of the big render of the (already uppercased) characters `s`.
pub open spec fn row_of(font: Font, s: Seq<char>, i: int) -> Seq<char>
    decreases s.len(),
{
    if s.len() == 0 {
        Seq::empty()
    } else {
        row_of(font, s.drop_last(), i) + cell(font, s.last(), i)
    }
}

/// The uppercase of a concatenation is the concatenation of the uppercases.
pub proof fn lemma_upper_concat(a: Seq<char>, b: Seq<char>)
    ensures
        upper_seq(a + b) == upper_seq(a) + upper_seq(b),
    decreases b.len(),
{
    if b.len() == 0 {
        assert(a + b =~= a);
        assert(upper_seq(b) =~= Seq::<char>::empty());
        assert(upper_seq(a) + upper_seq(b) =~= upper_seq(a));
    } else {
        assert((a + b).drop_last() =~= a + b.drop_last());
        assert((a + b).last() == b.last());
        lemma_upper_concat(a, b.drop_last());
        assert(upper_seq(a + b) =~= upper_seq(a) + upper_seq(b));
    }
}

/// Widths add up over concatenation.
pub proof fn lemma_width_concat(font: Font, a: Seq<char>, b: Seq<char>)
    ensures
        width_of(font, a + b) == width_of(font, a) + width_of(font, b),
    decreases b.len(),
{
    if b.len() == 0 {
        assert(a + b =~= a);
    } else {
        assert((a + b).drop_last() =~= a + b.drop_last());
        assert((a + b).last() == b.last());
        lemma_width_concat(font, a, b.drop_last());
    }
}

/// Each row of a concatenation is the concatenation of the rows.
pub proof fn lemma_row_concat(font: Font, a: Seq<char>, b: Seq<char>, i: int)
    ensures
        row_of(font, a + b, i) == row_of(font, a, i) + row_of(font, b, i),
    decreases b.len(),
{
    if b.len() == 0 {
        assert(a + b =~= a);
        assert(row_of(font, a, i) + row_of(font, b, i) =~= row_of(font, a, i));
    } else {
        assert((a + b).drop_last() =~= a + b.drop_last());
        assert((a + b).last() == b.last());
        lemma_row_concat(font, a, b.drop_last(), i);
        assert(row_of(font, a + b, i) =~= row_of(font, a, i) + row_of(font, b, i));
    }
}

/// The big render of two texts put together is the two renders side by
/// side, row by row, and its width is the sum of their widths (the empty
/// text renders empty rows of width 0).
pub proof fn lemma_render_concat(font: Font, a: Seq<char>, b: Seq<char>, i: int)
    ensures
        row_of(font, upper_seq(a + b), i) == row_of(font, upper_seq(a), i) + row_of(
            font,
            upper_seq(b),
            i,
        ),
        width_of(font, upper_seq(a + b)) == width_of(font, upper_seq(a)) + width_of(
            font,
            upper_seq(b),
        ),
        width_of(font, upper_seq(Seq::empty())) == 0,
{
    lemma_upper_concat(a, b);
    lemma_row_concat(font, upper_seq(a), upper_seq(b), i);
    lemma_width_concat(font, upper_seq(a), upper_seq(b));
}

/// The glyph drawn for any character has the font's height, and all its
/// rows are as wide as the first one.
pub proof fn lemma_drawn_shape(font: Font, c: char)
    ensures
        drawn(font, c).len() == font.height_spec(),
        0 < drawn(font, c)[0]@.len() <= 7,
        forall|i: int| 0 <= i < drawn(font, c).len() ==> #[trigger] drawn(font, c)[i]@.len()
            == drawn(font, c)[0]@.len(),
{
    lemma_glyph_shape(font, c);
    lemma_glyph_shape(font, ' ');
}

/// Every row of a big render is exactly as wide as the render's width:
/// the rows line up when centered.
pub proof fn lemma_row_width(font: Font, s: Seq<char>, i: int)
    requires
        0 <= i < font.height_spec(),
    ensures
        row_of(font, s, i).len() == width_of(font, s),
    decreases s.len(),
{
    if s.len() > 0 {
        lemma_row_width(font, s.drop_last(), i);
        lemma_drawn_shape(font, s.last());
    }
}

/// A render is at most 8 columns per character.
pub proof fn lemma_width_bound(font: Font, s: Seq<char>)
    ensures
        width_of(font, s) <= 8 * s.len(),
    decreases s.len(),
{
    if s.len() > 0 {
        lemma_width_bound(font, s.drop_last());
        lemma_drawn_shape(font, s.last());
    }
}

/// Number of characters of `s`.
fn char_count(s: &str) -> (r: usize)
    ensures
        r == s@.len(),
{
    crate::text::chars_of(s).len()
}

/// The glyph drawn for `c`: its own, or the space glyph.
fn drawn_glyph(font: Font, c: char) -> (g: &'static [&'static str])
    ensures
        g@ == drawn(font, c),
{
    match font.glyph(c) {
        Some(g) => g,
        None => font.glyph(' ').unwrap(),
    }
}

/// Columns one char occupies in the big render: glyph width + 1 separator.
fn glyph_cols(c: char, font: Font) -> (r: usize)
    ensures
        r == cols_of(font, c),
        r <= 8,
{
    proof {
        lemma_drawn_shape(font, c);
    }
    let g = drawn_glyph(font, c);
    char_count(g[0]) + 1
}

/// Appends `n` spaces.
fn push_spaces(s: &mut String, n: usize)
    ensures
        final(s)@ == old(s)@ + spaces(n as nat),
{
    let mut k: usize = 0;
    while k < n
        invariant
            k <= n,
            s@ == old(s)@ + spaces(k as nat),
        decreases n - k,
    {
        s.push(' ');
        k = k + 1;
        assert(spaces(k as nat) =~= spaces((k - 1) as nat).push(' '));
    }
}

/// Render `text` with `font`, one plain string per font row.
/// Rows keep their full width (glyph + separator) so every row is the same
/// length and vertical alignment is exact when centering.
pub fn render_big(text: &str, font: Font) -> (rows: Vec<String>)
    ensures
        rows@.len() == font.height_spec(),
        forall|i: int| 0 <= i < rows@.len() ==> #[trigger] rows@[i]@ == row_of(
            font,
            upper_seq(text@),
            i,
        ),
        forall|i: int| 0 <= i < rows@.len() ==> #[trigger] rows@[i]@.len() == width_of(
            font,
            upper_seq(text@),
        ),
{
    let u = upper_chars(text);
    let height = font.height();
    let mut rows: Vec<String> = Vec::new();
    let mut i: usize = 0;
    while i < height
        invariant
            height == font.height_spec(),
            i <= height,
            u@ == upper_seq(text@),
            rows@.len() == i,
            forall|k: int| 0 <= k < i ==> #[trigger] rows@[k]@ == row_of(font, u@, k),
        decreases height - i,
    {
        let mut row = String::new();
        let mut j: usize = 0;
        while j < u.len()
            invariant
                i < height == font.height_spec(),
                j <= u@.len(),
                row@ == row_of(font, u@.take(j as int), i as int),
            decreases u@.len() - j,
        {
            let c = u[j];
            proof {
                lemma_drawn_shape(font, c);
            }
            let glyph = drawn_glyph(font, c);
            let ghost before = row@;
            if i < glyph.len() {
                crate::text::push_str(&mut row, glyph[i]);
            } else {
                let w = char_count(glyph[0]);
                push_spaces(&mut row, w);
            }
            row.push(' ');
            assert(u@.take(j + 1).drop_last() =~= u@.take(j as int));
            assert(row@ =~= before + cell(font, c, i as int));
            j = j + 1;
        }
        assert(u@.take(u@.len() as int) =~= u@);
        rows.push(row);
        i = i + 1;
    }
    proof {
        assert forall|k: int| 0 <= k < rows@.len() implies #[trigger] rows@[k]@.len() == width_of(
            font,
            upper_seq(text@),
        ) by {
            lemma_row_width(font, u@, k);
        }
    }
    rows
}

/// Width (in terminal cells) of a rendered big line.
pub fn big_width(text: &str, font: Font) -> (w: usize)
    requires
        text@.len() * 24 <= usize::MAX,
    ensures
        w == width_of(font, upper_seq(text@)),
{
    let u = upper_chars(text);
    let mut w: usize = 0;
    let mut j: usize = 0;
    while j < u.len()
        invariant
            j <= u@.len() <= 3 * text@.len(),
            text@.len() * 24 <= usize::MAX,
            w == width_of(font, u@.take(j as int)),
        decreases u@.len() - j,
    {
        proof {
            lemma_width_bound(font, u@.take(j as int));
        }
        w = w + glyph_cols(u[j], font);
        assert(u@.take(j + 1).drop_last() =~= u@.take(j as int));
        j = j + 1;
    }
    assert(u@.take(u@.len() as int) =~= u@);
    w
}


/// The column spans `(start, end)` of the words of the (uppercased)
/// characters `u` in their big render.
pub open spec fn col_spans(font: Font, u: Seq<char>) -> Seq<(nat, nat)> {
    spans(u).map_values(|p: (int, int)| (width_of(font, u.take(p.0)), width_of(font, u.take(p.1))))
}

/// Byte ranges (start, len) of the words in a line, whitespace between them.
pub fn words_of(line: &str) -> (r: Vec<(usize, usize)>)
    ensures
        r@.len() == byte_words(line@).len(),
        forall|k: int| 0 <= k < r@.len() ==> (#[trigger] r@[k].0 as nat, r@[k].1 as nat)
            == byte_words(line@)[k],
{
    let v = chars_of(line);
    let total = line.as_bytes().len();
    let n = v.len();
    let mut offs: Vec<usize> = Vec::new();
    offs.push(0);
    assert(v@.take(0) =~= Seq::<char>::empty());
    let mut i: usize = 0;
    while i < n
        invariant
            i <= n == v@.len(),
            v@ == line@,
            total == utf8_len(line@),
            offs@.len() == i + 1,
            forall|k: int| 0 <= k <= i ==> #[trigger] offs@[k] == utf8_len(v@.take(k)),
        decreases n - i,
    {
        proof {
            lemma_utf8_len_take(v@, i as int);
        }
        let next = offs[i] + char_utf8_len(v[i]);
        offs.push(next);
        i = i + 1;
    }
    let sp = word_spans(&v);
    proof {
        lemma_spans_from(v@, 0);
    }
    let mut out: Vec<(usize, usize)> = Vec::new();
    let mut k: usize = 0;
    while k < sp.len()
        invariant
            k <= sp@.len() == spans(v@).len(),
            v@ == line@,
            offs@.len() == n + 1,
            n == v@.len(),
            forall|j: int| 0 <= j <= n ==> #[trigger] offs@[j] == utf8_len(v@.take(j)),
            forall|j: int| 0 <= j < sp@.len() ==> (#[trigger] sp@[j].0 as int, sp@[j].1 as int)
                == spans(v@)[j],
            forall|j: int| 0 <= j < spans(v@).len() ==> {
                let p = #[trigger] spans(v@)[j];
                0 <= p.0 < p.1 <= v@.len()
            },
            out@.len() == k,
            forall|j: int| 0 <= j < k ==> (#[trigger] out@[j].0 as nat, out@[j].1 as nat)
                == byte_words(line@)[j],
        decreases sp@.len() - k,
    {
        let (a, b) = sp[k];
        assert(spans(v@)[k as int] == (a as int, b as int));
        proof {
            lemma_utf8_len_sub(v@, a as int, b as int);
        }
        out.push((offs[a], offs[b] - offs[a]));
        k = k + 1;
    }
    out
}

/// Column spans of each word in the big render: [(start_col, end_col_exclusive)].
/// Same word grouping/order as `words_of` / `word_times`; for ASCII lines
/// there is one span per word of the line.
pub fn word_cols(line: &str, font: Font) -> (r: Vec<(usize, usize)>)
    requires
        line@.len() * 24 <= usize::MAX,
    ensures
        r@.len() == col_spans(font, upper_seq(line@)).len(),
        forall|k: int| 0 <= k < r@.len() ==> (#[trigger] r@[k].0 as nat, r@[k].1 as nat)
            == col_spans(font, upper_seq(line@))[k],
        is_ascii_seq(line@) ==> r@.len() == spans(line@).len(),
        is_ascii_seq(line@) ==> forall|k: int|
            0 <= k < r@.len() ==> (#[trigger] r@[k].0 as nat, r@[k].1 as nat) == (
                width_of(font, upper_seq(line@.take(spans(line@)[k].0))),
                width_of(font, upper_seq(line@.take(spans(line@)[k].1))),
            ),
        is_ascii_seq(line@) && line@.len() > 0 && !is_ws(line@.last()) ==> r@.len() > 0
            && r@.last().1 == width_of(font, upper_seq(line@)),
{
    let u = upper_chars(line);
    let n = u.len();
    let mut pre: Vec<usize> = Vec::new();
    pre.push(0);
    assert(u@.take(0) =~= Seq::<char>::empty());
    let mut i: usize = 0;
    while i < n
        invariant
            i <= n == u@.len() <= 3 * line@.len(),
            line@.len() * 24 <= usize::MAX,
            pre@.len() == i + 1,
            forall|k: int| 0 <= k <= i ==> #[trigger] pre@[k] == width_of(font, u@.take(k)),
        decreases n - i,
    {
        proof {
            lemma_width_bound(font, u@.take(i as int));
            assert(u@.take(i + 1).drop_last() =~= u@.take(i as int));
        }
        let next = pre[i] + glyph_cols(u[i], font);
        pre.push(next);
        i = i + 1;
    }
    let sp = word_spans(&u);
    proof {
        lemma_spans_from(u@, 0);
    }
    let mut out: Vec<(usize, usize)> = Vec::new();
    let mut k: usize = 0;
    while k < sp.len()
        invariant
            k <= sp@.len() == spans(u@).len(),
            pre@.len() == n + 1,
            n == u@.len(),
            forall|j: int| 0 <= j <= n ==> #[trigger] pre@[j] == width_of(font, u@.take(j)),
            forall|j: int| 0 <= j < sp@.len() ==> (#[trigger] sp@[j].0 as int, sp@[j].1 as int)
                == spans(u@)[j],
            forall|j: int| 0 <= j < spans(u@).len() ==> {
                let p = #[trigger] spans(u@)[j];
                0 <= p.0 < p.1 <= u@.len()
            },
            out@.len() == k,
            forall|j: int| 0 <= j < k ==> (#[trigger] out@[j].0 as nat, out@[j].1 as nat)
                == col_spans(font, u@)[j],
        decreases sp@.len() - k,
    {
        let (a, b) = sp[k];
        assert(spans(u@)[k as int] == (a as int, b as int));
        out.push((pre[a], pre[b]));
        k = k + 1;
    }
    proof {
        if is_ascii_seq(line@) {
            lemma_ascii_upper_same_ws(line@);
            lemma_spans_same_ws(line@, u@, 0);
            assert forall|k: int| 0 <= k < line@.len() implies #[trigger] upper_of(line@[k])
                == seq![ascii_upper(line@[k])] by {
                assert((line@[k] as u32) < 0x80);
            }
            assert forall|k: int| 0 <= k < out@.len() implies (#[trigger] out@[k].0 as nat,
                out@[k].1 as nat) == (
                width_of(font, upper_seq(line@.take(spans(line@)[k].0))),
                width_of(font, upper_seq(line@.take(spans(line@)[k].1))),
            ) by {
                let p = spans(line@)[k];
                lemma_spans_from(line@, 0);
                lemma_upper_ascii_take(line@, p.0);
                lemma_upper_ascii_take(line@, p.1);
                assert(u@.take(p.0) =~= line@.take(p.0).map_values(|c: char| ascii_upper(c)));
                assert(u@.take(p.1) =~= line@.take(p.1).map_values(|c: char| ascii_upper(c)));
            }
            if line@.len() > 0 && !is_ws(line@.last()) {
                let c = line@.last();
                assert((c as u32) < 0x80);
                assert(u@.last() == ascii_upper(c));
                if 'a' <= c <= 'z' {
                    assert(97 <= (c as u32) <= 122);
                    assert(65 <= (ascii_upper(c) as u32) <= 90);
                }
                assert(!is_ws(u@.last()));
                lemma_last_col_end(font, u@);
                let cs = col_spans(font, u@);
                assert(out@.len() == cs.len());
                assert((out@[cs.len() - 1].0 as nat, out@[cs.len() - 1].1 as nat) == cs[cs.len()
                    - 1]);
            }
        }
    }
    out
}


/// How long the words of a line share: the line's duration, at least 500 ms.
pub open spec fn words_duration(start_ms: nat, end_ms: nat) -> nat {
    if end_ms >= start_ms + 500 {
        (end_ms - start_ms) as nat
    } else {
        500
    }
}

/// Start of word `i` of `n`, evenly spread over the words' duration.
pub open spec fn word_start(start_ms: nat, end_ms: nat, i: nat, n: nat) -> nat {
    start_ms + words_duration(start_ms, end_ms) * i / n
}

proof fn lemma_share(d: nat, i: nat, n: nat)
    requires
        i < n,
    ensures
        d * i / n <= d,
        d * i <= d * n,
{
    assert(d * i <= d * n) by (nonlinear_arith)
        requires
            i < n,
    ;
    assert(d * i / n <= d) by (nonlinear_arith)
        requires
            d * i <= d * n,
            i < n,
    ;
}

/// Karaoke advances word by word: the first word starts with the line,
/// later words never start earlier than earlier ones, and every word
/// starts within the words' duration.
pub proof fn lemma_word_starts_ordered(start_ms: nat, end_ms: nat, i: nat, j: nat, n: nat)
    requires
        i <= j < n,
    ensures
        word_start(start_ms, end_ms, 0, n) == start_ms,
        start_ms <= word_start(start_ms, end_ms, i, n) <= word_start(start_ms, end_ms, j, n),
        word_start(start_ms, end_ms, j, n) <= start_ms + words_duration(start_ms, end_ms),
{
    let d = words_duration(start_ms, end_ms);
    lemma_share(d, j, n);
    assert(d * i <= d * j) by (nonlinear_arith)
        requires
            i <= j,
    ;
    assert(d * i / n <= d * j / n) by (nonlinear_arith)
        requires
            d * i <= d * j,
            n > 0,
    ;
    assert(d * 0 / n == 0) by (nonlinear_arith)
        requires
            n > 0,
    ;
}

/// Even-distribute word start times across the line's [start, end) window,
/// in milliseconds: word `i` of `n` starts `i / n` of the way in, over at
/// least 500 ms.
pub fn word_times(line: &str, start_ms: u64, end_ms: u64) -> (r: Vec<(u64, String)>)
    requires
        start_ms <= u64::MAX - 500,
    ensures
        r@.len() == words(line@).len(),
        forall|k: int| 0 <= k < r@.len() ==> {
            &&& #[trigger] r@[k].0 == word_start(
                start_ms as nat,
                end_ms as nat,
                k as nat,
                r@.len(),
            )
            &&& r@[k].1@ == words(line@)[k]
        },
{
    let v = chars_of(line);
    let sp = word_spans(&v);
    proof {
        lemma_spans_from(v@, 0);
    }
    let n = sp.len();
    let mut out: Vec<(u64, String)> = Vec::new();
    if n == 0 {
        return out;
    }
    let dur: u64 = if end_ms >= start_ms && end_ms - start_ms >= 500 {
        end_ms - start_ms
    } else {
        500
    };
    assert(dur == words_duration(start_ms as nat, end_ms as nat));
    let mut k: usize = 0;
    while k < n
        invariant
            k <= n == sp@.len() == spans(v@).len(),
            v@ == line@,
            start_ms <= u64::MAX - 500,
            dur == words_duration(start_ms as nat, end_ms as nat),
            forall|j: int| 0 <= j < sp@.len() ==> (#[trigger] sp@[j].0 as int, sp@[j].1 as int)
                == spans(v@)[j],
            forall|j: int| 0 <= j < spans(v@).len() ==> {
                let p = #[trigger] spans(v@)[j];
                0 <= p.0 < p.1 <= v@.len()
            },
            out@.len() == k,
            forall|j: int| 0 <= j < k ==> {
                &&& #[trigger] out@[j].0 == word_start(
                    start_ms as nat,
                    end_ms as nat,
                    j as nat,
                    n as nat,
                )
                &&& out@[j].1@ == words(line@)[j]
            },
        decreases n - k,
    {
        let (a, b) = sp[k];
        assert(spans(v@)[k as int] == (a as int, b as int));
        proof {
            lemma_share(dur as nat, k as nat, n as nat);
        }
        assert((dur as u128) * (k as u128) <= 0xffff_ffff_ffff_ffffu128 * 0xffff_ffff_ffff_ffffu128)
            by (nonlinear_arith)
            requires
                dur <= 0xffff_ffff_ffff_ffffu64,
                k <= 0xffff_ffff_ffff_ffffu64,
        ;
        let share = (dur as u128 * k as u128 / n as u128) as u64;
        let text = crate::text::string_of_range(&v, a, b);
        out.push((start_ms + share, text));
        k = k + 1;
    }
    out
}

/// Words joined by single spaces.
pub open spec fn join_words(ws: Seq<Seq<char>>) -> Seq<char>
    decreases ws.len(),
{
    if ws.len() == 0 {
        Seq::empty()
    } else if ws.len() == 1 {
        ws[0]
    } else {
        join_words(ws.drop_last()) + seq![' '] + ws.last()
    }
}

/// The first of the word suffixes `ws[start..]`, `ws[start+1..]`, ...
/// whose big render fits in `cols`.
pub open spec fn fit_from(font: Font, cols: nat, ws: Seq<Seq<char>>, start: int) -> Option<
    Seq<char>,
>
    decreases ws.len() - start,
{
    if start < 0 || start >= ws.len() {
        None
    } else {
        let c = join_words(ws.subrange(start, ws.len() as int));
        if width_of(font, upper_seq(c)) <= cols {
            Some(c)
        } else {
            fit_from(font, cols, ws, start + 1)
        }
    }
}

/// The line as `fit_big` shortens it: the whole text if it fits, else the
/// longest word suffix that fits, else the last word if it fits, else
/// `...` if that fits, else nothing.
pub open spec fn fitted(font: Font, cols: nat, text: Seq<char>) -> Seq<char> {
    if width_of(font, upper_seq(text)) <= cols {
        text
    } else {
        let ws = words(text);
        match fit_from(font, cols, ws, 0) {
            Some(c) => c,
            None => {
                let single = if ws.len() > 0 {
                    ws.last()
                } else {
                    Seq::empty()
                };
                if width_of(font, upper_seq(single)) <= cols {
                    single
                } else if width_of(font, upper_seq("..."@)) <= cols {
                    "..."@
                } else {
                    Seq::empty()
                }
            },
        }
    }
}

/// Joins the words `v[sp[lo]], .., v[sp[hi-1]]` with single spaces.
fn join_spans(v: &Vec<char>, sp: &Vec<(usize, usize)>, lo: usize, hi: usize) -> (r: String)
    requires
        lo < hi <= sp@.len() == spans(v@).len(),
        forall|j: int| 0 <= j < sp@.len() ==> (#[trigger] sp@[j].0 as int, sp@[j].1 as int)
            == spans(v@)[j],
        forall|j: int| 0 <= j < spans(v@).len() ==> {
            let p = #[trigger] spans(v@)[j];
            0 <= p.0 < p.1 <= v@.len()
        },
        forall|j: int| 0 <= j < spans(v@).len() - 1 ==> #[trigger] spans(v@)[j].1 < spans(
            v@,
        )[j + 1].0,
    ensures
        r@ == join_words(words(v@).subrange(lo as int, hi as int)),
        r@.len() <= v@.len(),
{
    let ghost ws = words(v@);
    let mut out = String::new();
    let mut k = lo;
    while k < hi
        invariant
            lo <= k <= hi <= sp@.len() == spans(v@).len(),
            ws == words(v@),
            forall|j: int| 0 <= j < sp@.len() ==> (#[trigger] sp@[j].0 as int, sp@[j].1 as int)
                == spans(v@)[j],
            forall|j: int| 0 <= j < spans(v@).len() ==> {
                let p = #[trigger] spans(v@)[j];
                0 <= p.0 < p.1 <= v@.len()
            },
            forall|j: int| 0 <= j < spans(v@).len() - 1 ==> #[trigger] spans(v@)[j].1 < spans(
                v@,
            )[j + 1].0,
            out@ == join_words(ws.subrange(lo as int, k as int)),
            k > lo ==> out@.len() <= sp@[k - 1].1 - sp@[lo as int].0,
            k == lo ==> out@.len() == 0,
        decreases hi - k,
    {
        let (a, b) = sp[k];
        assert(spans(v@)[k as int] == (a as int, b as int));
        assert(ws[k as int] == v@.subrange(a as int, b as int));
        let ghost old_len = out@.len();
        if k > lo {
            assert(spans(v@)[k - 1].1 < spans(v@)[k as int].0);
            assert(spans(v@)[k - 1] == (sp@[k - 1].0 as int, sp@[k - 1].1 as int));
            assert(sp@[k - 1].1 < a);
            out.push(' ');
        }
        crate::text::push_range(&mut out, v, a, b);
        assert(out@.len() == old_len + (if k > lo { 1int } else { 0int }) + (b - a));
        proof {
            let sub = ws.subrange(lo as int, k + 1);
            assert(sub.drop_last() =~= ws.subrange(lo as int, k as int));
            if k == lo {
                assert(sub.len() == 1);
            }
        }
        k = k + 1;
    }
    assert(spans(v@)[hi - 1] == (sp@[hi - 1].0 as int, sp@[hi - 1].1 as int));
    assert(spans(v@)[lo as int] == (sp@[lo as int].0 as int, sp@[lo as int].1 as int));
    out
}

/// Shorten a lyric line (front-truncating words) so its big render fits `cols`.
pub fn fit_big(text: &str, font: Font, cols: usize) -> (r: String)
    requires
        text@.len() * 24 <= usize::MAX,
    ensures
        r@ == fitted(font, cols as nat, text@),
        width_of(font, upper_seq(r@)) <= cols,
        r@.len() <= text@.len() || r@.len() <= 3,
{
    proof {
        lemma_fitted_fits(font, cols as nat, text@);
    }
    if big_width(text, font) <= cols {
        return text.to_owned();
    }
    let v = chars_of(text);
    let sp = word_spans(&v);
    proof {
        lemma_spans_from(v@, 0);
    }
    let ghost ws = words(v@);
    let m = sp.len();
    let mut start: usize = 0;
    while start < m
        invariant
            start <= m == sp@.len() == spans(v@).len() == ws.len(),
            v@ == text@,
            text@.len() * 24 <= usize::MAX,
            ws == words(v@),
            forall|j: int| 0 <= j < sp@.len() ==> (#[trigger] sp@[j].0 as int, sp@[j].1 as int)
                == spans(v@)[j],
            forall|j: int| 0 <= j < spans(v@).len() ==> {
                let p = #[trigger] spans(v@)[j];
                0 <= p.0 < p.1 <= v@.len()
            },
            forall|j: int| 0 <= j < spans(v@).len() - 1 ==> #[trigger] spans(v@)[j].1 < spans(
                v@,
            )[j + 1].0,
            fit_from(font, cols as nat, ws, 0) == fit_from(font, cols as nat, ws, start as int),
            width_of(font, upper_seq(text@)) > cols,
        decreases m - start,
    {
        let candidate = join_spans(&v, &sp, start, m);
        let w = big_width(candidate.as_str(), font);
        assert(ws.subrange(start as int, m as int) == ws.subrange(start as int, ws.len() as int));
        if w <= cols {
            assert(fit_from(font, cols as nat, ws, start as int) == Some(candidate@));
            assert(fit_from(font, cols as nat, words(text@), 0) == Some(candidate@));
            assert(width_of(font, upper_seq(text@)) > cols);
            assert(fitted(font, cols as nat, text@) == candidate@);
            return candidate;
        }
        assert(fit_from(font, cols as nat, ws, start as int) == fit_from(
            font,
            cols as nat,
            ws,
            start + 1,
        ));
        start = start + 1;
    }
    if m > 0 {
        let (a, b) = sp[m - 1];
        assert(spans(v@)[m - 1] == (a as int, b as int));
        let single = crate::text::string_of_range(&v, a, b);
        if big_width(single.as_str(), font) <= cols {
            return single;
        }
    } else {
        let single = String::new();
        if big_width(single.as_str(), font) <= cols {
            return single;
        }
    }
    proof {
        reveal_strlit("...");
    }
    if big_width("...", font) <= cols {
        "...".to_owned()
    } else {
        String::new()
    }
}


/// A fitting suffix fits.
proof fn lemma_fit_from_fits(font: Font, cols: nat, ws: Seq<Seq<char>>, start: int)
    ensures
        fit_from(font, cols, ws, start) matches Some(c) ==> width_of(font, upper_seq(c)) <= cols,
    decreases ws.len() - start,
{
    if 0 <= start < ws.len() {
        lemma_fit_from_fits(font, cols, ws, start + 1);
    }
}

/// What `fit_big` returns fits in `cols` columns.
pub proof fn lemma_fitted_fits(font: Font, cols: nat, text: Seq<char>)
    ensures
        width_of(font, upper_seq(fitted(font, cols, text))) <= cols,
{
    assert(upper_seq(Seq::<char>::empty()) =~= Seq::<char>::empty());
    lemma_fit_from_fits(font, cols, words(text), 0);
}


/// A longer prefix renders at least as wide.
pub proof fn lemma_width_prefix_mono(font: Font, u: Seq<char>, a: int, b: int)
    requires
        0 <= a <= b <= u.len(),
    ensures
        width_of(font, u.take(a)) <= width_of(font, u.take(b)),
    decreases b - a,
{
    if a < b {
        assert(u.take(b).drop_last() =~= u.take(b - 1));
        lemma_width_prefix_mono(font, u, a, b - 1);
    }
}

/// Word column spans are in order and do not overlap: each ends at or
/// before the next one starts.
pub proof fn lemma_col_spans_ordered(font: Font, u: Seq<char>)
    ensures
        forall|k: int| 0 <= k < col_spans(font, u).len() ==> #[trigger] col_spans(font, u)[k].0
            <= col_spans(font, u)[k].1,
        forall|k: int| 0 <= k < col_spans(font, u).len() - 1 ==> #[trigger] col_spans(font, u)[k].1
            <= col_spans(font, u)[k + 1].0,
{
    lemma_spans_from(u, 0);
    let sp = spans(u);
    assert forall|k: int| 0 <= k < col_spans(font, u).len() implies #[trigger] col_spans(
        font,
        u,
    )[k].0 <= col_spans(font, u)[k].1 by {
        let p = sp[k];
        lemma_width_prefix_mono(font, u, p.0, p.1);
    }
    assert forall|k: int| 0 <= k < col_spans(font, u).len() - 1 implies #[trigger] col_spans(
        font,
        u,
    )[k].1 <= col_spans(font, u)[k + 1].0 by {
        assert(sp[k].1 < sp[k + 1].0);
        lemma_width_prefix_mono(font, u, sp[k].1, sp[k + 1].0);
    }
}

/// A non-whitespace character at or after `i` starts a word there.
proof fn lemma_spans_from_nonempty(s: Seq<char>, i: int, j: int)
    requires
        0 <= i <= j < s.len(),
        !is_ws(s[j]),
    ensures
        spans_from(s, i).len() > 0,
    decreases j - i,
{
    if is_ws(s[i]) {
        lemma_spans_from_nonempty(s, i + 1, j);
    }
}

/// When the text ends with a non-whitespace character, its last word's
/// span ends exactly at the render's full width (trailing separator
/// included).
pub proof fn lemma_last_col_end(font: Font, u: Seq<char>)
    requires
        u.len() > 0,
        !is_ws(u.last()),
    ensures
        col_spans(font, u).len() > 0,
        col_spans(font, u).last().1 == width_of(font, u),
{
    lemma_spans_from(u, 0);
    lemma_spans_from_nonempty(u, 0, u.len() - 1);
    let sp = spans(u);
    let m = sp.len();
    let last = sp[m - 1];
    lemma_last_span_end(u, 0);
    assert(u.take(u.len() as int) =~= u);
}

/// The last word of `s[i..]` ends at the end of `s` when `s` ends with a
/// non-whitespace character.
proof fn lemma_last_span_end(s: Seq<char>, i: int)
    requires
        0 <= i < s.len(),
        !is_ws(s.last()),
    ensures
        spans_from(s, i).len() > 0,
        spans_from(s, i).last().1 == s.len(),
    decreases s.len() - i,
{
    lemma_spans_from_nonempty(s, i, s.len() - 1);
    if is_ws(s[i]) {
        lemma_last_span_end(s, i + 1);
    } else {
        crate::text::lemma_word_end(s, i);
        let e = crate::text::word_end(s, i);
        if e < s.len() {
            assert(is_ws(s[e]));
            lemma_last_span_end(s, e);
            assert(spans_from(s, i).last() == spans_from(s, e).last());
        } else {
            assert(spans_from(s, e).len() == 0);
            assert(spans_from(s, i) =~= seq![(i, e)]);
        }
    }
}

} // verus!
