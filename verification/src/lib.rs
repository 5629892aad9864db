//! Synchronized lyrics for the terminal: LRC parsing, big-letter
//! rendering, karaoke timing, lrclib lookups and terminal colors.

pub mod text;
pub mod lrc;
pub mod render;
pub mod term;
pub mod player;
pub mod lyrics;
pub mod ytmgo;
pub mod cli;
pub mod screen;
pub mod theme;
