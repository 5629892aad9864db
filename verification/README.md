# tacos_lyrics

Synced lyrics in the terminal, in big block letters: the current line of
the song that an MPRIS player is playing, with a word-by-word karaoke
sweep, looked up on lrclib.net and kept in a local cache.

The library under `src/` is written in Verus and verified:

- `lrc` — the LRC reader (timestamps, `[ti:]`/`[ar:]` tags, several
  timestamps per line), lines ordered by time, the active line at a time.
- `render` — the two big-letter fonts, rendering, widths, fitting a line
  to the terminal, word columns and evenly spread word start times.
- `screen` — what a tick shows: the frame at a playback position, the
  screen text for it, and how player reports change the state.
- `lyrics` — the lrclib lookup as a state machine (which URLs, in which
  order, and which reply holds usable synced lyrics), title cleaning,
  URL encoding, cache file names.
- `theme` — the theme file (`sung`/`unsung`/`paused`/`header` =
  `#rrggbb`, `#rgb`, `palette:N`, `default` or `dim`).
- `player`, `term`, `cli`, `ytmgo`, `text` — track metadata, player
  choice, terminal palette replies, flags, mpv IPC lines, and the string
  helpers the rest is proved with.

`app/` is the program around it: terminal raw mode, the MPRIS bus, HTTP,
the disk cache, SQLite and the draw loop.
