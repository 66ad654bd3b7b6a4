# melody

The verified core of a terminal melody maker: a single piano line on a
piano-roll, recorded against a metronome, edited note by note, saved as a
plain-text `.mel` file and exported as a WAV.

Layout:

- `src/` — the library, verified with Verus:
  - `song.rs`: notes, tempo and grid; quantizing; the `.mel` text format
    (reading and writing, with the proof that reading a written song gives it
    back); the stable (start, pitch) sort after recording; click tracks.
  - `editor.rs`: the editor as a state machine from keys to the next state and
    the outside action to perform (sound a note, play, save, open, export,
    ask); scrolling and what each piano-roll cell shows; default paths.
  - `pitch.rs`: the keyboard piano, note names, strength colours, key names.
  - `text.rs`: decimal numbers, fields and whitespace of the text format.
  - `wav.rs`: 16-bit PCM as bytes and the WAV file layout.
  - `player.rs`: the raw-PCM player backends and the pick among them.
- `app/` — the terminal program: the TUI, tone synthesis (floating point),
  playback through a system player, files.
- `tests/` — tests of the library.

Note strength is kept in hundredths (`80` is 0.80), the precision the `.mel`
format writes. A digit key d sets round(100·d/9) hundredths; a strength field
is read as a float literal and rounded half up to hundredths, and one that is
negative and does not round to 0.00, infinite, not a number or above `u32::MAX` hundredths
falls back to the default 0.80, as an unreadable field does.
