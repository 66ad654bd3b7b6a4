//! Pitches, note names and the computer-keyboard piano.

use vstd::prelude::*;
use crate::text::{chars_eq, chars_of, decimal, push_decimal, string_of};

verus! {

/// Semitone offset of a key of the keyboard piano within its octave run, if it is one.
pub open spec fn key_semitone(c: char) -> Option<int> {
    if c == 'z' { Some(0) }
    else if c == 's' { Some(1) }
    else if c == 'x' { Some(2) }
    else if c == 'd' { Some(3) }
    else if c == 'c' { Some(4) }
    else if c == 'v' { Some(5) }
    else if c == 'g' { Some(6) }
    else if c == 'b' { Some(7) }
    else if c == 'h' { Some(8) }
    else if c == 'n' { Some(9) }
    else if c == 'j' { Some(10) }
    else if c == 'm' { Some(11) }
    else if c == ',' { Some(12) }
    else { None }
}

/// Computer-keyboard piano: the lower row plays one octave starting at `base`
/// (the octave number of the `z` key, e.g. base 4 -> z = C4 = MIDI 60).
pub fn key_to_pitch(c: char, base: i32) -> (r: Option<u8>)
    ensures
        r == (match key_semitone(c) {
            Some(semi) => {
                let midi = (base + 1) * 12 + semi;
                if 0 <= midi <= 127 { Some(midi as u8) } else { None }
            },
            None => None,
        }),
{
    let semi: i64 = match c {
        'z' => 0,
        's' => 1,
        'x' => 2,
        'd' => 3,
        'c' => 4,
        'v' => 5,
        'g' => 6,
        'b' => 7,
        'h' => 8,
        'n' => 9,
        'j' => 10,
        'm' => 11,
        ',' => 12,
        _ => return None,
    };
    let midi: i64 = (base as i64 + 1) * 12 + semi;
    if 0 <= midi && midi <= 127 {
        Some(midi as u8)
    } else {
        None
    }
}

/// The name of a pitch class (0 = C .. 11 = B), sharps spelled with `#`.
pub open spec fn class_name(i: nat) -> Seq<char> {
    if i == 0 { seq!['C'] }
    else if i == 1 { seq!['C', '#'] }
    else if i == 2 { seq!['D'] }
    else if i == 3 { seq!['D', '#'] }
    else if i == 4 { seq!['E'] }
    else if i == 5 { seq!['F'] }
    else if i == 6 { seq!['F', '#'] }
    else if i == 7 { seq!['G'] }
    else if i == 8 { seq!['G', '#'] }
    else if i == 9 { seq!['A'] }
    else if i == 10 { seq!['A', '#'] }
    else { seq!['B'] }
}

/// A signed number in decimal.
pub open spec fn signed_decimal(n: int) -> Seq<char> {
    if n < 0 {
        seq!['-'] + decimal((-n) as nat)
    } else {
        decimal(n as nat)
    }
}

/// Scientific pitch name of a MIDI pitch: class and octave, C4 = 60.
pub open spec fn pitch_name(pitch: u8) -> Seq<char> {
    class_name((pitch % 12) as nat) + signed_decimal(pitch / 12 - 1)
}

/// The name of a MIDI pitch, e.g. 60 -> `C4`, 61 -> `C#4`, 0 -> `C-1`.
pub fn note_name(pitch: u8) -> (r: String)
    ensures
        r@ == pitch_name(pitch),
{
    let mut out: Vec<char> = Vec::new();
    let i = pitch % 12;
    let letter = if i <= 1 {
        'C'
    } else if i <= 3 {
        'D'
    } else if i == 4 {
        'E'
    } else if i <= 6 {
        'F'
    } else if i <= 8 {
        'G'
    } else if i <= 10 {
        'A'
    } else {
        'B'
    };
    out.push(letter);
    if i == 1 || i == 3 || i == 6 || i == 8 || i == 10 {
        out.push('#');
    }
    let oct = pitch / 12;
    if oct == 0 {
        out.push('-');
        out.push('1');
        assert(decimal(1) =~= seq!['1']);
    } else {
        push_decimal(&mut out, (oct - 1) as u64);
    }
    assert(out@ =~= pitch_name(pitch));
    string_of(&out)
}

/// Pitch names follow the chromatic scale: the twelve classes of each octave
/// are C, C#, D, D#, E, F, F#, G, G#, A, A#, B, and the octave number counts
/// from C-1 at pitch 0 (so 60 is C4, 65 is F4 and 66 is F#4).
pub proof fn lemma_chromatic_names(pitch: u8)
    ensures
        pitch_name(pitch) == seq![
            seq!['C'], seq!['C', '#'], seq!['D'], seq!['D', '#'], seq!['E'], seq!['F'],
            seq!['F', '#'], seq!['G'], seq!['G', '#'], seq!['A'], seq!['A', '#'], seq!['B'],
        ][(pitch % 12) as int] + signed_decimal(pitch / 12 - 1),
{
}

/// A sharp is the semitone above the natural it is spelled from: its name is
/// the name of the pitch below with `#` after the letter, in the same octave.
pub proof fn lemma_sharp_above_natural(pitch: u8)
    requires
        pitch_name(pitch).len() > 1,
        pitch_name(pitch)[1] == '#',
    ensures
        pitch > 0,
        pitch_name((pitch - 1) as u8)[1] != '#',
        pitch_name(pitch) == pitch_name((pitch - 1) as u8).insert(1, '#'),
{
    let i = pitch % 12;
    let o = signed_decimal(pitch / 12 - 1);
    assert(i == 1 || i == 3 || i == 6 || i == 8 || i == 10) by {
        if !(i == 1 || i == 3 || i == 6 || i == 8 || i == 10) {
            assert(class_name(i as nat).len() == 1);
            assert(pitch_name(pitch)[1] == o[0]);
            crate::text::lemma_decimal(if pitch / 12 - 1 < 0 { 1nat } else { (pitch / 12 - 1) as nat });
        }
    }
    let q = (pitch - 1) as u8;
    assert(q % 12 == i - 1 && q / 12 == pitch / 12);
    assert(o.len() > 0 && o[0] != '#') by {
        if pitch / 12 - 1 < 0 {
            assert(o[0] == '-');
        } else {
            crate::text::lemma_decimal((pitch / 12 - 1) as nat);
            assert(crate::text::is_digit(o[0]));
        }
    }
    assert(pitch_name(q)[1] == o[0]);
    assert(pitch_name(pitch) =~= pitch_name(q).insert(1, '#'));
}

/// The strength level (1..9) a strength in hundredths shows as: nine steps,
/// rounded to the nearest.
pub open spec fn vel_level(vel: u32) -> nat {
    let l = (vel * 9 + 50) / 100;
    if l < 1 { 1 } else if l > 9 { 9 } else { l as nat }
}

/// Note colour (256-palette) of each strength level, soft/cool to loud/hot.
pub open spec fn level_color(level: nat) -> u16 {
    if level <= 1 { 24 }
    else if level == 2 { 31 }
    else if level == 3 { 37 }
    else if level == 4 { 43 }
    else if level == 5 { 78 }
    else if level == 6 { 148 }
    else if level == 7 { 214 }
    else if level == 8 { 208 }
    else { 196 }
}

/// The colour of a note of strength `vel` (hundredths).
pub fn vel_color(vel: u32) -> (r: u16)
    ensures
        r == level_color(vel_level(vel)),
{
    let l: u64 = (vel as u64 * 9 + 50) / 100;
    let lvl: u64 = if l < 1 {
        1
    } else if l > 9 {
        9
    } else {
        l
    };
    match lvl {
        1 => 24,
        2 => 31,
        3 => 37,
        4 => 43,
        5 => 78,
        6 => 148,
        7 => 214,
        8 => 208,
        _ => 196,
    }
}

/// A stronger note never shows a softer level: the colour ramp runs from
/// soft to loud.
pub proof fn lemma_vel_level_monotone(v1: u32, v2: u32)
    requires
        v1 <= v2,
    ensures
        vel_level(v1) <= vel_level(v2),
{
    assert((v1 * 9 + 50) / 100 <= (v2 * 9 + 50) / 100) by (nonlinear_arith)
        requires
            v1 <= v2,
    ;
}

/// The digit keys 1..9 set strengths whose colours are the nine levels in order.
pub proof fn lemma_digit_levels(d: nat)
    requires
        1 <= d <= 9,
    ensures
        vel_level(digit_strength(d)) == d,
{
}

/// The strength, in hundredths, that digit key `d` (1..9) sets: `d / 9`,
/// rounded to hundredths.
pub open spec fn digit_strength(d: nat) -> u32 {
    ((d * 100 + 4) / 9) as u32
}

/// A key as the terminal reports it.
#[derive(Clone, Copy, Debug, PartialEq, Eq, Structural)]
pub enum Key {
    Char(char),
    Left,
    Right,
    Up,
    Down,
    Enter,
    Tab,
    Esc,
    Del,
    Resize,
    Other,
}

/// The key a terminal key name stands for: one char is that char; `LEFT`,
/// `RIGHT`, `UP`, `DOWN`, `ENTER`, `TAB`, `ESC`, `DEL` and `RESIZE` name
/// their keys; anything else is some other key.
pub open spec fn key_of(name: Seq<char>) -> Key {
    if name.len() == 1 {
        Key::Char(name[0])
    } else if name == "LEFT"@ {
        Key::Left
    } else if name == "RIGHT"@ {
        Key::Right
    } else if name == "UP"@ {
        Key::Up
    } else if name == "DOWN"@ {
        Key::Down
    } else if name == "ENTER"@ {
        Key::Enter
    } else if name == "TAB"@ {
        Key::Tab
    } else if name == "ESC"@ {
        Key::Esc
    } else if name == "DEL"@ {
        Key::Del
    } else if name == "RESIZE"@ {
        Key::Resize
    } else {
        Key::Other
    }
}

impl Key {
    /// Reads a key name as the terminal reports it.
    pub fn from_name(name: &str) -> (r: Key)
        ensures
            r == key_of(name@),
    {
        let cs = chars_of(name);
        if cs.len() == 1 {
            Key::Char(cs[0])
        } else if chars_eq(&cs, "LEFT") {
            Key::Left
        } else if chars_eq(&cs, "RIGHT") {
            Key::Right
        } else if chars_eq(&cs, "UP") {
            Key::Up
        } else if chars_eq(&cs, "DOWN") {
            Key::Down
        } else if chars_eq(&cs, "ENTER") {
            Key::Enter
        } else if chars_eq(&cs, "TAB") {
            Key::Tab
        } else if chars_eq(&cs, "ESC") {
            Key::Esc
        } else if chars_eq(&cs, "DEL") {
            Key::Del
        } else if chars_eq(&cs, "RESIZE") {
            Key::Resize
        } else {
            Key::Other
        }
    }
}

} // verus!
