//! The editor: cursor, modes and the piano-roll edits, as a state machine
//! from keys to the next state and the outside action to perform.

use vstd::prelude::*;
use crate::pitch::{Key, signed_decimal, digit_strength, key_semitone, key_to_pitch, level_color, vel_color, vel_level};
use crate::song::{DEF_VEL, Note, Song, SongModel, quantized, sorted_notes};
use crate::text::{chars_of, decimal, push_decimal, push_str, string_of};

verus! {

/// What the keyboard does: edit the piano-roll, jam freely, or record.
#[derive(Clone, Copy, Debug, PartialEq, Eq, Structural)]
pub enum Mode {
    Edit,
    Play,
    Record,
}

/// What the program around the editor has to do after an edit key.
#[derive(Clone, Copy, Debug, PartialEq, Eq, Structural)]
pub enum EditAction {
    Nothing,
    /// leave the program
    Quit,
    /// ask whether to quit without saving; quit on a yes
    AskQuit,
    /// sound one note: pitch and strength (hundredths)
    Monitor(u8, u32),
    /// play the melody
    Play,
    Save,
    Open,
    Export,
    /// ask whether to clear the song; clear it on a yes
    AskNew,
}

/// The editing state of the program.
pub struct Editor {
    pub song: Song,
    pub mode: Mode,
    pub cur_tick: u32,
    pub cur_pitch: u8,
    pub top_pitch: u8,
    pub left_tick: u32,
    /// octave of the `z` key of the keyboard piano
    pub base_oct: i32,
    pub metro: bool,
    /// playback position while the melody plays
    pub playhead: Option<u32>,
}

#[verifier::ext_equal]
pub struct EditorModel {
    pub song: SongModel,
    pub file: Option<Seq<char>>,
    pub dirty: bool,
    pub mode: Mode,
    pub cur_tick: u32,
    pub cur_pitch: u8,
    pub top_pitch: u8,
    pub left_tick: u32,
    pub base_oct: i32,
    pub metro: bool,
    pub playhead: Option<u32>,
}

impl View for Editor {
    type V = EditorModel;

    open spec fn view(&self) -> EditorModel {
        EditorModel {
            song: self.song.model(),
            file: match self.song.file {
                Some(f) => Some(f@),
                None => None,
            },
            dirty: self.song.dirty,
            mode: self.mode,
            cur_tick: self.cur_tick,
            cur_pitch: self.cur_pitch,
            top_pitch: self.top_pitch,
            left_tick: self.left_tick,
            base_oct: self.base_oct,
            metro: self.metro,
            playhead: self.playhead,
        }
    }
}

/// Whether note `n` sounds at pitch `p` and tick `t`.
pub open spec fn covers(n: Note, p: u8, t: u32) -> bool {
    n.pitch == p && n.start <= t < n.start + n.len
}

/// The index of the first note that sounds at pitch `p` and tick `t`.
pub open spec fn first_cover(notes: Seq<Note>, p: u8, t: u32) -> Option<int>
    decreases notes.len(),
{
    if notes.len() == 0 {
        None
    } else {
        match first_cover(notes.drop_last(), p, t) {
            Some(i) => Some(i),
            None => if covers(notes.last(), p, t) {
                Some(notes.len() - 1)
            } else {
                None
            },
        }
    }
}

/// The note under the cursor.
pub open spec fn selected(m: EditorModel) -> Option<int> {
    first_cover(m.song.notes, m.cur_pitch, m.cur_tick)
}

/// A note length after `+`: by the grid step from one step up, by one tick below.
pub open spec fn lengthened(len: u32, step: u32) -> int {
    if len >= step {
        len + step
    } else {
        len + 1
    }
}

/// A note length after `-`: by the grid step above one step, by one tick below,
/// never under one tick.
pub open spec fn shortened(len: u32, step: u32) -> u32 {
    if len > step {
        (len - step) as u32
    } else if len > 1 {
        (len - 1) as u32
    } else {
        1
    }
}

/// The grid after `g`: 1/4 -> 1/8 -> 1/16 -> 1/4 (beat, half, quarter beat).
pub open spec fn next_grid(step: u32, tpb: u32) -> u32 {
    if step == tpb {
        tpb / 2
    } else if step == tpb / 2 {
        if tpb / 4 > 1 { tpb / 4 } else { 1 }
    } else {
        tpb
    }
}

pub open spec fn is_char(k: Key, c: char) -> bool {
    k == Key::Char(c)
}

/// `m` with note `i` replaced and the song marked changed.
pub open spec fn with_note(m: EditorModel, i: int, n: Note) -> EditorModel {
    EditorModel { song: SongModel { notes: m.song.notes.update(i, n), ..m.song }, dirty: true, ..m }
}

/// The digit of a digit key 1..9.
pub open spec fn strength_digit(k: Key) -> Option<nat> {
    match k {
        Key::Char(c) => if '1' <= c <= '9' {
            Some((c as int - '0' as int) as nat)
        } else {
            None
        },
        _ => None,
    }
}

/// The digit of a digit key 1..9.
fn digit_key(key: Key) -> (r: Option<u32>)
    ensures
        match strength_digit(key) {
            Some(d) => r == Some(d as u32),
            None => r is None,
        },
{
    match key {
        Key::Char(c) => {
            let u = c as u32;
            if 49 <= u && u <= 57 {
                Some(u - 48)
            } else {
                None
            }
        },
        _ => None,
    }
}

/// Whether an edit key keeps every sum within its integer type.
pub open spec fn edit_fits(m: EditorModel, k: Key) -> bool {
    let step = m.song.step;
    if is_char(k, 'l') || k == Key::Right {
        m.cur_tick + step <= u32::MAX
    } else if is_char(k, 'k') || k == Key::Up {
        m.cur_pitch + 1 <= u8::MAX
    } else if is_char(k, 'L') {
        match selected(m) {
            Some(i) => m.song.notes[i].start + step <= u32::MAX && m.cur_tick + step <= u32::MAX,
            None => true,
        }
    } else if is_char(k, '+') || is_char(k, '=') {
        match selected(m) {
            Some(i) => lengthened(m.song.notes[i].len, step) <= u32::MAX,
            None => true,
        }
    } else if is_char(k, '.') {
        m.song.bpm + 5 <= u32::MAX
    } else {
        true
    }
}

/// The state after an edit key.
pub open spec fn edit_next(m: EditorModel, k: Key) -> EditorModel {
    let step = m.song.step;
    let notes = m.song.notes;
    if is_char(k, 'h') || k == Key::Left {
        EditorModel { cur_tick: if m.cur_tick >= step { (m.cur_tick - step) as u32 } else { 0 }, ..m }
    } else if is_char(k, 'l') || k == Key::Right {
        EditorModel { cur_tick: (m.cur_tick + step) as u32, ..m }
    } else if is_char(k, 'k') || k == Key::Up {
        EditorModel { cur_pitch: if m.cur_pitch + 1 < 127 { (m.cur_pitch + 1) as u8 } else { 127 }, ..m }
    } else if is_char(k, 'j') || k == Key::Down {
        EditorModel { cur_pitch: if m.cur_pitch > 0 { (m.cur_pitch - 1) as u8 } else { 0 }, ..m }
    } else if is_char(k, 'L') {
        match selected(m) {
            Some(i) => EditorModel {
                cur_tick: (m.cur_tick + step) as u32,
                ..with_note(m, i, Note { start: (notes[i].start + step) as u32, ..notes[i] })
            },
            None => m,
        }
    } else if is_char(k, 'H') {
        match selected(m) {
            Some(i) => {
                let s = notes[i].start;
                let ns: u32 = if s >= step { (s - step) as u32 } else { 0 };
                let back = s - ns;
                EditorModel {
                    cur_tick: if m.cur_tick >= back { (m.cur_tick - back) as u32 } else { 0 },
                    ..with_note(m, i, Note { start: ns, ..notes[i] })
                }
            },
            None => m,
        }
    } else if is_char(k, 'K') {
        match selected(m) {
            Some(i) => if notes[i].pitch < 127 {
                EditorModel {
                    cur_pitch: (notes[i].pitch + 1) as u8,
                    ..with_note(m, i, Note { pitch: (notes[i].pitch + 1) as u8, ..notes[i] })
                }
            } else {
                m
            },
            None => m,
        }
    } else if is_char(k, 'J') {
        match selected(m) {
            Some(i) => if notes[i].pitch > 0 {
                EditorModel {
                    cur_pitch: (notes[i].pitch - 1) as u8,
                    ..with_note(m, i, Note { pitch: (notes[i].pitch - 1) as u8, ..notes[i] })
                }
            } else {
                m
            },
            None => m,
        }
    } else if is_char(k, '+') || is_char(k, '=') {
        match selected(m) {
            Some(i) => with_note(
                m,
                i,
                Note { len: lengthened(notes[i].len, step) as u32, ..notes[i] },
            ),
            None => m,
        }
    } else if is_char(k, '-') {
        match selected(m) {
            Some(i) => with_note(m, i, Note { len: shortened(notes[i].len, step), ..notes[i] }),
            None => m,
        }
    } else if is_char(k, 'x') || k == Key::Del {
        match selected(m) {
            Some(i) => EditorModel {
                song: SongModel { notes: notes.remove(i), ..m.song },
                dirty: true,
                ..m
            },
            None => m,
        }
    } else if k == Key::Enter {
        match selected(m) {
            Some(i) => m,
            None => EditorModel {
                song: SongModel {
                    notes: notes.push(
                        Note { pitch: m.cur_pitch, start: m.cur_tick, len: step, vel: DEF_VEL },
                    ),
                    ..m.song
                },
                dirty: true,
                ..m
            },
        }
    } else if strength_digit(k) is Some {
        match selected(m) {
            Some(i) => with_note(
                m,
                i,
                Note { vel: digit_strength(strength_digit(k)->0), ..notes[i] },
            ),
            None => m,
        }
    } else if k == Key::Tab {
        EditorModel { mode: Mode::Play, ..m }
    } else if is_char(k, 'r') {
        EditorModel { mode: Mode::Record, ..m }
    } else if is_char(k, 'm') {
        EditorModel { metro: !m.metro, ..m }
    } else if is_char(k, 'g') {
        EditorModel { song: SongModel { step: next_grid(step, m.song.tpb), ..m.song }, ..m }
    } else if is_char(k, ',') {
        EditorModel {
            song: SongModel { bpm: if m.song.bpm >= 25 { (m.song.bpm - 5) as u32 } else { 20 }, ..m.song },
            ..m
        }
    } else if is_char(k, '.') {
        EditorModel {
            song: SongModel { bpm: if m.song.bpm + 5 < 300 { (m.song.bpm + 5) as u32 } else { 300 }, ..m.song },
            ..m
        }
    } else {
        m
    }
}

/// What the program has to do after an edit key.
pub open spec fn edit_action(m: EditorModel, k: Key) -> EditAction {
    if is_char(k, 'q') {
        if m.dirty { EditAction::AskQuit } else { EditAction::Quit }
    } else if k == Key::Enter {
        match selected(m) {
            Some(i) => EditAction::Monitor(m.cur_pitch, m.song.notes[i].vel),
            None => EditAction::Monitor(m.cur_pitch, DEF_VEL),
        }
    } else if strength_digit(k) is Some {
        match selected(m) {
            Some(i) => EditAction::Monitor(m.song.notes[i].pitch, digit_strength(strength_digit(k)->0)),
            None => EditAction::Nothing,
        }
    } else if is_char(k, ' ') {
        EditAction::Play
    } else if is_char(k, 'w') {
        EditAction::Save
    } else if is_char(k, 'o') {
        EditAction::Open
    } else if is_char(k, 'e') {
        EditAction::Export
    } else if is_char(k, 'n') {
        EditAction::AskNew
    } else {
        EditAction::Nothing
    }
}

/// What a key does while recording.
#[derive(Clone, Copy, Debug, PartialEq, Eq, Structural)]
pub enum RecordEvent {
    Stop,
    Nothing,
    /// a piano key: the pitch it plays
    Pitch(u8),
}

pub open spec fn octave_lower(b: i32) -> i32 {
    if b - 1 > -1 { (b - 1) as i32 } else { -1i32 }
}

pub open spec fn octave_higher(b: i32) -> i32 {
    if b + 1 < 9 { (b + 1) as i32 } else { 9i32 }
}

/// The state after a key in PLAY mode.
pub open spec fn play_next(m: EditorModel, k: Key) -> EditorModel {
    if k == Key::Esc || k == Key::Tab || k == Key::Enter {
        EditorModel { mode: Mode::Edit, ..m }
    } else if is_char(k, '[') {
        EditorModel { base_oct: octave_lower(m.base_oct), ..m }
    } else if is_char(k, ']') {
        EditorModel { base_oct: octave_higher(m.base_oct), ..m }
    } else {
        m
    }
}

/// The pitch a key in PLAY mode sounds.
pub open spec fn play_sound(m: EditorModel, k: Key) -> Option<u8> {
    if k == Key::Esc || k == Key::Tab || k == Key::Enter || is_char(k, '[') || is_char(k, ']') {
        None
    } else {
        match k {
            Key::Char(c) => pitch_of_key(c, m.base_oct),
            _ => None,
        }
    }
}

/// The pitch key `c` plays with the `z` key in octave `base`.
pub open spec fn pitch_of_key(c: char, base: i32) -> Option<u8> {
    match key_semitone(c) {
        Some(semi) => {
            let midi = (base + 1) * 12 + semi;
            if 0 <= midi <= 127 { Some(midi as u8) } else { None }
        },
        None => None,
    }
}

/// The state after a key while recording.
pub open spec fn record_next(m: EditorModel, k: Key) -> EditorModel {
    if k == Key::Esc || k == Key::Enter {
        m
    } else if is_char(k, '[') {
        EditorModel { base_oct: octave_lower(m.base_oct), ..m }
    } else if is_char(k, ']') {
        EditorModel { base_oct: octave_higher(m.base_oct), ..m }
    } else {
        m
    }
}

/// What a key while recording means.
pub open spec fn record_event(m: EditorModel, k: Key) -> RecordEvent {
    if k == Key::Esc || k == Key::Enter {
        RecordEvent::Stop
    } else if is_char(k, '[') || is_char(k, ']') {
        RecordEvent::Nothing
    } else {
        match k {
            Key::Char(c) => match pitch_of_key(c, m.base_oct) {
                Some(p) => RecordEvent::Pitch(p),
                None => RecordEvent::Nothing,
            },
            _ => RecordEvent::Nothing,
        }
    }
}

/// Whether a yes/no answer is yes: `y` or `Y`.
pub open spec fn is_yes(answer: Seq<char>) -> bool {
    answer == seq!['y'] || answer == seq!['Y']
}

/// Whether a yes/no answer is yes, as `eq_ignore_ascii_case("y")` says.
pub fn confirmed(answer: &str) -> (r: bool)
    ensures
        r == is_yes(answer@),
{
    let cs = chars_of(answer);
    if cs.len() == 1 && (cs[0] == 'y' || cs[0] == 'Y') {
        assert(cs@ =~= seq![cs@[0]]);
        true
    } else {
        false
    }
}

/// What one cell of the piano-roll shows.
#[derive(Clone, Copy, Debug, PartialEq, Eq, Structural)]
pub enum Cell {
    /// the moving playhead; whether a note sounds there
    Playhead(bool),
    /// the cursor; whether a note sounds there
    Cursor(bool),
    /// a note, in the colour of its strength
    Note(u16),
    /// a bar line
    Bar,
    /// a beat
    Beat,
    Empty,
}

/// The top pitch row after scrolling the cursor pitch into a view of `vis_rows` rows.
pub open spec fn scrolled_top(m: EditorModel, vis_rows: u16) -> u8 {
    let top1 = if m.cur_pitch > m.top_pitch { m.cur_pitch } else { m.top_pitch };
    let bottom = top1 - (vis_rows - 1);
    let span = (vis_rows % 256) - 1;
    let top2: u8 = if m.cur_pitch < bottom {
        if m.cur_pitch + span <= 255 { (m.cur_pitch + span) as u8 } else { 255 }
    } else {
        top1
    };
    if top2 > 127 { 127 } else { top2 }
}

/// The tick of the playhead while playing, else of the cursor.
pub open spec fn anchor_tick(m: EditorModel) -> u32 {
    match m.playhead {
        Some(t) => t,
        None => m.cur_tick,
    }
}

/// The leftmost tick after scrolling the anchor tick into a view of
/// `vis_ticks` ticks and putting the left edge on a bar line: the bar line
/// at or before it, or the next one where the anchor would otherwise fall off
/// the right edge and the next bar line is not past the anchor.
pub open spec fn scrolled_left(m: EditorModel, vis_ticks: u32) -> u32 {
    let a = anchor_tick(m);
    let l1 = if a < m.left_tick { a } else { m.left_tick };
    let l2 = if a >= l1 + vis_ticks { a - vis_ticks + 1 } else { l1 as int };
    snapped(l2, a as int, vis_ticks as int, m.song.bpb * m.song.tpb) as u32
}

/// Left edge `l` put on a bar line: the one at or before it, or the next one
/// where the anchor `a` would otherwise fall off the right edge and that bar
/// line is not past the anchor.
pub open spec fn snapped(l: int, a: int, vis: int, bar: int) -> int {
    let down = (l / bar) * bar;
    if a >= down + vis && down + bar <= a {
        down + bar
    } else {
        down
    }
}

/// Puts a left edge on a bar line (see `snapped`).
fn snap_left(l: u32, a: u32, vis: u32, bar: u32) -> (r: u32)
    requires
        bar > 0,
    ensures
        r == snapped(l as int, a as int, vis as int, bar as int),
{
    let q = l / bar;
    assert(q * bar <= l) by (nonlinear_arith)
        requires
            q == l / bar,
            bar > 0,
    ;
    let down = q * bar;
    if a as u64 >= down as u64 + vis as u64 && down as u64 + bar as u64 <= a as u64 {
        down + bar
    } else {
        down
    }
}

/// Whether scrolling stays within its integer types (its sums are done in
/// `u8` and `u32`, and it divides by the bar length).
pub open spec fn scroll_fits(m: EditorModel, vis_rows: u16, vis_ticks: u32) -> bool {
    let top1 = if m.cur_pitch > m.top_pitch { m.cur_pitch } else { m.top_pitch };
    let bottom = top1 - (vis_rows - 1);
    let a = anchor_tick(m);
    let l1 = if a < m.left_tick { a } else { m.left_tick };
    &&& (m.cur_pitch < bottom ==> vis_rows % 256 != 0)
    &&& l1 + vis_ticks <= u32::MAX
    &&& (a >= l1 + vis_ticks ==> a - vis_ticks + 1 <= u32::MAX)
    &&& 0 < m.song.bpb * m.song.tpb <= u32::MAX
}

/// The strength of the first note sounding at pitch `p` and tick `t`.
pub open spec fn vel_at(m: EditorModel, p: u8, t: u32) -> Option<u32> {
    match first_cover(m.song.notes, p, t) {
        Some(i) => Some(m.song.notes[i].vel),
        None => None,
    }
}

/// What the piano-roll shows at pitch `p` and tick `t`: the playhead, the
/// cursor, a note, a bar line, a beat, or nothing, in that precedence.
pub open spec fn cell_at(m: EditorModel, p: u8, t: u32) -> Cell {
    let v = vel_at(m, p, t);
    if m.playhead == Some(t) {
        Cell::Playhead(v is Some)
    } else if p == m.cur_pitch && t == m.cur_tick {
        Cell::Cursor(v is Some)
    } else if v is Some {
        Cell::Note(level_color(vel_level(v->0)))
    } else if (t as int) % (m.song.bpb * m.song.tpb) == 0 {
        Cell::Bar
    } else if t % m.song.tpb == 0 {
        Cell::Beat
    } else {
        Cell::Empty
    }
}

impl Editor {
    /// A new editor on an empty song: cursor at C4, tick 0, EDIT mode.
    pub fn new() -> (r: Editor)
        ensures
            r@.song == crate::song::default_model(),
            r@.file is None,
            !r@.dirty,
            r@.mode == Mode::Edit,
            r@.cur_tick == 0,
            r@.cur_pitch == 60,
            r@.top_pitch == 72,
            r@.left_tick == 0,
            r@.base_oct == 4,
            !r@.metro,
            r@.playhead is None,
    {
        Editor {
            song: Song::new(),
            mode: Mode::Edit,
            cur_tick: 0,
            cur_pitch: 60,
            top_pitch: 72,
            left_tick: 0,
            base_oct: 4,
            metro: false,
            playhead: None,
        }
    }

    /// Index of the first note sounding at pitch `p` and tick `t`, if any.
    pub fn find(&self, p: u8, t: u32) -> (r: Option<usize>)
        ensures
            r is None <==> first_cover(self.song.notes@, p, t) is None,
            r matches Some(i) ==> first_cover(self.song.notes@, p, t) == Some(i as int) && i
                < self.song.notes@.len() && covers(self.song.notes@[i as int], p, t),
    {
        proof {
            lemma_first_cover_range(self.song.notes@, p, t);
        }
        let mut i: usize = 0;
        assert(self.song.notes@.take(0) =~= Seq::<Note>::empty());
        while i < self.song.notes.len()
            invariant
                i <= self.song.notes@.len(),
                first_cover(self.song.notes@.take(i as int), p, t) is None,
            decreases self.song.notes@.len() - i,
        {
            let n = self.song.notes[i];
            proof {
                assert(self.song.notes@.take(i + 1).drop_last() =~= self.song.notes@.take(i as int));
                lemma_first_cover_prefix(self.song.notes@, p, t, i + 1);
            }
            if n.pitch == p && t >= n.start && t - n.start < n.len {
                return Some(i);
            }
            i = i + 1;
        }
        assert(self.song.notes@.take(self.song.notes@.len() as int) =~= self.song.notes@);
        None
    }

    /// Index of the note under the cursor, if any.
    pub fn sel(&self) -> (r: Option<usize>)
        ensures
            r is None <==> selected(self@) is None,
            r matches Some(i) ==> selected(self@) == Some(i as int) && i < self.song.notes@.len()
                && covers(self.song.notes@[i as int], self.cur_pitch, self.cur_tick),
    {
        self.find(self.cur_pitch, self.cur_tick)
    }

    /// Whether an edit key keeps every sum within its integer type; where it
    /// does not, the key would overflow.
    pub fn edit_fits(&self, key: Key) -> (r: bool)
        ensures
            r == edit_fits(self@, key),
    {
        let step = self.song.step;
        if key == Key::Char('l') || key == Key::Right {
            self.cur_tick as u64 + step as u64 <= 4294967295
        } else if key == Key::Char('k') || key == Key::Up {
            self.cur_pitch < 255
        } else if key == Key::Char('L') {
            match self.sel() {
                Some(i) => self.song.notes[i].start as u64 + step as u64 <= 4294967295
                    && self.cur_tick as u64 + step as u64 <= 4294967295,
                None => true,
            }
        } else if key == Key::Char('+') || key == Key::Char('=') {
            match self.sel() {
                Some(i) => {
                    let len = self.song.notes[i].len;
                    if len >= step {
                        len as u64 + step as u64 <= 4294967295
                    } else {
                        len < 4294967295
                    }
                },
                None => true,
            }
        } else if key == Key::Char('.') {
            self.song.bpm <= 4294967290
        } else {
            true
        }
    }

    /// Replaces the selected note `i` and marks the song changed.
    fn put_note(&mut self, i: usize, n: Note)
        requires
            i < old(self).song.notes@.len(),
        ensures
            final(self)@ == with_note(old(self)@, i as int, n),
    {
        self.song.notes.set(i, n);
        self.song.dirty = true;
    }

    /// Handles one key in EDIT mode: the new state is `edit_next` and the
    /// returned action `edit_action` of the old state and the key.
    pub fn handle_edit(&mut self, key: Key) -> (r: EditAction)
        requires
            edit_fits(old(self)@, key),
        ensures
            final(self)@ == edit_next(old(self)@, key),
            r == edit_action(old(self)@, key),
    {
        let step = self.song.step;
        if key == Key::Char('q') {
            if self.song.dirty {
                return EditAction::AskQuit;
            }
            return EditAction::Quit;
        } else if key == Key::Char('h') || key == Key::Left {
            self.cur_tick = self.cur_tick.saturating_sub(step);
        } else if key == Key::Char('l') || key == Key::Right {
            self.cur_tick = self.cur_tick + step;
        } else if key == Key::Char('k') || key == Key::Up {
            let p = self.cur_pitch + 1;
            self.cur_pitch = if p < 127 { p } else { 127 };
        } else if key == Key::Char('j') || key == Key::Down {
            self.cur_pitch = self.cur_pitch.saturating_sub(1);
        } else if key == Key::Char('L') {
            if let Some(i) = self.sel() {
                let n = self.song.notes[i];
                self.put_note(i, Note { start: n.start + step, ..n });
                self.cur_tick = self.cur_tick + step;
            }
        } else if key == Key::Char('H') {
            if let Some(i) = self.sel() {
                let n = self.song.notes[i];
                let s = n.start;
                let ns = s.saturating_sub(step);
                self.put_note(i, Note { start: ns, ..n });
                self.cur_tick = self.cur_tick.saturating_sub(s - ns);
            }
        } else if key == Key::Char('K') {
            if let Some(i) = self.sel() {
                let n = self.song.notes[i];
                if n.pitch < 127 {
                    self.put_note(i, Note { pitch: n.pitch + 1, ..n });
                    self.cur_pitch = n.pitch + 1;
                }
            }
        } else if key == Key::Char('J') {
            if let Some(i) = self.sel() {
                let n = self.song.notes[i];
                if n.pitch > 0 {
                    self.put_note(i, Note { pitch: n.pitch - 1, ..n });
                    self.cur_pitch = n.pitch - 1;
                }
            }
        } else if key == Key::Char('+') || key == Key::Char('=') {
            if let Some(i) = self.sel() {
                let n = self.song.notes[i];
                let len = if n.len >= step {
                    n.len + step
                } else {
                    n.len + 1
                };
                self.put_note(i, Note { len, ..n });
            }
        } else if key == Key::Char('-') {
            if let Some(i) = self.sel() {
                let n = self.song.notes[i];
                let len = if n.len > step {
                    n.len - step
                } else {
                    let l = n.len.saturating_sub(1);
                    if l > 1 {
                        l
                    } else {
                        1
                    }
                };
                self.put_note(i, Note { len, ..n });
            }
        } else if key == Key::Char('x') || key == Key::Del {
            if let Some(i) = self.sel() {
                self.song.notes.remove(i);
                self.song.dirty = true;
            }
        } else if key == Key::Enter {
            let p = self.cur_pitch;
            let vel = match self.sel() {
                Some(i) => self.song.notes[i].vel,
                None => {
                    self.song.notes.push(
                        Note { pitch: p, start: self.cur_tick, len: step, vel: DEF_VEL },
                    );
                    self.song.dirty = true;
                    DEF_VEL
                },
            };
            return EditAction::Monitor(p, vel);
        } else if let Some(d) = digit_key(key) {
            if let Some(i) = self.sel() {
                let n = self.song.notes[i];
                let vel = (d * 100 + 4) / 9;
                self.put_note(i, Note { vel, ..n });
                return EditAction::Monitor(n.pitch, vel);
            }
        } else if key == Key::Char(' ') {
            return EditAction::Play;
        } else if key == Key::Tab {
            self.mode = Mode::Play;
        } else if key == Key::Char('r') {
            self.mode = Mode::Record;
        } else if key == Key::Char('m') {
            self.metro = !self.metro;
        } else if key == Key::Char('g') {
            let tpb = self.song.tpb;
            self.song.step = if step == tpb {
                tpb / 2
            } else if step == tpb / 2 {
                if tpb / 4 > 1 {
                    tpb / 4
                } else {
                    1
                }
            } else {
                tpb
            };
        } else if key == Key::Char(',') {
            let b = self.song.bpm.saturating_sub(5);
            self.song.bpm = if b > 20 { b } else { 20 };
        } else if key == Key::Char('.') {
            let b = self.song.bpm + 5;
            self.song.bpm = if b < 300 { b } else { 300 };
        } else if key == Key::Char('w') {
            return EditAction::Save;
        } else if key == Key::Char('o') {
            return EditAction::Open;
        } else if key == Key::Char('e') {
            return EditAction::Export;
        } else if key == Key::Char('n') {
            return EditAction::AskNew;
        }
        EditAction::Nothing
    }

    /// Handles one key in PLAY (jam) mode. Returns the pitch to sound, if the
    /// key plays one.
    pub fn handle_play(&mut self, key: Key) -> (r: Option<u8>)
        ensures
            final(self)@ == play_next(old(self)@, key),
            r == play_sound(old(self)@, key),
    {
        if key == Key::Esc || key == Key::Tab || key == Key::Enter {
            self.mode = Mode::Edit;
            None
        } else if key == Key::Char('[') {
            self.octave_down();
            None
        } else if key == Key::Char(']') {
            self.octave_up();
            None
        } else if let Key::Char(c) = key {
            key_to_pitch(c, self.base_oct)
        } else {
            None
        }
    }

    /// `[`: the keyboard piano an octave lower, not below octave -1.
    pub fn octave_down(&mut self)
        ensures
            final(self)@ == (EditorModel { base_oct: octave_lower(old(self)@.base_oct), ..old(self)@ }),
    {
        self.base_oct = if self.base_oct <= 0 { -1 } else { self.base_oct - 1 };
    }

    /// `]`: the keyboard piano an octave higher, not above octave 9.
    pub fn octave_up(&mut self)
        ensures
            final(self)@ == (EditorModel { base_oct: octave_higher(old(self)@.base_oct), ..old(self)@ }),
    {
        self.base_oct = if self.base_oct >= 8 { 9 } else { self.base_oct + 1 };
    }

    /// Handles one key while recording: Esc or Enter stops, `[` and `]` shift
    /// the octave, a piano key gives its pitch.
    pub fn record_key(&mut self, key: Key) -> (r: RecordEvent)
        ensures
            final(self)@ == record_next(old(self)@, key),
            r == record_event(old(self)@, key),
    {
        if key == Key::Esc || key == Key::Enter {
            RecordEvent::Stop
        } else if key == Key::Char('[') {
            self.octave_down();
            RecordEvent::Nothing
        } else if key == Key::Char(']') {
            self.octave_up();
            RecordEvent::Nothing
        } else if let Key::Char(c) = key {
            match key_to_pitch(c, self.base_oct) {
                Some(p) => RecordEvent::Pitch(p),
                None => RecordEvent::Nothing,
            }
        } else {
            RecordEvent::Nothing
        }
    }

    /// Records a played pitch at `tick`: a note of one grid step at the
    /// nearest grid point.
    pub fn record_note(&mut self, pitch: u8, tick: u32)
        requires
            old(self).song.step > 0,
            tick + old(self).song.step / 2 <= u32::MAX,
        ensures
            final(self)@ == (EditorModel {
                song: SongModel {
                    notes: old(self)@.song.notes.push(
                        Note {
                            pitch,
                            start: quantized(tick as nat, old(self)@.song.step as nat) as u32,
                            len: old(self)@.song.step,
                            vel: DEF_VEL,
                        },
                    ),
                    ..old(self)@.song
                },
                dirty: true,
                ..old(self)@
            }),
    {
        let start = self.song.quantize(tick);
        let step = self.song.step;
        self.song.notes.push(Note { pitch, start, len: step, vel: DEF_VEL });
        self.song.dirty = true;
    }

    /// `n` answered yes: clears the song and forgets its file.
    pub fn clear_song(&mut self)
        ensures
            final(self)@ == (EditorModel {
                song: SongModel { notes: Seq::empty(), ..old(self)@.song },
                file: None,
                dirty: false,
                ..old(self)@
            }),
    {
        self.song.notes.clear();
        self.song.dirty = false;
        self.song.file = None;
    }

    /// The song was saved to `path`.
    pub fn mark_saved(&mut self, path: String)
        ensures
            final(self)@ == (EditorModel { file: Some(path@), dirty: false, ..old(self)@ }),
    {
        self.song.file = Some(path);
        self.song.dirty = false;
    }

    /// Takes an opened song, read from `path`: cursor back to tick 0 at C4.
    pub fn open_song(&mut self, song: Song, path: String)
        ensures
            final(self)@ == (EditorModel {
                song: song.model(),
                file: Some(path@),
                dirty: song.dirty,
                cur_tick: 0,
                cur_pitch: 60,
                ..old(self)@
            }),
    {
        let mut song = song;
        song.file = Some(path);
        self.song = song;
        self.cur_tick = 0;
        self.cur_pitch = 60;
    }

    /// Recording ended: notes in (start, pitch) order, back to EDIT.
    pub fn finish_record(&mut self)
        ensures
            final(self)@ == (EditorModel {
                song: SongModel { notes: sorted_notes(old(self)@.song.notes), ..old(self)@.song },
                mode: Mode::Edit,
                ..old(self)@
            }),
    {
        self.song.sort_notes();
        self.mode = Mode::Edit;
    }

    /// Whether `scroll` stays within its integer types for this view size.
    pub fn scroll_fits(&self, vis_rows: u16, vis_ticks: u32) -> (r: bool)
        ensures
            r == scroll_fits(self@, vis_rows, vis_ticks),
    {
        let top = if self.cur_pitch > self.top_pitch { self.cur_pitch } else { self.top_pitch };
        let bottom: i64 = top as i64 - (vis_rows as i64 - 1);
        let rows_ok = !((self.cur_pitch as i64) < bottom) || vis_rows % 256 != 0;
        let anchor = match self.playhead {
            Some(t) => t,
            None => self.cur_tick,
        };
        let left = if anchor < self.left_tick { anchor } else { self.left_tick };
        let b = self.song.bpb as u64;
        let t = self.song.tpb as u64;
        assert(b * t <= u64::MAX) by (nonlinear_arith)
            requires
                b <= u32::MAX,
                t <= u32::MAX,
        ;
        let bar = b * t;
        let back_ok = !(anchor as u64 >= left as u64 + vis_ticks as u64) || vis_ticks > 0
            || anchor < 4294967295;
        rows_ok && back_ok && left as u64 + vis_ticks as u64 <= 4294967295 && bar <= 4294967295
            && bar > 0
    }

    /// Scrolls the piano-roll so the cursor pitch is in view and the playhead
    /// (while playing) or else the cursor tick is in view, the left edge on a
    /// bar line.
    pub fn scroll(&mut self, vis_rows: u16, vis_ticks: u32)
        requires
            scroll_fits(old(self)@, vis_rows, vis_ticks),
        ensures
            final(self)@ == (EditorModel {
                top_pitch: scrolled_top(old(self)@, vis_rows),
                left_tick: scrolled_left(old(self)@, vis_ticks),
                ..old(self)@
            }),
            vis_ticks >= 1 ==> final(self)@.left_tick <= anchor_tick(old(self)@),
            (final(self)@.left_tick as int) % (old(self)@.song.bpb * old(self)@.song.tpb) == 0,
            1 <= old(self)@.song.bpb * old(self)@.song.tpb <= vis_ticks ==> anchor_tick(old(self)@)
                < final(self)@.left_tick + vis_ticks,
    {
        proof {
            lemma_scroll_follows(old(self)@, vis_rows, vis_ticks);
        }
        if self.cur_pitch > self.top_pitch {
            self.top_pitch = self.cur_pitch;
        }
        let bottom: i64 = self.top_pitch as i64 - (vis_rows as i64 - 1);
        if (self.cur_pitch as i64) < bottom {
            let span = (vis_rows % 256) as u8 - 1;
            self.top_pitch = self.cur_pitch.saturating_add(span);
        }
        if self.top_pitch > 127 {
            self.top_pitch = 127;
        }
        let anchor = match self.playhead {
            Some(t) => t,
            None => self.cur_tick,
        };
        if anchor < self.left_tick {
            self.left_tick = anchor;
        }
        if anchor >= self.left_tick + vis_ticks {
            self.left_tick = anchor - vis_ticks + 1;
        }
        let bar = self.song.bar_ticks();
        self.left_tick = snap_left(self.left_tick, anchor, vis_ticks, bar);
    }

    /// What the piano-roll shows at pitch `p` and tick `t`.
    pub fn cell(&self, p: u8, t: u32) -> (r: Cell)
        requires
            self.song.bpb * self.song.tpb > 0,
            self.song.bpb * self.song.tpb <= u32::MAX,
        ensures
            r == cell_at(self@, p, t),
    {
        let note_vel = match self.find(p, t) {
            Some(i) => Some(self.song.notes[i].vel),
            None => None,
        };
        let on_note = note_vel.is_some();
        let bar = self.song.bar_ticks();
        if self.playhead == Some(t) {
            Cell::Playhead(on_note)
        } else if p == self.cur_pitch && t == self.cur_tick {
            Cell::Cursor(on_note)
        } else if let Some(v) = note_vel {
            Cell::Note(vel_color(v))
        } else if t % bar == 0 {
            Cell::Bar
        } else if t % self.song.tpb == 0 {
            Cell::Beat
        } else {
            Cell::Empty
        }
    }
}

/// The first covering note is a note that covers, and no earlier one does.
pub proof fn lemma_first_cover_range(notes: Seq<Note>, p: u8, t: u32)
    ensures
        first_cover(notes, p, t) matches Some(i) ==> 0 <= i < notes.len() && covers(
            notes[i],
            p,
            t,
        ) && forall|j: int| 0 <= j < i ==> !covers(#[trigger] notes[j], p, t),
        first_cover(notes, p, t) is None ==> forall|j: int|
            0 <= j < notes.len() ==> !covers(#[trigger] notes[j], p, t),
    decreases notes.len(),
{
    if notes.len() > 0 {
        lemma_first_cover_range(notes.drop_last(), p, t);
        assert forall|j: int| 0 <= j < notes.len() - 1 implies #[trigger] notes[j] == notes.drop_last()[j] by {}
    }
}

/// A note that covers, with none before it that does, is the first cover.
pub proof fn lemma_first_cover_is(notes: Seq<Note>, p: u8, t: u32, i: int)
    requires
        0 <= i < notes.len(),
        covers(notes[i], p, t),
        forall|j: int| 0 <= j < i ==> !covers(#[trigger] notes[j], p, t),
    ensures
        first_cover(notes, p, t) == Some(i),
{
    lemma_first_cover_range(notes, p, t);
    match first_cover(notes, p, t) {
        Some(k) => {
            if k < i {
                assert(!covers(notes[k], p, t));
            } else if k > i {
                assert(!covers(notes[i], p, t));
            }
        },
        None => {
            assert(!covers(notes[i], p, t));
        },
    }
}

/// Changing the first covering note into another covering note keeps it first.
proof fn lemma_first_cover_update(notes: Seq<Note>, p: u8, t: u32, i: int, x: Note)
    requires
        first_cover(notes, p, t) == Some(i),
        covers(x, p, t),
    ensures
        first_cover(notes.update(i, x), p, t) == Some(i),
{
    lemma_first_cover_range(notes, p, t);
    let u = notes.update(i, x);
    assert forall|j: int| 0 <= j < i implies !covers(#[trigger] u[j], p, t) by {
        assert(u[j] == notes[j]);
    }
    lemma_first_cover_is(u, p, t, i);
}

/// Finding the first covering note in a prefix finds it in the whole.
proof fn lemma_first_cover_prefix(notes: Seq<Note>, p: u8, t: u32, k: int)
    requires
        0 <= k <= notes.len(),
    ensures
        first_cover(notes.take(k), p, t) is Some ==> first_cover(notes, p, t) == first_cover(
            notes.take(k),
            p,
            t,
        ),
    decreases notes.len() - k,
{
    if k < notes.len() {
        lemma_first_cover_prefix(notes, p, t, k + 1);
        assert(notes.take(k + 1).drop_last() =~= notes.take(k));
    } else {
        assert(notes.take(k) =~= notes);
    }
}

/// The view follows the playhead (while playing) or else the cursor tick:
/// after scrolling, the left edge is on a bar line at or before it, and it is
/// in view wherever a bar fits in the view.
pub proof fn lemma_scroll_follows(m: EditorModel, vis_rows: u16, vis_ticks: u32)
    requires
        scroll_fits(m, vis_rows, vis_ticks),
    ensures
        vis_ticks >= 1 ==> scrolled_left(m, vis_ticks) <= anchor_tick(m),
        (scrolled_left(m, vis_ticks) as int) % (m.song.bpb * m.song.tpb) == 0,
        m.song.bpb * m.song.tpb <= vis_ticks ==> anchor_tick(m) < scrolled_left(m, vis_ticks)
            + vis_ticks,
{
    let a = anchor_tick(m);
    let l1 = if a < m.left_tick { a } else { m.left_tick };
    let l2 = if a >= l1 + vis_ticks { a - vis_ticks + 1 } else { l1 as int };
    let bar = m.song.bpb * m.song.tpb;
    assert(0 <= l2);
    assert(vis_ticks >= 1 ==> l2 <= a);
    assert((l2 / bar) * bar <= l2) by (nonlinear_arith)
        requires
            bar > 0,
            l2 >= 0,
    ;
    assert(((l2 / bar) * bar) % bar == 0) by (nonlinear_arith)
        requires
            bar > 0,
            l2 >= 0,
    ;
    assert((l2 / bar) * bar >= 0) by (nonlinear_arith)
        requires
            bar > 0,
            l2 >= 0,
    ;
    assert(l2 < (l2 / bar) * bar + bar) by (nonlinear_arith)
        requires
            bar > 0,
            l2 >= 0,
    ;
    assert((((l2 / bar) * bar) + bar) % bar == 0) by (nonlinear_arith)
        requires
            bar > 0,
            l2 >= 0,
    ;
    assert(a < l2 + vis_ticks);
}

/// Scrolling keeps the cursor pitch in view, and puts the left edge on a bar
/// line at or before the playhead (while playing) or else the cursor tick,
/// with that tick in view wherever a bar fits in the view.
pub proof fn lemma_scroll_in_view(m: EditorModel, vis_rows: u16, vis_ticks: u32)
    requires
        scroll_fits(m, vis_rows, vis_ticks),
        1 <= vis_rows <= 255,
        vis_ticks >= 1,
        m.cur_pitch <= 127,
    ensures
        scrolled_top(m, vis_rows) - vis_rows < m.cur_pitch <= scrolled_top(m, vis_rows),
        scrolled_left(m, vis_ticks) <= anchor_tick(m),
        (scrolled_left(m, vis_ticks) as int) % (m.song.bpb * m.song.tpb) == 0,
        m.song.bpb * m.song.tpb <= vis_ticks ==> anchor_tick(m) < scrolled_left(m, vis_ticks)
            + vis_ticks,
{
    lemma_scroll_follows(m, vis_rows, vis_ticks);
}

/// `p` with a leading `~/` standing for the home directory.
pub open spec fn expanded(home: Seq<char>, p: Seq<char>) -> Seq<char> {
    if p.len() >= 2 && p[0] == '~' && p[1] == '/' {
        home + seq!['/'] + p.skip(2)
    } else {
        p
    }
}

/// Expands a leading `~/` in a path to the home directory `home`.
pub fn expand(home: &str, p: &str) -> (r: String)
    ensures
        r@ == expanded(home@, p@),
{
    let cs = chars_of(p);
    let mut out: Vec<char> = Vec::new();
    if cs.len() >= 2 && cs[0] == '~' && cs[1] == '/' {
        push_str(&mut out, home);
        out.push('/');
        let mut i: usize = 2;
        while i < cs.len()
            invariant
                2 <= i <= cs@.len(),
                out@ == home@ + seq!['/'] + cs@.subrange(2, i as int),
            decreases cs@.len() - i,
        {
            out.push(cs[i]);
            proof {
                assert(cs@.subrange(2, i + 1) =~= cs@.subrange(2, i as int).push(cs@[i as int]));
            }
            i = i + 1;
        }
        assert(cs@.subrange(2, cs@.len() as int) =~= cs@.skip(2));
    } else {
        out = cs;
    }
    string_of(&out)
}

/// The part of a path after its last `/`.
pub open spec fn last_segment(f: Seq<char>) -> Seq<char>
    decreases f.len(),
{
    if f.len() == 0 {
        f
    } else if f.last() == '/' {
        Seq::empty()
    } else {
        last_segment(f.drop_last()).push(f.last())
    }
}

/// Where to save by default: the song's own file, else an untitled file in
/// `~/.melody`.
pub open spec fn save_default(file: Option<Seq<char>>, home: Seq<char>) -> Seq<char> {
    match file {
        Some(f) => f,
        None => home + "/.melody/untitled.mel"@,
    }
}

/// Where to export by default: the song's `.mel` file with a `.wav` ending,
/// else `melody.wav` in `~/.melody`.
pub open spec fn export_default(file: Option<Seq<char>>, home: Seq<char>) -> Seq<char> {
    match file {
        Some(f) => if f.len() >= 4 && f.skip(f.len() - 4) == ".mel"@ {
            f.take(f.len() - 3) + "wav"@
        } else {
            home + "/.melody/melody.wav"@
        },
        None => home + "/.melody/melody.wav"@,
    }
}

/// The file name shown in the header: the song file's last path segment, or
/// `(unsaved)`.
pub open spec fn file_label(file: Option<Seq<char>>) -> Seq<char> {
    match file {
        Some(f) => last_segment(f),
        None => "(unsaved)"@,
    }
}

impl Editor {
    /// The default path offered when saving.
    pub fn default_save_path(&self, home: &str) -> (r: String)
        ensures
            r@ == save_default(self@.file, home@),
    {
        match &self.song.file {
            Some(f) => f.clone(),
            None => {
                let mut out = chars_of(home);
                push_str(&mut out, "/.melody/untitled.mel");
                string_of(&out)
            },
        }
    }

    /// The default path offered when exporting WAV.
    pub fn default_export_path(&self, home: &str) -> (r: String)
        ensures
            r@ == export_default(self@.file, home@),
    {
        if let Some(f) = &self.song.file {
            let cs = chars_of(f.as_str());
            let n = cs.len();
            if n >= 4 && cs[n - 4] == '.' && cs[n - 3] == 'm' && cs[n - 2] == 'e' && cs[n - 1]
                == 'l' {
                let mut out: Vec<char> = Vec::new();
                let mut i: usize = 0;
                while i < n - 3
                    invariant
                        n == cs@.len(),
                        n >= 4,
                        i <= n - 3,
                        out@ == cs@.take(i as int),
                    decreases n - 3 - i,
                {
                    out.push(cs[i]);
                    proof {
                        assert(cs@.take(i + 1) =~= cs@.take(i as int).push(cs@[i as int]));
                    }
                    i = i + 1;
                }
                push_str(&mut out, "wav");
                proof {
                    reveal_strlit(".mel");
                    assert(cs@.skip(n - 4) =~= ".mel"@);
                }
                return string_of(&out);
            }
            proof {
                reveal_strlit(".mel");
                if n >= 4 && cs@.skip(n - 4) == ".mel"@ {
                    assert(cs@.skip(n - 4)[0] == cs@[n - 4]);
                    assert(cs@.skip(n - 4)[1] == cs@[n - 3]);
                    assert(cs@.skip(n - 4)[2] == cs@[n - 2]);
                    assert(cs@.skip(n - 4)[3] == cs@[n - 1]);
                }
            }
        }
        let mut out = chars_of(home);
        push_str(&mut out, "/.melody/melody.wav");
        string_of(&out)
    }

    /// The file name shown in the header.
    pub fn file_label(&self) -> (r: String)
        ensures
            r@ == file_label(self@.file),
    {
        match &self.song.file {
            Some(f) => {
                let cs = chars_of(f.as_str());
                let n = cs.len();
                let mut k = n;
                assert(cs@.take(n as int) =~= cs@);
                assert(cs@.skip(n as int) =~= Seq::<char>::empty());
                assert(last_segment(cs@) + Seq::<char>::empty() =~= last_segment(cs@));
                while k > 0 && cs[k - 1] != '/'
                    invariant
                        n == cs@.len(),
                        k <= n,
                        last_segment(cs@) == last_segment(cs@.take(k as int)) + cs@.skip(
                            k as int,
                        ),
                    decreases k,
                {
                    proof {
                        let t = cs@.take(k as int);
                        assert(t.drop_last() =~= cs@.take(k - 1));
                        assert(t.last() == cs@[k - 1]);
                        assert(cs@.skip(k - 1) =~= seq![cs@[k - 1]] + cs@.skip(k as int));
                        assert(last_segment(t) == last_segment(t.drop_last()).push(t.last()));
                        assert(last_segment(t.drop_last()).push(t.last()) + cs@.skip(k as int)
                            =~= last_segment(t.drop_last()) + cs@.skip(k - 1));
                    }
                    k = k - 1;
                }
                proof {
                    let t = cs@.take(k as int);
                    if k > 0 {
                        assert(t.last() == cs@[k - 1]);
                    }
                    assert(last_segment(t) =~= Seq::<char>::empty());
                }
                let mut out: Vec<char> = Vec::new();
                let mut i = k;
                while i < n
                    invariant
                        n == cs@.len(),
                        k <= i <= n,
                        out@ == cs@.subrange(k as int, i as int),
                    decreases n - i,
                {
                    out.push(cs[i]);
                    proof {
                        assert(cs@.subrange(k as int, i + 1) =~= cs@.subrange(k as int, i as int).push(
                            cs@[i as int],
                        ));
                    }
                    i = i + 1;
                }
                assert(out@ =~= Seq::<char>::empty() + cs@.skip(k as int));
                assert(cs@.take(n as int) =~= cs@);
                string_of(&out)
            },
            None => {
                let out = chars_of("(unsaved)");
                string_of(&out)
            },
        }
    }
}

/// Shortening undoes lengthening: for any note length of at least one tick
/// and any grid step.
pub proof fn lemma_shorten_lengthened(len: u32, step: u32)
    requires
        len >= 1,
        lengthened(len, step) <= u32::MAX,
    ensures
        shortened(lengthened(len, step) as u32, step) == len,
{
}

/// `-` never makes a note shorter than one tick.
pub proof fn lemma_shortened_positive(len: u32, step: u32)
    ensures
        shortened(len, step) >= 1,
{
}

/// `+` then `-` on the note under the cursor gives back the song as it was
/// (only marked changed).
pub proof fn lemma_lengthen_then_shorten(m: EditorModel)
    requires
        selected(m) is Some,
        edit_fits(m, Key::Char('+')),
    ensures
        edit_next(edit_next(m, Key::Char('+')), Key::Char('-')) == (EditorModel { dirty: true, ..m }),
{
    let i = selected(m)->0;
    lemma_first_cover_range(m.song.notes, m.cur_pitch, m.cur_tick);
    let n = m.song.notes[i];
    let n2 = Note { len: lengthened(n.len, m.song.step) as u32, ..n };
    let m2 = edit_next(m, Key::Char('+'));
    assert(m2 == with_note(m, i, n2));
    lemma_first_cover_update(m.song.notes, m.cur_pitch, m.cur_tick, i, n2);
    assert(selected(m2) == Some(i));
    lemma_shorten_lengthened(n.len, m.song.step);
    let n3 = Note { len: shortened(n2.len, m.song.step), ..n2 };
    assert(n3 == n);
    assert(m2.song.notes.update(i, n3) =~= m.song.notes);
}

/// `H` undoes `L`: moving the note under the cursor a grid step later and back
/// restores note and cursor, as long as the same note is still the one under
/// the cursor after the first move.
pub proof fn lemma_later_then_earlier(m: EditorModel)
    requires
        selected(m) is Some,
        edit_fits(m, Key::Char('L')),
        selected(edit_next(m, Key::Char('L'))) == selected(m),
    ensures
        edit_next(edit_next(m, Key::Char('L')), Key::Char('H')) == (EditorModel { dirty: true, ..m }),
{
    let i = selected(m)->0;
    lemma_first_cover_range(m.song.notes, m.cur_pitch, m.cur_tick);
    let m2 = edit_next(m, Key::Char('L'));
    assert(m2.song.notes[i].start == m.song.notes[i].start + m.song.step);
    assert(m2.song.notes.update(i, Note { start: m.song.notes[i].start, ..m2.song.notes[i] })
        =~= m.song.notes);
}

/// `J` undoes `K`: raising the note under the cursor a semitone and lowering
/// it again restores note and cursor, as long as the same note is still the
/// one under the cursor after the first move.
pub proof fn lemma_up_then_down(m: EditorModel)
    requires
        selected(m) is Some,
        m.song.notes[selected(m)->0].pitch < 127,
        selected(edit_next(m, Key::Char('K'))) == selected(m),
    ensures
        edit_next(edit_next(m, Key::Char('K')), Key::Char('J')) == (EditorModel { dirty: true, ..m }),
{
    let i = selected(m)->0;
    lemma_first_cover_range(m.song.notes, m.cur_pitch, m.cur_tick);
    let m2 = edit_next(m, Key::Char('K'));
    assert(m2.song.notes[i].pitch == m.song.notes[i].pitch + 1);
    assert(m2.song.notes.update(i, Note { pitch: m.song.notes[i].pitch, ..m2.song.notes[i] })
        =~= m.song.notes);
    assert(m.cur_pitch == m.song.notes[i].pitch);
}

/// Adding a note on an empty spot and deleting it again leaves the notes as
/// they were.
pub proof fn lemma_add_then_delete(m: EditorModel)
    requires
        selected(m) is None,
        m.song.step >= 1,
    ensures
        edit_next(edit_next(m, Key::Enter), Key::Char('x')) == (EditorModel { dirty: true, ..m }),
{
    let m2 = edit_next(m, Key::Enter);
    let n = m.song.notes.len();
    lemma_first_cover_range(m.song.notes, m.cur_pitch, m.cur_tick);
    assert forall|j: int| 0 <= j < n implies !covers(#[trigger] m2.song.notes[j], m.cur_pitch, m.cur_tick) by {
        assert(m2.song.notes[j] == m.song.notes[j]);
    }
    lemma_first_cover_is(m2.song.notes, m.cur_pitch, m.cur_tick, n as int);
    assert(m2.song.notes.remove(n as int) =~= m.song.notes);
}

/// `g` cycles the grid 1/4 -> 1/8 -> 1/16 -> 1/4: three presses give back the
/// grid, where a beat has a multiple of four ticks.
pub proof fn lemma_grid_cycle(m: EditorModel)
    requires
        m.song.tpb >= 4,
        m.song.tpb % 4 == 0,
        m.song.step == m.song.tpb || m.song.step == m.song.tpb / 2 || m.song.step == m.song.tpb / 4,
    ensures
        edit_next(edit_next(edit_next(m, Key::Char('g')), Key::Char('g')), Key::Char('g')) == m,
{
}

/// The tempo keys keep the tempo between 20 and 300 BPM.
pub proof fn lemma_tempo_bounds(m: EditorModel)
    requires
        20 <= m.song.bpm <= 300,
    ensures
        20 <= edit_next(m, Key::Char(',')).song.bpm <= 300,
        20 <= edit_next(m, Key::Char('.')).song.bpm <= 300,
{
}

/// Quitting asks first exactly when the song has unsaved changes.
pub proof fn lemma_quit_asks_when_dirty(m: EditorModel)
    ensures
        edit_action(m, Key::Char('q')) == (if m.dirty {
            EditAction::AskQuit
        } else {
            EditAction::Quit
        }),
        edit_next(m, Key::Char('q')) == m,
{
}

/// The note under the cursor is the first note, in the song's order, at the
/// cursor's pitch whose ticks `start .. start + len` hold the cursor's tick;
/// there is none exactly when no note sounds there.
pub proof fn lemma_selected_sounds_at_cursor(m: EditorModel)
    ensures
        selected(m) matches Some(i) ==> {
            &&& 0 <= i < m.song.notes.len()
            &&& m.song.notes[i].pitch == m.cur_pitch
            &&& m.song.notes[i].start <= m.cur_tick
            &&& m.cur_tick < m.song.notes[i].start + m.song.notes[i].len
            &&& forall|j: int|
                0 <= j < i ==> !(#[trigger] m.song.notes[j].pitch == m.cur_pitch
                    && m.song.notes[j].start <= m.cur_tick < m.song.notes[j].start
                    + m.song.notes[j].len)
        },
        selected(m) is None <==> forall|j: int|
            0 <= j < m.song.notes.len() ==> !(#[trigger] m.song.notes[j].pitch == m.cur_pitch
                && m.song.notes[j].start <= m.cur_tick < m.song.notes[j].start
                + m.song.notes[j].len),
{
    lemma_first_cover_range(m.song.notes, m.cur_pitch, m.cur_tick);
    if selected(m) is None {
        assert forall|j: int| 0 <= j < m.song.notes.len() implies !(
        #[trigger] m.song.notes[j].pitch == m.cur_pitch && m.song.notes[j].start <= m.cur_tick
            < m.song.notes[j].start + m.song.notes[j].len) by {
            assert(!covers(m.song.notes[j], m.cur_pitch, m.cur_tick));
        }
    } else {
        let i = selected(m)->0;
        assert(covers(m.song.notes[i], m.cur_pitch, m.cur_tick));
        assert forall|j: int| 0 <= j < i implies !(#[trigger] m.song.notes[j].pitch == m.cur_pitch
            && m.song.notes[j].start <= m.cur_tick < m.song.notes[j].start
            + m.song.notes[j].len) by {
            assert(!covers(m.song.notes[j], m.cur_pitch, m.cur_tick));
        }
    }
}

/// A roll cell shows a note only where one sounds: at pitch `p` and a tick
/// `t` with `start <= t < start + len`. Where one does and neither the
/// playhead nor the cursor is there, it shows the strength colour of the
/// first such note; where none does, the cell shows no note, and the
/// playhead or cursor there is drawn over an empty spot.
pub proof fn lemma_cell_shows_sounding_note(m: EditorModel, p: u8, t: u32)
    ensures
        cell_at(m, p, t) is Note ==> exists|i: int|
            0 <= i < m.song.notes.len() && (#[trigger] m.song.notes[i]).pitch == p
                && m.song.notes[i].start <= t < m.song.notes[i].start + m.song.notes[i].len,
        forall|i: int|
            0 <= i < m.song.notes.len() && (#[trigger] m.song.notes[i]).pitch == p
                && m.song.notes[i].start <= t < m.song.notes[i].start + m.song.notes[i].len
                && (forall|j: int|
                0 <= j < i ==> !((#[trigger] m.song.notes[j]).pitch == p && m.song.notes[j].start
                    <= t < m.song.notes[j].start + m.song.notes[j].len))
                && m.playhead != Some(t) && !(p == m.cur_pitch && t == m.cur_tick)
                ==> cell_at(m, p, t) == Cell::Note(level_color(vel_level(m.song.notes[i].vel))),
        (forall|j: int|
            0 <= j < m.song.notes.len() ==> !((#[trigger] m.song.notes[j]).pitch == p
                && m.song.notes[j].start <= t < m.song.notes[j].start + m.song.notes[j].len))
            ==> cell_at(m, p, t) !is Note && cell_at(m, p, t) != Cell::Playhead(true)
            && cell_at(m, p, t) != Cell::Cursor(true),
{
    let notes = m.song.notes;
    lemma_first_cover_range(notes, p, t);
    if let Some(i) = first_cover(notes, p, t) {
        assert(covers(notes[i], p, t));
    }
    assert forall|i: int|
        0 <= i < notes.len() && (#[trigger] notes[i]).pitch == p && notes[i].start <= t < notes[i].start
            + notes[i].len && (forall|j: int|
            0 <= j < i ==> !((#[trigger] notes[j]).pitch == p && notes[j].start <= t
                < notes[j].start + notes[j].len)) implies first_cover(notes, p, t) == Some(i) by {
        assert forall|j: int| 0 <= j < i implies !covers(#[trigger] notes[j], p, t) by {}
        lemma_first_cover_is(notes, p, t, i);
    }
    if forall|j: int|
        0 <= j < notes.len() ==> !((#[trigger] notes[j]).pitch == p && notes[j].start <= t
            < notes[j].start + notes[j].len) {
        if let Some(i) = first_cover(notes, p, t) {
            assert(covers(notes[i], p, t));
            assert(false);
        }
    }
}

/// Deleting (`x` or Del) removes exactly the note under the cursor, the first
/// note at the cursor's pitch sounding at the cursor's tick: the notes before
/// it stay where they were, those after it move up by one, and nothing else
/// of the song changes. Where no note is under the cursor nothing changes.
pub proof fn lemma_delete_removes_selected(m: EditorModel, k: Key, i: int)
    requires
        k == Key::Char('x') || k == Key::Del,
        0 <= i < m.song.notes.len(),
        m.song.notes[i].pitch == m.cur_pitch,
        m.song.notes[i].start <= m.cur_tick < m.song.notes[i].start + m.song.notes[i].len,
        forall|j: int|
            0 <= j < i ==> !(#[trigger] m.song.notes[j].pitch == m.cur_pitch
                && m.song.notes[j].start <= m.cur_tick < m.song.notes[j].start
                + m.song.notes[j].len),
    ensures
        edit_next(m, k).song.notes.len() == m.song.notes.len() - 1,
        forall|j: int| 0 <= j < i ==> #[trigger] edit_next(m, k).song.notes[j] == m.song.notes[j],
        forall|j: int|
            i <= j < m.song.notes.len() - 1 ==> #[trigger] edit_next(m, k).song.notes[j]
                == m.song.notes[j + 1],
        (SongModel { notes: m.song.notes, ..edit_next(m, k).song }) == m.song,
        edit_next(m, k).cur_pitch == m.cur_pitch,
        edit_next(m, k).cur_tick == m.cur_tick,
        edit_next(m, k).dirty,
{
    assert forall|j: int| 0 <= j < i implies !covers(#[trigger] m.song.notes[j], m.cur_pitch, m.cur_tick) by {}
    lemma_first_cover_is(m.song.notes, m.cur_pitch, m.cur_tick, i);
}

/// Deleting with no note under the cursor changes nothing.
pub proof fn lemma_delete_nothing_selected(m: EditorModel, k: Key)
    requires
        k == Key::Char('x') || k == Key::Del,
        forall|j: int|
            0 <= j < m.song.notes.len() ==> !(#[trigger] m.song.notes[j].pitch == m.cur_pitch
                && m.song.notes[j].start <= m.cur_tick < m.song.notes[j].start
                + m.song.notes[j].len),
    ensures
        edit_next(m, k) == m,
{
    lemma_selected_sounds_at_cursor(m);
}

/// The name of a mode as the header shows it.
pub open spec fn mode_name(mode: Mode) -> Seq<char> {
    match mode {
        Mode::Edit => "EDIT"@,
        Mode::Play => "PLAY"@,
        Mode::Record => "REC"@,
    }
}

/// The header line: tempo, time signature, grid, metronome, mode (in bold),
/// keyboard octave, file name and a `*` for unsaved changes.
pub open spec fn header_line(m: EditorModel) -> Seq<char> {
    " melody  "@ + decimal(m.song.bpm as nat) + " BPM  "@ + decimal(m.song.bpb as nat) + "/"@
        + decimal(m.song.beat_unit as nat) + "  grid "@ + "1/"@ + decimal(
        ((m.song.beat_unit * m.song.tpb) as int / m.song.step as int) as nat,
    ) + "  metro "@ + (if m.metro {
        "ON"@
    } else {
        "off"@
    }) + "  \x1b[1m["@ + mode_name(m.mode) + "]\x1b[0m  oct"@ + signed_decimal(
        m.base_oct as int,
    ) + "  "@ + file_label(m.file) + (if m.dirty {
        "*"@
    } else {
        ""@
    })
}

/// The help shown in the status line in each mode.
pub open spec fn mode_help(mode: Mode) -> Seq<char> {
    match mode {
        Mode::Edit => " hjkl move \u{b7} Enter add \u{b7} HJKL move-note \u{b7} +/- len \u{b7} 1-9 strength \u{b7} x del \u{b7} Spc play \u{b7} r REC \u{b7} Tab jam \u{b7} m metro \u{b7} e export \u{b7} ? help \u{b7} q quit"@,
        Mode::Play => " JAM \u{2014} z s x d c v g b h n j m , = piano \u{b7} [ ] octave \u{b7} Esc/Tab back to edit"@,
        Mode::Record => " \u{25cf} REC \u{2014} play along \u{b7} Esc/Enter to stop"@,
    }
}

/// The status line: a pending message, else the help of the mode.
pub open spec fn status_line(m: EditorModel, msg: Option<Seq<char>>) -> Seq<char> {
    match msg {
        Some(t) => t,
        None => mode_help(m.mode),
    }
}

/// Appends a signed number in decimal.
fn push_signed(out: &mut Vec<char>, n: i32)
    ensures
        final(out)@ == old(out)@ + signed_decimal(n as int),
{
    if n < 0 {
        out.push('-');
        let ghost mid = out@;
        push_decimal(out, (-(n as i64)) as u64);
        assert(final(out)@ =~= old(out)@ + signed_decimal(n as int));
    } else {
        push_decimal(out, n as u64);
    }
}

impl Editor {
    /// The header line (see `header_line`).
    pub fn header_text(&self) -> (r: String)
        requires
            self.song.step > 0,
            self.song.beat_unit * self.song.tpb <= u32::MAX,
        ensures
            r@ == header_line(self@),
    {
        let mut out: Vec<char> = Vec::new();
        push_str(&mut out, " melody  ");
        push_decimal(&mut out, self.song.bpm as u64);
        push_str(&mut out, " BPM  ");
        push_decimal(&mut out, self.song.bpb as u64);
        push_str(&mut out, "/");
        push_decimal(&mut out, self.song.beat_unit as u64);
        push_str(&mut out, "  grid ");
        push_str(&mut out, "1/");
        push_decimal(&mut out, (self.song.beat_unit * self.song.tpb / self.song.step) as u64);
        push_str(&mut out, "  metro ");
        if self.metro {
            push_str(&mut out, "ON");
        } else {
            push_str(&mut out, "off");
        }
        push_str(&mut out, "  \x1b[1m[");
        match self.mode {
            Mode::Edit => push_str(&mut out, "EDIT"),
            Mode::Play => push_str(&mut out, "PLAY"),
            Mode::Record => push_str(&mut out, "REC"),
        }
        push_str(&mut out, "]\x1b[0m  oct");
        push_signed(&mut out, self.base_oct);
        push_str(&mut out, "  ");
        let label = self.file_label();
        push_str(&mut out, label.as_str());
        if self.song.dirty {
            push_str(&mut out, "*");
        } else {
            push_str(&mut out, "");
        }
        assert(out@ =~= header_line(self@));
        string_of(&out)
    }

    /// The status line (see `status_line`).
    pub fn status_text(&self, msg: Option<String>) -> (r: String)
        ensures
            r@ == status_line(
                self@,
                match msg {
                    Some(t) => Some(t@),
                    None => None,
                },
            ),
    {
        match msg {
            Some(t) => t,
            None => {
                let mut out: Vec<char> = Vec::new();
                match self.mode {
                    Mode::Edit => push_str(&mut out, " hjkl move \u{b7} Enter add \u{b7} HJKL move-note \u{b7} +/- len \u{b7} 1-9 strength \u{b7} x del \u{b7} Spc play \u{b7} r REC \u{b7} Tab jam \u{b7} m metro \u{b7} e export \u{b7} ? help \u{b7} q quit"),
                    Mode::Play => push_str(&mut out, " JAM \u{2014} z s x d c v g b h n j m , = piano \u{b7} [ ] octave \u{b7} Esc/Tab back to edit"),
                    Mode::Record => push_str(&mut out, " \u{25cf} REC \u{2014} play along \u{b7} Esc/Enter to stop"),
                }
                assert(out@ =~= mode_help(self.mode));
                string_of(&out)
            },
        }
    }
}

} // verus!
