//! A song: notes on a tick grid, its tempo and time signature, and its
//! `.mel` text form.

use vstd::prelude::*;
use crate::text::{
    chars_eq, chars_of, decimal, hundredths_text, is_space, is_space_char, lemma_decimal,
    lemma_parse_decimal, lemma_parse_hundredths_text, no_space, parse_hundredths,
    parse_hundredths_chars, parse_uint, parse_uint_chars, push_decimal, push_hundredths, push_str,
    string_of,
};

verus! {

broadcast use vstd::seq_lib::group_to_multiset_ensures;

/// Default strength of a new note, in hundredths (0.80).
pub const DEF_VEL: u32 = 80;

/// One note of the melody. Times are in ticks; `vel` is the strength in
/// hundredths (100 = full strength).
#[derive(Clone, Copy, Debug, PartialEq, Eq, Structural)]
pub struct Note {
    pub pitch: u8,
    pub start: u32,
    pub len: u32,
    pub vel: u32,
}

/// A melody and its timing settings.
pub struct Song {
    pub notes: Vec<Note>,
    pub bpm: u32,
    /// beats per bar
    pub bpb: u32,
    /// time-signature denominator (display only)
    pub beat_unit: u32,
    /// ticks per beat
    pub tpb: u32,
    /// grid step in ticks
    pub step: u32,
    pub file: Option<String>,
    pub dirty: bool,
}

/// What a `.mel` file holds of a song.
#[verifier::ext_equal]
pub struct SongModel {
    pub notes: Seq<Note>,
    pub bpm: u32,
    pub bpb: u32,
    pub beat_unit: u32,
    pub tpb: u32,
    pub step: u32,
}

/// The settings of a new song: 120 BPM, 4/4, four ticks a beat, a 1/8 grid.
pub open spec fn default_model() -> SongModel {
    SongModel { notes: Seq::empty(), bpm: 120, bpb: 4, beat_unit: 4, tpb: 4, step: 2 }
}

/// The tick where the last note ends (0 without notes).
pub open spec fn end_of(notes: Seq<Note>) -> nat
    decreases notes.len(),
{
    if notes.len() == 0 {
        0
    } else {
        let rest = end_of(notes.drop_last());
        let e = notes.last().start + notes.last().len;
        if e > rest { e as nat } else { rest }
    }
}

pub open spec fn ends_fit(notes: Seq<Note>) -> bool {
    forall|i: int| 0 <= i < notes.len() ==> #[trigger] notes[i].start + notes[i].len <= u32::MAX
}

/// The grid point nearest to `tick` (ties go later).
pub open spec fn quantized(tick: nat, step: nat) -> nat {
    ((tick + step / 2) / step) * step
}

/// Where reading a `.mel` text stands: the song so far, the finished fields of
/// the current line, and the word being read.
#[verifier::ext_equal]
pub struct ParseState {
    pub song: SongModel,
    pub fields: Seq<Seq<char>>,
    pub word: Seq<char>,
}

pub open spec fn parse_start() -> ParseState {
    ParseState { song: default_model(), fields: Seq::empty(), word: Seq::empty() }
}

/// The fields with the word being read added, if there is one.
pub open spec fn flush(fields: Seq<Seq<char>>, word: Seq<char>) -> Seq<Seq<char>> {
    if word.len() > 0 {
        fields.push(word)
    } else {
        fields
    }
}

/// One note's line in a `.mel` text: `note <pitch> <start> <len> <strength>`.
pub open spec fn note_line(n: Note) -> Seq<char> {
    "note "@ + decimal(n.pitch as nat) + " "@ + decimal(n.start as nat) + " "@ + decimal(
        n.len as nat,
    ) + " "@ + hundredths_text(n.vel as nat) + "\n"@
}

pub open spec fn notes_text(notes: Seq<Note>) -> Seq<char>
    decreases notes.len(),
{
    if notes.len() == 0 {
        Seq::empty()
    } else {
        notes_text(notes.drop_last()) + note_line(notes.last())
    }
}

/// The settings lines of a `.mel` text.
pub open spec fn header_text(m: SongModel) -> Seq<char> {
    "melody 1\n"@ + "bpm "@ + decimal(m.bpm as nat) + "\n"@ + "sig "@ + decimal(m.bpb as nat)
        + " "@ + decimal(m.beat_unit as nat) + "\n"@ + "tpb "@ + decimal(m.tpb as nat) + "\n"@
        + "step "@ + decimal(m.step as nat) + "\n"@
}

/// The `.mel` text of a song.
pub open spec fn song_text(m: SongModel) -> Seq<char> {
    header_text(m) + notes_text(m.notes)
}

/// Note order after recording: by start, then by pitch.
pub open spec fn note_le(a: Note, b: Note) -> bool {
    a.start < b.start || (a.start == b.start && a.pitch <= b.pitch)
}

/// `x` inserted after every element that does not come after it.
pub open spec fn insert_sorted(s: Seq<Note>, x: Note) -> Seq<Note>
    decreases s.len(),
{
    if s.len() == 0 {
        seq![x]
    } else if note_le(s.last(), x) {
        s.push(x)
    } else {
        insert_sorted(s.drop_last(), x).push(s.last())
    }
}

/// The notes in (start, pitch) order, equal notes in their given order: what
/// a stable sort by that key gives.
pub open spec fn sorted_notes(s: Seq<Note>) -> Seq<Note>
    decreases s.len(),
{
    if s.len() == 0 {
        s
    } else {
        insert_sorted(sorted_notes(s.drop_last()), s.last())
    }
}

pub open spec fn notes_ordered(s: Seq<Note>) -> bool {
    forall|i: int, j: int| 0 <= i < j < s.len() ==> note_le(#[trigger] s[i], #[trigger] s[j])
}

/// Where the scan from the end stops: `x` goes at `pos`.
proof fn lemma_insert_at(s: Seq<Note>, x: Note, pos: int)
    requires
        0 <= pos <= s.len(),
        forall|k: int| pos <= k < s.len() ==> !note_le(#[trigger] s[k], x),
        pos == 0 || note_le(s[pos - 1], x),
    ensures
        insert_sorted(s, x) == s.insert(pos, x),
    decreases s.len(),
{
    if s.len() == 0 {
        assert(s.insert(pos, x) =~= seq![x]);
    } else if pos == s.len() {
        assert(s.insert(pos, x) =~= s.push(x));
    } else {
        assert(!note_le(s[s.len() - 1], x));
        lemma_insert_at(s.drop_last(), x, pos);
        assert(s.drop_last().insert(pos, x).push(s.last()) =~= s.insert(pos, x));
    }
}

proof fn lemma_insert_sorted(s: Seq<Note>, x: Note)
    requires
        notes_ordered(s),
    ensures
        notes_ordered(insert_sorted(s, x)),
        insert_sorted(s, x).to_multiset() == s.to_multiset().insert(x),
        insert_sorted(s, x).len() == s.len() + 1,
    decreases s.len(),
{
    if s.len() == 0 {
        assert(seq![x] =~= Seq::<Note>::empty().push(x));
    } else if note_le(s.last(), x) {
        let r = s.push(x);
        assert forall|i: int, j: int| 0 <= i < j < r.len() implies note_le(#[trigger] r[i], #[trigger] r[j]) by {
            if j == s.len() {
                assert(note_le(s[i], s.last()) || i == s.len() - 1);
            }
        }
    } else {
        let t = s.drop_last();
        assert(notes_ordered(t));
        lemma_insert_sorted(t, x);
        let u = insert_sorted(t, x);
        let r = u.push(s.last());
        assert forall|i: int| 0 <= i < u.len() implies note_le(#[trigger] u[i], s.last()) by {
            assert(u.to_multiset().count(u[i]) > 0);
            assert(t.to_multiset().insert(x).count(u[i]) > 0);
            if u[i] != x {
                assert(t.to_multiset().count(u[i]) > 0);
                assert(t.contains(u[i]));
                let k = choose|k: int| 0 <= k < t.len() && t[k] == u[i];
                assert(note_le(s[k], s[s.len() - 1]));
            }
        }
        assert forall|i: int, j: int| 0 <= i < j < r.len() implies note_le(#[trigger] r[i], #[trigger] r[j]) by {
            if j == u.len() {
                assert(note_le(u[i], s.last()));
            }
        }
        assert(t.push(s.last()) =~= s);
    }
}

/// Sorting keeps every note and puts them in (start, pitch) order.
pub proof fn lemma_sorted_notes(s: Seq<Note>)
    ensures
        notes_ordered(sorted_notes(s)),
        sorted_notes(s).to_multiset() == s.to_multiset(),
        sorted_notes(s).len() == s.len(),
    decreases s.len(),
{
    if s.len() > 0 {
        lemma_sorted_notes(s.drop_last());
        lemma_insert_sorted(sorted_notes(s.drop_last()), s.last());
        assert(s.drop_last().push(s.last()) =~= s);
    }
}

/// The metronome clicks of `bars` bars: one on every beat (every `tpb`
/// ticks), each with its tick and whether it falls on a bar line.
pub open spec fn click_plan(bars: nat, bpb: nat, tpb: nat) -> Seq<(u32, bool)> {
    Seq::new(if tpb > 0 { bars * bpb } else { 0 }, |k: int| ((k * tpb) as u32, (k * tpb) % ((bpb * tpb) as int) == 0))
}

/// A number field read as `u32`, or `default` where it is no such number.
pub open spec fn u32_or(f: Seq<char>, default: u32) -> u32 {
    match parse_uint(f, u32::MAX as nat) {
        Some(v) => v as u32,
        None => default,
    }
}

/// A pitch field read as `u8`, or 60 where it is no such number.
pub open spec fn pitch_or(f: Seq<char>) -> u8 {
    match parse_uint(f, u8::MAX as nat) {
        Some(v) => v as u8,
        None => 60,
    }
}

/// A strength field read in hundredths, or the default strength.
pub open spec fn vel_or(f: Seq<char>) -> u32 {
    match parse_hundredths(f) {
        Some(v) => v as u32,
        None => DEF_VEL,
    }
}

/// What one line, split into its whitespace-separated fields, does to the song.
/// Unknown lines change nothing.
pub open spec fn line_effect(m: SongModel, f: Seq<Seq<char>>) -> SongModel {
    if f.len() == 2 && f[0] == "bpm"@ {
        SongModel { bpm: u32_or(f[1], 120), ..m }
    } else if f.len() == 3 && f[0] == "sig"@ {
        SongModel { bpb: u32_or(f[1], 4), beat_unit: u32_or(f[2], 4), ..m }
    } else if f.len() == 2 && f[0] == "tpb"@ {
        SongModel { tpb: u32_or(f[1], 4), ..m }
    } else if f.len() == 2 && f[0] == "step"@ {
        SongModel { step: u32_or(f[1], 2), ..m }
    } else if (f.len() == 4 || f.len() == 5) && f[0] == "note"@ {
        let n = Note {
            pitch: pitch_or(f[1]),
            start: u32_or(f[2], 0),
            len: u32_or(f[3], m.step),
            vel: if f.len() == 5 { vel_or(f[4]) } else { DEF_VEL },
        };
        SongModel { notes: m.notes.push(n), ..m }
    } else {
        m
    }
}

/// Reading one more char: a newline ends the line, other whitespace ends a word.
pub open spec fn parse_step(st: ParseState, c: char) -> ParseState {
    if c == '\n' {
        ParseState {
            song: line_effect(st.song, flush(st.fields, st.word)),
            fields: Seq::empty(),
            word: Seq::empty(),
        }
    } else if is_space(c) {
        ParseState { fields: flush(st.fields, st.word), word: Seq::empty(), ..st }
    } else {
        ParseState { word: st.word.push(c), ..st }
    }
}

pub open spec fn parse_from(st: ParseState, s: Seq<char>) -> ParseState
    decreases s.len(),
{
    if s.len() == 0 {
        st
    } else {
        parse_step(parse_from(st, s.drop_last()), s.last())
    }
}

/// The song a `.mel` text describes: each line split into whitespace-separated
/// fields and applied in order to a new song.
pub open spec fn parse_text(s: Seq<char>) -> SongModel {
    let st = parse_from(parse_start(), s);
    line_effect(st.song, flush(st.fields, st.word))
}

pub open spec fn words_of(v: Seq<Vec<char>>) -> Seq<Seq<char>> {
    v.map_values(|w: Vec<char>| w@)
}

/// A number field read as `u32`, or `default` where it is no such number.
fn u32_field(f: &Vec<char>, default: u32) -> (r: u32)
    ensures
        r == u32_or(f@, default),
{
    match parse_uint_chars(f, 4294967295) {
        Some(v) => v as u32,
        None => default,
    }
}

impl Song {
    pub open spec fn model(&self) -> SongModel {
        SongModel {
            notes: self.notes@,
            bpm: self.bpm,
            bpb: self.bpb,
            beat_unit: self.beat_unit,
            tpb: self.tpb,
            step: self.step,
        }
    }

    /// An empty song with the default settings.
    pub fn new() -> (r: Song)
        ensures
            r.model() == default_model(),
            r.file is None,
            !r.dirty,
    {
        Song {
            notes: Vec::new(),
            bpm: 120,
            bpb: 4,
            beat_unit: 4,
            tpb: 4,
            step: 2,
            file: None,
            dirty: false,
        }
    }

    /// Ticks in one bar.
    pub fn bar_ticks(&self) -> (r: u32)
        requires
            self.bpb * self.tpb <= u32::MAX,
        ensures
            r == self.bpb * self.tpb,
    {
        self.bpb * self.tpb
    }

    /// Snaps a tick to the nearest grid point.
    pub fn quantize(&self, tick: u32) -> (r: u32)
        requires
            self.step > 0,
            tick + self.step / 2 <= u32::MAX,
        ensures
            r == quantized(tick as nat, self.step as nat),
            r % self.step == 0,
            tick - self.step / 2 <= r <= tick + self.step / 2,
    {
        let q = (tick + self.step / 2) / self.step;
        proof {
            let t = tick as int;
            let s = self.step as int;
            let h = s / 2;
            assert(q * s <= t + h) by (nonlinear_arith)
                requires
                    q == (t + h) / s,
                    s > 0,
                    t + h >= 0,
            ;
            assert(q * s > t + h - s) by (nonlinear_arith)
                requires
                    q == (t + h) / s,
                    s > 0,
                    t + h >= 0,
            ;
            assert((q * s) % s == 0) by (nonlinear_arith)
                requires
                    s > 0,
                    q >= 0,
            ;
        }
        q * self.step
    }

    /// The grid as a note fraction, e.g. `1/8`.
    pub fn grid_label(&self) -> (r: String)
        requires
            self.step > 0,
            self.beat_unit * self.tpb <= u32::MAX,
        ensures
            r@ == "1/"@ + decimal(((self.beat_unit * self.tpb) as int / self.step as int) as nat),
    {
        let mut out: Vec<char> = Vec::new();
        push_str(&mut out, "1/");
        push_decimal(&mut out, (self.beat_unit * self.tpb / self.step) as u64);
        string_of(&out)
    }

    /// The tick where the last note ends (0 without notes).
    pub fn end_tick(&self) -> (r: u32)
        requires
            ends_fit(self.notes@),
        ensures
            r == end_of(self.notes@),
    {
        let mut best: u32 = 0;
        let mut i: usize = 0;
        assert(self.notes@.take(0) =~= Seq::<Note>::empty());
        while i < self.notes.len()
            invariant
                i <= self.notes@.len(),
                ends_fit(self.notes@),
                best == end_of(self.notes@.take(i as int)),
            decreases self.notes@.len() - i,
        {
            let n = self.notes[i];
            assert(n.start + n.len <= u32::MAX);
            let e = n.start + n.len;
            proof {
                assert(self.notes@.take(i + 1).drop_last() =~= self.notes@.take(i as int));
            }
            if e > best {
                best = e;
            }
            i = i + 1;
        }
        assert(self.notes@.take(self.notes@.len() as int) =~= self.notes@);
        best
    }

    /// Applies one line, given as its fields.
    fn apply_line(&mut self, f: &Vec<Vec<char>>)
        ensures
            final(self).model() == line_effect(old(self).model(), words_of(f@)),
            final(self).file == old(self).file,
            final(self).dirty == old(self).dirty,
    {
        let ghost w = words_of(f@);
        let n = f.len();
        if n < 2 {
            return;
        }
        assert(w[0] == f@[0]@);
        assert(w[1] == f@[1]@);
        if n == 2 && chars_eq(&f[0], "bpm") {
            self.bpm = u32_field(&f[1], 120);
        } else if n == 3 && chars_eq(&f[0], "sig") {
            assert(w[2] == f@[2]@);
            self.bpb = u32_field(&f[1], 4);
            self.beat_unit = u32_field(&f[2], 4);
        } else if n == 2 && chars_eq(&f[0], "tpb") {
            self.tpb = u32_field(&f[1], 4);
        } else if n == 2 && chars_eq(&f[0], "step") {
            self.step = u32_field(&f[1], 2);
        } else if (n == 4 || n == 5) && chars_eq(&f[0], "note") {
            assert(w[2] == f@[2]@);
            assert(w[3] == f@[3]@);
            let pitch = match parse_uint_chars(&f[1], 255) {
                Some(v) => v as u8,
                None => 60,
            };
            let vel = if n == 5 {
                assert(w[4] == f@[4]@);
                match parse_hundredths_chars(&f[4]) {
                    Some(v) => v,
                    None => DEF_VEL,
                }
            } else {
                DEF_VEL
            };
            let note = Note {
                pitch,
                start: u32_field(&f[2], 0),
                len: u32_field(&f[3], self.step),
                vel,
            };
            self.notes.push(note);
        }
    }

    /// Reads a `.mel` text. Unknown lines are ignored; an unreadable number
    /// takes its default.
    pub fn parse(text: &str) -> (r: Song)
        ensures
            r.model() == parse_text(text@),
            r.file is None,
            !r.dirty,
    {
        let cs = chars_of(text);
        let mut song = Song::new();
        let mut fields: Vec<Vec<char>> = Vec::new();
        let mut word: Vec<char> = Vec::new();
        let mut i: usize = 0;
        assert(cs@.take(0) =~= Seq::<char>::empty());
        assert(words_of(fields@) =~= Seq::<Seq<char>>::empty());
        while i < cs.len()
            invariant
                i <= cs@.len(),
                cs@ == text@,
                song.file is None,
                !song.dirty,
                parse_from(parse_start(), cs@.take(i as int)) == (ParseState {
                    song: song.model(),
                    fields: words_of(fields@),
                    word: word@,
                }),
            decreases cs@.len() - i,
        {
            let c = cs[i];
            let ghost before = ParseState { song: song.model(), fields: words_of(fields@), word: word@ };
            proof {
                assert(cs@.take(i + 1).drop_last() =~= cs@.take(i as int));
                assert(cs@.take(i + 1).last() == c);
            }
            if c == '\n' {
                if word.len() > 0 {
                    let done = word;
                    fields.push(done);
                    word = Vec::new();
                    assert(words_of(fields@) =~= flush(before.fields, before.word));
                } else {
                    assert(words_of(fields@) =~= flush(before.fields, before.word));
                }
                song.apply_line(&fields);
                fields = Vec::new();
                assert(words_of(fields@) =~= Seq::<Seq<char>>::empty());
                assert(word@ =~= Seq::<char>::empty());
            } else if is_space_char(c) {
                if word.len() > 0 {
                    let done = word;
                    fields.push(done);
                    word = Vec::new();
                }
                assert(words_of(fields@) =~= flush(before.fields, before.word));
                assert(word@ =~= Seq::<char>::empty());
            } else {
                word.push(c);
            }
            i = i + 1;
        }
        assert(cs@.take(cs@.len() as int) =~= cs@);
        let ghost before = ParseState { song: song.model(), fields: words_of(fields@), word: word@ };
        if word.len() > 0 {
            fields.push(word);
        }
        assert(words_of(fields@) =~= flush(before.fields, before.word));
        song.apply_line(&fields);
        song
    }

    /// Puts the notes in (start, pitch) order, keeping the order of notes
    /// with equal start and pitch.
    pub fn sort_notes(&mut self)
        ensures
            final(self).model() == (SongModel { notes: sorted_notes(old(self).model().notes), ..old(self).model() }),
            final(self).file == old(self).file,
            final(self).dirty == old(self).dirty,
    {
        let mut out: Vec<Note> = Vec::new();
        let mut i: usize = 0;
        let ghost orig = self.notes@;
        assert(orig.take(0) =~= Seq::<Note>::empty());
        while i < self.notes.len()
            invariant
                self.notes@ == orig,
                i <= orig.len(),
                out@ == sorted_notes(orig.take(i as int)),
            decreases orig.len() - i,
        {
            let x = self.notes[i];
            let mut pos = out.len();
            while pos > 0 && !(out[pos - 1].start < x.start || (out[pos - 1].start == x.start
                && out[pos - 1].pitch <= x.pitch))
                invariant
                    pos <= out@.len(),
                    forall|k: int| pos <= k < out@.len() ==> !note_le(#[trigger] out@[k], x),
                decreases pos,
            {
                pos = pos - 1;
            }
            proof {
                lemma_insert_at(out@, x, pos as int);
                assert(orig.take(i + 1).drop_last() =~= orig.take(i as int));
                assert(orig.take(i + 1).last() == x);
            }
            out.insert(pos, x);
            i = i + 1;
        }
        assert(orig.take(orig.len() as int) =~= orig);
        self.notes = out;
    }

    /// The clicks of a click track: `count_in` bars then `bars` bars of
    /// beats, downbeats accented.
    pub fn click_ticks(&self, count_in: u32, bars: u32) -> (r: Vec<(u32, bool)>)
        requires
            count_in + bars <= u32::MAX,
            self.bpb * self.tpb <= u32::MAX,
            (count_in + bars) * (self.bpb * self.tpb) <= u32::MAX,
        ensures
            r@ == click_plan((count_in + bars) as nat, self.bpb as nat, self.tpb as nat),
    {
        let bar = self.bpb * self.tpb;
        let nb = count_in + bars;
        let total = nb * bar;
        let tpb = self.tpb;
        let ghost n: nat = if tpb > 0 { (nb * self.bpb) as nat } else { 0 };
        let ghost plan = click_plan(nb as nat, self.bpb as nat, tpb as nat);
        proof {
            assert(total == n * tpb) by (nonlinear_arith)
                requires
                    total == nb * bar,
                    bar == self.bpb * tpb,
                    tpb > 0 ==> n == nb * self.bpb,
                    tpb == 0 ==> n == 0,
            ;
        }
        let mut out: Vec<(u32, bool)> = Vec::new();
        let mut t: u32 = 0;
        let ghost mut k: nat = 0;
        while t < total
            invariant
                t == k * tpb,
                k <= n,
                total == n * tpb,
                total <= u32::MAX,
                bar == self.bpb * tpb,
                plan == click_plan(nb as nat, self.bpb as nat, tpb as nat),
                tpb > 0 ==> n == nb * self.bpb,
                tpb == 0 ==> n == 0,
                out@ == plan.take(k as int),
            decreases total - t,
        {
            proof {
                assert(k < n) by (nonlinear_arith)
                    requires
                        t == k * tpb,
                        t < total,
                        total == n * tpb,
                ;
                assert(tpb > 0) by (nonlinear_arith)
                    requires
                        t == k * tpb,
                        t < total,
                        total == n * tpb,
                ;
                assert(bar > 0) by (nonlinear_arith)
                    requires
                        bar == self.bpb * tpb,
                        tpb > 0,
                        k < n,
                        n == nb * self.bpb,
                ;
                assert(n == nb * self.bpb);
                assert(t + tpb <= total) by (nonlinear_arith)
                    requires
                        t == k * tpb,
                        k < n,
                        total == n * tpb,
                ;
            }
            out.push((t, t % bar == 0));
            proof {
                assert(plan.take(k + 1 as int) =~= plan.take(k as int).push(plan[k as int]));
            }
            t = t + tpb;
            proof {
                k = k + 1;
                assert(t == k * tpb) by (nonlinear_arith)
                    requires
                        t == (k - 1) * tpb + tpb,
                ;
            }
        }
        proof {
            assert(k >= n) by (nonlinear_arith)
                requires
                    t == k * tpb,
                    t >= total,
                    total == n * tpb,
                    k <= n,
                    n > 0 ==> tpb > 0,
            ;

        }
        assert(plan.take(k as int) =~= plan);
        out
    }

    /// The song as `.mel` text.
    pub fn to_text(&self) -> (r: String)
        ensures
            r@ == song_text(self.model()),
    {
        let mut out: Vec<char> = Vec::new();
        push_str(&mut out, "melody 1\n");
        push_str(&mut out, "bpm ");
        push_decimal(&mut out, self.bpm as u64);
        push_str(&mut out, "\n");
        push_str(&mut out, "sig ");
        push_decimal(&mut out, self.bpb as u64);
        push_str(&mut out, " ");
        push_decimal(&mut out, self.beat_unit as u64);
        push_str(&mut out, "\n");
        push_str(&mut out, "tpb ");
        push_decimal(&mut out, self.tpb as u64);
        push_str(&mut out, "\n");
        push_str(&mut out, "step ");
        push_decimal(&mut out, self.step as u64);
        push_str(&mut out, "\n");
        assert(out@ =~= header_text(self.model()));
        let ghost head = out@;
        let mut i: usize = 0;
        assert(self.notes@.take(0) =~= Seq::<Note>::empty());
        assert(head + notes_text(Seq::<Note>::empty()) =~= head);
        while i < self.notes.len()
            invariant
                i <= self.notes@.len(),
                out@ == head + notes_text(self.notes@.take(i as int)),
            decreases self.notes@.len() - i,
        {
            let n = self.notes[i];
            let ghost prev = out@;
            push_str(&mut out, "note ");
            push_decimal(&mut out, n.pitch as u64);
            push_str(&mut out, " ");
            push_decimal(&mut out, n.start as u64);
            push_str(&mut out, " ");
            push_decimal(&mut out, n.len as u64);
            push_str(&mut out, " ");
            push_hundredths(&mut out, n.vel);
            push_str(&mut out, "\n");
            proof {
                assert(out@ =~= prev + note_line(n));
                assert(self.notes@.take(i + 1).drop_last() =~= self.notes@.take(i as int));
                assert(self.notes@.take(i + 1).last() == n);
            }
            i = i + 1;
        }
        assert(self.notes@.take(self.notes@.len() as int) =~= self.notes@);
        string_of(&out)
    }
}

/// A parse state at the start of a line, with nothing pending.
pub open spec fn line_start(m: SongModel) -> ParseState {
    ParseState { song: m, fields: Seq::empty(), word: Seq::empty() }
}

/// Words joined by single spaces.
pub open spec fn spaced(words: Seq<Seq<char>>) -> Seq<char>
    decreases words.len(),
{
    if words.len() <= 1 {
        if words.len() == 1 { words[0] } else { Seq::empty() }
    } else {
        spaced(words.drop_last()) + seq![' '] + words.last()
    }
}

pub open spec fn is_word(w: Seq<char>) -> bool {
    w.len() > 0 && no_space(w)
}

proof fn lemma_parse_from_concat(st: ParseState, a: Seq<char>, b: Seq<char>)
    ensures
        parse_from(st, a + b) == parse_from(parse_from(st, a), b),
    decreases b.len(),
{
    if b.len() == 0 {
        assert(a + b =~= a);
    } else {
        lemma_parse_from_concat(st, a, b.drop_last());
        assert((a + b).drop_last() =~= a + b.drop_last());
        assert((a + b).last() == b.last());
    }
}

proof fn lemma_parse_word(st: ParseState, w: Seq<char>)
    requires
        no_space(w),
    ensures
        parse_from(st, w) == (ParseState { word: st.word + w, ..st }),
    decreases w.len(),
{
    if w.len() == 0 {
        assert(st.word + w =~= st.word);
    } else {
        assert(no_space(w.drop_last()));
        lemma_parse_word(st, w.drop_last());
        assert(!is_space(w.last()));
        assert(w.last() != '\n');
        assert((st.word + w.drop_last()).push(w.last()) =~= st.word + w);
    }
}

proof fn lemma_parse_spaced(m: SongModel, words: Seq<Seq<char>>)
    requires
        words.len() >= 1,
        forall|i: int| 0 <= i < words.len() ==> is_word(#[trigger] words[i]),
    ensures
        parse_from(line_start(m), spaced(words)) == (ParseState {
            song: m,
            fields: words.drop_last(),
            word: words.last(),
        }),
    decreases words.len(),
{
    if words.len() == 1 {
        assert(is_word(words[0]));
        lemma_parse_word(line_start(m), words[0]);
        assert(Seq::<char>::empty() + words[0] =~= words[0]);
        assert(words.drop_last() =~= Seq::<Seq<char>>::empty());
    } else {
        let init = words.drop_last();
        assert forall|i: int| 0 <= i < init.len() implies is_word(#[trigger] init[i]) by {
            assert(init[i] == words[i]);
        }
        lemma_parse_spaced(m, init);
        let st1 = parse_from(line_start(m), spaced(init));
        lemma_parse_from_concat(line_start(m), spaced(init), seq![' ']);
        lemma_parse_from_concat(line_start(m), spaced(init) + seq![' '], words.last());
        assert(seq![' '].drop_last() =~= Seq::<char>::empty());
        assert(parse_from(st1, Seq::<char>::empty()) == st1);
        assert(parse_from(st1, seq![' ']) == parse_step(st1, ' '));
        let st2 = parse_step(st1, ' ');
        assert(is_word(init.last()));
        assert(st2.fields =~= init.drop_last().push(init.last()));
        assert(init.drop_last().push(init.last()) =~= words.drop_last());
        assert(is_word(words.last()));
        lemma_parse_word(st2, words.last());
        assert(Seq::<char>::empty() + words.last() =~= words.last());
    }
}

/// A line of space-separated words and its newline applies those words.
proof fn lemma_parse_line(m: SongModel, words: Seq<Seq<char>>)
    requires
        words.len() >= 1,
        forall|i: int| 0 <= i < words.len() ==> is_word(#[trigger] words[i]),
    ensures
        parse_from(line_start(m), spaced(words) + seq!['\n']) == line_start(
            line_effect(m, words),
        ),
{
    lemma_parse_spaced(m, words);
    lemma_parse_from_concat(line_start(m), spaced(words), seq!['\n']);
    let st = parse_from(line_start(m), spaced(words));
    assert(seq!['\n'].drop_last() =~= Seq::<char>::empty());
    assert(parse_from(st, Seq::<char>::empty()) == st);
    assert(parse_from(st, seq!['\n']) == parse_step(st, '\n'));
    assert(is_word(words.last()));
    assert(flush(st.fields, st.word) =~= words);
}

proof fn lemma_note_line(m: SongModel, n: Note)
    ensures
        parse_from(line_start(m), note_line(n)) == line_start(
            SongModel { notes: m.notes.push(n), ..m },
        ),
{
    reveal_strlit("note ");
    reveal_strlit("note");
    reveal_strlit(" ");
    reveal_strlit("\n");
    reveal_strlit("bpm");
    reveal_strlit("sig");
    reveal_strlit("tpb");
    reveal_strlit("step");
    let p = decimal(n.pitch as nat);
    let st = decimal(n.start as nat);
    let ln = decimal(n.len as nat);
    let v = hundredths_text(n.vel as nat);
    lemma_decimal(n.pitch as nat);
    lemma_decimal(n.start as nat);
    lemma_decimal(n.len as nat);
    lemma_parse_hundredths_text(n.vel as nat);
    lemma_parse_decimal(n.pitch as nat, u8::MAX as nat);
    lemma_parse_decimal(n.start as nat, u32::MAX as nat);
    lemma_parse_decimal(n.len as nat, u32::MAX as nat);
    let w1 = seq!["note"@];
    let w2 = w1.push(p);
    let w3 = w2.push(st);
    let w4 = w3.push(ln);
    let words = w4.push(v);
    assert(w2.drop_last() =~= w1);
    assert(w3.drop_last() =~= w2);
    assert(w4.drop_last() =~= w3);
    assert(words.drop_last() =~= w4);
    assert(spaced(w1) == "note"@);
    assert(spaced(w2) == spaced(w1) + seq![' '] + p);
    assert(spaced(w3) == spaced(w2) + seq![' '] + st);
    assert(spaced(w4) == spaced(w3) + seq![' '] + ln);
    assert(spaced(words) == spaced(w4) + seq![' '] + v);
    assert("note "@ =~= "note"@ + seq![' ']);
    assert(" "@ =~= seq![' ']);
    assert("\n"@ =~= seq!['\n']);
    assert(spaced(words) + seq!['\n'] =~= note_line(n));
    assert(is_word("note"@));
    assert(forall|i: int| 0 <= i < words.len() ==> is_word(#[trigger] words[i]));
    lemma_parse_line(m, words);
    assert(words[0] != "bpm"@);
    assert(words[0] != "sig"@);
    assert(words[0] != "tpb"@);
    assert(words[0][0] != "step"@[0]);
}

proof fn lemma_notes_text(m: SongModel, notes: Seq<Note>)
    ensures
        parse_from(line_start(m), notes_text(notes)) == line_start(
            SongModel { notes: m.notes + notes, ..m },
        ),
    decreases notes.len(),
{
    if notes.len() == 0 {
        assert(m.notes + notes =~= m.notes);
    } else {
        lemma_notes_text(m, notes.drop_last());
        let m1 = SongModel { notes: m.notes + notes.drop_last(), ..m };
        lemma_parse_from_concat(line_start(m), notes_text(notes.drop_last()), note_line(notes.last()));
        lemma_note_line(m1, notes.last());
        assert((m.notes + notes.drop_last()).push(notes.last()) =~= m.notes + notes);
    }
}

/// A settings line `<key> <value>` read at the start of a line.
proof fn lemma_setting_line(m: SongModel, key: &str, x: u32)
    requires
        is_word(key@),
    ensures
        parse_from(line_start(m), key@ + " "@ + decimal(x as nat) + "\n"@) == line_start(
            line_effect(m, seq![key@, decimal(x as nat)]),
        ),
        key@ == "bpm"@ ==> line_effect(m, seq![key@, decimal(x as nat)]) == (SongModel {
            bpm: x,
            ..m
        }),
{
    reveal_strlit(" ");
    reveal_strlit("\n");
    let d = decimal(x as nat);
    lemma_decimal(x as nat);
    lemma_parse_decimal(x as nat, u32::MAX as nat);
    let w = seq![key@, d];
    assert(w.drop_last() =~= seq![key@]);
    assert(spaced(w.drop_last()) == key@);
    assert(spaced(w) =~= key@ + seq![' '] + d);
    assert(key@ + " "@ + d + "\n"@ =~= spaced(w) + seq!['\n']);
    assert(forall|i: int| 0 <= i < w.len() ==> is_word(#[trigger] w[i]));
    lemma_parse_line(m, w);
}

proof fn lemma_header(m: SongModel)
    ensures
        parse_from(parse_start(), header_text(m)) == line_start(
            SongModel { notes: Seq::empty(), ..m },
        ),
{
    reveal_strlit("melody 1\n");
    reveal_strlit("melody");
    reveal_strlit("bpm ");
    reveal_strlit("sig ");
    reveal_strlit("tpb ");
    reveal_strlit("step ");
    reveal_strlit("bpm");
    reveal_strlit("sig");
    reveal_strlit("tpb");
    reveal_strlit("step");
    reveal_strlit("note");
    reveal_strlit(" ");
    reveal_strlit("\n");
    let d_bpb = decimal(m.bpb as nat);
    let d_bu = decimal(m.beat_unit as nat);
    lemma_decimal(m.bpb as nat);
    lemma_decimal(m.beat_unit as nat);
    lemma_parse_decimal(m.bpb as nat, u32::MAX as nat);
    lemma_parse_decimal(m.beat_unit as nat, u32::MAX as nat);
    let l1 = "melody 1\n"@;
    let l2 = "bpm "@ + decimal(m.bpm as nat) + "\n"@;
    let l3 = "sig "@ + d_bpb + " "@ + d_bu + "\n"@;
    let l4 = "tpb "@ + decimal(m.tpb as nat) + "\n"@;
    let l5 = "step "@ + decimal(m.step as nat) + "\n"@;
    assert(header_text(m) =~= l1 + l2 + l3 + l4 + l5);
    let m0 = default_model();
    // "melody 1": an unknown line
    let w1 = seq!["melody"@, seq!['1']];
    assert(w1.drop_last() =~= seq!["melody"@]);
    assert(spaced(w1.drop_last()) == "melody"@);
    assert(l1 =~= spaced(w1) + seq!['\n']);
    assert(is_word("melody"@));
    assert(is_word(seq!['1']));
    assert(forall|i: int| 0 <= i < w1.len() ==> is_word(#[trigger] w1[i]));
    lemma_parse_line(m0, w1);
    assert("melody"@.len() == 6);
    assert(line_effect(m0, w1) == m0);
    // bpm
    assert(is_word("bpm"@));
    assert("bpm "@ =~= "bpm"@ + " "@);
    lemma_setting_line(m0, "bpm", m.bpm);
    let m2 = SongModel { bpm: m.bpm, ..m0 };
    // sig
    let w3 = seq!["sig"@, d_bpb, d_bu];
    assert(w3.drop_last() =~= seq!["sig"@, d_bpb]);
    assert(w3.drop_last().drop_last() =~= seq!["sig"@]);
    assert(spaced(w3.drop_last().drop_last()) == "sig"@);
    assert(spaced(w3.drop_last()) == "sig"@ + seq![' '] + d_bpb);
    assert(l3 =~= spaced(w3) + seq!['\n']);
    assert(is_word("sig"@));
    assert(forall|i: int| 0 <= i < w3.len() ==> is_word(#[trigger] w3[i]));
    lemma_parse_line(m2, w3);
    let m3 = SongModel { bpb: m.bpb, beat_unit: m.beat_unit, ..m2 };
    assert("sig"@[0] != "bpm"@[0]);
    assert(line_effect(m2, w3) == m3);
    // tpb
    assert(is_word("tpb"@));
    assert("tpb "@ =~= "tpb"@ + " "@);
    lemma_setting_line(m3, "tpb", m.tpb);
    let m4 = SongModel { tpb: m.tpb, ..m3 };
    assert("tpb"@[0] != "bpm"@[0]);
    assert(line_effect(m3, seq!["tpb"@, decimal(m.tpb as nat)]) == m4) by {
        lemma_parse_decimal(m.tpb as nat, u32::MAX as nat);
    }
    // step
    assert(is_word("step"@));
    assert("step "@ =~= "step"@ + " "@);
    lemma_setting_line(m4, "step", m.step);
    let m5 = SongModel { step: m.step, ..m4 };
    assert(line_effect(m4, seq!["step"@, decimal(m.step as nat)]) == m5) by {
        lemma_parse_decimal(m.step as nat, u32::MAX as nat);
    }
    let s0 = parse_start();
    assert(s0 == line_start(m0));
    lemma_parse_from_concat(s0, l1, l2);
    lemma_parse_from_concat(s0, l1 + l2, l3);
    lemma_parse_from_concat(s0, l1 + l2 + l3, l4);
    lemma_parse_from_concat(s0, l1 + l2 + l3 + l4, l5);
    assert(m5 == SongModel { notes: Seq::empty(), ..m });
}

/// Saving and opening again gives back the same song: reading the `.mel` text
/// of any song yields its notes, tempo, time signature, ticks per beat and grid.
pub proof fn lemma_save_open_roundtrip(m: SongModel)
    ensures
        parse_text(song_text(m)) == m,
{
    let s0 = parse_start();
    lemma_header(m);
    let m5 = SongModel { notes: Seq::empty(), ..m };
    lemma_parse_from_concat(s0, header_text(m), notes_text(m.notes));
    lemma_notes_text(m5, m.notes);
    assert(Seq::<Note>::empty() + m.notes =~= m.notes);
    let fin = parse_from(s0, song_text(m));
    assert(fin == line_start(m));
    assert(flush(fin.fields, fin.word) =~= Seq::<Seq<char>>::empty());

}

/// The last line of a text is read whether or not a newline closes it: a text
/// and the same text with a newline added describe the same song.
pub proof fn lemma_last_line_read(s: Seq<char>)
    ensures
        parse_text(s.push('\n')) == parse_text(s),
{
    let st = parse_from(parse_start(), s);
    assert(s.push('\n').drop_last() =~= s);
    assert(parse_from(parse_start(), s.push('\n')) == parse_step(st, '\n'));
    assert(flush(Seq::<Seq<char>>::empty(), Seq::<char>::empty()) =~= Seq::<Seq<char>>::empty());
}

/// A beat `k` ticks `tpb` apart is a bar's downbeat exactly when `k` is a
/// multiple of the beats per bar.
proof fn lemma_downbeat(k: int, bpb: int, tpb: int)
    requires
        k >= 0,
        bpb > 0,
        tpb > 0,
    ensures
        ((k * tpb) % (bpb * tpb) == 0) == (k % bpb == 0),
{
    let q = k / bpb;
    let r = k % bpb;
    vstd::arithmetic::div_mod::lemma_fundamental_div_mod(k, bpb);
    assert(0 <= r < bpb) by {
        vstd::arithmetic::div_mod::lemma_mod_bound(k, bpb);
    }
    assert(k * tpb == q * (bpb * tpb) + r * tpb && 0 <= r * tpb < bpb * tpb) by (nonlinear_arith)
        requires
            k == bpb * q + r,
            0 <= r < bpb,
            tpb > 0,
    ;
    vstd::arithmetic::div_mod::lemma_fundamental_div_mod_converse(k * tpb, bpb * tpb, q, r * tpb);
    assert((r * tpb == 0) == (r == 0)) by (nonlinear_arith)
        requires
            tpb > 0,
            r >= 0,
    ;
}

/// The click track of `bars` bars has one click per beat, the `k`-th at tick
/// `k * tpb`, and a click is accented exactly when it opens a bar, that is on
/// every `bpb`-th beat counting from the first.
pub proof fn lemma_click_accents(bars: nat, bpb: nat, tpb: nat)
    requires
        bars * bpb * tpb <= u32::MAX,
    ensures
        tpb > 0 ==> click_plan(bars, bpb, tpb).len() == bars * bpb,
        forall|k: int|
            0 <= k < click_plan(bars, bpb, tpb).len() ==> {
                &&& (#[trigger] click_plan(bars, bpb, tpb)[k]).0 == k * tpb
                &&& click_plan(bars, bpb, tpb)[k].1 == (k % (bpb as int) == 0)
            },
{
    let plan = click_plan(bars, bpb, tpb);
    assert forall|k: int| 0 <= k < plan.len() implies {
        &&& (#[trigger] plan[k]).0 == k * tpb
        &&& plan[k].1 == (k % (bpb as int) == 0)
    } by {
        assert(tpb > 0);
        assert(k < bars * bpb);
        assert(bpb > 0 && k * tpb < bars * bpb * tpb) by (nonlinear_arith)
            requires
                0 <= k < bars * bpb,
                tpb > 0,
        ;
        lemma_downbeat(k, bpb as int, tpb as int);
    }
}

} // verus!
