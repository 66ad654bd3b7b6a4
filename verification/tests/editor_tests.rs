use melody::editor::{confirmed, expand, Cell, EditAction, Editor, Mode, RecordEvent};
use melody::pitch::Key;
use melody::song::{Note, Song, DEF_VEL};

fn note(pitch: u8, start: u32, len: u32, vel: u32) -> Note {
    Note { pitch, start, len, vel }
}

fn press(e: &mut Editor, k: Key) -> EditAction {
    assert!(e.edit_fits(k));
    e.handle_edit(k)
}

#[test]
fn new_editor_state() {
    let e = Editor::new();
    assert_eq!(e.mode, Mode::Edit);
    assert_eq!((e.cur_tick, e.cur_pitch, e.top_pitch, e.left_tick, e.base_oct), (0, 60, 72, 0, 4));
    assert!(!e.metro);
    assert!(e.playhead.is_none());
}

#[test]
fn cursor_moves() {
    let mut e = Editor::new();
    assert_eq!(press(&mut e, Key::Char('l')), EditAction::Nothing);
    assert_eq!(e.cur_tick, 2);
    press(&mut e, Key::Right);
    assert_eq!(e.cur_tick, 4);
    press(&mut e, Key::Char('h'));
    press(&mut e, Key::Left);
    press(&mut e, Key::Left);
    assert_eq!(e.cur_tick, 0);
    press(&mut e, Key::Char('k'));
    assert_eq!(e.cur_pitch, 61);
    press(&mut e, Key::Down);
    press(&mut e, Key::Char('j'));
    assert_eq!(e.cur_pitch, 59);
    e.cur_pitch = 127;
    press(&mut e, Key::Up);
    assert_eq!(e.cur_pitch, 127);
    e.cur_pitch = 0;
    press(&mut e, Key::Char('j'));
    assert_eq!(e.cur_pitch, 0);
}

#[test]
fn enter_adds_note_and_monitors() {
    let mut e = Editor::new();
    assert_eq!(press(&mut e, Key::Enter), EditAction::Monitor(60, DEF_VEL));
    assert_eq!(e.song.notes, vec![note(60, 0, 2, DEF_VEL)]);
    assert!(e.song.dirty);
    // on an existing note: just hear it
    e.song.notes[0].vel = 33;
    assert_eq!(press(&mut e, Key::Enter), EditAction::Monitor(60, 33));
    assert_eq!(e.song.notes.len(), 1);
}

#[test]
fn plus_minus_are_reversible() {
    let mut e = Editor::new();
    press(&mut e, Key::Enter);
    press(&mut e, Key::Char('+'));
    assert_eq!(e.song.notes[0].len, 4);
    press(&mut e, Key::Char('='));
    assert_eq!(e.song.notes[0].len, 6);
    press(&mut e, Key::Char('-'));
    press(&mut e, Key::Char('-'));
    assert_eq!(e.song.notes[0].len, 2);
    press(&mut e, Key::Char('-'));
    assert_eq!(e.song.notes[0].len, 1);
    press(&mut e, Key::Char('-'));
    assert_eq!(e.song.notes[0].len, 1);
    press(&mut e, Key::Char('+'));
    assert_eq!(e.song.notes[0].len, 2);
}

#[test]
fn move_note_in_time_and_pitch() {
    let mut e = Editor::new();
    press(&mut e, Key::Enter);
    press(&mut e, Key::Char('L'));
    assert_eq!(e.song.notes[0].start, 2);
    assert_eq!(e.cur_tick, 2);
    press(&mut e, Key::Char('H'));
    assert_eq!(e.song.notes[0].start, 0);
    assert_eq!(e.cur_tick, 0);
    press(&mut e, Key::Char('H'));
    assert_eq!(e.song.notes[0].start, 0);
    press(&mut e, Key::Char('K'));
    assert_eq!((e.song.notes[0].pitch, e.cur_pitch), (61, 61));
    press(&mut e, Key::Char('J'));
    assert_eq!((e.song.notes[0].pitch, e.cur_pitch), (60, 60));
}

#[test]
fn strength_digits_and_delete() {
    let mut e = Editor::new();
    press(&mut e, Key::Enter);
    assert_eq!(press(&mut e, Key::Char('9')), EditAction::Monitor(60, 100));
    assert_eq!(e.song.notes[0].vel, 100);
    press(&mut e, Key::Char('1'));
    assert_eq!(e.song.notes[0].vel, 11);
    press(&mut e, Key::Char('5'));
    assert_eq!(e.song.notes[0].vel, 56);
    assert_eq!(press(&mut e, Key::Char('0')), EditAction::Nothing);
    assert_eq!(e.song.notes[0].vel, 56);
    press(&mut e, Key::Char('x'));
    assert!(e.song.notes.is_empty());
    assert_eq!(press(&mut e, Key::Char('7')), EditAction::Nothing);
    press(&mut e, Key::Del);
    assert!(e.song.notes.is_empty());
}

#[test]
fn modes_metronome_grid_and_tempo() {
    let mut e = Editor::new();
    press(&mut e, Key::Char('m'));
    assert!(e.metro);
    press(&mut e, Key::Char('g'));
    assert_eq!(e.song.step, 1);
    press(&mut e, Key::Char('g'));
    assert_eq!(e.song.step, 4);
    press(&mut e, Key::Char('g'));
    assert_eq!(e.song.step, 2);
    press(&mut e, Key::Char(','));
    assert_eq!(e.song.bpm, 115);
    e.song.bpm = 22;
    press(&mut e, Key::Char(','));
    assert_eq!(e.song.bpm, 20);
    e.song.bpm = 298;
    press(&mut e, Key::Char('.'));
    assert_eq!(e.song.bpm, 300);
    press(&mut e, Key::Char('r'));
    assert_eq!(e.mode, Mode::Record);
    e.mode = Mode::Edit;
    press(&mut e, Key::Tab);
    assert_eq!(e.mode, Mode::Play);
}

#[test]
fn actions_for_outside_work() {
    let mut e = Editor::new();
    assert_eq!(press(&mut e, Key::Char('q')), EditAction::Quit);
    assert_eq!(press(&mut e, Key::Char(' ')), EditAction::Play);
    assert_eq!(press(&mut e, Key::Char('w')), EditAction::Save);
    assert_eq!(press(&mut e, Key::Char('o')), EditAction::Open);
    assert_eq!(press(&mut e, Key::Char('e')), EditAction::Export);
    assert_eq!(press(&mut e, Key::Char('n')), EditAction::AskNew);
    press(&mut e, Key::Enter);
    assert_eq!(press(&mut e, Key::Char('q')), EditAction::AskQuit);
    assert_eq!(press(&mut e, Key::Other), EditAction::Nothing);
}

#[test]
fn overflowing_keys_are_reported() {
    let mut e = Editor::new();
    e.cur_tick = u32::MAX;
    assert!(!e.edit_fits(Key::Char('l')));
    assert!(e.edit_fits(Key::Char('h')));
    e.song.bpm = u32::MAX;
    assert!(!e.edit_fits(Key::Char('.')));
    e.cur_pitch = 255;
    assert!(!e.edit_fits(Key::Up));
}

#[test]
fn answers() {
    assert!(confirmed("y"));
    assert!(confirmed("Y"));
    assert!(!confirmed("yes"));
    assert!(!confirmed(""));
    assert!(!confirmed("n"));
}

#[test]
fn clear_and_save_and_open() {
    let mut e = Editor::new();
    press(&mut e, Key::Enter);
    e.mark_saved("/tmp/a.mel".to_string());
    assert!(!e.song.dirty);
    assert_eq!(e.song.file.as_deref(), Some("/tmp/a.mel"));
    e.clear_song();
    assert!(e.song.notes.is_empty());
    assert!(e.song.file.is_none());
    e.cur_tick = 8;
    e.cur_pitch = 70;
    let s = Song::parse("bpm 99\nnote 1 2 3\n");
    e.open_song(s, "/x/y.mel".to_string());
    assert_eq!((e.cur_tick, e.cur_pitch, e.song.bpm), (0, 60, 99));
    assert_eq!(e.song.file.as_deref(), Some("/x/y.mel"));
}

#[test]
fn jam_keys() {
    let mut e = Editor::new();
    e.mode = Mode::Play;
    assert_eq!(e.handle_play(Key::Char('z')), Some(60));
    assert_eq!(e.handle_play(Key::Char('[')), None);
    assert_eq!(e.base_oct, 3);
    assert_eq!(e.handle_play(Key::Char('z')), Some(48));
    for _ in 0..10 {
        e.handle_play(Key::Char('['));
    }
    assert_eq!(e.base_oct, -1);
    for _ in 0..20 {
        e.handle_play(Key::Char(']'));
    }
    assert_eq!(e.base_oct, 9);
    assert_eq!(e.handle_play(Key::Char('q')), None);
    assert_eq!(e.handle_play(Key::Esc), None);
    assert_eq!(e.mode, Mode::Edit);
}

#[test]
fn recording_quantizes_and_sorts() {
    let mut e = Editor::new();
    e.mode = Mode::Record;
    assert_eq!(e.record_key(Key::Char('c')), RecordEvent::Pitch(64));
    assert_eq!(e.record_key(Key::Char(']')), RecordEvent::Nothing);
    assert_eq!(e.base_oct, 5);
    assert_eq!(e.record_key(Key::Tab), RecordEvent::Nothing);
    assert_eq!(e.record_key(Key::Enter), RecordEvent::Stop);
    assert_eq!(e.record_key(Key::Esc), RecordEvent::Stop);
    e.record_note(64, 5);
    e.record_note(60, 3);
    e.record_note(67, 0);
    e.finish_record();
    assert_eq!(e.mode, Mode::Edit);
    assert_eq!(e.song.notes, vec![note(67, 0, 2, DEF_VEL), note(60, 4, 2, DEF_VEL), note(64, 6, 2, DEF_VEL)]);
    assert!(e.song.dirty);
}

#[test]
fn scrolling_keeps_cursor_in_view() {
    let mut e = Editor::new();
    e.cur_pitch = 90;
    assert!(e.scroll_fits(20, 75));
    e.scroll(20, 75);
    assert_eq!(e.top_pitch, 90);
    e.cur_pitch = 30;
    e.scroll(20, 75);
    assert_eq!(e.top_pitch, 49);
    e.cur_tick = 100;
    e.scroll(20, 75);
    // 100 - 75 + 1 = 26; the bar line at 16 would leave tick 100 off the
    // right edge, so the next one, 32
    assert_eq!(e.left_tick, 32);
    e.playhead = Some(3);
    e.scroll(20, 75);
    assert_eq!(e.left_tick, 0);
}

#[test]
fn view_follows_the_playhead() {
    let mut e = Editor::new();
    e.playhead = Some(76);
    e.scroll(20, 75);
    assert_eq!(e.left_tick, 16);
    assert!(76 < e.left_tick + 75);
    for t in 0..400u32 {
        e.playhead = Some(t);
        e.scroll(20, 75);
        assert_eq!(e.left_tick % 16, 0);
        assert!(e.left_tick <= t && t < e.left_tick + 75);
    }
}

#[test]
fn roll_cells() {
    let mut e = Editor::new();
    e.song.notes.push(note(60, 4, 2, 100));
    e.song.notes.push(note(62, 0, 1, 11));
    assert_eq!(e.cell(60, 0), Cell::Cursor(false));
    assert_eq!(e.cell(60, 4), Cell::Note(196));
    assert_eq!(e.cell(62, 0), Cell::Note(24));
    assert_eq!(e.cell(61, 16), Cell::Bar);
    assert_eq!(e.cell(61, 8), Cell::Beat);
    assert_eq!(e.cell(61, 9), Cell::Empty);
    e.playhead = Some(5);
    assert_eq!(e.cell(60, 5), Cell::Playhead(true));
    assert_eq!(e.cell(61, 5), Cell::Playhead(false));
}

#[test]
fn paths() {
    assert_eq!(expand("/home/u", "~/songs/a.mel"), "/home/u/songs/a.mel");
    assert_eq!(expand("/home/u", "/abs/a.mel"), "/abs/a.mel");
    assert_eq!(expand("/home/u", "~"), "~");
    let mut e = Editor::new();
    assert_eq!(e.default_save_path("/h"), "/h/.melody/untitled.mel");
    assert_eq!(e.default_export_path("/h"), "/h/.melody/melody.wav");
    assert_eq!(e.file_label(), "(unsaved)");
    e.song.file = Some("/a/b/tune.mel".to_string());
    assert_eq!(e.default_save_path("/h"), "/a/b/tune.mel");
    assert_eq!(e.default_export_path("/h"), "/a/b/tune.wav");
    assert_eq!(e.file_label(), "tune.mel");
    e.song.file = Some("tune.txt".to_string());
    assert_eq!(e.default_export_path("/h"), "/h/.melody/melody.wav");
    assert_eq!(e.file_label(), "tune.txt");
    e.song.file = Some("dir/".to_string());
    assert_eq!(e.file_label(), "");
}

#[test]
fn add_then_delete_restores_notes() {
    let mut e = Editor::new();
    e.song.notes.push(note(62, 0, 4, 50));
    e.cur_tick = 6;
    press(&mut e, Key::Enter);
    assert_eq!(e.song.notes.len(), 2);
    press(&mut e, Key::Char('x'));
    assert_eq!(e.song.notes, vec![note(62, 0, 4, 50)]);
    assert!(e.song.dirty);
}

#[test]
fn later_then_earlier_restores_cursor_and_note() {
    let mut e = Editor::new();
    e.cur_tick = 5;
    press(&mut e, Key::Enter);
    press(&mut e, Key::Char('L'));
    assert_eq!((e.song.notes[0].start, e.cur_tick), (7, 7));
    press(&mut e, Key::Char('H'));
    assert_eq!((e.song.notes[0].start, e.cur_tick), (5, 5));
}

#[test]
fn header_and_status_lines() {
    let mut e = Editor::new();
    assert_eq!(
        e.header_text(),
        " melody  120 BPM  4/4  grid 1/8  metro off  \x1b[1m[EDIT]\x1b[0m  oct4  (unsaved)"
    );
    e.metro = true;
    e.mode = Mode::Record;
    e.base_oct = -1;
    e.song.dirty = true;
    e.song.file = Some("/x/tune.mel".to_string());
    assert_eq!(
        e.header_text(),
        " melody  120 BPM  4/4  grid 1/8  metro ON  \x1b[1m[REC]\x1b[0m  oct-1  tune.mel*"
    );
    assert_eq!(e.status_text(None), " \u{25cf} REC \u{2014} play along \u{b7} Esc/Enter to stop");
    assert_eq!(e.status_text(Some(" Saved x".to_string())), " Saved x");
    e.mode = Mode::Play;
    assert_eq!(
        e.status_text(None),
        " JAM \u{2014} z s x d c v g b h n j m , = piano \u{b7} [ ] octave \u{b7} Esc/Tab back to edit"
    );
    e.mode = Mode::Edit;
    assert!(e.status_text(None).starts_with(" hjkl move \u{b7} Enter add"));
}
