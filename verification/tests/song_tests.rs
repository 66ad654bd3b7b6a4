use melody::song::{Note, Song, DEF_VEL};

fn note(pitch: u8, start: u32, len: u32, vel: u32) -> Note {
    Note { pitch, start, len, vel }
}

#[test]
fn new_song_has_default_settings() {
    let s = Song::new();
    assert!(s.notes.is_empty());
    assert_eq!((s.bpm, s.bpb, s.beat_unit, s.tpb, s.step), (120, 4, 4, 4, 2));
    assert!(s.file.is_none());
    assert!(!s.dirty);
}

#[test]
fn parse_readme_example() {
    let text = "melody 1\nbpm 120\nsig 4 4\ntpb 4\nstep 2\nnote 60 0 2 0.80    # pitch(MIDI) start(ticks) length(ticks) strength(0..1)\n";
    let s = Song::parse(text);
    assert_eq!(s.bpm, 120);
    // the commented note line has more than five fields: an unknown line
    assert!(s.notes.is_empty());
    let s = Song::parse("note 60 0 2 0.80\n");
    assert_eq!(s.notes, vec![note(60, 0, 2, 80)]);
}

#[test]
fn parse_reads_settings_and_notes() {
    let text = "melody 1\nbpm 96\nsig 3 8\ntpb 6\nstep 3\nnote 64 6 3 0.56\nnote 67 12 6\n";
    let s = Song::parse(text);
    assert_eq!((s.bpm, s.bpb, s.beat_unit, s.tpb, s.step), (96, 3, 8, 6, 3));
    assert_eq!(s.notes, vec![note(64, 6, 3, 56), note(67, 12, 6, DEF_VEL)]);
    assert!(s.file.is_none());
    assert!(!s.dirty);
}

#[test]
fn parse_ignores_unknown_lines_and_defaults_bad_numbers() {
    let text = "hello world\nbpm fast\nsig x y\nstep two\n\n   \nnote abc -1 zz\ntempo 90\n";
    let s = Song::parse(text);
    assert_eq!(s.bpm, 120);
    assert_eq!((s.bpb, s.beat_unit), (4, 4));
    assert_eq!(s.step, 2);
    // unreadable pitch -> 60, start -> 0, length -> the grid step at that line
    assert_eq!(s.notes, vec![note(60, 0, 2, DEF_VEL)]);
}

#[test]
fn parse_number_forms() {
    let s = Song::parse("bpm +90\r\ntpb 4294967296\nnote 300 1 1 1\nnote 12 +3 4 .5\nnote 13 0 4 1.\nnote 14 0 4 0.855\nnote 15 0 4 -0.5\n");
    assert_eq!(s.bpm, 90);
    assert_eq!(s.tpb, 4); // out of range: default
    assert_eq!(s.notes.len(), 5);
    assert_eq!(s.notes[0], note(60, 1, 1, 100)); // pitch 300 is no u8
    assert_eq!(s.notes[1], note(12, 3, 4, 50));
    assert_eq!(s.notes[2], note(13, 0, 4, 100));
    assert_eq!(s.notes[3], note(14, 0, 4, 86));
    assert_eq!(s.notes[4], note(15, 0, 4, DEF_VEL));
}

#[test]
fn to_text_writes_mel_format() {
    let mut s = Song::new();
    s.notes.push(note(60, 0, 2, 80));
    s.notes.push(note(62, 2, 4, 11));
    s.notes.push(note(64, 8, 1, 100));
    assert_eq!(
        s.to_text(),
        "melody 1\nbpm 120\nsig 4 4\ntpb 4\nstep 2\nnote 60 0 2 0.80\nnote 62 2 4 0.11\nnote 64 8 1 1.00\n"
    );
}

#[test]
fn save_then_open_roundtrip() {
    let mut s = Song::new();
    s.bpm = 133;
    s.bpb = 7;
    s.beat_unit = 8;
    s.tpb = 12;
    s.step = 3;
    s.notes.push(note(0, 4294967295, 4294967295, 4294967295));
    s.notes.push(note(127, 5, 1, 0));
    s.notes.push(note(255, 0, 0, 7));
    let back = Song::parse(&s.to_text());
    assert_eq!(back.notes, s.notes);
    assert_eq!((back.bpm, back.bpb, back.beat_unit, back.tpb, back.step), (133, 7, 8, 12, 3));
}

#[test]
fn quantize_snaps_to_nearest_grid_point() {
    let s = Song::new(); // step 2
    assert_eq!(s.quantize(0), 0);
    assert_eq!(s.quantize(1), 2);
    assert_eq!(s.quantize(2), 2);
    assert_eq!(s.quantize(3), 4);
    let mut s3 = Song::new();
    s3.step = 3;
    assert_eq!(s3.quantize(4), 3);
    assert_eq!(s3.quantize(5), 6);
}

#[test]
fn bar_ticks_and_grid_label() {
    let mut s = Song::new();
    assert_eq!(s.bar_ticks(), 16);
    assert_eq!(s.grid_label(), "1/8");
    s.step = 1;
    assert_eq!(s.grid_label(), "1/16");
    s.step = 4;
    assert_eq!(s.grid_label(), "1/4");
}

#[test]
fn end_tick_is_latest_note_end() {
    let mut s = Song::new();
    assert_eq!(s.end_tick(), 0);
    s.notes.push(note(60, 10, 4, 80));
    s.notes.push(note(62, 2, 20, 80));
    s.notes.push(note(64, 12, 1, 80));
    assert_eq!(s.end_tick(), 22);
}

#[test]
fn click_ticks_one_count_in_bar() {
    let s = Song::new();
    let clicks = s.click_ticks(1, 1);
    let want: Vec<(u32, bool)> = (0..8).map(|k| (k * 4, k % 4 == 0)).collect();
    assert_eq!(clicks, want);
    assert!(s.click_ticks(0, 0).is_empty());
}

#[test]
fn sort_notes_orders_by_start_then_pitch_stably() {
    let mut s = Song::new();
    s.notes = vec![note(64, 4, 2, 1), note(60, 4, 2, 2), note(60, 0, 2, 3), note(60, 4, 2, 4)];
    s.sort_notes();
    assert_eq!(s.notes, vec![note(60, 0, 2, 3), note(60, 4, 2, 2), note(60, 4, 2, 4), note(64, 4, 2, 1)]);
}

fn strength_of(field: &str) -> u32 {
    let s = Song::parse(&format!("note 60 0 2 {}\n", field));
    s.notes[0].vel
}

#[test]
fn strength_reads_float_literals() {
    assert_eq!(strength_of("1e-1"), 10);
    assert_eq!(strength_of("5E-1"), 50);
    assert_eq!(strength_of("12e+1"), 12000);
    assert_eq!(strength_of(".5"), 50);
    assert_eq!(strength_of("1."), 100);
    assert_eq!(strength_of("+0.25"), 25);
    assert_eq!(strength_of("0.855"), 86);
    assert_eq!(strength_of("0.8549"), 85);
    assert_eq!(strength_of("0.995"), 100);
    assert_eq!(strength_of("2.5e-3"), 0);
    assert_eq!(strength_of("0e99999999999999999999999999"), 0);
    assert_eq!(strength_of("7e-99999999999999999999999999"), 0);
    assert_eq!(strength_of("-0.001"), 0);
    assert_eq!(strength_of("-0"), 0);
}

#[test]
fn strength_that_the_model_cannot_hold_is_the_default() {
    assert_eq!(strength_of("-0.5"), DEF_VEL);
    assert_eq!(strength_of("inf"), DEF_VEL);
    assert_eq!(strength_of("-infinity"), DEF_VEL);
    assert_eq!(strength_of("NaN"), DEF_VEL);
    assert_eq!(strength_of("1e400"), DEF_VEL);
    assert_eq!(strength_of("99999999999"), DEF_VEL);
    assert_eq!(strength_of("1e"), DEF_VEL);
    assert_eq!(strength_of("e5"), DEF_VEL);
    assert_eq!(strength_of("."), DEF_VEL);
    assert_eq!(strength_of("1.2.3"), DEF_VEL);
    assert_eq!(strength_of("1e2.5"), DEF_VEL);
}
