use melody::pitch::{key_to_pitch, note_name, vel_color, Key};

#[test]
fn keyboard_piano_rows() {
    assert_eq!(key_to_pitch('z', 4), Some(60));
    assert_eq!(key_to_pitch('s', 4), Some(61));
    assert_eq!(key_to_pitch('m', 4), Some(71));
    assert_eq!(key_to_pitch(',', 4), Some(72));
    assert_eq!(key_to_pitch('z', -1), Some(0));
    assert_eq!(key_to_pitch('z', 9), Some(120));
    assert_eq!(key_to_pitch('m', 9), None);
    assert_eq!(key_to_pitch('z', -2), None);
    assert_eq!(key_to_pitch('q', 4), None);
}

#[test]
fn note_names() {
    assert_eq!(note_name(60), "C4");
    assert_eq!(note_name(61), "C#4");
    assert_eq!(note_name(69), "A4");
    assert_eq!(note_name(0), "C-1");
    assert_eq!(note_name(11), "B-1");
    assert_eq!(note_name(127), "G9");
    assert_eq!(note_name(255), "D#20");
}

#[test]
fn strength_colours() {
    assert_eq!(vel_color(0), 24);
    assert_eq!(vel_color(11), 24);
    assert_eq!(vel_color(50), 78);
    assert_eq!(vel_color(80), 214);
    assert_eq!(vel_color(89), 208);
    assert_eq!(vel_color(100), 196);
    assert_eq!(vel_color(1000), 196);
}

#[test]
fn key_names() {
    assert_eq!(Key::from_name("a"), Key::Char('a'));
    assert_eq!(Key::from_name(" "), Key::Char(' '));
    assert_eq!(Key::from_name("LEFT"), Key::Left);
    assert_eq!(Key::from_name("RIGHT"), Key::Right);
    assert_eq!(Key::from_name("UP"), Key::Up);
    assert_eq!(Key::from_name("DOWN"), Key::Down);
    assert_eq!(Key::from_name("ENTER"), Key::Enter);
    assert_eq!(Key::from_name("TAB"), Key::Tab);
    assert_eq!(Key::from_name("ESC"), Key::Esc);
    assert_eq!(Key::from_name("DEL"), Key::Del);
    assert_eq!(Key::from_name("RESIZE"), Key::Resize);
    assert_eq!(Key::from_name(""), Key::Other);
    assert_eq!(Key::from_name("C-a"), Key::Other);
}

#[test]
fn digit_strengths_span_the_colour_ramp() {
    let strengths = [11, 22, 33, 44, 56, 67, 78, 89, 100];
    let colours: Vec<u16> = strengths.iter().map(|&v| vel_color(v)).collect();
    assert_eq!(colours, vec![24, 31, 37, 43, 78, 148, 214, 208, 196]);
}
