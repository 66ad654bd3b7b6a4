use melody::player::{backend_programs, pick_player};
use melody::wav::{pcm_le_bytes, wav_bytes, SR};

#[test]
fn pcm_is_little_endian() {
    assert_eq!(pcm_le_bytes(&[0, 1, -1, 256, i16::MIN, i16::MAX]), vec![0, 0, 1, 0, 255, 255, 0, 1, 0, 128, 255, 127]);
}

#[test]
fn wav_header_and_data() {
    let b = wav_bytes(&[1, -2]);
    assert_eq!(b.len(), 48);
    assert_eq!(&b[0..4], b"RIFF");
    assert_eq!(&b[4..8], &40u32.to_le_bytes());
    assert_eq!(&b[8..16], b"WAVEfmt ");
    assert_eq!(&b[16..20], &16u32.to_le_bytes());
    assert_eq!(&b[20..22], &1u16.to_le_bytes());
    assert_eq!(&b[22..24], &1u16.to_le_bytes());
    assert_eq!(&b[24..28], &SR.to_le_bytes());
    assert_eq!(&b[28..32], &(SR * 2).to_le_bytes());
    assert_eq!(&b[32..34], &2u16.to_le_bytes());
    assert_eq!(&b[34..36], &16u16.to_le_bytes());
    assert_eq!(&b[36..40], b"data");
    assert_eq!(&b[40..44], &4u32.to_le_bytes());
    assert_eq!(&b[44..48], &[1, 0, 254, 255]);
    assert_eq!(wav_bytes(&[]).len(), 44);
}

#[test]
fn player_preference_order() {
    let names = backend_programs();
    assert_eq!(names, vec!["aplay", "play", "paplay"]);
    let (p, a) = pick_player(&[true, true, true]).unwrap();
    assert_eq!(p, "aplay");
    assert_eq!(a, vec!["-q", "-f", "S16_LE", "-c", "1", "-r", "44100", "-t", "raw"]);
    let (p, a) = pick_player(&[false, true, true]).unwrap();
    assert_eq!(p, "play");
    assert_eq!(a.len(), 12);
    assert_eq!(a[a.len() - 1], "-");
    let (p, a) = pick_player(&[false, false, true]).unwrap();
    assert_eq!(p, "paplay");
    assert_eq!(a, vec!["--raw", "--format=s16le", "--rate=44100", "--channels=1"]);
    assert!(pick_player(&[false, false, false]).is_none());
    assert!(pick_player(&[]).is_none());
}
