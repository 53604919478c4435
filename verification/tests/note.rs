use tuners::note::{freq_to_note, nearest_semitone, note_name};

#[test]
fn concert_pitch_is_a4() {
    assert_eq!(freq_to_note(440_000), "A4");
}

#[test]
fn octave_above_concert_pitch_is_a5() {
    assert_eq!(freq_to_note(880_000), "A5");
}

#[test]
fn middle_c_is_c4() {
    assert_eq!(freq_to_note(261_630), "C4");
}

#[test]
fn open_strings_of_guitar_and_bass() {
    assert_eq!(freq_to_note(41_200), "E1");
    assert_eq!(freq_to_note(55_000), "A1");
    assert_eq!(freq_to_note(82_410), "E2");
    assert_eq!(freq_to_note(110_000), "A2");
    assert_eq!(freq_to_note(146_830), "D3");
    assert_eq!(freq_to_note(196_000), "G3");
    assert_eq!(freq_to_note(246_940), "B3");
    assert_eq!(freq_to_note(329_630), "E4");
}

#[test]
fn sharps_are_named() {
    assert_eq!(freq_to_note(466_160), "A#4");
    assert_eq!(freq_to_note(277_180), "C#4");
    assert_eq!(freq_to_note(369_990), "F#4");
}

#[test]
fn octave_changes_at_c() {
    assert_eq!(freq_to_note(493_880), "B4");
    assert_eq!(freq_to_note(523_250), "C5");
}

#[test]
fn quarter_tone_decides_between_neighbours() {
    // 440 Hz * 2^(1/24) = 452.892984... Hz
    assert_eq!(nearest_semitone(452_892), 0);
    assert_eq!(nearest_semitone(452_893), 1);
    // 440 Hz / 2^(1/24) = 427.474054... Hz
    assert_eq!(nearest_semitone(427_474), -1);
    assert_eq!(nearest_semitone(427_475), 0);
}

#[test]
fn nearest_semitone_matches_logarithm() {
    let mut freq: u64 = 20_000;
    while freq < 20_000_000 {
        let expected = (12.0 * (freq as f64 / 440_000.0).log2()).round() as i32;
        assert_eq!(nearest_semitone(freq), expected, "at {} mHz", freq);
        freq += 997;
    }
}

#[test]
fn nearest_semitone_at_the_ends_of_the_range() {
    let lowest = (12.0 * (1.0f64 / 440_000.0).log2()).round() as i32;
    assert_eq!(nearest_semitone(1), lowest);
    let highest = (12.0 * (u64::MAX as f64 / 440_000.0).log2()).round() as i32;
    assert_eq!(nearest_semitone(u64::MAX), highest);
}

#[test]
fn note_name_counts_octaves_from_c() {
    assert_eq!(note_name(0), "A4");
    assert_eq!(note_name(2), "B4");
    assert_eq!(note_name(3), "C5");
    assert_eq!(note_name(-9), "C4");
    assert_eq!(note_name(-10), "B3");
    assert_eq!(note_name(12), "A5");
    assert_eq!(note_name(-48), "A0");
}

#[test]
fn note_name_below_octave_zero() {
    assert_eq!(note_name(-57), "C0");
    assert_eq!(note_name(-58), "B-1");
    assert_eq!(note_name(-59), "A#-1");
    assert_eq!(note_name(-69), "C-1");
    assert_eq!(note_name(-70), "B-2");
}

#[test]
fn note_name_with_many_digits() {
    assert_eq!(note_name(12 * 96), "A100");
    assert_eq!(note_name(i32::MAX), "E178956975");
    assert_eq!(note_name(i32::MIN), "C#-178956966");
}
