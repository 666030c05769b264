use rust_click::metronome::{Level, Metronome, Tick};
use rust_click::tempo::ConfigError;

fn tick(index: usize, level: Level) -> Option<Tick> {
    Some(Tick { index, level })
}

fn build(click_len: usize, tempo: u64, sr: u32, division: u8, swing: i16) -> Metronome {
    match Metronome::new(click_len, tempo, sr, division, swing) {
        Ok(m) => m,
        Err(e) => panic!("unexpected error {:?}", e),
    }
}

#[test]
fn zero_tempo_is_a_configuration_error() {
    assert!(matches!(
        Metronome::new(100, 0, 44100, 4, 50),
        Err(ConfigError::ZeroTempo)
    ));
}

#[test]
fn quarter_division_schedule_at_120_bpm() {
    let m = build(100, 120, 44100, 4, 50);
    assert_eq!(22050, m.samples_per_beat);
    assert_eq!(22050, m.click_position());
    assert_eq!(vec![0u64, 22050], m.click_locations);
    assert_eq!(0, m.sample_count);
    assert_eq!(4, m.divisor);
}

#[test]
fn division_five_has_downbeat_only() {
    for swing in [0i16, 30, 50, 70, 100] {
        let m = build(100, 120, 44100, 5, swing);
        assert_eq!(vec![0u64], m.click_locations);
    }
}

#[test]
fn first_sample_without_advance_is_the_click_start() {
    let mut m = build(10, 60000, 4000, 2, 50);
    assert_eq!(tick(0, Level::Full), m.next_sample());
    assert_eq!(0, m.sample_count);
}

#[test]
fn two_subdivisions_play_and_fall_silent() {
    // one sample per millisecond beat of 4 samples; base length 8; clicks at 0 and 8
    let mut m = build(3, 60000, 4000, 2, 50);
    assert_eq!(8, m.click_position());
    assert_eq!(vec![0u64, 8], m.click_locations);
    let mut got = Vec::new();
    for _ in 0..16 {
        got.push(m.advance());
    }
    let mut want = vec![tick(1, Level::Full), tick(2, Level::Full)];
    want.extend(std::iter::repeat(None).take(5));
    want.extend([tick(0, Level::Full), tick(1, Level::Full), tick(2, Level::Full)]);
    want.extend(std::iter::repeat(None).take(6));
    assert_eq!(want, got);
    // the counter restarted at the end of the cycle
    assert_eq!(0, m.sample_count);
    assert_eq!(tick(1, Level::Full), m.advance());
}

#[test]
fn dense_division_plays_later_clicks_soft() {
    let mut m = build(10, 60000, 3000, 6, 50);
    assert_eq!(2, m.click_position());
    assert_eq!(vec![0u64, 2, 4], m.click_locations);
    let got: Vec<Option<Tick>> = (0..7).map(|_| m.advance()).collect();
    let want = vec![
        tick(1, Level::Full),
        tick(0, Level::Soft),
        tick(1, Level::Soft),
        tick(0, Level::Soft),
        tick(1, Level::Soft),
        tick(2, Level::Soft),
        tick(1, Level::Full),
    ];
    assert_eq!(want, got);
}

#[test]
fn amplitude_full_below_division_five() {
    let mut m = build(10, 120, 44100, 4, 50);
    for count in [0u64, 1, 22049, 22050, 30000] {
        m.sample_count = count;
        assert_eq!(Level::Full, m.amplitude());
    }
    let mut single = build(10, 120, 44100, 5, 50);
    for count in [0u64, 1, 1000] {
        single.sample_count = count;
        assert_eq!(Level::Full, single.amplitude());
    }
}

#[test]
fn amplitude_soft_after_second_click() {
    let mut m = build(10, 120, 44100, 6, 50);
    assert_eq!(vec![0u64, 14700, 29400], m.click_locations);
    m.sample_count = 14699;
    assert_eq!(Level::Full, m.amplitude());
    m.sample_count = 14700;
    assert_eq!(Level::Soft, m.amplitude());
}

#[test]
fn past_the_waveform_is_silence() {
    let mut m = build(5, 120, 44100, 4, 50);
    for n in 1..22050u64 {
        let out = m.advance();
        if n < 5 {
            assert_eq!(tick(n as usize, Level::Full), out);
        } else {
            assert_eq!(None, out);
        }
    }
    assert_eq!(tick(0, Level::Full), m.advance());
}

#[test]
fn empty_waveform_is_always_silent() {
    let mut m = build(0, 60000, 4000, 2, 50);
    assert_eq!(None, m.next_sample());
    for _ in 0..40 {
        assert_eq!(None, m.advance());
    }
}

#[test]
fn fresh_generators_play_the_same_stream() {
    let mut a = build(300, 97, 48000, 6, 63);
    let mut b = build(300, 97, 48000, 6, 63);
    for _ in 0..200_000 {
        assert_eq!(a.advance(), b.advance());
    }
}

#[test]
fn onsets_repeat_every_base_length() {
    // base length 4, swung clicks at 0 and 2: the cycle is one base length
    let mut m = build(1, 60000, 4000, 4, 25);
    assert_eq!(4, m.click_position());
    assert_eq!(vec![0u64, 2], m.click_locations);
    let onsets: Vec<usize> = (1..=20usize)
        .filter(|_| m.advance() == tick(0, Level::Full))
        .collect();
    assert_eq!(vec![2, 6, 10, 14, 18], onsets);
}

#[test]
fn onsets_repeat_every_cycle_when_clicks_reach_the_boundary() {
    // base length 8 with a click at 8: the cycle is two base lengths
    let mut m = build(1, 60000, 4000, 2, 50);
    let onsets: Vec<usize> = (1..=48usize)
        .filter(|_| m.advance() == tick(0, Level::Full))
        .collect();
    assert_eq!(vec![8, 24, 40], onsets);
}
