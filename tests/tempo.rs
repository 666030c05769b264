use rust_click::tempo::{tempo_to_samples, ConfigError};

#[test]
fn test_tempo_to_samples() {
    let tempo: u64 = 120;
    let sr: u32 = 44100;
    let samples_per_beat = tempo_to_samples(tempo, sr);
    assert_eq!(Ok(22050), samples_per_beat);

    let tempo: u64 = 240;
    let samples_per_beat = tempo_to_samples(tempo, sr);
    assert_eq!(Ok(11025), samples_per_beat);

    let tempo: u64 = 60;
    let samples_per_beat = tempo_to_samples(tempo, sr);
    assert_eq!(Ok(44100), samples_per_beat);

    let tempo: u64 = 30;
    let samples_per_beat = tempo_to_samples(tempo, sr);
    assert_eq!(Ok(88200), samples_per_beat);

    let tempo: u64 = 300;
    let samples_per_beat = tempo_to_samples(tempo, sr);
    assert_eq!(Ok(8820), samples_per_beat);
}

#[test]
fn zero_tempo_is_rejected() {
    assert_eq!(Err(ConfigError::ZeroTempo), tempo_to_samples(0, 44100));
}

#[test]
fn tempo_truncates_twice() {
    // 60000 / 7 = 8571 ms; 8571 * 44100 / 1000 = 377981
    assert_eq!(Ok(377981), tempo_to_samples(7, 44100));
    // tempo above 60000 gives a zero-length beat
    assert_eq!(Ok(0), tempo_to_samples(60001, 44100));
}

#[test]
fn largest_sample_rate_does_not_overflow() {
    assert_eq!(Ok(60 * 0xFFFF_FFFFu64), tempo_to_samples(1, u32::MAX));
}
