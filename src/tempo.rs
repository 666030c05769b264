use vstd::prelude::*;

verus! {

/// Errors raised while setting up a metronome.
#[derive(Debug, Clone, Copy, PartialEq, Eq, Structural)]
pub enum ConfigError {
    /// A tempo of zero beats per minute was requested.
    ZeroTempo,
}

/// Milliseconds in one minute.
pub const MS_PER_MINUTE: u64 = 60000;

/// Whole milliseconds in one beat at `tempo` beats per minute (truncated).
pub open spec fn ms_per_beat(tempo: nat) -> nat
    recommends
        tempo > 0,
{
    MS_PER_MINUTE as nat / tempo
}

/// Samples in one beat: the truncated beat length in milliseconds, scaled to
/// the sample rate and truncated again.
pub open spec fn samples_per_beat(tempo: nat, sample_rate: nat) -> nat
    recommends
        tempo > 0,
{
    ms_per_beat(tempo) * sample_rate / 1000
}

/// Converts a tempo in beats per minute to a beat length in samples.
/// A tempo of zero is rejected.
pub fn tempo_to_samples(tempo: u64, sample_rate: u32) -> (r: Result<u64, ConfigError>)
    ensures
        tempo == 0 <==> r is Err,
        r is Err ==> r == Err::<u64, ConfigError>(ConfigError::ZeroTempo),
        r is Ok ==> r->Ok_0 == samples_per_beat(tempo as nat, sample_rate as nat),
        r is Ok ==> r->Ok_0 <= 60 * 0xFFFF_FFFF,
{
    if tempo == 0 {
        return Err(ConfigError::ZeroTempo);
    }
    let ms: u64 = MS_PER_MINUTE / tempo;
    assert(ms * (sample_rate as nat) <= 60000 * 0xFFFF_FFFF) by (nonlinear_arith)
        requires ms <= 60000, sample_rate <= 0xFFFF_FFFF;
    let scaled: u64 = ms * sample_rate as u64;
    Ok(scaled / 1000)
}

} // verus!
