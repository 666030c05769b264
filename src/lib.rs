//! A metronome click generator: tempo conversion, click scheduling within a
//! measure cycle, and a pull-based sample selector.
//!
//! The click waveform's samples stay with the caller: for each sample the
//! generator says which waveform position to play and at what level, or
//! that the sample is silent.

pub mod metronome;
pub mod schedule;
pub mod tempo;
