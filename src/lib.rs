//! Sonification of PCM audio as a Standard MIDI File: every audio sample
//! becomes a one-tick note whose velocity follows the sample's amplitude.

pub mod vlq;
pub mod smf;
pub mod mapper;
pub mod pcm;
