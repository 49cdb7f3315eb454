//! A verified model of Hindustani raag compositions: notes (swars) with
//! fractional beat durations arranged in beat slots, phrases and phrase
//! groups, together with octave derivation, melodic-context classification
//! and a context-aware mutation engine that substitutes notes according to
//! a raag's ascending/descending scale grammar.

pub mod constants;
pub mod error;
pub mod notation;
pub mod laws;
pub mod mutation;
pub mod octaves;
pub mod pitch;
pub mod raag;
pub mod random;
pub mod randomness;
pub mod swar;
pub mod swarbeat;
pub mod swarblock;
pub mod swarblocks;
