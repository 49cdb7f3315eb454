use vstd::prelude::*;

verus! {

/// One rhythmic beat, measured in twentieths of a beat.  All duration
/// arithmetic is done in these integer units so that halves (10), quarters
/// (5) and the grace-note split (4 + 16) are exact.
pub const UNITS_PER_BEAT: u32 = 20;

/// Half a beat, the duration of each swar in a `A:B` pair.
pub const HALF_BEAT_UNITS: u32 = 10;

/// A quarter beat, the duration of each swar in a `A:B:C:D` group.
pub const QUARTER_BEAT_UNITS: u32 = 5;

/// The short ornament share of a grace-note (kan swar) pair: 0.2 beat.
pub const KAN_SWAR_BEAT_UNITS: u32 = 4;

/// The main note's share of a grace-note pair: 0.8 beat.
pub const KAN_MAIN_BEAT_UNITS: u32 = 16;

/// The long tonic duration that brackets a practice drill: 3 beats.
pub const DRILL_TONIC_UNITS: u32 = 60;

/// The duration given to each drawn note of a practice drill: 2 beats.
pub const DRILL_NOTE_UNITS: u32 = 40;

} // verus!
