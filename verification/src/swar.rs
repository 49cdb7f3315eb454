use vstd::prelude::*;

use crate::pitch::{freq_of_spec, higher_name, lower_name, Pitch, SwarTable, SwarTableEntry};

verus! {

/// A single note or silence with a duration in twentieths of a beat.
/// `pitch == None` denotes a rest.
#[derive(Debug)]
pub struct Swar {
    pub pitch: Option<Pitch>,
    pub beat_units: u32,
}

/// The resolved frequency of a swar's pitch, if it has one and the name
/// resolves in the table.
pub open spec fn swar_freq_spec(entries: Seq<SwarTableEntry>, sw: Swar) -> Option<u32> {
    match sw.pitch {
        Some(p) => freq_of_spec(entries, p@),
        None => None,
    }
}

/// Two swars sound the same degree when both carry a pitch, both resolve,
/// and the resolved frequencies are equal.  Octave marks in the name
/// matter exactly as far as they change the resolved frequency.
pub open spec fn swar_freq_eq(entries: Seq<SwarTableEntry>, a: Swar, b: Swar) -> bool {
    match (swar_freq_spec(entries, a), swar_freq_spec(entries, b)) {
        (Some(fa), Some(fb)) => fa == fb,
        _ => false,
    }
}

/// The octave-shifted form of a pitch name: up or down.
pub open spec fn shifted_name(p: Seq<char>, up: bool) -> Option<Seq<char>> {
    if up {
        higher_name(p)
    } else {
        lower_name(p)
    }
}

/// `b` is `a` moved one octave in the given direction: same duration,
/// silence stays silence, and a pitched name is shifted.
pub open spec fn swar_shifts_to(a: Swar, b: Swar, up: bool) -> bool {
    b.beat_units == a.beat_units && match (a.pitch, b.pitch) {
        (Some(p), Some(q)) => shifted_name(p@, up) == Some(q@),
        (None, None) => true,
        _ => false,
    }
}

/// Whether `a` has an equivalent one octave away in the given direction.
pub open spec fn swar_shiftable(a: Swar, up: bool) -> bool {
    match a.pitch {
        Some(p) => shifted_name(p@, up) is Some,
        None => true,
    }
}

impl Clone for Swar {
    fn clone(&self) -> (r: Swar)
        ensures
            r == *self,
    {
        Swar {
            pitch: match &self.pitch {
                Some(p) => Some(p.clone()),
                None => None,
            },
            beat_units: self.beat_units,
        }
    }
}

impl Swar {
    pub fn new(pitch: Pitch, beat_units: u32) -> (sw: Swar)
        ensures
            sw.pitch == Some(pitch),
            sw.beat_units == beat_units,
    {
        Swar { pitch: Some(pitch), beat_units }
    }

    /// A silent swar (a pause) of the given duration.
    pub fn empty(beat_units: u32) -> (sw: Swar)
        ensures
            sw.pitch is None,
            sw.beat_units == beat_units,
    {
        Swar { pitch: None, beat_units }
    }

    pub fn pitch(&self) -> (p: Option<Pitch>)
        ensures
            p == self.pitch,
    {
        match &self.pitch {
            Some(p) => Some(p.clone()),
            None => None,
        }
    }

    pub fn beat_count(&self) -> (u: u32)
        ensures
            u == self.beat_units,
    {
        self.beat_units
    }

    pub fn set_beat_count(&mut self, beat_units: u32)
        ensures
            final(self).pitch == old(self).pitch,
            final(self).beat_units == beat_units,
    {
        self.beat_units = beat_units;
    }

    /// Extend the duration by `inc` units.
    pub fn inc_beat_count(&mut self, inc: u32)
        requires
            old(self).beat_units + inc <= u32::MAX,
        ensures
            final(self).pitch == old(self).pitch,
            final(self).beat_units == old(self).beat_units + inc,
    {
        self.beat_units = self.beat_units + inc;
    }

    /// Shorten the duration by `dec` units.
    pub fn dec_beat_count(&mut self, dec: u32)
        requires
            dec <= old(self).beat_units,
        ensures
            final(self).pitch == old(self).pitch,
            final(self).beat_units == old(self).beat_units - dec,
    {
        self.beat_units = self.beat_units - dec;
    }

    /// The resolved frequency in centihertz, or `None` for silence or an
    /// unknown name.
    pub fn freq(&self, table: &SwarTable) -> (r: Option<u32>)
        ensures
            r == swar_freq_spec(table.entries@, *self),
    {
        match &self.pitch {
            Some(p) => match p.hertz(table) {
                Some(h) => Some(h.freq()),
                None => None,
            },
            None => None,
        }
    }

    /// Whether the two swars resolve to the same frequency.
    pub fn freq_eq(&self, other: &Swar, table: &SwarTable) -> (r: bool)
        ensures
            r == swar_freq_eq(table.entries@, *self, *other),
    {
        match (self.freq(table), other.freq(table)) {
            (Some(fa), Some(fb)) => fa == fb,
            _ => false,
        }
    }

    /// This swar one octave down; silence stays silence.
    pub fn lower(&self) -> (r: Option<Swar>)
        ensures
            r matches Some(sw) ==> swar_shifts_to(*self, sw, false),
            r is None ==> !swar_shiftable(*self, false),
    {
        match &self.pitch {
            Some(p) => match p.lower() {
                Some(q) => Some(Swar { pitch: Some(q), beat_units: self.beat_units }),
                None => None,
            },
            None => Some(Swar { pitch: None, beat_units: self.beat_units }),
        }
    }

    /// This swar one octave up; silence stays silence.
    pub fn higher(&self) -> (r: Option<Swar>)
        ensures
            r matches Some(sw) ==> swar_shifts_to(*self, sw, true),
            r is None ==> !swar_shiftable(*self, true),
    {
        match &self.pitch {
            Some(p) => match p.higher() {
                Some(q) => Some(Swar { pitch: Some(q), beat_units: self.beat_units }),
                None => None,
            },
            None => Some(Swar { pitch: None, beat_units: self.beat_units }),
        }
    }
}

} // verus!
