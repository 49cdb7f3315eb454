use vstd::prelude::*;

use crate::randomness::rand_below;
use crate::swar::{swar_shiftable, swar_shifts_to, Swar};

verus! {

/// `b` is `a` with every swar moved one octave in the given direction.
pub open spec fn swars_shift_to(a: Seq<Swar>, b: Seq<Swar>, up: bool) -> bool {
    b.len() == a.len() && forall|i: int| 0 <= i < a.len() ==> swar_shifts_to(a[i], #[trigger] b[i], up)
}

/// Whether every swar of `a` has an equivalent one octave away.
pub open spec fn swars_shiftable(a: Seq<Swar>, up: bool) -> bool {
    forall|i: int| 0 <= i < a.len() ==> swar_shiftable(#[trigger] a[i], up)
}

/// One rhythmic beat slot.  A non-empty beat holds 1, 2 or 4 swars; an
/// empty beat is a pure continuation marker that extends the previous
/// beat's last swar rather than storing anything of its own.
#[derive(Debug)]
pub struct SwarBeat {
    pub swars: Vec<Swar>,
}

impl View for SwarBeat {
    type V = Seq<Swar>;

    open spec fn view(&self) -> Seq<Swar> {
        self.swars@
    }
}

/// The largest index `k <= j` whose swar carries a pitch, if any.
pub open spec fn last_pitched_at_or_before(swars: Seq<Swar>, j: int) -> Option<int>
    decreases j + 1,
{
    if j < 0 || j >= swars.len() {
        None
    } else if swars[j].pitch is Some {
        Some(j)
    } else {
        last_pitched_at_or_before(swars, j - 1)
    }
}

/// The smallest index `k >= j` whose swar carries a pitch, if any.
pub open spec fn first_pitched_at_or_after(swars: Seq<Swar>, j: int) -> Option<int>
    decreases swars.len() - j,
{
    if j < 0 || j >= swars.len() {
        None
    } else if swars[j].pitch is Some {
        Some(j)
    } else {
        first_pitched_at_or_after(swars, j + 1)
    }
}

/// What a backward pitch scan returns: a pitched position at or before
/// `j`, with nothing pitched between it and `j`; or the fact that no
/// position at or before `j` is pitched.
pub proof fn lemma_last_pitched_props(swars: Seq<Swar>, j: int)
    requires
        j < swars.len(),
    ensures
        match last_pitched_at_or_before(swars, j) {
            Some(k) => 0 <= k <= j && k < swars.len() && swars[k].pitch is Some && forall|m: int|
                k < m <= j && m < swars.len() ==> (#[trigger] swars[m].pitch) is None,
            None => forall|m: int|
                0 <= m <= j && m < swars.len() ==> (#[trigger] swars[m].pitch) is None,
        },
    decreases j + 1,
{
    if !(j < 0 || j >= swars.len()) && swars[j].pitch is None {
        lemma_last_pitched_props(swars, j - 1);
    }
}

/// What a forward pitch scan returns: the first pitched position at or
/// after `j`, or the fact that nothing at or after `j` is pitched.
pub proof fn lemma_first_pitched_props(swars: Seq<Swar>, j: int)
    requires
        0 <= j,
    ensures
        match first_pitched_at_or_after(swars, j) {
            Some(k) => j <= k < swars.len() && 0 <= k && swars[k].pitch is Some && forall|m: int|
                j <= m < k && 0 <= m ==> (#[trigger] swars[m].pitch) is None,
            None => forall|m: int|
                j <= m < swars.len() && 0 <= m ==> (#[trigger] swars[m].pitch) is None,
        },
    decreases swars.len() - j,
{
    if !(j < 0 || j >= swars.len()) && swars[j].pitch is None {
        lemma_first_pitched_props(swars, j + 1);
    }
}

impl Clone for SwarBeat {
    fn clone(&self) -> (r: SwarBeat)
        ensures
            r.swars@ == self.swars@,
    {
        let mut swars: Vec<Swar> = Vec::new();
        let n = self.swars.len();
        for i in 0..n
            invariant
                n == self.swars@.len(),
                swars@ =~= self.swars@.take(i as int),
        {
            swars.push(self.swars[i].clone());
            proof {
                assert(swars@ =~= self.swars@.take(i + 1));
            }
        }
        proof {
            assert(self.swars@.take(n as int) =~= self.swars@);
        }
        SwarBeat { swars }
    }
}

impl SwarBeat {
    /// A beat holding exactly the given swars.
    pub fn new(swars: Vec<Swar>) -> (r: SwarBeat)
        ensures
            r.swars == swars,
    {
        SwarBeat { swars }
    }

    /// The number of swars in the beat.
    pub fn len(&self) -> (n: usize)
        ensures
            n == self.swars@.len(),
    {
        self.swars.len()
    }

    /// Overwrite the swar at `index`.
    pub fn replace_swar(&mut self, index: usize, swar: Swar)
        requires
            index < old(self).swars@.len(),
        ensures
            final(self).swars@ == old(self).swars@.update(index as int, swar),
    {
        self.swars.set(index, swar);
    }

    /// Insert a swar at `index`, shifting the rest right.
    pub fn insert_swar(&mut self, index: usize, swar: Swar)
        requires
            index <= old(self).swars@.len(),
        ensures
            final(self).swars@ == old(self).swars@.insert(index as int, swar),
    {
        self.swars.insert(index, swar);
    }

    /// Extend the duration of the swar at `index` by `inc` units.
    pub fn increment_swar_at(&mut self, index: usize, inc: u32)
        requires
            index < old(self).swars@.len(),
            old(self).swars@[index as int].beat_units + inc <= u32::MAX,
        ensures
            final(self).swars@ == old(self).swars@.update(
                index as int,
                Swar {
                    pitch: old(self).swars@[index as int].pitch,
                    beat_units: (old(self).swars@[index as int].beat_units + inc) as u32,
                },
            ),
    {
        let units = self.swars[index].beat_units;
        let pitch = self.swars[index].pitch();
        self.swars.set(index, Swar { pitch, beat_units: units + inc });
    }

    /// The last pitched swar at or before `from`, scanning backward.
    pub fn swar_index_reverse_from(&self, from: usize) -> (r: Option<usize>)
        requires
            from < self.swars@.len(),
        ensures
            r matches Some(j) ==> last_pitched_at_or_before(self.swars@, from as int) == Some(j as int),
            r is None ==> last_pitched_at_or_before(self.swars@, from as int) is None,
    {
        let mut j = from;
        loop
            invariant
                j < self.swars@.len(),
                last_pitched_at_or_before(self.swars@, from as int) == last_pitched_at_or_before(self.swars@, j as int),
            decreases j,
        {
            if self.swars[j].pitch.is_some() {
                return Some(j);
            }
            if j == 0 {
                assert(last_pitched_at_or_before(self.swars@, -1) is None);
                return None;
            }
            j = j - 1;
        }
    }

    /// The last pitched swar in the beat, scanning from the right.
    pub fn swar_index_reverse(&self) -> (r: Option<usize>)
        ensures
            r matches Some(j) ==> last_pitched_at_or_before(self.swars@, self.swars@.len() - 1) == Some(j as int),
            r is None ==> last_pitched_at_or_before(self.swars@, self.swars@.len() - 1) is None,
    {
        let n = self.swars.len();
        if n > 0 {
            self.swar_index_reverse_from(n - 1)
        } else {
            None
        }
    }

    /// The first pitched swar at or after `from`, scanning forward.
    pub fn swar_index_forward_from(&self, from: usize) -> (r: Option<usize>)
        ensures
            r matches Some(j) ==> first_pitched_at_or_after(self.swars@, from as int) == Some(j as int),
            r is None ==> first_pitched_at_or_after(self.swars@, from as int) is None,
    {
        let n = self.swars.len();
        let mut j = from;
        while j < n
            invariant
                n == self.swars@.len(),
                from <= j,
                first_pitched_at_or_after(self.swars@, from as int) == first_pitched_at_or_after(self.swars@, j as int),
            decreases n - j,
        {
            if self.swars[j].pitch.is_some() {
                return Some(j);
            }
            j = j + 1;
        }
        None
    }

    /// The first pitched swar in the beat, scanning from the left.
    pub fn swar_index_forward(&self) -> (r: Option<usize>)
        ensures
            r matches Some(j) ==> first_pitched_at_or_after(self.swars@, 0) == Some(j as int),
            r is None ==> first_pitched_at_or_after(self.swars@, 0) is None,
    {
        self.swar_index_forward_from(0)
    }

    /// Every swar of the beat moved one octave, or `None` when a pitch
    /// has no equivalent in that direction.
    pub fn shift(&self, up: bool) -> (r: Option<SwarBeat>)
        ensures
            r matches Some(b) ==> swars_shift_to(self.swars@, b.swars@, up),
            r is None ==> !swars_shiftable(self.swars@, up),
    {
        let mut out: Vec<Swar> = Vec::new();
        let n = self.swars.len();
        for i in 0..n
            invariant
                n == self.swars@.len(),
                out@.len() == i,
                forall|k: int| 0 <= k < i ==> swar_shifts_to(self.swars@[k], #[trigger] out@[k], up),
        {
            let shifted = if up { self.swars[i].higher() } else { self.swars[i].lower() };
            match shifted {
                Some(sw) => out.push(sw),
                None => {
                    assert(!swar_shiftable(self.swars@[i as int], up));
                    return None;
                },
            }
        }
        Some(SwarBeat { swars: out })
    }

    /// Derive the lower-octave equivalent of the beat.
    pub fn lower(&self) -> (r: Option<SwarBeat>)
        ensures
            r matches Some(b) ==> swars_shift_to(self.swars@, b.swars@, false),
            r is None ==> !swars_shiftable(self.swars@, false),
    {
        self.shift(false)
    }

    /// Derive the higher-octave equivalent of the beat.
    pub fn higher(&self) -> (r: Option<SwarBeat>)
        ensures
            r matches Some(b) ==> swars_shift_to(self.swars@, b.swars@, true),
            r is None ==> !swars_shiftable(self.swars@, true),
    {
        self.shift(true)
    }

    /// A uniformly drawn swar of a non-empty beat.
    pub fn random_swar(&self) -> (r: Swar)
        requires
            self.swars@.len() > 0,
        ensures
            exists|j: int| 0 <= j < self.swars@.len() && r == self.swars@[j],
    {
        let j = rand_below(self.swars.len());
        let sw = self.swars[j].clone();
        assert(sw == self.swars@[j as int]);
        sw
    }
}

} // verus!
