use vstd::prelude::*;

use crate::pitch::SwarTableEntry;
use crate::randomness::rand_below;
use crate::swar::{swar_freq_eq, Swar};
use crate::swarbeat::{first_pitched_at_or_after, swars_shift_to, swars_shiftable, SwarBeat};

verus! {

/// The sequence-of-sequences view of a list of beats.
pub open spec fn beats_view(v: Seq<SwarBeat>) -> Seq<Seq<Swar>> {
    v.map_values(|b: SwarBeat| b@)
}

/// A contiguous phrase: an ordered list of beat slots.
#[derive(Debug)]
pub struct SwarBlock(pub Vec<SwarBeat>);

impl View for SwarBlock {
    type V = Seq<Seq<Swar>>;

    open spec fn view(&self) -> Seq<Seq<Swar>> {
        beats_view(self.0@)
    }
}

/// An index-based cursor addressing one swar inside a phrase group: the
/// beat position counted over all blocks in order, and the swar position
/// inside that beat.
#[derive(Clone, Copy, Debug, PartialEq, Eq, Structural)]
pub struct SwarInSwarBlock {
    pub swarbeat_index: usize,
    pub swar_index: usize,
}

/// Whether a beat stores at least one pitched swar.
pub open spec fn beat_has_pitch(swars: Seq<Swar>) -> bool {
    first_pitched_at_or_after(swars, 0) is Some
}

/// The smallest beat index in `[lo, hi)` whose beat stores a pitched swar.
pub open spec fn first_beat_with_pitch(beats: Seq<Seq<Swar>>, lo: int, hi: int) -> Option<int>
    decreases hi - lo,
{
    if lo < 0 || lo >= hi || hi > beats.len() {
        None
    } else if beat_has_pitch(beats[lo]) {
        Some(lo)
    } else {
        first_beat_with_pitch(beats, lo + 1, hi)
    }
}

/// The largest beat index in `[lo, hi)` whose beat stores a pitched swar.
pub open spec fn last_beat_with_pitch(beats: Seq<Seq<Swar>>, lo: int, hi: int) -> Option<int>
    decreases hi - lo,
{
    if lo < 0 || lo >= hi || hi > beats.len() {
        None
    } else if beat_has_pitch(beats[hi - 1]) {
        Some(hi - 1)
    } else {
        last_beat_with_pitch(beats, lo, hi - 1)
    }
}

/// The position a forward pitched-beat scan returns is in `[lo, hi)`.
pub proof fn lemma_first_beat_with_pitch_props(beats: Seq<Seq<Swar>>, lo: int, hi: int)
    ensures
        match first_beat_with_pitch(beats, lo, hi) {
            Some(i) => lo <= i < hi <= beats.len() && beat_has_pitch(beats[i]),
            None => true,
        },
    decreases hi - lo,
{
    if !(lo < 0 || lo >= hi || hi > beats.len()) && !beat_has_pitch(beats[lo]) {
        lemma_first_beat_with_pitch_props(beats, lo + 1, hi);
    }
}

/// The position a backward pitched-beat scan returns is in `[lo, hi)`.
pub proof fn lemma_last_beat_with_pitch_props(beats: Seq<Seq<Swar>>, lo: int, hi: int)
    ensures
        match last_beat_with_pitch(beats, lo, hi) {
            Some(i) => 0 <= lo <= i < hi <= beats.len() && beat_has_pitch(beats[i]),
            None => true,
        },
    decreases hi - lo,
{
    if !(lo < 0 || lo >= hi || hi > beats.len()) && !beat_has_pitch(beats[hi - 1]) {
        lemma_last_beat_with_pitch_props(beats, lo, hi - 1);
    }
}

/// The largest index of a non-empty beat, if any: the beat a continuation
/// token extends.
pub open spec fn last_nonempty_beat<A>(beats: Seq<Seq<A>>) -> Option<int>
    decreases beats.len(),
{
    if beats.len() == 0 {
        None
    } else if beats.last().len() > 0 {
        Some(beats.len() - 1)
    } else {
        last_nonempty_beat(beats.drop_last())
    }
}

/// Position and non-emptiness of the beat that `last_nonempty_beat`
/// designates, and the emptiness of everything after it.
pub proof fn lemma_last_nonempty_props<A>(beats: Seq<Seq<A>>)
    ensures
        match last_nonempty_beat(beats) {
            Some(i) => 0 <= i < beats.len() && beats[i].len() > 0 && forall|k: int|
                i < k < beats.len() ==> #[trigger] beats[k].len() == 0,
            None => forall|k: int| 0 <= k < beats.len() ==> #[trigger] beats[k].len() == 0,
        },
    decreases beats.len(),
{
    if beats.len() > 0 && beats.last().len() == 0 {
        lemma_last_nonempty_props(beats.drop_last());
        assert(forall|k: int| 0 <= k < beats.len() - 1 ==> beats[k] == #[trigger] beats.drop_last()[k]);
        match last_nonempty_beat(beats.drop_last()) {
            Some(i) => {
                assert forall|k: int| i < k < beats.len() implies #[trigger] beats[k].len() == 0 by {
                    if k < beats.len() - 1 {
                        assert(beats.drop_last()[k].len() == 0);
                    }
                }
            },
            None => {
                assert forall|k: int| 0 <= k < beats.len() implies #[trigger] beats[k].len() == 0 by {
                    if k < beats.len() - 1 {
                        assert(beats.drop_last()[k].len() == 0);
                    }
                }
            },
        }
    }
}

/// `beats` with the duration of the last swar of beat `i` grown by `inc`.
pub open spec fn extend_last_spec(beats: Seq<Seq<Swar>>, i: int, inc: int) -> Seq<Seq<Swar>> {
    let b = beats[i];
    let j = b.len() - 1;
    let sw = b[j];
    beats.update(i, b.update(j, Swar { pitch: sw.pitch, beat_units: (sw.beat_units + inc) as u32 }))
}

/// The smallest `j >= lo` such that `swars[j]` sounds the same frequency
/// as `t`.
pub open spec fn match_at_or_after(
    entries: Seq<SwarTableEntry>,
    swars: Seq<Swar>,
    t: Swar,
    lo: int,
) -> Option<int>
    decreases swars.len() - lo,
{
    if lo < 0 || lo >= swars.len() {
        None
    } else if swar_freq_eq(entries, swars[lo], t) {
        Some(lo)
    } else {
        match_at_or_after(entries, swars, t, lo + 1)
    }
}

/// The first position `(i, j)` with `i >= lo` whose swar sounds the same
/// frequency as `t`, scanning beats in order and each beat left to right.
pub open spec fn first_match_from(
    entries: Seq<SwarTableEntry>,
    beats: Seq<Seq<Swar>>,
    t: Swar,
    lo: int,
) -> Option<(int, int)>
    decreases beats.len() - lo,
{
    if lo < 0 || lo >= beats.len() {
        None
    } else {
        match match_at_or_after(entries, beats[lo], t, 0) {
            Some(j) => Some((lo, j)),
            None => first_match_from(entries, beats, t, lo + 1),
        }
    }
}

/// The position a frequency search in one beat returns is in range.
pub proof fn lemma_match_at_props(entries: Seq<SwarTableEntry>, swars: Seq<Swar>, t: Swar, lo: int)
    ensures
        match match_at_or_after(entries, swars, t, lo) {
            Some(j) => lo <= j < swars.len() && 0 <= j && swar_freq_eq(entries, swars[j], t),
            None => true,
        },
    decreases swars.len() - lo,
{
    if !(lo < 0 || lo >= swars.len()) && !swar_freq_eq(entries, swars[lo], t) {
        lemma_match_at_props(entries, swars, t, lo + 1);
    }
}

/// The position a frequency search over beats returns is in range.
pub proof fn lemma_first_match_props(
    entries: Seq<SwarTableEntry>,
    beats: Seq<Seq<Swar>>,
    t: Swar,
    lo: int,
)
    ensures
        match first_match_from(entries, beats, t, lo) {
            Some((i, j)) => lo <= i < beats.len() && 0 <= i && 0 <= j < beats[i].len()
                && swar_freq_eq(entries, beats[i][j], t),
            None => true,
        },
    decreases beats.len() - lo,
{
    if !(lo < 0 || lo >= beats.len()) {
        lemma_match_at_props(entries, beats[lo], t, 0);
        if match_at_or_after(entries, beats[lo], t, 0) is None {
            lemma_first_match_props(entries, beats, t, lo + 1);
        }
    }
}

/// Search `swars` for the first swar with the same resolved frequency as
/// `t`, from `lo` on.
pub(crate) fn find_match_in_swars(
    table: &crate::pitch::SwarTable,
    swars: &Vec<Swar>,
    t: &Swar,
    lo: usize,
) -> (r: Option<usize>)
    ensures
        r matches Some(j) ==> match_at_or_after(table.entries@, swars@, *t, lo as int) == Some(j as int),
        r is None ==> match_at_or_after(table.entries@, swars@, *t, lo as int) is None,
{
    let n = swars.len();
    let mut j = lo;
    while j < n
        invariant
            n == swars@.len(),
            lo <= j,
            match_at_or_after(table.entries@, swars@, *t, lo as int) == match_at_or_after(
                table.entries@,
                swars@,
                *t,
                j as int,
            ),
        decreases n - j,
    {
        if swars[j].freq_eq(t, table) {
            return Some(j);
        }
        j = j + 1;
    }
    None
}

impl Clone for SwarBlock {
    fn clone(&self) -> (r: SwarBlock)
        ensures
            r@ == self@,
    {
        let mut beats: Vec<SwarBeat> = Vec::new();
        let n = self.0.len();
        for i in 0..n
            invariant
                n == self.0@.len(),
                beats@.len() == i,
                forall|k: int| 0 <= k < i ==> #[trigger] beats@[k]@ == self.0@[k]@,
        {
            beats.push(self.0[i].clone());
        }
        let r = SwarBlock(beats);
        proof {
            assert(r@ =~= self@);
        }
        r
    }
}

impl SwarBlock {
    /// The number of beats in the phrase.
    pub fn len(&self) -> (n: usize)
        ensures
            n == self@.len(),
    {
        self.0.len()
    }

    /// All swars of the phrase in order, beat by beat.
    pub fn to_swars(&self) -> (r: Vec<Swar>)
        ensures
            r@ == self@.flatten(),
    {
        let mut out: Vec<Swar> = Vec::new();
        let n = self.0.len();
        for i in 0..n
            invariant
                n == self.0@.len(),
                out@ =~= beats_view(self.0@).take(i as int).flatten(),
        {
            let beat = &self.0[i];
            let m = beat.swars.len();
            for j in 0..m
                invariant
                    n == self.0@.len(),
                    i < n,
                    m == beat.swars@.len(),
                    beat == self.0@[i as int],
                    out@ =~= beats_view(self.0@).take(i as int).flatten() + beat.swars@.take(j as int),
            {
                out.push(beat.swars[j].clone());
            }
            proof {
                assert(beat.swars@.take(m as int) =~= beat.swars@);
                Seq::lemma_flatten_push(beats_view(self.0@).take(i as int), beat.swars@);
                assert(beats_view(self.0@).take(i as int).push(beat.swars@) =~= beats_view(self.0@).take(
                    i + 1,
                ));
            }
        }
        proof {
            assert(beats_view(self.0@).take(n as int) =~= self@);
        }
        out
    }

    /// The first position whose swar sounds the same frequency as
    /// `match_swar`, searching beats in order.
    pub fn index_swar(&self, match_swar: &Swar, table: &crate::pitch::SwarTable) -> (r: Option<
        SwarInSwarBlock,
    >)
        ensures
            r matches Some(ix) ==> first_match_from(table.entries@, self@, *match_swar, 0) == Some(
                (ix.swarbeat_index as int, ix.swar_index as int),
            ),
            r is None ==> first_match_from(table.entries@, self@, *match_swar, 0) is None,
    {
        let n = self.0.len();
        let mut i: usize = 0;
        while i < n
            invariant
                n == self.0@.len(),
                first_match_from(table.entries@, self@, *match_swar, 0) == first_match_from(
                    table.entries@,
                    self@,
                    *match_swar,
                    i as int,
                ),
        decreases n - i,
        {
            match find_match_in_swars(table, &self.0[i].swars, match_swar, 0) {
                Some(j) => {
                    return Some(SwarInSwarBlock { swarbeat_index: i, swar_index: j });
                },
                None => {},
            }
            i = i + 1;
        }
        None
    }

    /// The first beat index in `[start, end)` that carries a pitched swar,
    /// scanning forward when `forward` and backward otherwise.
    pub fn next_index_with_swar(&self, start: usize, end: usize, forward: bool) -> (r: Option<usize>)
        requires
            end <= self@.len(),
        ensures
            forward ==> (r matches Some(i) ==> first_beat_with_pitch(self@, start as int, end as int)
                == Some(i as int)),
            forward ==> (r is None ==> first_beat_with_pitch(self@, start as int, end as int) is None),
            !forward ==> (r matches Some(i) ==> last_beat_with_pitch(self@, start as int, end as int)
                == Some(i as int)),
            !forward ==> (r is None ==> last_beat_with_pitch(self@, start as int, end as int) is None),
    {
        if forward {
            let mut i = start;
            while i < end
                invariant
                    forward,
                    end <= self.0@.len(),
                    start <= i,
                    first_beat_with_pitch(self@, start as int, end as int) == first_beat_with_pitch(
                        self@,
                        i as int,
                        end as int,
                    ),
                decreases end - i,
            {
                proof {
                    assert(self@[i as int] == self.0@[i as int]@);
                }
                let found = self.0[i].swar_index_forward();
                if found.is_some() {
                    proof {
                        assert(beat_has_pitch(self@[i as int]));
                        assert(first_beat_with_pitch(self@, i as int, end as int) == Some(i as int));
                    }
                    return Some(i);
                }
                proof {
                    assert(!beat_has_pitch(self@[i as int]));
                }
                i = i + 1;
            }
            None
        } else {
            if start >= end {
                return None;
            }
            let mut i = end - 1;
            loop
                invariant
                    !forward,
                    end <= self.0@.len(),
                    start <= i < end,
                    last_beat_with_pitch(self@, start as int, end as int) == last_beat_with_pitch(
                        self@,
                        start as int,
                        i + 1,
                    ),
                decreases i,
            {
                proof {
                    assert(self@[i as int] == self.0@[i as int]@);
                }
                let found = self.0[i].swar_index_forward();
                if found.is_some() {
                    proof {
                        assert(beat_has_pitch(self@[i as int]));
                        assert(last_beat_with_pitch(self@, start as int, i + 1) == Some(i as int));
                    }
                    return Some(i);
                }
                proof {
                    assert(!beat_has_pitch(self@[i as int]));
                }
                if i == start {
                    proof {
                        assert(last_beat_with_pitch(self@, start as int, start as int) is None);
                    }
                    return None;
                }
                i = i - 1;
            }
        }
    }

    /// Derive the lower-octave equivalent of the whole phrase.
    pub fn lower(&self) -> (r: Option<SwarBlock>)
        ensures
            r matches Some(b) ==> b@.len() == self@.len() && forall|i: int|
                0 <= i < self@.len() ==> swars_shift_to(self@[i], #[trigger] b@[i], false),
            r is None ==> exists|i: int|
                0 <= i < self@.len() && !swars_shiftable(#[trigger] self@[i], false),
    {
        self.shift(false)
    }

    /// Derive the higher-octave equivalent of the whole phrase.
    pub fn higher(&self) -> (r: Option<SwarBlock>)
        ensures
            r matches Some(b) ==> b@.len() == self@.len() && forall|i: int|
                0 <= i < self@.len() ==> swars_shift_to(self@[i], #[trigger] b@[i], true),
            r is None ==> exists|i: int|
                0 <= i < self@.len() && !swars_shiftable(#[trigger] self@[i], true),
    {
        self.shift(true)
    }

    /// Every beat of the phrase moved one octave in the given direction.
    pub fn shift(&self, up: bool) -> (r: Option<SwarBlock>)
        ensures
            r matches Some(b) ==> b@.len() == self@.len() && forall|i: int|
                0 <= i < self@.len() ==> swars_shift_to(self@[i], #[trigger] b@[i], up),
            r is None ==> exists|i: int|
                0 <= i < self@.len() && !swars_shiftable(#[trigger] self@[i], up),
    {
        let mut out: Vec<SwarBeat> = Vec::new();
        let n = self.0.len();
        for i in 0..n
            invariant
                n == self.0@.len(),
                out@.len() == i,
                forall|k: int| 0 <= k < i ==> swars_shift_to(self@[k], #[trigger] out@[k]@, up),
        {
            match self.0[i].shift(up) {
                Some(b) => out.push(b),
                None => {
                    assert(!swars_shiftable(self@[i as int], up));
                    return None;
                },
            }
        }
        let r = SwarBlock(out);
        proof {
            assert(r@.len() == self@.len());
            assert(forall|k: int| 0 <= k < n ==> #[trigger] r@[k] == out@[k]@);
        }
        Some(r)
    }

    /// A uniformly drawn beat of a non-empty phrase, with its index.
    pub fn random_swarbeat(&self) -> (r: Option<(usize, SwarBeat)>)
        ensures
            r matches Some((i, b)) ==> i < self@.len() && b@ == self@[i as int],
            r is None ==> self@.len() == 0,
    {
        if self.0.len() == 0 {
            return None;
        }
        let i = rand_below(self.0.len());
        Some((i, self.0[i].clone()))
    }

    /// A uniformly drawn swar position of the phrase: a random non-empty
    /// beat, then a random swar within it.
    pub fn random_swar_index(&self) -> (r: Option<SwarInSwarBlock>)
        ensures
            r matches Some(ix) ==> ix.swarbeat_index < self@.len() && ix.swar_index < self@[ix.swarbeat_index as int].len(),
            r is None ==> self@.len() == 0 || exists|k: int|
                0 <= k < self@.len() && (#[trigger] self@[k]).len() == 0,
            self@.len() > 0 && (forall|k: int| 0 <= k < self@.len() ==> (#[trigger] self@[k]).len()
                > 0) ==> r is Some,
    {
        match self.random_swarbeat() {
            Some((i, beat)) => {
                if beat.swars.len() == 0 {
                    proof {
                        assert(self@[i as int].len() == 0);
                    }
                    return None;
                }
                let j = rand_below(beat.swars.len());
                Some(SwarInSwarBlock { swarbeat_index: i, swar_index: j })
            },
            None => None,
        }
    }
}

/// The index of the last beat that stores at least one swar, traversing
/// from the end; empty continuation beats are skipped.
pub fn get_last_swarbeat_with_swar(swarbeats: &Vec<SwarBeat>) -> (r: Option<usize>)
    ensures
        r matches Some(i) ==> last_nonempty_beat(beats_view(swarbeats@)) == Some(i as int),
        r is None ==> last_nonempty_beat(beats_view(swarbeats@)) is None,
{
    let n = swarbeats.len();
    if n == 0 {
        return None;
    }
    proof {
        assert(beats_view(swarbeats@).take(n as int) =~= beats_view(swarbeats@));
    }
    let mut i = n - 1;
    loop
        invariant
            n == swarbeats@.len(),
            i < n,
            last_nonempty_beat(beats_view(swarbeats@)) == last_nonempty_beat(
                beats_view(swarbeats@).take(i + 1),
            ),
        decreases i,
    {
        proof {
            assert(beats_view(swarbeats@).take(i + 1).last() == swarbeats@[i as int]@);
            assert(beats_view(swarbeats@).take(i + 1).drop_last() =~= beats_view(swarbeats@).take(
                i as int,
            ));
        }
        if swarbeats[i].len() > 0 {
            return Some(i);
        }
        if i == 0 {
            proof {
                assert(last_nonempty_beat(beats_view(swarbeats@).take(0)) is None);
            }
            return None;
        }
        i = i - 1;
    }
}

/// Grow the duration of the last swar of the last non-empty beat by
/// `inc` units: the continuation rule of the notation.  Returns `false`,
/// leaving the beats unchanged, when there is nothing to extend.
pub fn extend_last_swar(swarbeats: &mut Vec<SwarBeat>, inc: u32) -> (extended: bool)
    requires
        match last_nonempty_beat(beats_view(old(swarbeats)@)) {
            Some(i) => {
                let b = beats_view(old(swarbeats)@)[i];
                b[b.len() - 1].beat_units + inc <= u32::MAX
            },
            None => true,
        },
    ensures
        match last_nonempty_beat(beats_view(old(swarbeats)@)) {
            Some(i) => extended && beats_view(final(swarbeats)@) == extend_last_spec(
                beats_view(old(swarbeats)@),
                i,
                inc as int,
            ),
            None => !extended && final(swarbeats)@ == old(swarbeats)@,
        },
{
    match get_last_swarbeat_with_swar(swarbeats) {
        Some(i) => {
            proof {
                lemma_last_nonempty_props(beats_view(swarbeats@));
            }
            let m = swarbeats[i].len();
            let ghost pre = beats_view(swarbeats@);
            let units = swarbeats[i].swars[m - 1].beat_units;
            let pitch = swarbeats[i].swars[m - 1].pitch();
            let mut beat = swarbeats.remove(i);
            beat.replace_swar(m - 1, Swar { pitch, beat_units: units + inc });
            swarbeats.insert(i, beat);
            proof {
                assert(beats_view(swarbeats@) =~= extend_last_spec(pre, i as int, inc as int));
            }
            true
        },
        None => false,
    }
}

} // verus!
