use vstd::prelude::*;

use crate::octaves::{aroha_context_spec, avroha_context_spec, Aroha, Avroha};
use crate::pitch::{SwarTable, SwarTableEntry};
use crate::swar::Swar;
use crate::swarblock::{match_at_or_after, SwarBlock, SwarInSwarBlock};
use crate::swarblocks::{adjacency_window, flat_beats, SwarBlocks};

verus! {

/// The position of the first swar of `list` that sounds the same
/// frequency as `sw`: the scale-degree index used for melodic-context
/// classification.  Equality is by resolved frequency, so the same
/// degree written with another octave mark still matches the register
/// that carries that frequency.
pub open spec fn index_of_freq(entries: Seq<SwarTableEntry>, list: Seq<Swar>, sw: Swar) -> Option<
    int,
> {
    match_at_or_after(entries, list, sw, 0)
}

/// A non-empty window follows a degree list when each of its swars
/// occurs in the list and the degree indices never decrease across the
/// window.
pub open spec fn window_in_order(entries: Seq<SwarTableEntry>, list: Seq<Swar>, window: Seq<Swar>) -> bool {
    window.len() > 0 && (forall|k: int|
        0 <= k < window.len() ==> (#[trigger] index_of_freq(entries, list, window[k])) is Some)
        && (forall|k: int|
        0 < k < window.len() ==> index_of_freq(entries, list, window[k - 1]).unwrap() <= (
        #[trigger] index_of_freq(entries, list, window[k])).unwrap())
}

/// Whether the window's degree indices in `list` are defined and
/// non-decreasing.
pub(crate) fn window_follows(table: &SwarTable, list: &Vec<Swar>, window: &Vec<Swar>) -> (r: bool)
    ensures
        r == window_in_order(table.entries@, list@, window@),
{
    let n = window.len();
    if n == 0 {
        return false;
    }
    let mut prev: usize;
    match crate::swarblock::find_match_in_swars(table, list, &window[0], 0) {
        Some(p) => {
            prev = p;
        },
        None => {
            assert(index_of_freq(table.entries@, list@, window@[0]) is None);
            return false;
        },
    }
    let mut k: usize = 1;
    while k < n
        invariant
            n == window@.len(),
            1 <= k <= n,
            index_of_freq(table.entries@, list@, window@[k - 1]) == Some(prev as int),
            forall|m: int|
                0 <= m < k ==> (#[trigger] index_of_freq(table.entries@, list@, window@[m])) is Some,
            forall|m: int|
                0 < m < k ==> index_of_freq(table.entries@, list@, window@[m - 1]).unwrap() <= (
                #[trigger] index_of_freq(table.entries@, list@, window@[m])).unwrap(),
        decreases n - k,
    {
        match crate::swarblock::find_match_in_swars(table, list, &window[k], 0) {
            Some(p) => {
                if p < prev {
                    return false;
                }
                prev = p;
            },
            None => {
                assert(index_of_freq(table.entries@, list@, window@[k as int]) is None);
                return false;
            },
        }
        k = k + 1;
    }
    true
}

/// A playable piece of music: the closed set of composition shapes the
/// playback front end renders.
#[derive(Debug)]
pub enum Melody {
    SwarBlock(SwarBlock),
    SwarBlocks(SwarBlocks),
    Raag(Raag),
}

/// The melodic lines of the first principal section, tagged by name.
#[derive(Debug, Clone)]
pub struct Sthayi {
    pub lines: Vec<(String, SwarBlocks)>,
}

/// The melodic lines of the second principal section, tagged by name.
#[derive(Debug, Clone)]
pub struct Antara {
    pub lines: Vec<(String, SwarBlocks)>,
}

/// The first line with the given tag, if any.
pub open spec fn line_lookup(lines: Seq<(String, SwarBlocks)>, tag: Seq<char>) -> Option<
    SwarBlocks,
>
    decreases lines.len(),
{
    if lines.len() == 0 {
        None
    } else if lines[0].0@ == tag {
        Some(lines[0].1)
    } else {
        line_lookup(lines.drop_first(), tag)
    }
}

/// Find the first line with the given tag.
pub(crate) fn lookup_line<'a>(lines: &'a Vec<(String, SwarBlocks)>, tag: &str) -> (r: Option<
    &'a SwarBlocks,
>)
    ensures
        r matches Some(b) ==> line_lookup(lines@, tag@) == Some(*b),
        r is None ==> line_lookup(lines@, tag@) is None,
{
    let n = lines.len();
    proof {
        assert(lines@.skip(0) =~= lines@);
    }
    for i in 0..n
        invariant
            n == lines@.len(),
            line_lookup(lines@, tag@) == line_lookup(lines@.skip(i as int), tag@),
        decreases n - i,
    {
        proof {
            assert(lines@.skip(i as int).drop_first() =~= lines@.skip(i + 1));
            assert(lines@.skip(i as int)[0] == lines@[i as int]);
        }
        if crate::notation::str_eq(lines[i].0.as_str(), tag) {
            return Some(&lines[i].1);
        }
    }
    None
}

impl Sthayi {
    pub fn new(lines: Vec<(String, SwarBlocks)>) -> (r: Sthayi)
        ensures
            r.lines == lines,
    {
        Sthayi { lines }
    }

    /// The line tagged `tag`, if present.
    pub fn get_line(&self, tag: &str) -> (r: Option<&SwarBlocks>)
        ensures
            r matches Some(b) ==> line_lookup(self.lines@, tag@) == Some(*b),
            r is None ==> line_lookup(self.lines@, tag@) is None,
    {
        lookup_line(&self.lines, tag)
    }
}

impl Antara {
    pub fn new(lines: Vec<(String, SwarBlocks)>) -> (r: Antara)
        ensures
            r.lines == lines,
    {
        Antara { lines }
    }

    /// The line tagged `tag`, if present.
    pub fn get_line(&self, tag: &str) -> (r: Option<&SwarBlocks>)
        ensures
            r matches Some(b) ==> line_lookup(self.lines@, tag@) == Some(*b),
            r is None ==> line_lookup(self.lines@, tag@) is None,
    {
        lookup_line(&self.lines, tag)
    }
}

/// A full composition: an optional lead-in, the two principal sections,
/// an optional closing cadential phrase, and the beat-cycle length.
#[derive(Debug, Clone)]
pub struct Swarmaalika {
    pub mukra: Option<SwarBlocks>,
    pub sthayi: Sthayi,
    pub antara: Antara,
    pub tihayi: Option<SwarBlocks>,
    pub sam: usize,
}

impl Swarmaalika {
    /// Aggregate the parts; a missing beat-cycle length defaults to 1.
    pub fn new(
        mukra: Option<SwarBlocks>,
        sthayi: Sthayi,
        antara: Antara,
        tihayi: Option<SwarBlocks>,
        sam: Option<usize>,
    ) -> (r: Swarmaalika)
        ensures
            r.mukra == mukra,
            r.sthayi == sthayi,
            r.antara == antara,
            r.tihayi == tihayi,
            r.sam == match sam {
                Some(n) => n,
                None => 1usize,
            },
    {
        let my_sam = match sam {
            Some(n) => n,
            None => 1,
        };
        Swarmaalika { mukra, sthayi, antara, tihayi, sam: my_sam }
    }

    /// The beat-cycle length.
    pub fn sam(&self) -> (n: usize)
        ensures
            n == self.sam,
    {
        self.sam
    }
}

/// A raag: its name, the ascending and descending scales with their
/// derived registers, the optional signature phrase and exercises, and
/// the full composition.  Immutable after construction; the mutation
/// engine borrows it read-only.
#[derive(Debug, Clone)]
pub struct Raag {
    pub name: String,
    pub aroha: Aroha,
    pub avroha: Avroha,
    pub pakad: Option<SwarBlocks>,
    pub alankars: Option<SwarBlocks>,
    pub swarmaalika: Swarmaalika,
}

/// The ascending degree list of a raag over all three registers.
pub open spec fn aroha_degrees(r: &Raag) -> Seq<Swar> {
    flat_beats(r.aroha.lower@).flatten() + flat_beats(r.aroha.aroha@).flatten() + flat_beats(
        r.aroha.higher@,
    ).flatten()
}

/// The descending degree list of a raag over all three registers.
pub open spec fn avroha_degrees(r: &Raag) -> Seq<Swar> {
    flat_beats(r.avroha.higher@).flatten() + flat_beats(r.avroha.avroha@).flatten()
        + flat_beats(r.avroha.lower@).flatten()
}

impl Raag {
    pub fn new(
        name: String,
        aroha: Aroha,
        avroha: Avroha,
        pakad: Option<SwarBlocks>,
        alankars: Option<SwarBlocks>,
        swarmaalika: Swarmaalika,
    ) -> (r: Raag)
        ensures
            r.name@ == name@,
            r.aroha == aroha,
            r.avroha == avroha,
            r.pakad == pakad,
            r.alankars == alankars,
            r.swarmaalika == swarmaalika,
    {
        Raag { name, aroha, avroha, pakad, alankars, swarmaalika }
    }

    pub fn name(&self) -> (r: String)
        ensures
            r@ == self.name@,
    {
        self.name.clone()
    }

    pub fn aroha(&self) -> (r: &Aroha)
        ensures
            r == &self.aroha,
    {
        &self.aroha
    }

    pub fn avroha(&self) -> (r: &Avroha)
        ensures
            r == &self.avroha,
    {
        &self.avroha
    }

    pub fn pakad(&self) -> (r: &Option<SwarBlocks>)
        ensures
            r == &self.pakad,
    {
        &self.pakad
    }

    pub fn alankars(&self) -> (r: &Option<SwarBlocks>)
        ensures
            r == &self.alankars,
    {
        &self.alankars
    }

    pub fn swarmaalika(&self) -> (r: &Swarmaalika)
        ensures
            r == &self.swarmaalika,
    {
        &self.swarmaalika
    }

    /// Whether the window is ascending: each swar's index in the
    /// three-register ascending degree list is defined and the indices
    /// never decrease.
    pub fn in_aroha(&self, swars: &Vec<Swar>, table: &SwarTable) -> (r: bool)
        ensures
            r == window_in_order(table.entries@, aroha_degrees(self), swars@),
    {
        let list = self.aroha.swars_in_all_octaves();
        window_follows(table, &list, swars)
    }

    /// Whether the window is descending: each swar's index in the
    /// three-register descending degree list is defined and the indices
    /// never decrease.
    pub fn in_avroha(&self, swars: &Vec<Swar>, table: &SwarTable) -> (r: bool)
        ensures
            r == window_in_order(table.entries@, avroha_degrees(self), swars@),
    {
        let list = self.avroha.swars_in_all_octaves();
        window_follows(table, &list, swars)
    }

    /// The ascending-context candidate pool for a swar.
    pub fn aroha_swars_by_context(&self, swar: &Swar, table: &SwarTable) -> (r: Option<Vec<Swar>>)
        requires
            flat_beats(self.aroha.lower@).len() <= usize::MAX,
            flat_beats(self.aroha.aroha@).len() <= usize::MAX,
            flat_beats(self.aroha.higher@).len() <= usize::MAX,
        ensures
            r matches Some(w) ==> aroha_context_spec(table.entries@, &self.aroha, *swar) == Some(w@),
            r is None ==> aroha_context_spec(table.entries@, &self.aroha, *swar) is None,
    {
        self.aroha.swars_by_context(swar, table)
    }

    /// The descending-context candidate pool for a swar.
    pub fn avroha_swars_by_context(&self, swar: &Swar, table: &SwarTable) -> (r: Option<Vec<Swar>>)
        requires
            flat_beats(self.avroha.lower@).len() <= usize::MAX,
            flat_beats(self.avroha.avroha@).len() <= usize::MAX,
            flat_beats(self.avroha.higher@).len() <= usize::MAX,
        ensures
            r matches Some(w) ==> avroha_context_spec(table.entries@, &self.avroha, *swar) == Some(
                w@,
            ),
            r is None ==> avroha_context_spec(table.entries@, &self.avroha, *swar) is None,
    {
        self.avroha.swars_by_context(swar, table)
    }

    /// One mutation step: pick a uniformly random target swar, classify
    /// its local adjacency window against the raag's scales, select the
    /// candidate pool that classification demands — the ascending-scale
    /// context when the window is ascending and the target occurs in
    /// the ascending registers, the descending-scale context when it is
    /// descending and occurs there, the window itself otherwise — and
    /// apply one random operator to a copy of `src`.  Returns `None`,
    /// never an unchanged clone, only when no target exists or a
    /// reachable candidate's duration cannot grow by one beat.
    pub fn randomise(&self, src: &SwarBlocks, table: &SwarTable) -> (r: Option<SwarBlocks>)
        requires
            flat_beats(src@).len() <= usize::MAX,
            flat_beats(self.aroha.lower@).len() <= usize::MAX,
            flat_beats(self.aroha.aroha@).len() <= usize::MAX,
            flat_beats(self.aroha.higher@).len() <= usize::MAX,
            flat_beats(self.avroha.lower@).len() <= usize::MAX,
            flat_beats(self.avroha.avroha@).len() <= usize::MAX,
            flat_beats(self.avroha.higher@).len() <= usize::MAX,
        ensures
            r matches Some(m) ==> exists|ix: SwarInSwarBlock|
                cursor_valid(flat_beats(src@), ix) && #[trigger] crate::mutation::mutated_from(
                    src@,
                    m@,
                    selected_pool(table.entries@, self, flat_beats(src@), ix),
                    ix,
                ) && m@.len() == src@.len() && (forall|b: int|
                    0 <= b < src@.len() ==> (#[trigger] m@[b]).len() == src@[b].len()),
            r is None ==> (forall|k: int|
                0 <= k < flat_beats(src@).len() ==> (#[trigger] flat_beats(src@)[k]).len() == 0)
                || exists|ix: SwarInSwarBlock, c: Swar|
                cursor_valid(flat_beats(src@), ix) && #[trigger] selected_pool(
                    table.entries@,
                    self,
                    flat_beats(src@),
                    ix,
                ).contains(c) && c.beat_units > u32::MAX - 20,
            (exists|k: int|
                0 <= k < flat_beats(src@).len() && (#[trigger] flat_beats(src@)[k]).len() > 0)
                && (forall|ix: SwarInSwarBlock, c: Swar|
                cursor_valid(flat_beats(src@), ix) && #[trigger] selected_pool(
                    table.entries@,
                    self,
                    flat_beats(src@),
                    ix,
                ).contains(c) ==> c.beat_units + 20 <= u32::MAX) ==> r is Some,
    {
        let ghost entries = table.entries@;
        let ghost fb = flat_beats(src@);
        let pick = match src.random_swar_index() {
            Some(p) => p,
            None => {
                return None;
            },
        };
        let window = match src.adjacent_swars(&pick) {
            Some(w) => w,
            None => {
                proof {
                    assert(false);
                }
                return None;
            },
        };
        let target = src.get_swarbeat_at(pick.swarbeat_index).swars[pick.swar_index].clone();
        proof {
            assert(cursor_valid(fb, pick));
            assert(target == fb[pick.swarbeat_index as int][pick.swar_index as int]);
            assert(window@ == adjacency_window(fb, pick.swarbeat_index as int, pick.swar_index as int));
            assert(window@.len() >= 1);
        }
        if self.in_aroha(&window, table) {
            match self.aroha.swars_by_context(&target, table) {
                Some(pool) => {
                    proof {
                        assert(selected_pool(entries, self, fb, pick) == pool@);
                        crate::octaves::lemma_registers_context_nonempty(
                            entries,
                            self.aroha.lower@,
                            self.aroha.aroha@,
                            self.aroha.higher@,
                            target,
                        );
                        assert(pool@.len() >= 1);
                    }
                    let m = src.mutate(&pick, &pool);
                    proof {
                        self.lemma_mutation_outcome(src, table, pick, pool@, m);
                    }
                    return m;
                },
                None => {},
            }
        }
        if self.in_avroha(&window, table) {
            match self.avroha.swars_by_context(&target, table) {
                Some(pool) => {
                    proof {
                        assert(selected_pool(entries, self, fb, pick) == pool@);
                        crate::octaves::lemma_registers_context_nonempty(
                            entries,
                            self.avroha.higher@,
                            self.avroha.avroha@,
                            self.avroha.lower@,
                            target,
                        );
                        assert(pool@.len() >= 1);
                    }
                    let m = src.mutate(&pick, &pool);
                    proof {
                        self.lemma_mutation_outcome(src, table, pick, pool@, m);
                    }
                    return m;
                },
                None => {},
            }
        }
        proof {
            assert(selected_pool(entries, self, fb, pick) == window@);
        }
        let m = src.mutate(&pick, &window);
        proof {
            self.lemma_mutation_outcome(src, table, pick, window@, m);
        }
        m
    }

    /// What one call of the mutation engine on the selected pool of a
    /// valid cursor establishes for `randomise`'s contract, for either
    /// outcome.
    proof fn lemma_mutation_outcome(
        &self,
        src: &SwarBlocks,
        table: &SwarTable,
        pick: SwarInSwarBlock,
        pool: Seq<Swar>,
        m: Option<SwarBlocks>,
    )
        requires
            cursor_valid(flat_beats(src@), pick),
            pool == selected_pool(table.entries@, self, flat_beats(src@), pick),
            pool.len() >= 1,
            m matches Some(mm) ==> crate::mutation::mutated_from(src@, mm@, pool, pick)
                && mm@.len() == src@.len() && (forall|b: int|
                0 <= b < src@.len() ==> (#[trigger] mm@[b]).len() == src@[b].len()),
            m is None ==> pool.len() == 0 || !cursor_valid(flat_beats(src@), pick) || exists|c: Swar|
                pool.contains(c) && c.beat_units > u32::MAX - 20,
        ensures
            m matches Some(mm) ==> exists|ix: SwarInSwarBlock|
                cursor_valid(flat_beats(src@), ix) && #[trigger] crate::mutation::mutated_from(
                    src@,
                    mm@,
                    selected_pool(table.entries@, self, flat_beats(src@), ix),
                    ix,
                ) && mm@.len() == src@.len() && (forall|b: int|
                    0 <= b < src@.len() ==> (#[trigger] mm@[b]).len() == src@[b].len()),
            m is None ==> exists|ix: SwarInSwarBlock, c: Swar|
                cursor_valid(flat_beats(src@), ix) && #[trigger] selected_pool(
                    table.entries@,
                    self,
                    flat_beats(src@),
                    ix,
                ).contains(c) && c.beat_units > u32::MAX - 20,
    {
        match m {
            Some(mm) => {
                assert(crate::mutation::mutated_from(
                    src@,
                    mm@,
                    selected_pool(table.entries@, self, flat_beats(src@), pick),
                    pick,
                ));
            },
            None => {
                let c = choose|c: Swar| pool.contains(c) && c.beat_units > u32::MAX - 20;
                assert(selected_pool(table.entries@, self, flat_beats(src@), pick).contains(c));
            },
        }
    }
}

/// Whether a cursor addresses a stored swar of the flattened beats.
pub open spec fn cursor_valid(fb: Seq<Seq<Swar>>, ix: SwarInSwarBlock) -> bool {
    ix.swarbeat_index < fb.len() && ix.swar_index < fb[ix.swarbeat_index as int].len()
}

/// The candidate pool the engine selects for the target at `ix`: the
/// ascending-scale context when the adjacency window classifies
/// ascending and the target occurs in the ascending registers; else the
/// descending-scale context when the window classifies descending and
/// the target occurs there; else the adjacency window itself.
pub open spec fn selected_pool(
    entries: Seq<SwarTableEntry>,
    raag: &Raag,
    fb: Seq<Seq<Swar>>,
    ix: SwarInSwarBlock,
) -> Seq<Swar> {
    let w = adjacency_window(fb, ix.swarbeat_index as int, ix.swar_index as int);
    let t = fb[ix.swarbeat_index as int][ix.swar_index as int];
    if window_in_order(entries, aroha_degrees(raag), w) && aroha_context_spec(
        entries,
        &raag.aroha,
        t,
    ) is Some {
        aroha_context_spec(entries, &raag.aroha, t).unwrap()
    } else if window_in_order(entries, avroha_degrees(raag), w) && avroha_context_spec(
        entries,
        &raag.avroha,
        t,
    ) is Some {
        avroha_context_spec(entries, &raag.avroha, t).unwrap()
    } else {
        w
    }
}

} // verus!
