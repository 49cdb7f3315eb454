use vstd::prelude::*;

use crate::error::MusicError;
use crate::pitch::{SwarTable, SwarTableEntry};
use crate::swar::Swar;
use crate::swarblock::{first_beat_with_pitch, first_match_from, last_beat_with_pitch,
    lemma_first_beat_with_pitch_props, lemma_last_beat_with_pitch_props, SwarBlock};
use crate::swarblocks::{adjacency_window, blocks_shift_to, blocks_shiftable, flat_beats, SwarBlocks};

verus! {

/// The scale span used for octave derivation: the first pitched beat
/// after the leading tonic, and the end of the span.  With a second
/// phrase the span runs from `start` in the first phrase to the last
/// pitched beat (found scanning back from its second-to-last position)
/// of the second; with a single phrase both ends lie in it.  This trims
/// the boundary tonic notes, which are shared across registers.
pub open spec fn trim_span(blocks: Seq<Seq<Seq<Swar>>>) -> Option<(int, int)> {
    if blocks.len() == 0 {
        None
    } else {
        match first_beat_with_pitch(blocks[0], 1, blocks[0].len() as int) {
            None => None,
            Some(start) => {
                if blocks.len() >= 2 {
                    match last_beat_with_pitch(blocks[1], 0, blocks[1].len() - 1) {
                        None => None,
                        Some(end) => Some((start, end)),
                    }
                } else {
                    match last_beat_with_pitch(blocks[0], 0, blocks[0].len() - 1) {
                        None => None,
                        Some(end) => if start < end {
                            Some((start, end))
                        } else {
                            None
                        },
                    }
                }
            },
        }
    }
}

/// The phrases of the derivation span: the first phrase from `start`,
/// plus (with a second phrase) its prefix up to `end`, or (with one
/// phrase) the single range `[start, end)`.
pub open spec fn trimmed_blocks(blocks: Seq<Seq<Seq<Swar>>>) -> Option<Seq<Seq<Seq<Swar>>>> {
    match trim_span(blocks) {
        None => None,
        Some((start, end)) => {
            if blocks.len() >= 2 {
                Some(seq![blocks[0].skip(start), blocks[1].take(end)])
            } else {
                Some(seq![blocks[0].subrange(start, end)])
            }
        },
    }
}

/// The context pool of a swar against a register: the adjacency window
/// around its first occurrence by frequency, if it occurs at all.
pub open spec fn context_in(
    entries: Seq<SwarTableEntry>,
    blocks: Seq<Seq<Seq<Swar>>>,
    sw: Swar,
) -> Option<Seq<Swar>> {
    match first_match_from(entries, flat_beats(blocks), sw, 0) {
        Some((i, j)) => Some(adjacency_window(flat_beats(blocks), i, j)),
        None => None,
    }
}

/// A context pool, when one exists, holds at least the matched swar
/// itself.
pub proof fn lemma_registers_context_nonempty(
    entries: Seq<SwarTableEntry>,
    first: Seq<Seq<Seq<Swar>>>,
    second: Seq<Seq<Seq<Swar>>>,
    third: Seq<Seq<Seq<Swar>>>,
    sw: Swar,
)
    ensures
        registers_context_spec(entries, first, second, third, sw) matches Some(w) ==> w.len() >= 1,
{
    lemma_context_in_nonempty(entries, first, sw);
    lemma_context_in_nonempty(entries, second, sw);
    lemma_context_in_nonempty(entries, third, sw);
}

proof fn lemma_context_in_nonempty(
    entries: Seq<SwarTableEntry>,
    blocks: Seq<Seq<Seq<Swar>>>,
    sw: Swar,
)
    ensures
        context_in(entries, blocks, sw) matches Some(w) ==> w.len() >= 1,
{
    if let Some((i, j)) = first_match_from(entries, flat_beats(blocks), sw, 0) {
        assert(adjacency_window(flat_beats(blocks), i, j).len() >= 1);
    }
}

/// An ascending scale with its two derived registers: the scale itself,
/// and the trimmed span shifted one octave down and one octave up.
#[derive(Debug, Clone)]
pub struct Aroha {
    pub aroha: SwarBlocks,
    pub lower: SwarBlocks,
    pub higher: SwarBlocks,
}

/// A descending scale with its two derived registers.
#[derive(Debug, Clone)]
pub struct Avroha {
    pub avroha: SwarBlocks,
    pub lower: SwarBlocks,
    pub higher: SwarBlocks,
}

/// Build the trimmed derivation span of a phrase group.
fn build_trimmed(blocks: &SwarBlocks) -> (r: Result<SwarBlocks, MusicError>)
    ensures
        match r {
            Ok(t) => trimmed_blocks(blocks@) == Some(t@),
            Err(e) => trimmed_blocks(blocks@) is None && e == MusicError::Structure,
        },
{
    if blocks.0.len() == 0 {
        return Err(MusicError::Structure);
    }
    let first = &blocks.0[0];
    let flen = first.len();
    let start = match first.next_index_with_swar(1, flen, true) {
        Some(s) => s,
        None => {
            return Err(MusicError::Structure);
        },
    };
    proof {
        lemma_first_beat_with_pitch_props(blocks@[0], 1, flen as int);
        assert(first@ == blocks@[0]);
    }
    if blocks.0.len() >= 2 {
        let second = &blocks.0[1];
        let slen = second.len();
        if slen == 0 {
            proof {
                assert(last_beat_with_pitch(blocks@[1], 0, blocks@[1].len() - 1) is None);
            }
            return Err(MusicError::Structure);
        }
        let end = match second.next_index_with_swar(0, slen - 1, false) {
            Some(e) => e,
            None => {
                return Err(MusicError::Structure);
            },
        };
        proof {
            lemma_last_beat_with_pitch_props(blocks@[1], 0, slen - 1);
            assert(second@ == blocks@[1]);
        }
        let mut first_beats: Vec<crate::swarbeat::SwarBeat> = Vec::new();
        let mut i = start;
        while i < flen
            invariant
                first == &blocks.0[0],
                first@ == blocks@[0],
                flen == first.0@.len(),
                start <= i <= flen,
                first_beats@.len() == i - start,
                forall|k: int| 0 <= k < i - start ==> #[trigger] first_beats@[k]@ == first@[start + k],
            decreases flen - i,
        {
            proof {
                assert(first@[i as int] == first.0@[i as int]@);
            }
            first_beats.push(first.0[i].clone());
            i = i + 1;
        }
        let mut second_beats: Vec<crate::swarbeat::SwarBeat> = Vec::new();
        let mut j: usize = 0;
        while j < end
            invariant
                second == &blocks.0[1],
                second@ == blocks@[1],
                end < second.0@.len(),
                j <= end,
                second_beats@.len() == j,
                forall|k: int| 0 <= k < j ==> #[trigger] second_beats@[k]@ == blocks@[1][k],
            decreases end - j,
        {
            proof {
                assert(blocks@[1][j as int] == second.0@[j as int]@);
            }
            second_beats.push(second.0[j].clone());
            j = j + 1;
        }
        let mut out: Vec<SwarBlock> = Vec::new();
        out.push(SwarBlock(first_beats));
        out.push(SwarBlock(second_beats));
        let r = SwarBlocks(out);
        proof {
            assert(r@[0] =~= blocks@[0].skip(start as int));
            assert(r@[1] =~= blocks@[1].take(end as int));
            assert(r@ =~= seq![blocks@[0].skip(start as int), blocks@[1].take(end as int)]);
        }
        Ok(r)
    } else {
        let end = match first.next_index_with_swar(0, flen - 1, false) {
            Some(e) => e,
            None => {
                return Err(MusicError::Structure);
            },
        };
        proof {
            lemma_last_beat_with_pitch_props(blocks@[0], 0, flen - 1);
        }
        if start >= end {
            return Err(MusicError::Structure);
        }
        let mut beats: Vec<crate::swarbeat::SwarBeat> = Vec::new();
        let mut i = start;
        while i < end
            invariant
                first == &blocks.0[0],
                first@ == blocks@[0],
                end < first.0@.len(),
                start <= i <= end,
                beats@.len() == i - start,
                forall|k: int| 0 <= k < i - start ==> #[trigger] beats@[k]@ == blocks@[0][start + k],
            decreases end - i,
        {
            proof {
                assert(blocks@[0][i as int] == first.0@[i as int]@);
            }
            beats.push(first.0[i].clone());
            i = i + 1;
        }
        let mut out: Vec<SwarBlock> = Vec::new();
        out.push(SwarBlock(beats));
        let r = SwarBlocks(out);
        proof {
            assert(r@[0] =~= blocks@[0].subrange(start as int, end as int));
            assert(r@ =~= seq![blocks@[0].subrange(start as int, end as int)]);
        }
        Ok(r)
    }
}

impl Aroha {
    /// Build an ascending scale with its lower- and higher-octave
    /// equivalents, derived once here from the trimmed span.  Fails
    /// explicitly when the scale has no valid derivation span or a pitch
    /// has no equivalent in a neighbouring octave.
    pub fn new(aroha: SwarBlocks) -> (r: Result<Aroha, MusicError>)
        ensures
            match r {
                Ok(a) => a.aroha@ == aroha@ && (trimmed_blocks(aroha@) matches Some(t)
                    && blocks_shift_to(t, a.lower@, false) && blocks_shift_to(t, a.higher@, true)),
                Err(e) => (e == MusicError::Structure && trimmed_blocks(aroha@) is None) || (e
                    == MusicError::Lookup && (trimmed_blocks(aroha@) matches Some(t)
                    && (!blocks_shiftable(t, false) || !blocks_shiftable(t, true)))),
            },
    {
        let trimmed = build_trimmed(&aroha)?;
        let lower = match trimmed.shift(false) {
            Some(l) => l,
            None => {
                return Err(MusicError::Lookup);
            },
        };
        let higher = match trimmed.shift(true) {
            Some(h) => h,
            None => {
                return Err(MusicError::Lookup);
            },
        };
        Ok(Aroha { aroha, lower, higher })
    }

    /// The scale itself.
    pub fn aroha(&self) -> (r: &SwarBlocks)
        ensures
            r == &self.aroha,
    {
        &self.aroha
    }

    /// The derived lower-octave span.
    pub fn lower(&self) -> (r: &SwarBlocks)
        ensures
            r == &self.lower,
    {
        &self.lower
    }

    /// The derived higher-octave span.
    pub fn higher(&self) -> (r: &SwarBlocks)
        ensures
            r == &self.higher,
    {
        &self.higher
    }

    /// The scale degrees over all three registers in ascending order:
    /// lower, then middle, then higher.
    pub fn swars_in_all_octaves(&self) -> (r: Vec<Swar>)
        ensures
            r@ == flat_beats(self.lower@).flatten() + flat_beats(self.aroha@).flatten()
                + flat_beats(self.higher@).flatten(),
    {
        let mut out = self.lower.to_swars();
        let mut mid = self.aroha.to_swars();
        let mut high = self.higher.to_swars();
        out.append(&mut mid);
        out.append(&mut high);
        out
    }

    /// The candidate pool for a swar: its adjacency window in the first
    /// register (searched lower, middle, higher) where it occurs.
    pub fn swars_by_context(&self, swar: &Swar, table: &SwarTable) -> (r: Option<Vec<Swar>>)
        requires
            flat_beats(self.lower@).len() <= usize::MAX,
            flat_beats(self.aroha@).len() <= usize::MAX,
            flat_beats(self.higher@).len() <= usize::MAX,
        ensures
            r matches Some(w) ==> aroha_context_spec(table.entries@, self, *swar) == Some(w@),
            r is None ==> aroha_context_spec(table.entries@, self, *swar) is None,
    {
        context_pool(&self.lower, &self.aroha, &self.higher, swar, table)
    }
}

/// The pool an ascending scale offers a swar: its context in the first
/// of lower, middle, higher register that contains it.
pub open spec fn aroha_context_spec(
    entries: Seq<SwarTableEntry>,
    a: &Aroha,
    sw: Swar,
) -> Option<Seq<Swar>> {
    registers_context_spec(entries, a.lower@, a.aroha@, a.higher@, sw)
}

/// The pool a descending scale offers a swar: its context in the first
/// of higher, middle, lower register that contains it.
pub open spec fn avroha_context_spec(
    entries: Seq<SwarTableEntry>,
    a: &Avroha,
    sw: Swar,
) -> Option<Seq<Swar>> {
    registers_context_spec(entries, a.higher@, a.avroha@, a.lower@, sw)
}

/// The context of `sw` in the first of three registers that contains a
/// swar of the same frequency.
pub open spec fn registers_context_spec(
    entries: Seq<SwarTableEntry>,
    first: Seq<Seq<Seq<Swar>>>,
    second: Seq<Seq<Seq<Swar>>>,
    third: Seq<Seq<Seq<Swar>>>,
    sw: Swar,
) -> Option<Seq<Swar>> {
    match context_in(entries, first, sw) {
        Some(w) => Some(w),
        None => match context_in(entries, second, sw) {
            Some(w) => Some(w),
            None => context_in(entries, third, sw),
        },
    }
}

/// Find the adjacency context of `swar` in the first of the three
/// registers that contains its frequency.
fn context_pool(
    first: &SwarBlocks,
    second: &SwarBlocks,
    third: &SwarBlocks,
    swar: &Swar,
    table: &SwarTable,
) -> (r: Option<Vec<Swar>>)
    requires
        flat_beats(first@).len() <= usize::MAX,
        flat_beats(second@).len() <= usize::MAX,
        flat_beats(third@).len() <= usize::MAX,
    ensures
        r matches Some(w) ==> registers_context_spec(table.entries@, first@, second@, third@, *swar)
            == Some(w@),
        r is None ==> registers_context_spec(table.entries@, first@, second@, third@, *swar) is None,
{
    match context_in_blocks(first, swar, table) {
        Some(w) => Some(w),
        None => match context_in_blocks(second, swar, table) {
            Some(w) => Some(w),
            None => context_in_blocks(third, swar, table),
        },
    }
}

/// The adjacency context of `swar` in one register, if it occurs there.
fn context_in_blocks(blocks: &SwarBlocks, swar: &Swar, table: &SwarTable) -> (r: Option<Vec<Swar>>)
    requires
        flat_beats(blocks@).len() <= usize::MAX,
    ensures
        r matches Some(w) ==> context_in(table.entries@, blocks@, *swar) == Some(w@),
        r is None ==> context_in(table.entries@, blocks@, *swar) is None,
{
    match blocks.index_swar(swar, table) {
        Some(ix) => {
            proof {
                crate::swarblock::lemma_first_match_props(
                    table.entries@,
                    flat_beats(blocks@),
                    *swar,
                    0,
                );
            }
            blocks.adjacent_swars(&ix)
        },
        None => None,
    }
}

impl Avroha {
    /// Build a descending scale with its lower- and higher-octave
    /// equivalents, derived once here from the trimmed span.
    pub fn new(avroha: SwarBlocks) -> (r: Result<Avroha, MusicError>)
        ensures
            match r {
                Ok(a) => a.avroha@ == avroha@ && (trimmed_blocks(avroha@) matches Some(t)
                    && blocks_shift_to(t, a.lower@, false) && blocks_shift_to(t, a.higher@, true)),
                Err(e) => (e == MusicError::Structure && trimmed_blocks(avroha@) is None) || (e
                    == MusicError::Lookup && (trimmed_blocks(avroha@) matches Some(t)
                    && (!blocks_shiftable(t, false) || !blocks_shiftable(t, true)))),
            },
    {
        let trimmed = build_trimmed(&avroha)?;
        let lower = match trimmed.shift(false) {
            Some(l) => l,
            None => {
                return Err(MusicError::Lookup);
            },
        };
        let higher = match trimmed.shift(true) {
            Some(h) => h,
            None => {
                return Err(MusicError::Lookup);
            },
        };
        Ok(Avroha { avroha, lower, higher })
    }

    /// The scale itself.
    pub fn avroha(&self) -> (r: &SwarBlocks)
        ensures
            r == &self.avroha,
    {
        &self.avroha
    }

    /// The derived lower-octave span.
    pub fn lower(&self) -> (r: &SwarBlocks)
        ensures
            r == &self.lower,
    {
        &self.lower
    }

    /// The derived higher-octave span.
    pub fn higher(&self) -> (r: &SwarBlocks)
        ensures
            r == &self.higher,
    {
        &self.higher
    }

    /// The scale degrees over all three registers in descending order:
    /// higher, then middle, then lower.
    pub fn swars_in_all_octaves(&self) -> (r: Vec<Swar>)
        ensures
            r@ == flat_beats(self.higher@).flatten() + flat_beats(self.avroha@).flatten()
                + flat_beats(self.lower@).flatten(),
    {
        let mut out = self.higher.to_swars();
        let mut mid = self.avroha.to_swars();
        let mut low = self.lower.to_swars();
        out.append(&mut mid);
        out.append(&mut low);
        out
    }

    /// All three registers as one phrase group, highest first.
    pub fn all_octaves(&self) -> (r: SwarBlocks)
        ensures
            r@ == self.higher@ + self.avroha@ + self.lower@,
    {
        let mut out: Vec<SwarBlock> = Vec::new();
        let mut h = self.higher.clone();
        let mut m = self.avroha.clone();
        let mut l = self.lower.clone();
        out.append(&mut h.0);
        out.append(&mut m.0);
        out.append(&mut l.0);
        let r = SwarBlocks(out);
        proof {
            assert(r@ =~= self.higher@ + self.avroha@ + self.lower@);
        }
        r
    }

    /// The candidate pool for a swar: its adjacency window in the first
    /// register (searched higher, middle, lower) where it occurs.
    pub fn swars_by_context(&self, swar: &Swar, table: &SwarTable) -> (r: Option<Vec<Swar>>)
        requires
            flat_beats(self.lower@).len() <= usize::MAX,
            flat_beats(self.avroha@).len() <= usize::MAX,
            flat_beats(self.higher@).len() <= usize::MAX,
        ensures
            r matches Some(w) ==> avroha_context_spec(table.entries@, self, *swar) == Some(w@),
            r is None ==> avroha_context_spec(table.entries@, self, *swar) is None,
    {
        context_pool(&self.higher, &self.avroha, &self.lower, swar, table)
    }
}

} // verus!
