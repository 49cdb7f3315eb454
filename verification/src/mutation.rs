use vstd::prelude::*;

use crate::randomness::{rand_below, rand_bool};
use crate::swar::Swar;
use crate::swarbeat::SwarBeat;
use crate::swarblock::SwarInSwarBlock;
use crate::swarblocks::{flat_beats, SwarBlocks};

verus! {

/// Which aspect of a phrase group a mutation changes.
#[derive(Clone, Copy, Debug, PartialEq, Eq, Structural)]
pub enum SwarBlockMutationType {
    BySwar,
    ByDuration,
}

/// The five mutation operators.  `Replace` substitutes the target's
/// pitch; `IncBeat` and `DecBeat` substitute with a changed duration;
/// `ShareBeat` and `KanSwar` split a whole-beat slot into two swars,
/// as equal halves or as a grace-note pair.
#[derive(Clone, Copy, Debug, PartialEq, Eq, Structural)]
pub enum MutationOperatorKind {
    Replace,
    IncBeat,
    DecBeat,
    ShareBeat,
    KanSwar,
}

/// The target swar overwritten with the candidate's pitch, duration
/// unchanged.
pub open spec fn replace_pitch_spec(beats: Seq<Seq<Swar>>, i: int, j: int, c: Swar) -> Seq<
    Seq<Swar>,
> {
    beats.update(i, beats[i].update(j, Swar { pitch: c.pitch, beat_units: beats[i][j].beat_units }))
}

/// The effect of one mutation operator at position `(i, j)`, with drawn
/// candidates `c1` and `c2` and the drawn left/right order.  A split
/// operator applies only to a single-swar beat; elsewhere it falls back
/// to `Replace` so the beat subdivision stays valid.
pub open spec fn apply_operator_spec(
    beats: Seq<Seq<Swar>>,
    i: int,
    j: int,
    op: MutationOperatorKind,
    c1: Swar,
    c2: Swar,
    first_left: bool,
) -> Seq<Seq<Swar>> {
    let x = if first_left {
        c1
    } else {
        c2
    };
    let y = if first_left {
        c2
    } else {
        c1
    };
    match op {
        MutationOperatorKind::Replace => replace_pitch_spec(beats, i, j, c1),
        MutationOperatorKind::IncBeat => beats.update(
            i,
            beats[i].update(j, Swar { pitch: c1.pitch, beat_units: (c1.beat_units + 20) as u32 }),
        ),
        MutationOperatorKind::DecBeat => {
            let u = if c1.beat_units >= 20 {
                c1.beat_units / 2
            } else {
                c1.beat_units
            };
            beats.update(i, beats[i].update(j, Swar { pitch: c1.pitch, beat_units: u }))
        },
        MutationOperatorKind::ShareBeat => {
            if beats[i].len() == 1 {
                beats.update(
                    i,
                    seq![
                        Swar { pitch: x.pitch, beat_units: 10 },
                        Swar { pitch: y.pitch, beat_units: 10 },
                    ],
                )
            } else {
                replace_pitch_spec(beats, i, j, c1)
            }
        },
        MutationOperatorKind::KanSwar => {
            if beats[i].len() == 1 {
                beats.update(
                    i,
                    seq![
                        Swar { pitch: x.pitch, beat_units: 4 },
                        Swar { pitch: y.pitch, beat_units: 16 },
                    ],
                )
            } else {
                replace_pitch_spec(beats, i, j, c1)
            }
        },
    }
}

/// A successful mutation of `src` into `out`: some valid target
/// position, operator, pair of candidates from `pool` and order produced
/// it.
pub open spec fn mutated_from(
    src: Seq<Seq<Seq<Swar>>>,
    out: Seq<Seq<Seq<Swar>>>,
    pool: Seq<Swar>,
    ix: SwarInSwarBlock,
) -> bool {
    exists|op: MutationOperatorKind, c1: Swar, c2: Swar, fl: bool|
        pool.contains(c1) && pool.contains(c2) && ix.swarbeat_index < flat_beats(src).len()
            && ix.swar_index < flat_beats(src)[ix.swarbeat_index as int].len() && flat_beats(out)
            == #[trigger] apply_operator_spec(
            flat_beats(src),
            ix.swarbeat_index as int,
            ix.swar_index as int,
            op,
            c1,
            c2,
            fl,
        )
}

impl SwarBlocks {
    /// Apply one operator deterministically to a copy of the phrase
    /// group.
    pub fn apply_mutation(
        &self,
        ix: &SwarInSwarBlock,
        op: MutationOperatorKind,
        c1: &Swar,
        c2: &Swar,
        first_left: bool,
    ) -> (r: SwarBlocks)
        requires
            ix.swarbeat_index < flat_beats(self@).len(),
            ix.swar_index < flat_beats(self@)[ix.swarbeat_index as int].len(),
            op == MutationOperatorKind::IncBeat ==> c1.beat_units + 20 <= u32::MAX,
        ensures
            flat_beats(r@) == apply_operator_spec(
                flat_beats(self@),
                ix.swarbeat_index as int,
                ix.swar_index as int,
                op,
                *c1,
                *c2,
                first_left,
            ),
            r@.len() == self@.len(),
            forall|b: int| 0 <= b < self@.len() ==> (#[trigger] r@[b]).len() == self@[b].len(),
    {
        let mut out = self.clone();
        let i = ix.swarbeat_index;
        let j = ix.swar_index;
        let beat = self.get_swarbeat_at(i);
        let target_units = beat.swars[j].beat_count();
        let single = beat.len() == 1;
        match op {
            MutationOperatorKind::Replace => {
                out.replace_swar(ix, Swar { pitch: c1.pitch(), beat_units: target_units });
            },
            MutationOperatorKind::IncBeat => {
                out.replace_swar(ix, Swar { pitch: c1.pitch(), beat_units: c1.beat_count() + 20 });
            },
            MutationOperatorKind::DecBeat => {
                let u = if c1.beat_count() >= 20 {
                    c1.beat_count() / 2
                } else {
                    c1.beat_count()
                };
                out.replace_swar(ix, Swar { pitch: c1.pitch(), beat_units: u });
            },
            MutationOperatorKind::ShareBeat => {
                if single {
                    let (x, y) = if first_left {
                        (c1, c2)
                    } else {
                        (c2, c1)
                    };
                    let mut v: Vec<Swar> = Vec::new();
                    v.push(Swar { pitch: x.pitch(), beat_units: 10 });
                    v.push(Swar { pitch: y.pitch(), beat_units: 10 });
                    let ghost bv = v@;
                    out.set_swarbeat_at(i, SwarBeat::new(v));
                    proof {
                        assert(bv =~= seq![
                            Swar { pitch: if first_left { c1.pitch } else { c2.pitch }, beat_units: 10 },
                            Swar { pitch: if first_left { c2.pitch } else { c1.pitch }, beat_units: 10 },
                        ]);
                    }
                } else {
                    out.replace_swar(ix, Swar { pitch: c1.pitch(), beat_units: target_units });
                }
            },
            MutationOperatorKind::KanSwar => {
                if single {
                    let (x, y) = if first_left {
                        (c1, c2)
                    } else {
                        (c2, c1)
                    };
                    let mut v: Vec<Swar> = Vec::new();
                    v.push(Swar { pitch: x.pitch(), beat_units: 4 });
                    v.push(Swar { pitch: y.pitch(), beat_units: 16 });
                    let ghost bv = v@;
                    out.set_swarbeat_at(i, SwarBeat::new(v));
                    proof {
                        assert(bv =~= seq![
                            Swar { pitch: if first_left { c1.pitch } else { c2.pitch }, beat_units: 4 },
                            Swar { pitch: if first_left { c2.pitch } else { c1.pitch }, beat_units: 16 },
                        ]);
                    }
                } else {
                    out.replace_swar(ix, Swar { pitch: c1.pitch(), beat_units: target_units });
                }
            },
        }
        out
    }

    /// Mutate the swar at `ix` with one uniformly drawn operator and
    /// candidates drawn uniformly from `from`, on a copy of the phrase
    /// group.  Returns `None`, never a disguised clone, when there is
    /// no candidate pool or no valid target.
    pub fn mutate_swar(&self, ix: &SwarInSwarBlock, from: &Vec<Swar>) -> (r: Option<SwarBlocks>)
        requires
            flat_beats(self@).len() <= usize::MAX,
        ensures
            r matches Some(m) ==> mutated_from(self@, m@, from@, *ix) && m@.len() == self@.len()
                && (forall|b: int| 0 <= b < self@.len() ==> (#[trigger] m@[b]).len() == self@[b].len()),
            r is None ==> from@.len() == 0 || !(ix.swarbeat_index < flat_beats(self@).len()
                && ix.swar_index < flat_beats(self@)[ix.swarbeat_index as int].len()) || exists|c: Swar|
                from@.contains(c) && c.beat_units > u32::MAX - 20,
    {
        if from.len() == 0 {
            return None;
        }
        let n = self.flat_len();
        if ix.swarbeat_index >= n {
            return None;
        }
        if ix.swar_index >= self.get_swarbeat_at(ix.swarbeat_index).len() {
            return None;
        }
        let k1 = rand_below(from.len());
        let k2 = rand_below(from.len());
        let c1 = from[k1].clone();
        let c2 = from[k2].clone();
        proof {
            assert(from@.contains(from@[k1 as int]));
            assert(from@.contains(from@[k2 as int]));
        }
        let opn = rand_below(5);
        let op = if opn == 0 {
            MutationOperatorKind::Replace
        } else if opn == 1 {
            MutationOperatorKind::IncBeat
        } else if opn == 2 {
            MutationOperatorKind::DecBeat
        } else if opn == 3 {
            MutationOperatorKind::ShareBeat
        } else {
            MutationOperatorKind::KanSwar
        };
        if op == MutationOperatorKind::IncBeat && c1.beat_count() > u32::MAX - 20 {
            return None;
        }
        let first_left = rand_bool();
        let out = self.apply_mutation(ix, op, &c1, &c2, first_left);
        proof {
            assert(mutated_from(self@, out@, from@, *ix)) by {
                assert(flat_beats(out@) == apply_operator_spec(
                    flat_beats(self@),
                    ix.swarbeat_index as int,
                    ix.swar_index as int,
                    op,
                    c1,
                    c2,
                    first_left,
                ));
            }
        }
        Some(out)
    }

    /// Mutate with a candidate pool: the engine's single entry point for
    /// one mutation step.
    pub fn mutate(&self, ix: &SwarInSwarBlock, from: &Vec<Swar>) -> (r: Option<SwarBlocks>)
        requires
            flat_beats(self@).len() <= usize::MAX,
        ensures
            r matches Some(m) ==> mutated_from(self@, m@, from@, *ix) && m@.len() == self@.len()
                && (forall|b: int| 0 <= b < self@.len() ==> (#[trigger] m@[b]).len() == self@[b].len()),
            r is None ==> from@.len() == 0 || !(ix.swarbeat_index < flat_beats(self@).len()
                && ix.swar_index < flat_beats(self@)[ix.swarbeat_index as int].len()) || exists|c: Swar|
                from@.contains(c) && c.beat_units > u32::MAX - 20,
    {
        self.mutate_swar(ix, from)
    }
}

} // verus!
