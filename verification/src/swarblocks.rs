use vstd::prelude::*;

use crate::pitch::{SwarTable, SwarTableEntry};
use crate::randomness::rand_below;
use crate::swar::Swar;
use crate::swarbeat::{first_pitched_at_or_after, last_pitched_at_or_before, swars_shift_to, swars_shiftable, SwarBeat};
use crate::swarblock::{first_match_from, find_match_in_swars, SwarBlock, SwarInSwarBlock};

verus! {

/// The nearest pitched swar at or before position `(i, j)`, scanning the
/// current beat backward and then whole prior beats; empty continuation
/// beats are skipped.  A `j` past the end of beat `i` means its last swar.
pub open spec fn prev_pitched(beats: Seq<Seq<Swar>>, i: int, j: int) -> Option<(int, int)> {
    if i < 0 || i >= beats.len() {
        None
    } else {
        let jj = if j >= beats[i].len() { beats[i].len() - 1 } else { j };
        match last_pitched_at_or_before(beats[i], jj) {
            Some(k) => Some((i, k)),
            None => prev_pitched_from_beat(beats, i - 1),
        }
    }
}

/// The nearest pitched swar in beat `i` or any earlier beat, scanning
/// each beat from its right end.
pub open spec fn prev_pitched_from_beat(beats: Seq<Seq<Swar>>, i: int) -> Option<(int, int)>
    decreases i + 1,
{
    if i < 0 || i >= beats.len() {
        None
    } else {
        match last_pitched_at_or_before(beats[i], beats[i].len() - 1) {
            Some(k) => Some((i, k)),
            None => prev_pitched_from_beat(beats, i - 1),
        }
    }
}

/// The nearest pitched swar at or after position `(i, j)`, scanning the
/// current beat forward and then whole later beats.
pub open spec fn next_pitched(beats: Seq<Seq<Swar>>, i: int, j: int) -> Option<(int, int)> {
    if i < 0 || i >= beats.len() {
        None
    } else {
        match first_pitched_at_or_after(beats[i], j) {
            Some(k) => Some((i, k)),
            None => next_pitched_from_beat(beats, i + 1),
        }
    }
}

/// The nearest pitched swar in beat `i` or any later beat, scanning each
/// beat from its left end.
pub open spec fn next_pitched_from_beat(beats: Seq<Seq<Swar>>, i: int) -> Option<(int, int)>
    decreases beats.len() - i,
{
    if i < 0 || i >= beats.len() {
        None
    } else {
        match first_pitched_at_or_after(beats[i], 0) {
            Some(k) => Some((i, k)),
            None => next_pitched_from_beat(beats, i + 1),
        }
    }
}

/// The position a backward beat scan returns is a valid pitched position
/// at or before beat `i`.
pub proof fn lemma_prev_pitched_from_beat_props(beats: Seq<Seq<Swar>>, i: int)
    ensures
        match prev_pitched_from_beat(beats, i) {
            Some((a, b)) => 0 <= a < beats.len() && a <= i && 0 <= b < beats[a].len() && beats[a][b].pitch is Some,
            None => true,
        },
    decreases i + 1,
{
    if !(i < 0 || i >= beats.len()) {
        crate::swarbeat::lemma_last_pitched_props(beats[i], beats[i].len() - 1);
        if last_pitched_at_or_before(beats[i], beats[i].len() - 1) is None {
            lemma_prev_pitched_from_beat_props(beats, i - 1);
        }
    }
}

/// The position a backward scan returns is a valid pitched position.
pub proof fn lemma_prev_pitched_props(beats: Seq<Seq<Swar>>, i: int, j: int)
    ensures
        match prev_pitched(beats, i, j) {
            Some((a, b)) => 0 <= a < beats.len() && a <= i && 0 <= b < beats[a].len() && beats[a][b].pitch is Some,
            None => true,
        },
{
    if !(i < 0 || i >= beats.len()) {
        let jj = if j >= beats[i].len() { beats[i].len() - 1 } else { j };
        crate::swarbeat::lemma_last_pitched_props(beats[i], jj);
        if last_pitched_at_or_before(beats[i], jj) is None {
            lemma_prev_pitched_from_beat_props(beats, i - 1);
        }
    }
}

/// The position a forward beat scan returns is a valid pitched position
/// at or after beat `i`.
pub proof fn lemma_next_pitched_from_beat_props(beats: Seq<Seq<Swar>>, i: int)
    ensures
        match next_pitched_from_beat(beats, i) {
            Some((a, b)) => 0 <= a < beats.len() && i <= a && 0 <= b < beats[a].len() && beats[a][b].pitch is Some,
            None => true,
        },
    decreases beats.len() - i,
{
    if !(i < 0 || i >= beats.len()) {
        crate::swarbeat::lemma_first_pitched_props(beats[i], 0);
        if first_pitched_at_or_after(beats[i], 0) is None {
            lemma_next_pitched_from_beat_props(beats, i + 1);
        }
    }
}

/// The position a forward scan returns is a valid pitched position.
pub proof fn lemma_next_pitched_props(beats: Seq<Seq<Swar>>, i: int, j: int)
    requires
        0 <= j,
    ensures
        match next_pitched(beats, i, j) {
            Some((a, b)) => 0 <= a < beats.len() && i <= a && 0 <= b < beats[a].len() && beats[a][b].pitch is Some,
            None => true,
        },
{
    if !(i < 0 || i >= beats.len()) {
        crate::swarbeat::lemma_first_pitched_props(beats[i], j);
        if first_pitched_at_or_after(beats[i], j) is None {
            lemma_next_pitched_from_beat_props(beats, i + 1);
        }
    }
}

/// The 1-3 swar context window around position `(i, j)`: the nearest
/// pitched swar before it (if any), the swar itself, and the nearest
/// pitched swar after it (if any).  A missing neighbour is not padded.
pub open spec fn adjacency_window(beats: Seq<Seq<Swar>>, i: int, j: int) -> Seq<Swar> {
    let prev = if j == 0 {
        prev_pitched_from_beat(beats, i - 1)
    } else {
        prev_pitched(beats, i, j - 1)
    };
    let next = next_pitched(beats, i, j + 1);
    let before = match prev {
        Some((a, b)) => seq![beats[a][b]],
        None => Seq::<Swar>::empty(),
    };
    let after = match next {
        Some((a, b)) => seq![beats[a][b]],
        None => Seq::<Swar>::empty(),
    };
    before + seq![beats[i][j]] + after
}

/// `b` is `a` with every beat's every swar moved one octave.
pub open spec fn beats_shift_to(a: Seq<Seq<Swar>>, b: Seq<Seq<Swar>>, up: bool) -> bool {
    b.len() == a.len() && forall|j: int| 0 <= j < a.len() ==> swars_shift_to(a[j], #[trigger] b[j], up)
}

/// `b` is the phrase group `a` shifted one octave.
pub open spec fn blocks_shift_to(
    a: Seq<Seq<Seq<Swar>>>,
    b: Seq<Seq<Seq<Swar>>>,
    up: bool,
) -> bool {
    b.len() == a.len() && forall|i: int| 0 <= i < a.len() ==> beats_shift_to(a[i], #[trigger] b[i], up)
}

/// Every swar of every beat has an equivalent one octave away.
pub open spec fn beats_shiftable(a: Seq<Seq<Swar>>, up: bool) -> bool {
    forall|j: int| 0 <= j < a.len() ==> swars_shiftable(#[trigger] a[j], up)
}

/// Every swar of the phrase group has an equivalent one octave away.
pub open spec fn blocks_shiftable(a: Seq<Seq<Seq<Swar>>>, up: bool) -> bool {
    forall|i: int| 0 <= i < a.len() ==> beats_shiftable(#[trigger] a[i], up)
}

/// A phrase group: an ordered sequence of phrases.  Beat positions are
/// counted over all phrases in order (the flattened beat sequence), which
/// is the addressing the adjacency queries and the mutation engine use.
#[derive(Debug)]
pub struct SwarBlocks(pub Vec<SwarBlock>);

impl View for SwarBlocks {
    type V = Seq<Seq<Seq<Swar>>>;

    open spec fn view(&self) -> Seq<Seq<Seq<Swar>>> {
        self.0@.map_values(|b: SwarBlock| b@)
    }
}

/// The beats of a phrase group in playing order, with phrase boundaries
/// dissolved.
pub open spec fn flat_beats(blocks: Seq<Seq<Seq<Swar>>>) -> Seq<Seq<Swar>> {
    blocks.flatten()
}

/// Splitting a sequence of sequences anywhere splits its flattening.
proof fn lemma_flatten_split<A>(bv: Seq<Seq<A>>, b: int)
    requires
        0 <= b <= bv.len(),
    ensures
        bv.flatten() == bv.take(b).flatten() + bv.skip(b).flatten(),
{
    assert(bv.take(b) + bv.skip(b) =~= bv);
    vstd::seq_lib::lemma_flatten_concat(bv.take(b), bv.skip(b));
}

/// The element of a flattening at offset `j` inside segment `b`.
proof fn lemma_flatten_index<A>(bv: Seq<Seq<A>>, b: int, j: int)
    requires
        0 <= b < bv.len(),
        0 <= j < bv[b].len(),
    ensures
        0 <= bv.take(b).flatten().len() + j < bv.flatten().len(),
        bv.flatten()[bv.take(b).flatten().len() + j] == bv[b][j],
{
    lemma_flatten_split(bv, b);
    assert(bv.skip(b)[0] == bv[b]);
    assert(bv.skip(b).drop_first() =~= bv.skip(b + 1));
    assert(bv.skip(b).flatten() == bv[b] + bv.skip(b + 1).flatten());
    assert(bv.flatten().len() == bv.take(b).flatten().len() + bv[b].len() + bv.skip(b + 1).flatten().len());
    assert(bv.flatten()[bv.take(b).flatten().len() + j] == bv.skip(b).flatten()[j]);
}

/// Updating one inner element updates the flattening at the matching
/// flat position.
proof fn lemma_flatten_update<A>(bv: Seq<Seq<A>>, b: int, nb: Seq<A>)
    requires
        0 <= b < bv.len(),
        nb.len() == bv[b].len(),
    ensures
        bv.update(b, nb).flatten().len() == bv.flatten().len(),
        forall|k: int|
            flat_offset_gen(bv, b) <= k < flat_offset_gen(bv, b) + nb.len()
                ==> #[trigger] bv.update(b, nb).flatten()[k] == nb[k - flat_offset_gen(bv, b)],
        forall|k: int|
            flat_offset_gen(bv, b) <= k < flat_offset_gen(bv, b) + nb.len()
                ==> #[trigger] bv.flatten()[k] == bv[b][k - flat_offset_gen(bv, b)],
        forall|k: int|
            0 <= k < bv.flatten().len() && !(flat_offset_gen(bv, b) <= k < flat_offset_gen(bv, b)
                + nb.len()) ==> bv.update(b, nb).flatten()[k] == bv.flatten()[k],
{
    let upd = bv.update(b, nb);
    let offset = flat_offset_gen(bv, b);
    lemma_flatten_split(bv, b);
    lemma_flatten_split(upd, b);
    assert(upd.take(b) =~= bv.take(b));
    assert(bv.skip(b)[0] == bv[b]);
    assert(bv.skip(b).drop_first() =~= bv.skip(b + 1));
    assert(bv.skip(b).flatten() == bv[b] + bv.skip(b + 1).flatten());
    assert(upd.skip(b)[0] == nb);
    assert(upd.skip(b).drop_first() =~= bv.skip(b + 1));
    assert(upd.skip(b).flatten() == nb + bv.skip(b + 1).flatten());
    assert forall|k: int| offset <= k < offset + nb.len() implies #[trigger] upd.flatten()[k] == nb[k - offset] by {
        assert(upd.flatten()[k] == upd.skip(b).flatten()[k - offset]);
        assert(upd.skip(b).flatten()[k - offset] == nb[k - offset]);
    }
    assert forall|k: int| offset <= k < offset + nb.len() implies #[trigger] bv.flatten()[k] == bv[b][k - offset] by {
        assert(bv.flatten()[k] == bv.skip(b).flatten()[k - offset]);
        assert(bv.skip(b).flatten()[k - offset] == bv[b][k - offset]);
    }
    assert forall|k: int|
        0 <= k < bv.flatten().len() && !(offset <= k < offset + nb.len()) implies bv.update(
        b,
        nb,
    ).flatten()[k] == bv.flatten()[k] by {
        if k < offset {
            assert(upd.flatten()[k] == upd.take(b).flatten()[k]);
            assert(bv.flatten()[k] == bv.take(b).flatten()[k]);
        } else {
            assert(upd.flatten()[k] == upd.skip(b).flatten()[k - offset]);
            assert(upd.skip(b).flatten()[k - offset] == bv.skip(b + 1).flatten()[k - offset
                - nb.len()]);
            assert(bv.flatten()[k] == bv.skip(b).flatten()[k - offset]);
            assert(bv.skip(b).flatten()[k - offset] == bv.skip(b + 1).flatten()[k - offset
                - nb.len()]);
        }
    }
}

/// `flat_offset` generalized to any element type.
pub open spec fn flat_offset_gen<A>(bv: Seq<Seq<A>>, b: int) -> int {
    bv.take(b).flatten().len() as int
}

impl Clone for SwarBlocks {
    fn clone(&self) -> (r: SwarBlocks)
        ensures
            r@ == self@,
    {
        let mut blocks: Vec<SwarBlock> = Vec::new();
        let n = self.0.len();
        for i in 0..n
            invariant
                n == self.0@.len(),
                blocks@.len() == i,
                forall|k: int| 0 <= k < i ==> #[trigger] blocks@[k]@ == self.0@[k]@,
        {
            blocks.push(self.0[i].clone());
        }
        let r = SwarBlocks(blocks);
        proof {
            assert(r@ =~= self@);
        }
        r
    }
}

impl SwarBlocks {
    /// The number of beats over all phrases.
    pub fn flat_len(&self) -> (n: usize)
        requires
            flat_beats(self@).len() <= usize::MAX,
        ensures
            n == flat_beats(self@).len(),
    {
        let mut total: usize = 0;
        let nb = self.0.len();
        proof {
            assert(self@.take(0).flatten() =~= Seq::<Seq<Swar>>::empty());
        }
        for b in 0..nb
            invariant
                nb == self.0@.len(),
                flat_beats(self@).len() <= usize::MAX,
                total == self@.take(b as int).flatten().len(),
        decreases nb - b,
        {
            proof {
                Seq::lemma_flatten_push(self@.take(b as int), self@[b as int]);
                assert(self@.take(b as int).push(self@[b as int]) =~= self@.take(b + 1));
                lemma_flatten_split(self@, b + 1);
            }
            let len_b = self.0[b].len();
            proof {
                assert(self@[b as int] == self.0@[b as int]@);
                assert(self@.take(b + 1).flatten().len() <= self@.flatten().len());
            }
            total = total + len_b;
        }
        proof {
            assert(self@.take(nb as int) =~= self@);
        }
        total
    }

    /// The beat at flat position `index`.
    pub fn get_swarbeat_at(&self, index: usize) -> (r: &SwarBeat)
        requires
            index < flat_beats(self@).len(),
        ensures
            r@ == flat_beats(self@)[index as int],
    {
        let nblocks = self.0.len();
        let mut b: usize = 0;
        let mut off: usize = index;
        proof {
            assert(self@.take(0).flatten() =~= Seq::<Seq<Swar>>::empty());
        }
        loop
            invariant
                index < flat_beats(self@).len(),
                nblocks == self.0@.len(),
                b <= nblocks,
                off <= index,
                index - off == self@.take(b as int).flatten().len(),
            decreases self.0@.len() - b,
        {
            proof {
                lemma_flatten_split(self@, b as int);
                if b == self.0@.len() {
                    assert(self@.skip(b as int).flatten() =~= Seq::<Seq<Swar>>::empty());
                    assert(false);
                }
                assert(b < self.0@.len());
            }
            let len_b = self.0[b].0.len();
            if off < len_b {
                proof {
                    assert(self@[b as int] == self.0@[b as int]@);
                    lemma_flatten_index(self@, b as int, off as int);
                    assert(self.0@[b as int]@[off as int] == self.0@[b as int].0@[off as int]@);
                }
                return &self.0[b].0[off];
            }
            proof {
                Seq::lemma_flatten_push(self@.take(b as int), self@[b as int]);
                assert(self@.take(b as int).push(self@[b as int]) =~= self@.take(b + 1));
                assert(self@[b as int] == self.0@[b as int]@);
                assert(self@[b as int].len() == self.0@[b as int].0@.len());
            }
            off = off - len_b;
            b = b + 1;
        }
    }

    /// Replace the beat at flat position `index`, leaving the phrase
    /// structure (number of phrases and beats per phrase) unchanged.
    pub fn set_swarbeat_at(&mut self, index: usize, beat: SwarBeat)
        requires
            index < flat_beats(old(self)@).len(),
        ensures
            flat_beats(final(self)@) == flat_beats(old(self)@).update(index as int, beat@),
            final(self)@.len() == old(self)@.len(),
            forall|b: int| 0 <= b < old(self)@.len() ==> (#[trigger] final(self)@[b]).len()
                == old(self)@[b].len(),
    {
        let ghost pre = self@;
        let nblocks = self.0.len();
        let mut b: usize = 0;
        let mut off: usize = index;
        proof {
            assert(self@.take(0).flatten() =~= Seq::<Seq<Swar>>::empty());
        }
        loop
            invariant
                index < flat_beats(pre).len(),
                pre == old(self)@,
                self@ == pre,
                nblocks == self.0@.len(),
                b <= nblocks,
                off <= index,
                index - off == pre.take(b as int).flatten().len(),
            decreases self.0@.len() - b,
        {
            proof {
                lemma_flatten_split(pre, b as int);
                if b == self.0@.len() {
                    assert(pre.skip(b as int).flatten() =~= Seq::<Seq<Swar>>::empty());
                    assert(false);
                }
                assert(b < self.0@.len());
            }
            let len_b = self.0[b].0.len();
            if off < len_b {
                let mut block = self.0.remove(b);
                let ghost preblock = block@;
                block.0.set(off, beat);
                self.0.insert(b, block);
                proof {
                    assert(block@ =~= preblock.update(off as int, beat@));
                    assert(self@ =~= pre.update(b as int, preblock.update(off as int, beat@)));
                    lemma_flatten_update(pre, b as int, preblock.update(off as int, beat@));
                    assert(flat_beats(self@) =~= flat_beats(pre).update(index as int, beat@));
                }
                return ;
            }
            proof {
                Seq::lemma_flatten_push(pre.take(b as int), pre[b as int]);
                assert(pre.take(b as int).push(pre[b as int]) =~= pre.take(b + 1));
                assert(pre[b as int] == self.0@[b as int]@);
            }
            off = off - len_b;
            b = b + 1;
        }
    }

    /// The beats of the phrase group in playing order.
    pub fn swarbeats(&self) -> (r: Vec<SwarBeat>)
        requires
            flat_beats(self@).len() <= usize::MAX,
        ensures
            r@.map_values(|b: SwarBeat| b@) == flat_beats(self@),
    {
        let n = self.flat_len();
        let mut out: Vec<SwarBeat> = Vec::new();
        for i in 0..n
            invariant
                n == flat_beats(self@).len(),
                out@.len() == i,
                forall|k: int| 0 <= k < i ==> #[trigger] out@[k]@ == flat_beats(self@)[k],
        {
            out.push(self.get_swarbeat_at(i).clone());
        }
        proof {
            assert(out@.map_values(|b: SwarBeat| b@) =~= flat_beats(self@));
        }
        out
    }

    /// All swars of the phrase group in playing order.
    pub fn to_swars(&self) -> (r: Vec<Swar>)
        ensures
            r@ == flat_beats(self@).flatten(),
    {
        let mut out: Vec<Swar> = Vec::new();
        let nb = self.0.len();
        proof {
            assert(self@.take(0).flatten() =~= Seq::<Seq<Swar>>::empty());
            assert(self@.take(0).flatten().flatten() =~= Seq::<Swar>::empty());
        }
        for b in 0..nb
            invariant
                nb == self.0@.len(),
                out@ == self@.take(b as int).flatten().flatten(),
        {
            let mut blk_swars = self.0[b].to_swars();
            proof {
                Seq::lemma_flatten_push(self@.take(b as int), self@[b as int]);
                assert(self@.take(b as int).push(self@[b as int]) =~= self@.take(b + 1));
                vstd::seq_lib::lemma_flatten_concat(
                    self@.take(b as int).flatten(),
                    self@[b as int],
                );
                assert(self@[b as int] == self.0@[b as int]@);
            }
            out.append(&mut blk_swars);
        }
        proof {
            assert(self@.take(nb as int) =~= self@);
        }
        out
    }

    /// The nearest pitched swar at or before `(from_sw_bt, from_sw)`,
    /// skipping empty continuation beats and crossing beat and phrase
    /// boundaries.  A `from_sw` past the end of the beat means its last
    /// swar.
    pub fn swar_index_reverse(&self, from_sw_bt: usize, from_sw: usize) -> (r: Option<
        SwarInSwarBlock,
    >)
        requires
            from_sw_bt < flat_beats(self@).len(),
        ensures
            r matches Some(ix) ==> prev_pitched(flat_beats(self@), from_sw_bt as int, from_sw as int)
                == Some((ix.swarbeat_index as int, ix.swar_index as int)),
            r is None ==> prev_pitched(flat_beats(self@), from_sw_bt as int, from_sw as int) is None,
    {
        let cur = self.get_swarbeat_at(from_sw_bt);
        let m = cur.len();
        if m > 0 {
            let jj = if from_sw >= m { m - 1 } else { from_sw };
            match cur.swar_index_reverse_from(jj) {
                Some(k) => {
                    return Some(SwarInSwarBlock { swarbeat_index: from_sw_bt, swar_index: k });
                },
                None => {},
            }
        } else {
            proof {
                assert(last_pitched_at_or_before(flat_beats(self@)[from_sw_bt as int], -1) is None);
            }
        }
        self.prev_pitched_before(from_sw_bt)
    }

    /// The nearest pitched swar in a beat strictly before `limit`,
    /// scanning backward.
    fn prev_pitched_before(&self, limit: usize) -> (r: Option<SwarInSwarBlock>)
        requires
            limit <= flat_beats(self@).len(),
        ensures
            r matches Some(ix) ==> prev_pitched_from_beat(flat_beats(self@), limit - 1) == Some(
                (ix.swarbeat_index as int, ix.swar_index as int),
            ),
            r is None ==> prev_pitched_from_beat(flat_beats(self@), limit - 1) is None,
    {
        if limit == 0 {
            return None;
        }
        let mut i = limit - 1;
        loop
            invariant
                i < flat_beats(self@).len(),
                prev_pitched_from_beat(flat_beats(self@), limit - 1) == prev_pitched_from_beat(
                    flat_beats(self@),
                    i as int,
                ),
            decreases i,
        {
            let beat = self.get_swarbeat_at(i);
            match beat.swar_index_reverse() {
                Some(k) => {
                    return Some(SwarInSwarBlock { swarbeat_index: i, swar_index: k });
                },
                None => {},
            }
            if i == 0 {
                proof {
                    assert(prev_pitched_from_beat(flat_beats(self@), -1) is None);
                }
                return None;
            }
            i = i - 1;
        }
    }

    /// The nearest pitched swar at or after `(from_sw_bt, from_sw)`,
    /// skipping empty continuation beats and crossing beat and phrase
    /// boundaries.
    pub fn swar_index_forward(&self, from_sw_bt: usize, from_sw: usize) -> (r: Option<
        SwarInSwarBlock,
    >)
        requires
            from_sw_bt < flat_beats(self@).len(),
            flat_beats(self@).len() <= usize::MAX,
        ensures
            r matches Some(ix) ==> next_pitched(flat_beats(self@), from_sw_bt as int, from_sw as int)
                == Some((ix.swarbeat_index as int, ix.swar_index as int)),
            r is None ==> next_pitched(flat_beats(self@), from_sw_bt as int, from_sw as int) is None,
    {
        let cur = self.get_swarbeat_at(from_sw_bt);
        match cur.swar_index_forward_from(from_sw) {
            Some(k) => {
                return Some(SwarInSwarBlock { swarbeat_index: from_sw_bt, swar_index: k });
            },
            None => {},
        }
        self.next_pitched_from(from_sw_bt + 1)
    }

    /// The nearest pitched swar in a beat at or after `start`, scanning
    /// forward.
    fn next_pitched_from(&self, start: usize) -> (r: Option<SwarInSwarBlock>)
        requires
            flat_beats(self@).len() <= usize::MAX,
        ensures
            r matches Some(ix) ==> next_pitched_from_beat(flat_beats(self@), start as int) == Some(
                (ix.swarbeat_index as int, ix.swar_index as int),
            ),
            r is None ==> next_pitched_from_beat(flat_beats(self@), start as int) is None,
    {
        let n = self.flat_len();
        let mut i = start;
        while i < n
            invariant
                n == flat_beats(self@).len(),
                start <= i,
                next_pitched_from_beat(flat_beats(self@), start as int) == next_pitched_from_beat(
                    flat_beats(self@),
                    i as int,
                ),
            decreases n - i,
        {
            let beat = self.get_swarbeat_at(i);
            match beat.swar_index_forward() {
                Some(k) => {
                    return Some(SwarInSwarBlock { swarbeat_index: i, swar_index: k });
                },
                None => {},
            }
            i = i + 1;
        }
        None
    }

    /// The adjacency context of the swar at `index`: its nearest pitched
    /// neighbour on each side (where one exists) around the swar itself.
    /// `None` when `index` does not address a swar.
    pub fn adjacent_swars(&self, index: &SwarInSwarBlock) -> (r: Option<Vec<Swar>>)
        requires
            flat_beats(self@).len() <= usize::MAX,
        ensures
            r matches Some(w) ==> index.swarbeat_index < flat_beats(self@).len()
                && index.swar_index < flat_beats(self@)[index.swarbeat_index as int].len()
                && w@ == adjacency_window(
                flat_beats(self@),
                index.swarbeat_index as int,
                index.swar_index as int,
            ),
            r is None ==> !(index.swarbeat_index < flat_beats(self@).len()
                && index.swar_index < flat_beats(self@)[index.swarbeat_index as int].len()),
    {
        let n = self.flat_len();
        let i = index.swarbeat_index;
        let j = index.swar_index;
        if i >= n {
            return None;
        }
        let cur = self.get_swarbeat_at(i);
        if j >= cur.len() {
            return None;
        }
        let target = cur.swars[j].clone();
        let mut w: Vec<Swar> = Vec::new();
        proof {
            lemma_prev_pitched_from_beat_props(flat_beats(self@), i - 1);
            lemma_prev_pitched_props(flat_beats(self@), i as int, j - 1);
            lemma_next_pitched_props(flat_beats(self@), i as int, j + 1);
        }
        let prev = if j == 0 {
            self.prev_pitched_before(i)
        } else {
            self.swar_index_reverse(i, j - 1)
        };
        match prev {
            Some(p) => {
                let pb = self.get_swarbeat_at(p.swarbeat_index);
                w.push(pb.swars[p.swar_index].clone());
            },
            None => {},
        }
        w.push(target);
        let next = self.swar_index_forward(i, j + 1);
        match next {
            Some(q) => {
                let qb = self.get_swarbeat_at(q.swarbeat_index);
                w.push(qb.swars[q.swar_index].clone());
            },
            None => {},
        }
        proof {
            assert(w@ =~= adjacency_window(flat_beats(self@), i as int, j as int));
        }
        Some(w)
    }

    /// The first position over all phrases whose swar sounds the same
    /// frequency as `swar`.
    pub fn index_swar(&self, swar: &Swar, table: &SwarTable) -> (r: Option<SwarInSwarBlock>)
        requires
            flat_beats(self@).len() <= usize::MAX,
        ensures
            r matches Some(ix) ==> first_match_from(table.entries@, flat_beats(self@), *swar, 0)
                == Some((ix.swarbeat_index as int, ix.swar_index as int)),
            r is None ==> first_match_from(table.entries@, flat_beats(self@), *swar, 0) is None,
    {
        let n = self.flat_len();
        let mut i: usize = 0;
        while i < n
            invariant
                n == flat_beats(self@).len(),
                first_match_from(table.entries@, flat_beats(self@), *swar, 0) == first_match_from(
                    table.entries@,
                    flat_beats(self@),
                    *swar,
                    i as int,
                ),
            decreases n - i,
        {
            let beat = self.get_swarbeat_at(i);
            match find_match_in_swars(table, &beat.swars, swar, 0) {
                Some(j) => {
                    return Some(SwarInSwarBlock { swarbeat_index: i, swar_index: j });
                },
                None => {},
            }
            i = i + 1;
        }
        None
    }

    /// Overwrite the swar at `index` with `swar`, leaving every other
    /// position and the phrase structure unchanged.
    pub fn replace_swar(&mut self, index: &SwarInSwarBlock, swar: Swar)
        requires
            index.swarbeat_index < flat_beats(old(self)@).len(),
            index.swar_index < flat_beats(old(self)@)[index.swarbeat_index as int].len(),
        ensures
            flat_beats(final(self)@) == flat_beats(old(self)@).update(
                index.swarbeat_index as int,
                flat_beats(old(self)@)[index.swarbeat_index as int].update(
                    index.swar_index as int,
                    swar,
                ),
            ),
            final(self)@.len() == old(self)@.len(),
            forall|b: int| 0 <= b < old(self)@.len() ==> (#[trigger] final(self)@[b]).len()
                == old(self)@[b].len(),
    {
        let mut beat = self.get_swarbeat_at(index.swarbeat_index).clone();
        beat.replace_swar(index.swar_index, swar);
        self.set_swarbeat_at(index.swarbeat_index, beat);
    }

    /// Insert `swar` directly after the swar at `index`, if the beat is
    /// not already split four ways; a four-way beat is left unchanged.
    pub fn insert_swar(&mut self, index: &SwarInSwarBlock, swar: Swar) -> (inserted: bool)
        requires
            index.swarbeat_index < flat_beats(old(self)@).len(),
            index.swar_index < flat_beats(old(self)@)[index.swarbeat_index as int].len(),
        ensures
            flat_beats(old(self)@)[index.swarbeat_index as int].len() < 4 <==> inserted,
            inserted ==> flat_beats(final(self)@) == flat_beats(old(self)@).update(
                index.swarbeat_index as int,
                flat_beats(old(self)@)[index.swarbeat_index as int].insert(
                    index.swar_index + 1,
                    swar,
                ),
            ),
            !inserted ==> final(self)@ == old(self)@,
            final(self)@.len() == old(self)@.len(),
            forall|b: int| 0 <= b < old(self)@.len() ==> (#[trigger] final(self)@[b]).len()
                == old(self)@[b].len(),
    {
        let mut beat = self.get_swarbeat_at(index.swarbeat_index).clone();
        if beat.len() < 4 {
            beat.insert_swar(index.swar_index + 1, swar);
            self.set_swarbeat_at(index.swarbeat_index, beat);
            true
        } else {
            false
        }
    }

    /// A uniformly drawn non-empty beat with its flat position, or `None`
    /// when every beat is an empty continuation marker.
    pub fn random_swarbeat(&self) -> (r: Option<(usize, SwarBeat)>)
        requires
            flat_beats(self@).len() <= usize::MAX,
        ensures
            r matches Some((i, b)) ==> i < flat_beats(self@).len()
                && b@ == flat_beats(self@)[i as int] && b@.len() > 0,
            r is None ==> forall|k: int|
                0 <= k < flat_beats(self@).len() ==> (#[trigger] flat_beats(self@)[k]).len() == 0,
    {
        let n = self.flat_len();
        let mut indices: Vec<usize> = Vec::new();
        for i in 0..n
            invariant
                n == flat_beats(self@).len(),
                forall|k: int| 0 <= k < indices@.len() ==> (#[trigger] indices@[k]) < n
                    && flat_beats(self@)[indices@[k] as int].len() > 0,
                indices@.len() == 0 ==> forall|k: int|
                    0 <= k < i ==> (#[trigger] flat_beats(self@)[k]).len() == 0,
        {
            if self.get_swarbeat_at(i).len() > 0 {
                indices.push(i);
            }
        }
        if indices.len() == 0 {
            return None;
        }
        let pick = indices[rand_below(indices.len())];
        Some((pick, self.get_swarbeat_at(pick).clone()))
    }

    /// A uniformly drawn swar position: a random non-empty beat, then a
    /// random swar within it.  `None` when every beat is empty.
    pub fn random_swar_index(&self) -> (r: Option<SwarInSwarBlock>)
        requires
            flat_beats(self@).len() <= usize::MAX,
        ensures
            r matches Some(ix) ==> ix.swarbeat_index < flat_beats(self@).len() && ix.swar_index
                < flat_beats(self@)[ix.swarbeat_index as int].len(),
            r is None ==> forall|k: int|
                0 <= k < flat_beats(self@).len() ==> (#[trigger] flat_beats(self@)[k]).len() == 0,
    {
        match self.random_swarbeat() {
            Some((i, beat)) => {
                let j = rand_below(beat.swars.len());
                Some(SwarInSwarBlock { swarbeat_index: i, swar_index: j })
            },
            None => None,
        }
    }
}


impl SwarBlocks {
    /// Every phrase of the group moved one octave in the given
    /// direction; `None` when a pitch has no equivalent there.
    pub fn shift(&self, up: bool) -> (r: Option<SwarBlocks>)
        ensures
            r matches Some(b) ==> blocks_shift_to(self@, b@, up),
            r is None ==> !blocks_shiftable(self@, up),
    {
        let mut out: Vec<SwarBlock> = Vec::new();
        let n = self.0.len();
        for i in 0..n
            invariant
                n == self.0@.len(),
                out@.len() == i,
                forall|k: int| 0 <= k < i ==> beats_shift_to(self@[k], #[trigger] out@[k]@, up),
        {
            match self.0[i].shift(up) {
                Some(b) => {
                    proof {
                        assert(beats_shift_to(self@[i as int], b@, up));
                    }
                    out.push(b);
                },
                None => {
                    proof {
                        let bad = choose|x: int|
                            0 <= x < self@[i as int].len() && !swars_shiftable(
                                #[trigger] self@[i as int][x],
                                up,
                            );
                        assert(!beats_shiftable(self@[i as int], up));
                    }
                    return None;
                },
            }
        }
        let r = SwarBlocks(out);
        proof {
            assert(r@.len() == self@.len());
            assert(forall|k: int| 0 <= k < n ==> #[trigger] r@[k] == out@[k]@);
        }
        Some(r)
    }

    /// The lower-octave equivalent of the whole group.
    pub fn lower(&self) -> (r: Option<SwarBlocks>)
        ensures
            r matches Some(b) ==> blocks_shift_to(self@, b@, false),
            r is None ==> !blocks_shiftable(self@, false),
    {
        self.shift(false)
    }

    /// The higher-octave equivalent of the whole group.
    pub fn higher(&self) -> (r: Option<SwarBlocks>)
        ensures
            r matches Some(b) ==> blocks_shift_to(self@, b@, true),
            r is None ==> !blocks_shiftable(self@, true),
    {
        self.shift(true)
    }
}

} // verus!
