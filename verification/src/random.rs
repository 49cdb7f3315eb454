use vstd::prelude::*;

use crate::constants::{DRILL_NOTE_UNITS, DRILL_TONIC_UNITS};
use crate::pitch::Pitch;
use crate::raag::Raag;
use crate::randomness::rand_below;
use crate::swar::Swar;
use crate::swarblocks::flat_beats;

verus! {

/// The concatenated degree pool a drill draws from: the raag's
/// ascending scale followed by its descending scale.
pub open spec fn drill_pool(raag: &Raag) -> Seq<Swar> {
    flat_beats(raag.aroha.aroha@).flatten() + flat_beats(raag.avroha.avroha@).flatten()
}

/// Whether `v` is a valid practice drill over `pool`: bracketed by the
/// tonic at the long drill duration, with the middle notes drawn from
/// `pool` at strictly increasing positions, each at the standard drill
/// duration.
pub open spec fn is_drill(pool: Seq<Swar>, v: Seq<Swar>) -> bool {
    v.len() >= 2 && is_drill_tonic(v[0]) && is_drill_tonic(v[v.len() - 1]) && exists|inds: Seq<int>|
        #[trigger] drill_indices(pool, v, inds)
}

/// The tonic bracket of a drill: the base scale degree held for three
/// beats.
pub open spec fn is_drill_tonic(sw: Swar) -> bool {
    sw.beat_units == DRILL_TONIC_UNITS && (sw.pitch matches Some(p) && p@ == "S"@)
}

/// The middle notes of `v` take their pitches from `pool` at the
/// strictly increasing positions `inds`.
pub open spec fn drill_indices(pool: Seq<Swar>, v: Seq<Swar>, inds: Seq<int>) -> bool {
    inds.len() == v.len() - 2 && (forall|k: int| 0 <= k < inds.len() ==> 0 <= #[trigger] inds[k]
        < pool.len()) && (forall|k: int| 0 < k < inds.len() ==> inds[k - 1] < #[trigger] inds[k])
        && (forall|k: int|
        0 <= k < inds.len() ==> (#[trigger] v[k + 1]).pitch == pool[inds[k]].pitch && v[k + 1].beat_units
            == DRILL_NOTE_UNITS)
}

/// Generate a simple practice drill: `n` notes drawn uniformly without
/// replacement from the raag's concatenated ascending and descending
/// degree list (fewer when the list is shorter), kept in their original
/// order and bracketed by the tonic at a fixed long duration.  Fails
/// when a drawn slot holds silence instead of a pitch.
pub fn randomiser(raag: &Raag, n: usize) -> (r: Result<Vec<Swar>, String>)
    requires
        drill_pool(raag).len() < usize::MAX,
    ensures
        r matches Ok(v) ==> is_drill(drill_pool(raag), v@) && v@.len() == 2 + (if n
            <= drill_pool(raag).len() {
            n as int
        } else {
            drill_pool(raag).len() as int
        }),
        r is Err ==> exists|k: int|
            0 <= k < drill_pool(raag).len() && (#[trigger] drill_pool(raag)[k]).pitch is None,
{
    let mut pool = raag.aroha().aroha().to_swars();
    let mut avr = raag.avroha().avroha().to_swars();
    pool.append(&mut avr);
    let total = pool.len();
    let mut need = if n <= total {
        n
    } else {
        total
    };
    let ghost target = need as int;
    let mut out: Vec<Swar> = Vec::new();
    out.push(Swar::new(Pitch::new(String::from_str("S")), DRILL_TONIC_UNITS));
    let ghost mut inds: Seq<int> = Seq::empty();
    proof {
        reveal_strlit("S");
    }
    let mut idx: usize = 0;
    while idx < total
        invariant
            total == pool@.len(),
            pool@ == drill_pool(raag),
            idx <= total,
            need <= total - idx,
            out@.len() == 1 + target - need,
            target - need == inds.len(),
            is_drill_tonic(out@[0]),
            forall|k: int| 0 <= k < inds.len() ==> 0 <= #[trigger] inds[k] < idx,
            forall|k: int| 0 < k < inds.len() ==> inds[k - 1] < #[trigger] inds[k],
            forall|k: int|
                0 <= k < inds.len() ==> (#[trigger] out@[k + 1]).pitch == pool@[inds[k]].pitch
                    && out@[k + 1].beat_units == DRILL_NOTE_UNITS,
        decreases total - idx,
    {
        if need > 0 {
            let draw = rand_below(total - idx);
            if draw < need {
                match &pool[idx].pitch {
                    Some(p) => {
                        out.push(Swar::new(p.clone(), DRILL_NOTE_UNITS));
                        proof {
                            inds = inds.push(idx as int);
                        }
                        need = need - 1;
                    },
                    None => {
                        return Err(String::from_str("Pitch can't be empty!"));
                    },
                }
            }
        }
        idx = idx + 1;
    }
    out.push(Swar::new(Pitch::new(String::from_str("S")), DRILL_TONIC_UNITS));
    proof {
        reveal_strlit("S");
        assert(out@[out@.len() - 1].beat_units == DRILL_TONIC_UNITS);
        assert(drill_indices(pool@, out@, inds));
    }
    Ok(out)
}

} // verus!
