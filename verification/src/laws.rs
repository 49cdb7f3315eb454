use vstd::prelude::*;

use crate::mutation::{apply_operator_spec, MutationOperatorKind};
use crate::notation::{
    beat_sum_m, extend_last_m, name_error, parse_quad_parts, parse_token, parse_tokens_from,
    parse_spec, render_beat_m, split_seq, SwarM,
};
use crate::pitch::SwarTableEntry;
use crate::raag::{aroha_degrees, avroha_degrees, index_of_freq, window_in_order, Raag};
use crate::swar::{swar_freq_eq, swar_freq_spec, Swar};
use crate::swarbeat::{last_pitched_at_or_before, lemma_last_pitched_props};
use crate::swarblock::{last_nonempty_beat, lemma_last_nonempty_props, match_at_or_after};
use crate::swarblocks::{prev_pitched, prev_pitched_from_beat};

verus! {

// ---------------------------------------------------------------------
// Scale-context classification
// ---------------------------------------------------------------------

/// A degree list resolves throughout and no two positions sound the
/// same frequency: the shape of a flattened scale, where every degree
/// is a distinct pitch.
pub open spec fn distinct_freqs(entries: Seq<SwarTableEntry>, list: Seq<Swar>) -> bool {
    (forall|k: int| 0 <= k < list.len() ==> (#[trigger] swar_freq_spec(entries, list[k])) is Some)
        && (forall|k: int, m: int|
        0 <= k < list.len() && 0 <= m < list.len() && k != m ==> !swar_freq_eq(
            entries,
            #[trigger] list[k],
            #[trigger] list[m],
        ))
}

/// In a list of pairwise distinct frequencies, each swar's degree index
/// is its own position.
pub proof fn lemma_index_of_self(entries: Seq<SwarTableEntry>, list: Seq<Swar>, t: int)
    requires
        distinct_freqs(entries, list),
        0 <= t < list.len(),
    ensures
        index_of_freq(entries, list, list[t]) == Some(t),
{
    lemma_match_skips(entries, list, list[t], 0, t);
}

/// A frequency search passes over every non-matching position.
proof fn lemma_match_skips(entries: Seq<SwarTableEntry>, list: Seq<Swar>, sw: Swar, lo: int, t: int)
    requires
        0 <= lo <= t < list.len(),
        forall|k: int| lo <= k < t ==> !swar_freq_eq(entries, #[trigger] list[k], sw),
        swar_freq_eq(entries, list[t], sw),
    ensures
        match_at_or_after(entries, list, sw, lo) == Some(t),
    decreases t - lo,
{
    if lo < t {
        lemma_match_skips(entries, list, sw, lo + 1, t);
    }
}

/// Classification correctness, ascending direction: a window drawn
/// consecutively from a degree list of pairwise distinct frequencies
/// follows that list, so the classifier reports it as in order.
pub proof fn lemma_consecutive_window_in_order(
    entries: Seq<SwarTableEntry>,
    list: Seq<Swar>,
    start: int,
    len: int,
)
    requires
        distinct_freqs(entries, list),
        0 <= start,
        1 <= len,
        start + len <= list.len(),
    ensures
        window_in_order(entries, list, list.subrange(start, start + len)),
{
    let window = list.subrange(start, start + len);
    assert forall|k: int| 0 <= k < window.len() implies (#[trigger] index_of_freq(
        entries,
        list,
        window[k],
    )) is Some by {
        lemma_index_of_self(entries, list, start + k);
    }
    assert forall|k: int| 0 < k < window.len() implies index_of_freq(
        entries,
        list,
        window[k - 1],
    ).unwrap() <= (#[trigger] index_of_freq(entries, list, window[k])).unwrap() by {
        lemma_index_of_self(entries, list, start + k - 1);
        lemma_index_of_self(entries, list, start + k);
    }
}

/// Classification correctness, descending direction: the reverse of a
/// window drawn consecutively from an ascending degree list is a
/// consecutive window of the reversed (descending) list, so it follows
/// the descending list.  Stated directly over the descending list: a
/// consecutive window of the descending degree list follows it.  The
/// two directions are the same statement applied to the two lists, so
/// `lemma_consecutive_window_in_order` covers both; this wrapper names
/// the descending reading.
pub proof fn lemma_reversed_window_descending(
    entries: Seq<SwarTableEntry>,
    avroha_list: Seq<Swar>,
    start: int,
    len: int,
)
    requires
        distinct_freqs(entries, avroha_list),
        0 <= start,
        1 <= len,
        start + len <= avroha_list.len(),
    ensures
        window_in_order(entries, avroha_list, avroha_list.subrange(start, start + len)),
{
    lemma_consecutive_window_in_order(entries, avroha_list, start, len);
}

/// Classification correctness at the raag: a window drawn consecutively
/// from the raag's own three-register ascending degree list satisfies
/// exactly the predicate `Raag::in_aroha` decides, so the classifier
/// reports it ascending.  The hypothesis is the proper-scale shape of
/// the list: every degree resolves and no two sound the same frequency.
pub proof fn lemma_aroha_window_ascending(
    entries: Seq<SwarTableEntry>,
    raag: &Raag,
    start: int,
    len: int,
)
    requires
        distinct_freqs(entries, aroha_degrees(raag)),
        0 <= start,
        1 <= len,
        start + len <= aroha_degrees(raag).len(),
    ensures
        window_in_order(
            entries,
            aroha_degrees(raag),
            aroha_degrees(raag).subrange(start, start + len),
        ),
{
    lemma_consecutive_window_in_order(entries, aroha_degrees(raag), start, len);
}

/// Classification correctness, descending direction, at the raag: a
/// window drawn consecutively from the three-register descending degree
/// list — the reverse reading of an ascending window — satisfies the
/// predicate `Raag::in_avroha` decides.
pub proof fn lemma_avroha_window_descending(
    entries: Seq<SwarTableEntry>,
    raag: &Raag,
    start: int,
    len: int,
)
    requires
        distinct_freqs(entries, avroha_degrees(raag)),
        0 <= start,
        1 <= len,
        start + len <= avroha_degrees(raag).len(),
    ensures
        window_in_order(
            entries,
            avroha_degrees(raag),
            avroha_degrees(raag).subrange(start, start + len),
        ),
{
    lemma_consecutive_window_in_order(entries, avroha_degrees(raag), start, len);
}

// ---------------------------------------------------------------------
// Mutation postcondition
// ---------------------------------------------------------------------

/// The duration-sum image of a beat of swars.
pub open spec fn stored_beat_sum(b: Seq<Swar>) -> int {
    beat_sum_m(crate::notation::beat_model(b))
}

/// Whether every non-empty stored beat sums to exactly one beat.
pub open spec fn stored_beats_whole(beats: Seq<Seq<Swar>>) -> bool {
    forall|i: int| 0 <= i < beats.len() ==> stored_beat_sum(#[trigger] beats[i]) == 20 || beats[i].len() == 0
}

proof fn lemma_stored_sum_update(b: Seq<Swar>, j: int, sw: Swar)
    requires
        0 <= j < b.len(),
    ensures
        stored_beat_sum(b.update(j, sw)) == stored_beat_sum(b) - b[j].beat_units + sw.beat_units,
{
    assert(crate::notation::beat_model(b.update(j, sw)) =~= crate::notation::beat_model(b).update(
        j,
        crate::notation::swar_model(sw),
    ));
    crate::notation::lemma_beat_sum_update(
        crate::notation::beat_model(b),
        j,
        crate::notation::swar_model(sw),
    );
}

/// Mutation postcondition: the duration-preserving operators (replace,
/// and the two beat-splitting operators with their whole-beat fallback)
/// keep every non-empty beat summing to exactly one beat, and a
/// split of a whole single-swar beat always changes the targeted beat.
/// The two duration operators are excluded: changing a duration is
/// their stated effect.
pub proof fn lemma_mutation_preserves_beat_sums(
    beats: Seq<Seq<Swar>>,
    i: int,
    j: int,
    op: MutationOperatorKind,
    c1: Swar,
    c2: Swar,
    fl: bool,
)
    requires
        stored_beats_whole(beats),
        0 <= i < beats.len(),
        0 <= j < beats[i].len(),
        op == MutationOperatorKind::Replace || op == MutationOperatorKind::ShareBeat || op
            == MutationOperatorKind::KanSwar,
    ensures
        stored_beats_whole(apply_operator_spec(beats, i, j, op, c1, c2, fl)),
        apply_operator_spec(beats, i, j, op, c1, c2, fl).len() == beats.len(),
{
    let out = apply_operator_spec(beats, i, j, op, c1, c2, fl);
    let x = if fl {
        c1
    } else {
        c2
    };
    let y = if fl {
        c2
    } else {
        c1
    };
    if op == MutationOperatorKind::Replace || beats[i].len() != 1 {
        let nb = beats[i].update(j, Swar { pitch: c1.pitch, beat_units: beats[i][j].beat_units });
        lemma_stored_sum_update(beats[i], j, Swar { pitch: c1.pitch, beat_units: beats[i][j].beat_units });
        assert(stored_beat_sum(nb) == stored_beat_sum(beats[i]));
        assert(out == beats.update(i, nb));
        assert forall|k: int| 0 <= k < out.len() implies stored_beat_sum(#[trigger] out[k]) == 20
            || out[k].len() == 0 by {
            if k != i {
                assert(out[k] == beats[k]);
            }
            assert(stored_beat_sum(beats[k]) == 20 || beats[k].len() == 0);
        }
    } else {
        let (ua, ub): (u32, u32) = if op == MutationOperatorKind::ShareBeat {
            (10, 10)
        } else {
            (4, 16)
        };
        let nb = seq![
            Swar { pitch: x.pitch, beat_units: ua },
            Swar { pitch: y.pitch, beat_units: ub },
        ];
        assert(stored_beat_sum(nb) == 20) by {
            let bm = crate::notation::beat_model(nb);
            assert(bm.len() == 2);
            assert(bm[0].1 == ua as int && bm[1].1 == ub as int);
            assert(bm.drop_first() =~= seq![bm[1]]);
            assert(seq![bm[1]].drop_first() =~= Seq::<SwarM>::empty());
            assert(beat_sum_m(bm) == bm[0].1 + beat_sum_m(bm.drop_first()));
            assert(beat_sum_m(bm.drop_first()) == bm[1].1 + beat_sum_m(Seq::<SwarM>::empty()));
        }
        assert(out == beats.update(i, nb));
        assert forall|k: int| 0 <= k < out.len() implies stored_beat_sum(#[trigger] out[k]) == 20
            || out[k].len() == 0 by {
            if k != i {
                assert(out[k] == beats[k]);
                assert(stored_beat_sum(beats[k]) == 20 || beats[k].len() == 0);
            }
        }
    }
}

/// Mutation non-idempotence: substituting a candidate whose pitch
/// differs from the target's changes the targeted beat, and a split of
/// a single-swar beat always does.
pub proof fn lemma_mutation_changes_target(
    beats: Seq<Seq<Swar>>,
    i: int,
    j: int,
    op: MutationOperatorKind,
    c1: Swar,
    c2: Swar,
    fl: bool,
)
    requires
        0 <= i < beats.len(),
        0 <= j < beats[i].len(),
        op == MutationOperatorKind::Replace ==> c1.pitch != beats[i][j].pitch,
        op == MutationOperatorKind::ShareBeat || op == MutationOperatorKind::KanSwar ==> beats[i].len() == 1,
        op == MutationOperatorKind::Replace || op == MutationOperatorKind::ShareBeat || op
            == MutationOperatorKind::KanSwar,
    ensures
        apply_operator_spec(beats, i, j, op, c1, c2, fl)[i] != beats[i],
{
    let out = apply_operator_spec(beats, i, j, op, c1, c2, fl);
    if op == MutationOperatorKind::Replace {
        assert(out[i][j].pitch == c1.pitch);
    } else {
        assert(out[i].len() == 2);
    }
}

// ---------------------------------------------------------------------
// Beat-sum invariant of parsing
// ---------------------------------------------------------------------

/// A token that carries no continuation: it is not `-` itself and none
/// of its `:`-separated parts is `-`.
pub open spec fn token_no_continuation(tok: Seq<char>) -> bool {
    tok != seq!['-'] && forall|k: int|
        0 <= k < split_seq(tok, ':').len() ==> #[trigger] split_seq(tok, ':')[k] != seq!['-']
}

/// A four-way group without continuations only appends quarter notes to
/// the beat under construction.
proof fn lemma_quad_no_dash(
    entries: Seq<SwarTableEntry>,
    beats: Seq<Seq<SwarM>>,
    parts: Seq<Seq<char>>,
    k: int,
    cur: Seq<SwarM>,
)
    requires
        0 <= k <= parts.len(),
        forall|m: int| 0 <= m < parts.len() ==> #[trigger] parts[m] != seq!['-'],
    ensures
        match parse_quad_parts(entries, beats, parts, k, cur) {
            Ok((b2, c2)) => b2 == beats && beat_sum_m(c2) == beat_sum_m(cur) + 5 * (parts.len() - k)
                && c2.len() == cur.len() + (parts.len() - k),
            Err(_) => true,
        },
    decreases parts.len() - k,
{
    if k < parts.len() {
        match name_error(entries, parts[k]) {
            Some(_) => {},
            None => {
                crate::notation::lemma_beat_sum_push(cur, (Some(parts[k]), 5 as int));
                lemma_quad_no_dash(entries, beats, parts, k + 1, cur.push((Some(parts[k]), 5)));
            },
        }
    }
}

/// One parsed token without a continuation appends exactly one beat
/// whose durations sum to one whole beat, and leaves every earlier beat
/// unchanged.
pub proof fn lemma_parse_token_whole(
    entries: Seq<SwarTableEntry>,
    st: (Seq<Seq<SwarM>>, bool),
    tok: Seq<char>,
)
    requires
        token_no_continuation(tok),
        parse_token(entries, st, tok) is Ok,
    ensures
        ({
            let st2 = parse_token(entries, st, tok).unwrap();
            st2.0.len() == st.0.len() + 1 && st2.0.drop_last() == st.0 && beat_sum_m(st2.0.last())
                == 20 && st2.0.last().len() > 0
        }),
{
    let st2 = parse_token(entries, st, tok).unwrap();
    crate::notation::lemma_split_len(tok, ':');
    if tok.contains(':') {
        let parts = split_seq(tok, ':');
        if parts.len() == 2 {
            let a = parts[0];
            let b = parts[1];
            assert(a != seq!['-'] && b != seq!['-']);
            assert forall|x: SwarM, y: SwarM| beat_sum_m(seq![x, y]) == x.1 + y.1 by {
                crate::notation::lemma_beat_sum_two(x, y);
            }
            assert(st2.0.drop_last() =~= st.0);
        } else {
            assert(parts.len() == 4);
            lemma_quad_no_dash(entries, st.0, parts, 0, Seq::<SwarM>::empty());
            assert(st2.0.drop_last() =~= st.0);
        }
    } else if tok.contains('/') {
        let parts = split_seq(tok, '/');
        assert forall|x: SwarM, y: SwarM| beat_sum_m(seq![x, y]) == x.1 + y.1 by {
            crate::notation::lemma_beat_sum_two(x, y);
        }
        assert(st2.0.drop_last() =~= st.0);
    } else {
        assert(beat_sum_m(seq![(Some(tok), 20 as int)]) == 20) by {
            let b = seq![(Some(tok), 20 as int)];
            assert(b.len() == 1 && b[0].1 == 20);
            assert(b.drop_first() =~= Seq::<SwarM>::empty());
            assert(beat_sum_m(b) == b[0].1 + beat_sum_m(b.drop_first()));
        }
        assert(st2.0.drop_last() =~= st.0);
    }
}

/// Beat-sum invariant of parsing, restricted to its valid inputs: in a
/// notation without continuation tokens every parsed beat is non-empty
/// and its durations sum to exactly one beat.  A continuation moves
/// duration between beat slots on purpose, so notations containing `-`
/// are excluded here; for them the conserved total (one whole beat per
/// beat slot overall) is part of the parser's contract.
pub proof fn lemma_parse_beat_sums(
    entries: Seq<SwarTableEntry>,
    toks: Seq<Seq<char>>,
    st: (Seq<Seq<SwarM>>, bool),
    k: int,
)
    requires
        0 <= k <= toks.len(),
        forall|m: int| 0 <= m < toks.len() ==> token_no_continuation(#[trigger] toks[m]),
        parse_tokens_from(entries, toks, st, k) is Ok,
        forall|i: int| 0 <= i < st.0.len() ==> beat_sum_m(#[trigger] st.0[i]) == 20 && st.0[i].len() > 0,
    ensures
        ({
            let st2 = parse_tokens_from(entries, toks, st, k).unwrap();
            forall|i: int| 0 <= i < st2.0.len() ==> beat_sum_m(#[trigger] st2.0[i]) == 20 && st2.0[i].len() > 0
        }),
    decreases toks.len() - k,
{
    if k < toks.len() {
        let st1 = parse_token(entries, st, toks[k]).unwrap();
        lemma_parse_token_whole(entries, st, toks[k]);
        assert forall|i: int| 0 <= i < st1.0.len() implies beat_sum_m(#[trigger] st1.0[i]) == 20
            && st1.0[i].len() > 0 by {
            if i < st.0.len() {
                assert(st1.0.drop_last()[i] == st1.0[i]);
            } else {
                assert(st1.0[i] == st1.0.last());
            }
        }
        lemma_parse_beat_sums(entries, toks, st1, k + 1);
    }
}

/// The beat-sum invariant as a statement about a whole notation string:
/// when it parses and none of its tokens carries a continuation, every
/// beat it denotes sums to exactly one beat.
pub proof fn lemma_notation_beat_sums(entries: Seq<SwarTableEntry>, s: Seq<char>)
    requires
        parse_spec(entries, s) is Ok,
        forall|m: int|
            0 <= m < split_seq(s, ' ').len() ==> token_no_continuation(
                #[trigger] split_seq(s, ' ')[m],
            ),
    ensures
        ({
            let beats = parse_spec(entries, s).unwrap().0;
            forall|i: int| 0 <= i < beats.len() ==> beat_sum_m(#[trigger] beats[i]) == 20 && beats[i].len() > 0
        }),
{
    lemma_parse_beat_sums(
        entries,
        split_seq(s, ' '),
        (Seq::<Seq<SwarM>>::empty(), true),
        0,
    );
}

/// A four-way group adds a quarter beat of duration per part, wherever
/// each quarter lands.
proof fn lemma_quad_sums(
    entries: Seq<SwarTableEntry>,
    beats: Seq<Seq<SwarM>>,
    parts: Seq<Seq<char>>,
    k: int,
    cur: Seq<SwarM>,
)
    requires
        0 <= k <= parts.len(),
        crate::notation::nonneg_m(beats),
        crate::notation::nonneg_beat_m(cur),
    ensures
        match parse_quad_parts(entries, beats, parts, k, cur) {
            Ok((b2, c2)) => b2.len() == beats.len() && crate::notation::nonneg_m(b2)
                && crate::notation::nonneg_beat_m(c2) && crate::notation::total_units_m(b2)
                + beat_sum_m(c2) == crate::notation::total_units_m(beats) + beat_sum_m(cur) + 5 * (
            parts.len() - k),
            Err(_) => true,
        },
    decreases parts.len() - k,
{
    if k < parts.len() {
        if parts[k] == seq!['-'] {
            if cur.len() > 0 {
                let j = cur.len() - 1;
                let c2 = cur.update(j, (cur[j].0, cur[j].1 + 5));
                crate::notation::lemma_beat_sum_update(cur, j, (cur[j].0, cur[j].1 + 5));
                assert(crate::notation::nonneg_beat_m(c2));
                lemma_quad_sums(entries, beats, parts, k + 1, c2);
            } else {
                match last_nonempty_beat(beats) {
                    Some(i) => {
                        lemma_last_nonempty_props(beats);
                        let b = beats[i];
                        let nb = b.update(b.len() - 1, (b[b.len() - 1].0, b[b.len() - 1].1 + 5));
                        crate::notation::lemma_beat_sum_update(
                            b,
                            b.len() - 1,
                            (b[b.len() - 1].0, b[b.len() - 1].1 + 5),
                        );
                        crate::notation::lemma_total_update(beats, i, nb);
                        let b2 = extend_last_m(beats, i, 5);
                        assert(b2 == beats.update(i, nb));
                        assert(crate::notation::nonneg_m(b2)) by {
                            assert forall|x: int| 0 <= x < b2.len() implies crate::notation::nonneg_beat_m(
                                #[trigger] b2[x],
                            ) by {
                                assert(crate::notation::nonneg_beat_m(beats[x]));
                            }
                        }
                        lemma_quad_sums(entries, b2, parts, k + 1, cur);
                    },
                    None => {},
                }
            }
        } else {
            match name_error(entries, parts[k]) {
                Some(_) => {},
                None => {
                    crate::notation::lemma_beat_sum_push(cur, (Some(parts[k]), 5 as int));
                    lemma_quad_sums(entries, beats, parts, k + 1, cur.push((Some(parts[k]), 5)));
                },
            }
        }
    }
}

/// One parsed token adds exactly one beat slot and one whole beat of
/// duration, however its duration is distributed by continuations.
proof fn lemma_parse_token_conserves(
    entries: Seq<SwarTableEntry>,
    st: (Seq<Seq<SwarM>>, bool),
    tok: Seq<char>,
)
    requires
        crate::notation::conserved_m(st.0),
        parse_token(entries, st, tok) is Ok,
    ensures
        ({
            let st2 = parse_token(entries, st, tok).unwrap();
            st2.0.len() == st.0.len() + 1 && crate::notation::conserved_m(st2.0)
        }),
{
    let st2 = parse_token(entries, st, tok).unwrap();
    let beats = st.0;
    crate::notation::lemma_split_len(tok, ':');
    crate::notation::lemma_split_len(tok, '/');
    if tok == seq!['-'] {
        let i = last_nonempty_beat(beats).unwrap();
        lemma_last_nonempty_props(beats);
        lemma_extension_conserves(beats, i, 20);
        crate::notation::lemma_total_push(extend_last_m(beats, i, 20), Seq::<SwarM>::empty());
        assert(beat_sum_m(Seq::<SwarM>::empty()) == 0);
        assert(crate::notation::nonneg_m(st2.0)) by {
            assert forall|x: int| 0 <= x < st2.0.len() implies crate::notation::nonneg_beat_m(
                #[trigger] st2.0[x],
            ) by {
                if x < beats.len() {
                    assert(crate::notation::nonneg_beat_m(beats[x]));
                }
            }
        }
    } else if tok.contains(':') {
        let parts = split_seq(tok, ':');
        if parts.len() == 2 {
            let a = parts[0];
            let b = parts[1];
            if a == seq!['-'] {
                let i = last_nonempty_beat(beats).unwrap();
                lemma_last_nonempty_props(beats);
                lemma_extension_conserves(beats, i, 10);
                let nb = seq![(Some(b), 10 as int)];
                assert(beat_sum_m(nb) == 10) by {
                    assert(nb.drop_first() =~= Seq::<SwarM>::empty());
                    assert(beat_sum_m(nb) == nb[0].1 + beat_sum_m(nb.drop_first()));
                }
                crate::notation::lemma_total_push(extend_last_m(beats, i, 10), nb);
                assert(crate::notation::nonneg_m(st2.0)) by {
                    assert forall|x: int| 0 <= x < st2.0.len() implies crate::notation::nonneg_beat_m(
                        #[trigger] st2.0[x],
                    ) by {
                        if x < beats.len() {
                            assert(crate::notation::nonneg_beat_m(beats[x]));
                        }
                    }
                }
            } else {
                lemma_push_pair_conserves(entries, st, tok);
            }
        } else {
            assert(parts.len() == 4);
            lemma_quad_sums(entries, beats, parts, 0, Seq::<SwarM>::empty());
            let r = parse_quad_parts(entries, beats, parts, 0, Seq::<SwarM>::empty()).unwrap();
            assert(beat_sum_m(Seq::<SwarM>::empty()) == 0);
            crate::notation::lemma_total_push(r.0, r.1);
            assert(crate::notation::nonneg_m(st2.0)) by {
                assert forall|x: int| 0 <= x < st2.0.len() implies crate::notation::nonneg_beat_m(
                    #[trigger] st2.0[x],
                ) by {
                    if x < r.0.len() {
                        assert(crate::notation::nonneg_beat_m(r.0[x]));
                    }
                }
            }
        }
    } else {
        lemma_push_pair_conserves(entries, st, tok);
    }
}

/// The tokens that only push one new beat (plain names, explicit pairs
/// and grace pairs) add a beat summing to one whole beat.
proof fn lemma_push_pair_conserves(
    entries: Seq<SwarTableEntry>,
    st: (Seq<Seq<SwarM>>, bool),
    tok: Seq<char>,
)
    requires
        crate::notation::conserved_m(st.0),
        parse_token(entries, st, tok) is Ok,
        tok != seq!['-'],
        tok.contains(':') ==> split_seq(tok, ':').len() == 2 && split_seq(tok, ':')[0] != seq!['-'],
    ensures
        ({
            let st2 = parse_token(entries, st, tok).unwrap();
            st2.0.len() == st.0.len() + 1 && crate::notation::conserved_m(st2.0)
        }),
{
    let st2 = parse_token(entries, st, tok).unwrap();
    let beats = st.0;
    assert(st2.0.drop_last() =~= beats);
    assert(st2.0 == beats.push(st2.0.last()));
    let nb = st2.0.last();
    assert(beat_sum_m(nb) == 20) by {
        assert forall|x: SwarM, y: SwarM| beat_sum_m(seq![x, y]) == x.1 + y.1 by {
            crate::notation::lemma_beat_sum_two(x, y);
        }
        assert forall|x: SwarM| beat_sum_m(seq![x]) == x.1 by {
            crate::notation::lemma_beat_sum_one(x);
        }
    }
    crate::notation::lemma_total_push(beats, nb);
    assert(crate::notation::nonneg_m(st2.0)) by {
        assert forall|x: int| 0 <= x < st2.0.len() implies crate::notation::nonneg_beat_m(
            #[trigger] st2.0[x],
        ) by {
            if x < beats.len() {
                assert(crate::notation::nonneg_beat_m(beats[x]));
            }
        }
    }
}

/// Extending the last swar of a non-empty beat adds exactly that much
/// duration.
proof fn lemma_extension_conserves(beats: Seq<Seq<SwarM>>, i: int, inc: int)
    requires
        0 <= i < beats.len(),
        beats[i].len() > 0,
    ensures
        crate::notation::total_units_m(extend_last_m(beats, i, inc))
            == crate::notation::total_units_m(beats) + inc,
{
    let b = beats[i];
    let j = b.len() - 1;
    let nb = b.update(j, (b[j].0, b[j].1 + inc));
    crate::notation::lemma_beat_sum_update(b, j, (b[j].0, b[j].1 + inc));
    crate::notation::lemma_total_update(beats, i, nb);
    assert(extend_last_m(beats, i, inc) == beats.update(i, nb));
}

/// Conservation of duration: every successfully parsed notation denotes
/// exactly one whole beat of duration per beat slot, continuations
/// included.
pub proof fn lemma_parse_conservation(
    entries: Seq<SwarTableEntry>,
    toks: Seq<Seq<char>>,
    st: (Seq<Seq<SwarM>>, bool),
    k: int,
)
    requires
        0 <= k <= toks.len(),
        crate::notation::conserved_m(st.0),
        parse_tokens_from(entries, toks, st, k) is Ok,
    ensures
        crate::notation::conserved_m(parse_tokens_from(entries, toks, st, k).unwrap().0),
    decreases toks.len() - k,
{
    if k < toks.len() {
        let st1 = parse_token(entries, st, toks[k]).unwrap();
        lemma_parse_token_conserves(entries, st, toks[k]);
        lemma_parse_conservation(entries, toks, st1, k + 1);
    }
}

/// Conservation of duration for a whole notation string.
pub proof fn lemma_notation_conservation(entries: Seq<SwarTableEntry>, s: Seq<char>)
    requires
        parse_spec(entries, s) is Ok,
    ensures
        crate::notation::conserved_m(parse_spec(entries, s).unwrap().0),
{
    lemma_parse_conservation(entries, split_seq(s, ' '), (Seq::<Seq<SwarM>>::empty(), true), 0);
}

// ---------------------------------------------------------------------
// Adjacency skip-empty
// ---------------------------------------------------------------------

/// Adjacency skip-empty: what a backward adjacency search returns is
/// always a pitched swar, never a position inside an empty continuation
/// beat, and nothing pitched lies between it and the start of the
/// search.
pub proof fn lemma_reverse_search_skips_empty(beats: Seq<Seq<Swar>>, i: int, j: int)
    requires
        0 <= i < beats.len(),
    ensures
        match prev_pitched(beats, i, j) {
            Some((a, b)) => 0 <= a <= i && 0 <= b < beats[a].len() && beats[a][b].pitch is Some
                && beats[a].len() > 0 && (forall|x: int|
                a < x < i ==> (forall|y: int|
                    0 <= y < (#[trigger] beats[x]).len() ==> (#[trigger] beats[x][y].pitch) is None)),
            None => true,
        },
{
    crate::swarblocks::lemma_prev_pitched_props(beats, i, j);
    if let Some((a, b)) = prev_pitched(beats, i, j) {
        let jj = if j >= beats[i].len() {
            beats[i].len() - 1
        } else {
            j
        };
        lemma_last_pitched_props(beats[i], jj);
        if last_pitched_at_or_before(beats[i], jj) is None {
            lemma_prev_from_beat_between(beats, i - 1);
        }
    }
}

/// The beats strictly after the one a backward beat scan lands in hold
/// no pitched swar.
proof fn lemma_prev_from_beat_between(beats: Seq<Seq<Swar>>, i: int)
    ensures
        match prev_pitched_from_beat(beats, i) {
            Some((a, b)) => a <= i && (forall|x: int|
                a < x <= i && x < beats.len() ==> (forall|y: int|
                    0 <= y < (#[trigger] beats[x]).len() ==> (#[trigger] beats[x][y].pitch) is None)),
            None => true,
        },
    decreases i + 1,
{
    if !(i < 0 || i >= beats.len()) {
        lemma_last_pitched_props(beats[i], beats[i].len() - 1);
        if last_pitched_at_or_before(beats[i], beats[i].len() - 1) is None {
            lemma_prev_from_beat_between(beats, i - 1);
        }
    }
}


// ---------------------------------------------------------------------
// Round-trip
// ---------------------------------------------------------------------

/// The rendering of each beat of a sequence.
pub open spec fn rendered(beats: Seq<Seq<SwarM>>) -> Seq<Seq<char>> {
    beats.map_values(|b: Seq<SwarM>| render_beat_m(b))
}

/// The canonicity flag never turns back on: if the final state is
/// canonical, so was every earlier state.
proof fn lemma_canon_monotone(
    entries: Seq<SwarTableEntry>,
    toks: Seq<Seq<char>>,
    st: (Seq<Seq<SwarM>>, bool),
    k: int,
)
    requires
        parse_tokens_from(entries, toks, st, k) is Ok,
        parse_tokens_from(entries, toks, st, k).unwrap().1,
    ensures
        st.1,
    decreases toks.len() - k,
{
    if !(k < 0 || k >= toks.len()) {
        let st1 = parse_token(entries, st, toks[k]).unwrap();
        lemma_canon_monotone(entries, toks, st1, k + 1);
        lemma_token_canon_monotone(entries, st, toks[k]);
    }
}

/// One token's step conjoins the flag, so a true output means a true
/// input.
proof fn lemma_token_canon_monotone(
    entries: Seq<SwarTableEntry>,
    st: (Seq<Seq<SwarM>>, bool),
    tok: Seq<char>,
)
    requires
        parse_token(entries, st, tok) is Ok,
        parse_token(entries, st, tok).unwrap().1,
    ensures
        st.1,
{
}

/// Rendering a beat of two or more swars does not look at the last
/// swar's duration.
proof fn lemma_render_last_units(b: Seq<SwarM>, u: int)
    requires
        b.len() >= 2,
    ensures
        render_beat_m(b.update(b.len() - 1, (b[b.len() - 1].0, u))) == render_beat_m(b),
{
    let b2 = b.update(b.len() - 1, (b[b.len() - 1].0, u));
    lemma_render_tail_last_units(b, u, 1);
    assert(crate::notation::swar_m_name(b2[0]) == crate::notation::swar_m_name(b[0]));
}

/// The tail rendering from any position ignores the last duration.
proof fn lemma_render_tail_last_units(b: Seq<SwarM>, u: int, k: int)
    requires
        b.len() >= 2,
        1 <= k,
    ensures
        crate::notation::render_beat_tail(b.update(b.len() - 1, (b[b.len() - 1].0, u)), k)
            == crate::notation::render_beat_tail(b, k),
    decreases b.len() - k,
{
    let b2 = b.update(b.len() - 1, (b[b.len() - 1].0, u));
    if k >= b.len() {
    } else {
        lemma_render_tail_last_units(b, u, k + 1);
        assert(crate::notation::beat_sep(b2[k - 1].1) == crate::notation::beat_sep(b[k - 1].1));
        assert(crate::notation::swar_m_name(b2[k]) == crate::notation::swar_m_name(b[k]));
    }
}

/// A canonical extension leaves every beat's rendering unchanged.
proof fn lemma_ext_render(beats: Seq<Seq<SwarM>>, i: int, inc: int)
    requires
        0 <= i < beats.len(),
        beats[i].len() > 0,
        crate::notation::ext_canonical(beats, i, inc),
        inc > 0,
    ensures
        rendered(extend_last_m(beats, i, inc)) == rendered(beats),
{
    let out = extend_last_m(beats, i, inc);
    let b = beats[i];
    let nb = b.update(b.len() - 1, (b[b.len() - 1].0, b[b.len() - 1].1 + inc));
    if b.len() >= 2 {
        lemma_render_last_units(b, b[b.len() - 1].1 + inc);
    } else {
        assert(b.len() == 1);
        assert(nb[0].0 == b[0].0);
        assert(crate::notation::swar_m_name(nb[0]) == crate::notation::swar_m_name(b[0]));
        if b[0].1 >= 20 {
            assert(render_beat_m_eq(nb, b));
        } else {
            assert(b[0].1 + inc < 20);
            assert(render_beat_m_eq(nb, b));
        }
    }
    assert(rendered(out) =~= rendered(beats));
}

/// Two beats render alike.
pub open spec fn render_beat_m_eq(a: Seq<SwarM>, b: Seq<SwarM>) -> bool {
    crate::notation::render_beat_m(a) == crate::notation::render_beat_m(b)
}

/// A beat without grace-note separators renders as its names joined by
/// `:`.
proof fn lemma_render_no_kan_tail(b: Seq<SwarM>, k: int)
    requires
        2 <= b.len(),
        1 <= k <= b.len(),
        forall|m: int| 0 <= m < b.len() - 1 ==> (#[trigger] b[m]).1 != 4,
    ensures
        crate::notation::swar_m_name(b[k - 1]) + crate::notation::render_beat_tail(b, k)
            == crate::notation::join_seq(names_of(b).skip(k - 1), ':'),
    decreases b.len() - k,
{
    let ns = names_of(b);
    if k == b.len() {
        assert(ns.skip(k - 1) =~= seq![ns[k - 1]]);
        assert(crate::notation::join_seq(seq![ns[k - 1]], ':') == ns[k - 1]);
        assert(crate::notation::render_beat_tail(b, k) =~= Seq::<char>::empty());
        assert(crate::notation::swar_m_name(b[k - 1]) + Seq::<char>::empty() =~= ns[k - 1]);
    } else {
        lemma_render_no_kan_tail(b, k + 1);
        assert(crate::notation::beat_sep(b[k - 1].1) == ':');
        assert(ns.skip(k - 1).drop_first() =~= ns.skip(k));
        assert(ns.skip(k - 1)[0] == ns[k - 1]);
        assert(ns.skip(k - 1).len() >= 2);
        assert(crate::notation::join_seq(ns.skip(k - 1), ':') == ns[k - 1] + seq![':']
            + crate::notation::join_seq(ns.skip(k), ':'));
        assert(crate::notation::render_beat_tail(b, k) == seq![crate::notation::beat_sep(b[k - 1].1)]
            + crate::notation::swar_m_name(b[k]) + crate::notation::render_beat_tail(b, k + 1));
        assert(crate::notation::swar_m_name(b[k - 1]) + crate::notation::render_beat_tail(b, k) =~= ns[k
            - 1] + seq![':'] + (crate::notation::swar_m_name(b[k]) + crate::notation::render_beat_tail(
            b,
            k + 1,
        )));
    }
}

/// The names of a beat's swars.
pub open spec fn names_of(b: Seq<SwarM>) -> Seq<Seq<char>> {
    b.map_values(|sw: SwarM| crate::notation::swar_m_name(sw))
}


/// The quarter-note image of a name part.
pub open spec fn quarter_of(p: Seq<char>) -> SwarM {
    (Some(p), 5 as int)
}

/// A four-way group without continuations appends exactly its parts as
/// quarter notes, in order.
proof fn lemma_quad_no_dash_shape(
    entries: Seq<SwarTableEntry>,
    beats: Seq<Seq<SwarM>>,
    parts: Seq<Seq<char>>,
    k: int,
    cur: Seq<SwarM>,
)
    requires
        0 <= k <= parts.len(),
        forall|m: int| 0 <= m < parts.len() ==> #[trigger] parts[m] != seq!['-'],
    ensures
        match parse_quad_parts(entries, beats, parts, k, cur) {
            Ok((b2, c2)) => b2 == beats && c2 == cur + parts.subrange(k, parts.len() as int).map_values(
                |p: Seq<char>| quarter_of(p),
            ),
            Err(_) => true,
        },
    decreases parts.len() - k,
{
    if k >= parts.len() {
        if parse_quad_parts(entries, beats, parts, k, cur) is Ok {
            assert(parts.subrange(k, parts.len() as int) =~= Seq::<Seq<char>>::empty());
            assert(cur + Seq::<Seq<char>>::empty().map_values(|p: Seq<char>| quarter_of(p)) =~= cur);
        }
    } else {
        match name_error(entries, parts[k]) {
            Some(_) => {},
            None => {
                lemma_quad_no_dash_shape(entries, beats, parts, k + 1, cur.push(quarter_of(parts[k])));
                if parse_quad_parts(entries, beats, parts, k, cur) is Ok {
                    assert(cur.push(quarter_of(parts[k])) + parts.subrange(k + 1, parts.len() as int).map_values(
                        |p: Seq<char>| quarter_of(p),
                    ) =~= cur + parts.subrange(k, parts.len() as int).map_values(
                        |p: Seq<char>| quarter_of(p),
                    ));
                }
            },
        }
    }
}

/// One canonically parsed token renders back to itself: the new beat's
/// rendering is the token, and every earlier beat's rendering is
/// unchanged.
#[verifier::rlimit(100)]
proof fn lemma_token_render(
    entries: Seq<SwarTableEntry>,
    beats: Seq<Seq<SwarM>>,
    tok: Seq<char>,
)
    requires
        parse_token(entries, (beats, true), tok) == Ok::<(Seq<Seq<SwarM>>, bool), crate::error::MusicError>(
            (parse_token(entries, (beats, true), tok).unwrap().0, true),
        ),
        parse_token(entries, (beats, true), tok) is Ok,
    ensures
        rendered(parse_token(entries, (beats, true), tok).unwrap().0) == rendered(beats).push(tok),
{
    let st2 = parse_token(entries, (beats, true), tok).unwrap();
    crate::notation::lemma_split_len(tok, ':');
    crate::notation::lemma_split_len(tok, '/');
    if tok == seq!['-'] {
        let i = last_nonempty_beat(beats).unwrap();
        lemma_last_nonempty_props(beats);
        lemma_ext_render(beats, i, 20);
        assert(render_beat_m(Seq::<SwarM>::empty()) == seq!['-']);
        assert(rendered(st2.0) =~= rendered(beats).push(tok));
    } else if tok.contains(':') {
        let parts = split_seq(tok, ':');
        crate::notation::lemma_join_split(tok, ':');
        if parts.len() == 2 {
            let a = parts[0];
            let b = parts[1];
            assert(parts.drop_first() =~= seq![b]);
            assert(crate::notation::join_seq(seq![b], ':') == b);
            assert(crate::notation::join_seq(parts, ':') == parts[0] + seq![':']
                + crate::notation::join_seq(parts.drop_first(), ':'));
            assert(crate::notation::join_seq(parts, ':') == a + seq![':'] + b);
            assert(tok == a + seq![':'] + b);
            if a == seq!['-'] {
                let i = last_nonempty_beat(beats).unwrap();
                lemma_last_nonempty_props(beats);
                lemma_ext_render(beats, i, 10);
                let nb = seq![(Some(b), 10 as int)];
                assert(render_beat_m(nb) == seq!['-', ':'] + b);
                assert(seq!['-', ':'] + b =~= a + seq![':'] + b);
                assert(rendered(st2.0) =~= rendered(beats).push(tok));
            } else if b == seq!['-'] {
                assert(false);
            } else if a.len() == 0 {
                let nb = seq![(None::<Seq<char>>, 10 as int), (Some(b), 10 as int)];
                assert(render_beat_m(nb) == crate::notation::swar_m_name(nb[0])
                    + crate::notation::render_beat_tail(nb, 1));
                assert(crate::notation::render_beat_tail(nb, 1) == seq![':'] + b
                    + crate::notation::render_beat_tail(nb, 2));
                assert(crate::notation::render_beat_tail(nb, 2) =~= Seq::<char>::empty());
                assert(render_beat_m(nb) =~= a + seq![':'] + b);
                assert(rendered(st2.0) =~= rendered(beats).push(tok));
            } else if b.len() == 0 {
                let nb = seq![(Some(a), 10 as int), (None::<Seq<char>>, 10 as int)];
                assert(render_beat_m(nb) == crate::notation::swar_m_name(nb[0])
                    + crate::notation::render_beat_tail(nb, 1));
                assert(crate::notation::render_beat_tail(nb, 1) == seq![':']
                    + crate::notation::swar_m_name(nb[1]) + crate::notation::render_beat_tail(nb, 2));
                assert(crate::notation::render_beat_tail(nb, 2) =~= Seq::<char>::empty());
                assert(render_beat_m(nb) =~= a + seq![':'] + b);
                assert(rendered(st2.0) =~= rendered(beats).push(tok));
            } else {
                let nb = seq![(Some(a), 10 as int), (Some(b), 10 as int)];
                assert(render_beat_m(nb) == crate::notation::swar_m_name(nb[0])
                    + crate::notation::render_beat_tail(nb, 1));
                assert(crate::notation::render_beat_tail(nb, 1) == seq![':'] + b
                    + crate::notation::render_beat_tail(nb, 2));
                assert(crate::notation::render_beat_tail(nb, 2) =~= Seq::<char>::empty());
                assert(render_beat_m(nb) =~= a + seq![':'] + b);
                assert(rendered(st2.0) =~= rendered(beats).push(tok));
            }
        } else {
            assert(parts.len() == 4);
            lemma_quad_no_dash_shape(entries, beats, parts, 0, Seq::<SwarM>::empty());
            let quarters = parts.map_values(|p: Seq<char>| quarter_of(p));
            let cur = parse_quad_parts(entries, beats, parts, 0, Seq::<SwarM>::empty()).unwrap().1;
            assert(cur =~= parts.subrange(0, 4).map_values(|p: Seq<char>| quarter_of(p)));
            assert(parts.subrange(0, 4) =~= parts);
            assert(cur.len() == 4);
            assert(forall|m: int| 0 <= m < 4 ==> #[trigger] cur[m] == quarter_of(parts[m]));
            assert(forall|m: int| 0 <= m < 3 ==> (#[trigger] cur[m]).1 != 4);
            lemma_render_no_kan_tail(cur, 1);
            assert(names_of(cur) =~= parts);
            assert(crate::notation::swar_m_name(cur[0]) == names_of(cur)[0]);
            assert(names_of(cur).skip(0) =~= names_of(cur));
            assert(render_beat_m(cur) == crate::notation::swar_m_name(cur[0])
                + crate::notation::render_beat_tail(cur, 1));
            assert(render_beat_m(cur) == crate::notation::join_seq(names_of(cur), ':'));
            assert(render_beat_m(cur) == tok);
            assert(rendered(st2.0) =~= rendered(beats).push(tok));
        }
    } else if tok.contains('/') {
        let parts = split_seq(tok, '/');
        crate::notation::lemma_join_split(tok, '/');
        let a = parts[0];
        let b = parts[1];
        assert(parts.len() == 2);
        assert(parts.drop_first() =~= seq![b]);
        assert(crate::notation::join_seq(seq![b], '/') == b);
        assert(crate::notation::join_seq(parts, '/') == parts[0] + seq!['/']
            + crate::notation::join_seq(parts.drop_first(), '/'));
        assert(crate::notation::join_seq(parts, '/') == a + seq!['/'] + b);
        let nb = seq![(Some(a), 4 as int), (Some(b), 16 as int)];
        assert(render_beat_m(nb) == crate::notation::swar_m_name(nb[0])
            + crate::notation::render_beat_tail(nb, 1));
        assert(crate::notation::render_beat_tail(nb, 1) == seq![crate::notation::beat_sep(4)] + b
            + crate::notation::render_beat_tail(nb, 2));
        assert(crate::notation::render_beat_tail(nb, 2) =~= Seq::<char>::empty());
        assert(render_beat_m(nb) =~= a + seq!['/'] + b);
        assert(rendered(st2.0) =~= rendered(beats).push(tok));
    } else {
        let nb = seq![(Some(tok), 20 as int)];
        assert(render_beat_m(nb) == tok);
        assert(rendered(st2.0) =~= rendered(beats).push(tok));
    }
}

/// The induction behind the round-trip law: parsing canonically from
/// state `st` and rendering gives the already-rendered prefix followed
/// by the remaining tokens.
proof fn lemma_render_parse(
    entries: Seq<SwarTableEntry>,
    toks: Seq<Seq<char>>,
    beats: Seq<Seq<SwarM>>,
    k: int,
)
    requires
        0 <= k <= toks.len(),
        parse_tokens_from(entries, toks, (beats, true), k) is Ok,
        parse_tokens_from(entries, toks, (beats, true), k).unwrap().1,
    ensures
        rendered(parse_tokens_from(entries, toks, (beats, true), k).unwrap().0) == rendered(beats)
            + toks.skip(k),
    decreases toks.len() - k,
{
    if k >= toks.len() {
        assert(toks.skip(k) =~= Seq::<Seq<char>>::empty());
        assert(rendered(beats) + toks.skip(k) =~= rendered(beats));
    } else {
        let st1 = parse_token(entries, (beats, true), toks[k]).unwrap();
        lemma_canon_monotone(entries, toks, st1, k + 1);
        assert(st1.1);
        lemma_token_render(entries, beats, toks[k]);
        lemma_render_parse(entries, toks, st1.0, k + 1);
        assert(parse_tokens_from(entries, toks, st1, k + 1) == parse_tokens_from(
            entries,
            toks,
            (st1.0, true),
            k + 1,
        ));
        assert(rendered(beats).push(toks[k]) + toks.skip(k + 1) =~= rendered(beats) + toks.skip(k));
    }
}

/// Round-trip: every canonical notation string renders back to itself
/// after parsing.  The canonicity flag of `parse_spec` marks exactly
/// the strings whose continuations and groupings the renderer can
/// reproduce.
pub proof fn lemma_round_trip(entries: Seq<SwarTableEntry>, s: Seq<char>)
    requires
        parse_spec(entries, s) is Ok,
        parse_spec(entries, s).unwrap().1,
    ensures
        crate::notation::render_beats_m(parse_spec(entries, s).unwrap().0) == s,
{
    let toks = split_seq(s, ' ');
    lemma_render_parse(entries, toks, Seq::<Seq<SwarM>>::empty(), 0);
    assert(rendered(Seq::<Seq<SwarM>>::empty()) =~= Seq::<Seq<char>>::empty());
    assert(toks.skip(0) =~= toks);
    assert(rendered(Seq::<Seq<SwarM>>::empty()) + toks =~= toks);
    crate::notation::lemma_join_split(s, ' ');
    let beats = parse_spec(entries, s).unwrap().0;
    assert(rendered(beats) == toks);
    assert(beats.map_values(|b: Seq<SwarM>| render_beat_m(b)) =~= rendered(beats));
    assert(crate::notation::render_beats_m(beats) == crate::notation::join_seq(toks, ' '));
}


/// The round-trip law over a stored phrase: a phrase parsed from a
/// canonical notation string renders back to that string (trimmed of
/// outer spaces) through the model the parser's and renderer's
/// contracts share.
pub proof fn lemma_round_trip_block(
    entries: Seq<SwarTableEntry>,
    s: Seq<char>,
    bv: Seq<Seq<Swar>>,
)
    requires
        parse_spec(entries, crate::notation::trim_spec(s)) is Ok,
        parse_spec(entries, crate::notation::trim_spec(s)).unwrap().1,
        crate::notation::beats_model(bv) == parse_spec(entries, crate::notation::trim_spec(s)).unwrap().0,
    ensures
        crate::notation::render_beats_m(crate::notation::beats_model(bv)) == crate::notation::trim_spec(s),
{
    lemma_round_trip(entries, crate::notation::trim_spec(s));
}

} // verus!
