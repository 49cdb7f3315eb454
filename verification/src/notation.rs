use vstd::prelude::*;

use crate::error::MusicError;
use crate::pitch::{resolve_spec, Pitch, SwarTable, SwarTableEntry};
use crate::swar::Swar;
use crate::swarbeat::SwarBeat;
use crate::swarblock::{beats_view, extend_last_swar, last_nonempty_beat, lemma_last_nonempty_props};

verus! {

/// The mathematical image of one swar: the pitch name (or `None` for
/// silence) and the duration in beat units.
pub type SwarM = (Option<Seq<char>>, int);

/// The image of a stored swar.
pub open spec fn swar_model(sw: Swar) -> SwarM {
    (
        match sw.pitch {
            Some(p) => Some(p@),
            None => None,
        },
        sw.beat_units as int,
    )
}

/// The image of one beat.
pub open spec fn beat_model(b: Seq<Swar>) -> Seq<SwarM> {
    b.map_values(|sw: Swar| swar_model(sw))
}

/// The image of a beat sequence.
pub open spec fn beats_model(bb: Seq<Seq<Swar>>) -> Seq<Seq<SwarM>> {
    bb.map_values(|b: Seq<Swar>| beat_model(b))
}

/// Split a character sequence at every occurrence of `sep`.  The result
/// always has one more part than there are separators; empty parts stand
/// for leading, trailing or doubled separators.
pub open spec fn split_seq(s: Seq<char>, sep: char) -> Seq<Seq<char>>
    decreases s.len(),
{
    if s.len() == 0 {
        seq![Seq::<char>::empty()]
    } else if s[0] == sep {
        seq![Seq::<char>::empty()] + split_seq(s.drop_first(), sep)
    } else {
        let rest = split_seq(s.drop_first(), sep);
        seq![seq![s[0]] + rest[0]] + rest.drop_first()
    }
}

/// Join parts with a separator between consecutive parts.
pub open spec fn join_seq(parts: Seq<Seq<char>>, sep: char) -> Seq<char>
    decreases parts.len(),
{
    if parts.len() == 0 {
        Seq::empty()
    } else if parts.len() == 1 {
        parts[0]
    } else {
        parts[0] + seq![sep] + join_seq(parts.drop_first(), sep)
    }
}

/// Splitting always yields at least one part.
pub proof fn lemma_split_len(s: Seq<char>, sep: char)
    ensures
        split_seq(s, sep).len() >= 1,
    decreases s.len(),
{
    if s.len() > 0 {
        lemma_split_len(s.drop_first(), sep);
    }
}

/// Joining the parts of a split gives back the original sequence.
pub proof fn lemma_join_split(s: Seq<char>, sep: char)
    ensures
        join_seq(split_seq(s, sep), sep) == s,
    decreases s.len(),
{
    lemma_split_len(s, sep);
    if s.len() == 0 {
    } else {
        lemma_join_split(s.drop_first(), sep);
        lemma_split_len(s.drop_first(), sep);
        if s[0] == sep {
            let parts = seq![Seq::<char>::empty()] + split_seq(s.drop_first(), sep);
            assert(parts.drop_first() =~= split_seq(s.drop_first(), sep));
            assert(parts[0] + seq![sep] + join_seq(parts.drop_first(), sep) =~= s);
        } else {
            let rest = split_seq(s.drop_first(), sep);
            let parts = seq![seq![s[0]] + rest[0]] + rest.drop_first();
            if rest.len() == 1 {
                assert(parts.len() == 1);
                assert(join_seq(rest, sep) == rest[0]);
                assert(parts[0] =~= seq![s[0]] + join_seq(rest, sep));
                assert(seq![s[0]] + s.drop_first() =~= s);
            } else {
                assert(parts.drop_first() =~= rest.drop_first());
                assert(join_seq(parts, sep) == parts[0] + seq![sep] + join_seq(rest.drop_first(), sep));
                assert(join_seq(rest, sep) == rest[0] + seq![sep] + join_seq(rest.drop_first(), sep));
                assert(parts[0] + seq![sep] + join_seq(rest.drop_first(), sep) =~= seq![s[0]] + join_seq(rest, sep));
                assert(seq![s[0]] + s.drop_first() =~= s);
            }
        }
    }
}

/// The grammar error of a pitch-name part, if any: empty or `-` parts
/// break the grammar, and a name that the table does not resolve is a
/// lookup failure.
pub open spec fn name_error(entries: Seq<SwarTableEntry>, p: Seq<char>) -> Option<MusicError> {
    if p.len() == 0 || p == seq!['-'] {
        Some(MusicError::Parse)
    } else if resolve_spec(entries, p) is None {
        Some(MusicError::Lookup)
    } else {
        None
    }
}

/// `beats` with the duration of the last swar of beat `i` grown by `inc`.
pub open spec fn extend_last_m(beats: Seq<Seq<SwarM>>, i: int, inc: int) -> Seq<Seq<SwarM>> {
    let b = beats[i];
    let j = b.len() - 1;
    beats.update(i, b.update(j, (b[j].0, b[j].1 + inc)))
}

/// Whether extending the last swar of beat `i` keeps the beat rendering
/// as the token that produced it: the beat either holds several swars
/// (the token text does not depend on the last duration), or its single
/// swar already fills a whole beat, or it stays below one beat.
pub open spec fn ext_canonical(beats: Seq<Seq<SwarM>>, i: int, inc: int) -> bool {
    let b = beats[i];
    b.len() >= 2 || b[b.len() - 1].1 >= 20 || b[b.len() - 1].1 + inc < 20
}

/// Apply one continuation quarter inside a `A:B:C:D` group: it extends
/// the nearest preceding swar, first within the beat under construction,
/// then in the last non-empty completed beat.
pub open spec fn extend_for_continuation(
    beats: Seq<Seq<SwarM>>,
    cur: Seq<SwarM>,
    inc: int,
) -> Result<(Seq<Seq<SwarM>>, Seq<SwarM>), MusicError> {
    if cur.len() > 0 {
        Ok((beats, cur.update(cur.len() - 1, (cur[cur.len() - 1].0, cur[cur.len() - 1].1 + inc))))
    } else {
        match last_nonempty_beat(beats) {
            Some(i) => Ok((extend_last_m(beats, i, inc), cur)),
            None => Err(MusicError::Structure),
        }
    }
}

/// Parse the parts of a four-way `A:B:C:D` group from position `k` on,
/// each part a quarter-beat name or a `-` continuation.
pub open spec fn parse_quad_parts(
    entries: Seq<SwarTableEntry>,
    beats: Seq<Seq<SwarM>>,
    parts: Seq<Seq<char>>,
    k: int,
    cur: Seq<SwarM>,
) -> Result<(Seq<Seq<SwarM>>, Seq<SwarM>), MusicError>
    decreases parts.len() - k,
{
    if k < 0 || k >= parts.len() {
        Ok((beats, cur))
    } else if parts[k] == seq!['-'] {
        match extend_for_continuation(beats, cur, 5) {
            Ok((b2, c2)) => parse_quad_parts(entries, b2, parts, k + 1, c2),
            Err(e) => Err(e),
        }
    } else {
        match name_error(entries, parts[k]) {
            Some(e) => Err(e),
            None => parse_quad_parts(entries, beats, parts, k + 1, cur.push((Some(parts[k]), 5))),
        }
    }
}

/// A four-way group renders back to its token only when it contains no
/// continuation part.
pub open spec fn quad_canonical(parts: Seq<Seq<char>>) -> bool {
    forall|k: int| 0 <= k < parts.len() ==> #[trigger] parts[k] != seq!['-']
}

/// Parse a two-part `A:B` token against the current state.
pub open spec fn parse_half_pair(
    entries: Seq<SwarTableEntry>,
    beats: Seq<Seq<SwarM>>,
    canon: bool,
    a: Seq<char>,
    b: Seq<char>,
) -> Result<(Seq<Seq<SwarM>>, bool), MusicError> {
    if a == seq!['-'] {
        match name_error(entries, b) {
            Some(e) => Err(e),
            None => match last_nonempty_beat(beats) {
                Some(i) => Ok(
                    (
                        extend_last_m(beats, i, 10).push(seq![(Some(b), 10 as int)]),
                        canon && ext_canonical(beats, i, 10),
                    ),
                ),
                None => Err(MusicError::Structure),
            },
        }
    } else if b == seq!['-'] {
        match name_error(entries, a) {
            Some(e) => Err(e),
            None => Ok((beats.push(seq![(Some(a), 20 as int)]), false)),
        }
    } else if a.len() == 0 && b.len() == 0 {
        Err(MusicError::Parse)
    } else if a.len() == 0 {
        match name_error(entries, b) {
            Some(e) => Err(e),
            None => Ok((beats.push(seq![(None, 10 as int), (Some(b), 10 as int)]), canon)),
        }
    } else if b.len() == 0 {
        match name_error(entries, a) {
            Some(e) => Err(e),
            None => Ok((beats.push(seq![(Some(a), 10 as int), (None, 10 as int)]), canon)),
        }
    } else {
        match name_error(entries, a) {
            Some(e) => Err(e),
            None => match name_error(entries, b) {
                Some(e) => Err(e),
                None => Ok(
                    (beats.push(seq![(Some(a), 10 as int), (Some(b), 10 as int)]), canon),
                ),
            },
        }
    }
}

/// Parse one space-separated token against the current state: the beats
/// built so far and whether they still render back to the consumed
/// tokens.
pub open spec fn parse_token(
    entries: Seq<SwarTableEntry>,
    st: (Seq<Seq<SwarM>>, bool),
    tok: Seq<char>,
) -> Result<(Seq<Seq<SwarM>>, bool), MusicError> {
    let beats = st.0;
    let canon = st.1;
    if tok == seq!['-'] {
        match last_nonempty_beat(beats) {
            Some(i) => Ok(
                (
                    extend_last_m(beats, i, 20).push(Seq::<SwarM>::empty()),
                    canon && ext_canonical(beats, i, 20),
                ),
            ),
            None => Err(MusicError::Structure),
        }
    } else if tok.contains(':') {
        let parts = split_seq(tok, ':');
        if parts.len() == 2 {
            parse_half_pair(entries, beats, canon, parts[0], parts[1])
        } else if parts.len() == 4 {
            match parse_quad_parts(entries, beats, parts, 0, Seq::<SwarM>::empty()) {
                Ok((b2, cur)) => Ok((b2.push(cur), canon && quad_canonical(parts))),
                Err(e) => Err(e),
            }
        } else {
            Err(MusicError::Parse)
        }
    } else if tok.contains('/') {
        let parts = split_seq(tok, '/');
        if parts.len() == 2 {
            match name_error(entries, parts[0]) {
                Some(e) => Err(e),
                None => match name_error(entries, parts[1]) {
                    Some(e) => Err(e),
                    None => Ok(
                        (
                            beats.push(seq![(Some(parts[0]), 4 as int), (Some(parts[1]), 16 as int)]),
                            canon,
                        ),
                    ),
                },
            }
        } else {
            Err(MusicError::Parse)
        }
    } else {
        match name_error(entries, tok) {
            Some(e) => Err(e),
            None => Ok((beats.push(seq![(Some(tok), 20 as int)]), canon)),
        }
    }
}

/// Fold `parse_token` over the tokens from position `k` on.
pub open spec fn parse_tokens_from(
    entries: Seq<SwarTableEntry>,
    toks: Seq<Seq<char>>,
    st: (Seq<Seq<SwarM>>, bool),
    k: int,
) -> Result<(Seq<Seq<SwarM>>, bool), MusicError>
    decreases toks.len() - k,
{
    if k < 0 || k >= toks.len() {
        Ok(st)
    } else {
        match parse_token(entries, st, toks[k]) {
            Ok(st2) => parse_tokens_from(entries, toks, st2, k + 1),
            Err(e) => Err(e),
        }
    }
}

/// The meaning of a whole notation string: the beats it denotes, or the
/// first error, together with the canonicity flag used by the round-trip
/// law.
pub open spec fn parse_spec(entries: Seq<SwarTableEntry>, s: Seq<char>) -> Result<
    (Seq<Seq<SwarM>>, bool),
    MusicError,
> {
    parse_tokens_from(entries, split_seq(s, ' '), (Seq::<Seq<SwarM>>::empty(), true), 0)
}

/// What the renderer prints for one swar: its name, or nothing for
/// silence.
pub open spec fn swar_m_name(sw: SwarM) -> Seq<char> {
    match sw.0 {
        Some(n) => n,
        None => Seq::empty(),
    }
}

/// The separator printed before a swar: `/` after a grace note, `:`
/// otherwise.
pub open spec fn beat_sep(u: int) -> char {
    if u == 4 {
        '/'
    } else {
        ':'
    }
}

/// The rendering of the swars of a beat from position `k` on, each with
/// its separator.
pub open spec fn render_beat_tail(b: Seq<SwarM>, k: int) -> Seq<char>
    decreases b.len() - k,
{
    if k < 1 || k >= b.len() {
        Seq::empty()
    } else {
        seq![beat_sep(b[k - 1].1)] + swar_m_name(b[k]) + render_beat_tail(b, k + 1)
    }
}

/// The rendering of one beat: `-` for an empty continuation beat, the
/// bare name for a whole-beat swar, `-:name` for a lone sub-beat swar,
/// and separator-joined names otherwise.
pub open spec fn render_beat_m(b: Seq<SwarM>) -> Seq<char> {
    if b.len() == 0 {
        seq!['-']
    } else if b.len() == 1 {
        if b[0].1 < 20 {
            seq!['-', ':'] + swar_m_name(b[0])
        } else {
            swar_m_name(b[0])
        }
    } else {
        swar_m_name(b[0]) + render_beat_tail(b, 1)
    }
}

/// The rendering of a beat sequence: beat renderings joined by single
/// spaces.
pub open spec fn render_beats_m(beats: Seq<Seq<SwarM>>) -> Seq<char> {
    join_seq(beats.map_values(|b: Seq<SwarM>| render_beat_m(b)), ' ')
}

/// The total duration of the swars of one beat, in beat units.
pub open spec fn beat_sum_m(b: Seq<SwarM>) -> int
    decreases b.len(),
{
    if b.len() == 0 {
        0
    } else {
        b[0].1 + beat_sum_m(b.drop_first())
    }
}

/// The total duration over a sequence of beats, in beat units.
pub open spec fn total_units_m(beats: Seq<Seq<SwarM>>) -> int
    decreases beats.len(),
{
    if beats.len() == 0 {
        0
    } else {
        beat_sum_m(beats[0]) + total_units_m(beats.drop_first())
    }
}

/// All durations of one beat are non-negative.
pub open spec fn nonneg_beat_m(b: Seq<SwarM>) -> bool {
    forall|j: int| 0 <= j < b.len() ==> (#[trigger] b[j]).1 >= 0
}

/// All durations of all beats are non-negative.
pub open spec fn nonneg_m(beats: Seq<Seq<SwarM>>) -> bool {
    forall|i: int| 0 <= i < beats.len() ==> nonneg_beat_m(#[trigger] beats[i])
}

pub proof fn lemma_beat_sum_push(b: Seq<SwarM>, sw: SwarM)
    ensures
        beat_sum_m(b.push(sw)) == beat_sum_m(b) + sw.1,
    decreases b.len(),
{
    assert(b.push(sw)[0] == if b.len() == 0 { sw } else { b[0] });
    assert(beat_sum_m(b.push(sw)) == b.push(sw)[0].1 + beat_sum_m(b.push(sw).drop_first()));
    if b.len() == 0 {
        assert(b.push(sw).drop_first() =~= Seq::<SwarM>::empty());
        assert(beat_sum_m(Seq::<SwarM>::empty()) == 0);
    } else {
        assert(b.push(sw).drop_first() =~= b.drop_first().push(sw));
        lemma_beat_sum_push(b.drop_first(), sw);
    }
}

pub proof fn lemma_beat_sum_update(b: Seq<SwarM>, j: int, sw: SwarM)
    requires
        0 <= j < b.len(),
    ensures
        beat_sum_m(b.update(j, sw)) == beat_sum_m(b) - b[j].1 + sw.1,
    decreases b.len(),
{
    if j == 0 {
        assert(b.update(0, sw).drop_first() =~= b.drop_first());
    } else {
        assert(b.update(j, sw).drop_first() =~= b.drop_first().update(j - 1, sw));
        lemma_beat_sum_update(b.drop_first(), j - 1, sw);
    }
}

pub proof fn lemma_beat_sum_one(x: SwarM)
    ensures
        beat_sum_m(seq![x]) == x.1,
{
    assert(seq![x].drop_first() =~= Seq::<SwarM>::empty());
    assert(beat_sum_m(seq![x]) == x.1 + beat_sum_m(Seq::<SwarM>::empty()));
}

pub proof fn lemma_beat_sum_two(x: SwarM, y: SwarM)
    ensures
        beat_sum_m(seq![x, y]) == x.1 + y.1,
{
    assert(seq![x, y].drop_first() =~= seq![y]);
    lemma_beat_sum_one(y);
    assert(beat_sum_m(seq![x, y]) == x.1 + beat_sum_m(seq![x, y].drop_first()));
}

/// Each duration is at most the sum of its beat, when all are
/// non-negative.
pub proof fn lemma_beat_elem_le_sum(b: Seq<SwarM>, j: int)
    requires
        nonneg_beat_m(b),
        0 <= j < b.len(),
    ensures
        b[j].1 <= beat_sum_m(b),
        beat_sum_m(b) >= 0,
    decreases b.len(),
{
    lemma_beat_sum_nonneg(b.drop_first());
    if j > 0 {
        assert(nonneg_beat_m(b.drop_first())) by {
            assert(forall|k: int| 0 <= k < b.len() - 1 ==> #[trigger] b.drop_first()[k] == b[k + 1]);
        }
        lemma_beat_elem_le_sum(b.drop_first(), j - 1);
    }
}

pub proof fn lemma_beat_sum_nonneg(b: Seq<SwarM>)
    requires
        nonneg_beat_m(b),
    ensures
        beat_sum_m(b) >= 0,
    decreases b.len(),
{
    if b.len() > 0 {
        assert(nonneg_beat_m(b.drop_first())) by {
            assert(forall|k: int| 0 <= k < b.len() - 1 ==> #[trigger] b.drop_first()[k] == b[k + 1]);
        }
        lemma_beat_sum_nonneg(b.drop_first());
    }
}

pub proof fn lemma_total_push(beats: Seq<Seq<SwarM>>, b: Seq<SwarM>)
    ensures
        total_units_m(beats.push(b)) == total_units_m(beats) + beat_sum_m(b),
    decreases beats.len(),
{
    assert(beats.push(b)[0] == if beats.len() == 0 { b } else { beats[0] });
    assert(total_units_m(beats.push(b)) == beat_sum_m(beats.push(b)[0]) + total_units_m(
        beats.push(b).drop_first(),
    ));
    if beats.len() == 0 {
        assert(beats.push(b).drop_first() =~= Seq::<Seq<SwarM>>::empty());
        assert(total_units_m(Seq::<Seq<SwarM>>::empty()) == 0);
    } else {
        assert(beats.push(b).drop_first() =~= beats.drop_first().push(b));
        lemma_total_push(beats.drop_first(), b);
    }
}

pub proof fn lemma_total_update(beats: Seq<Seq<SwarM>>, i: int, b: Seq<SwarM>)
    requires
        0 <= i < beats.len(),
    ensures
        total_units_m(beats.update(i, b)) == total_units_m(beats) - beat_sum_m(beats[i]) + beat_sum_m(b),
    decreases beats.len(),
{
    if i == 0 {
        assert(beats.update(0, b).drop_first() =~= beats.drop_first());
    } else {
        assert(beats.update(i, b).drop_first() =~= beats.drop_first().update(i - 1, b));
        lemma_total_update(beats.drop_first(), i - 1, b);
    }
}

/// Each beat's sum is at most the total, when all durations are
/// non-negative.
pub proof fn lemma_beat_le_total(beats: Seq<Seq<SwarM>>, i: int)
    requires
        nonneg_m(beats),
        0 <= i < beats.len(),
    ensures
        beat_sum_m(beats[i]) <= total_units_m(beats),
        total_units_m(beats) >= 0,
    decreases beats.len(),
{
    assert(nonneg_m(beats.drop_first())) by {
        assert(forall|k: int| 0 <= k < beats.len() - 1 ==> #[trigger] beats.drop_first()[k] == beats[k + 1]);
    }
    lemma_total_nonneg(beats.drop_first());
    lemma_beat_sum_nonneg(beats[0]);
    if i > 0 {
        lemma_beat_le_total(beats.drop_first(), i - 1);
    }
}

pub proof fn lemma_total_nonneg(beats: Seq<Seq<SwarM>>)
    requires
        nonneg_m(beats),
    ensures
        total_units_m(beats) >= 0,
    decreases beats.len(),
{
    if beats.len() > 0 {
        assert(nonneg_m(beats.drop_first())) by {
            assert(forall|k: int| 0 <= k < beats.len() - 1 ==> #[trigger] beats.drop_first()[k] == beats[k + 1]);
        }
        lemma_beat_sum_nonneg(beats[0]);
        lemma_total_nonneg(beats.drop_first());
    }
}

/// `last_nonempty_beat` sees only beat lengths, so it agrees between a
/// beat sequence and its model image.
pub proof fn lemma_last_nonempty_model(bb: Seq<Seq<Swar>>)
    ensures
        last_nonempty_beat(beats_model(bb)) == last_nonempty_beat(bb),
    decreases bb.len(),
{
    if bb.len() > 0 {
        assert(beats_model(bb).last() == beat_model(bb.last()));
        if bb.last().len() == 0 {
            assert(beats_model(bb).drop_last() =~= beats_model(bb.drop_last()));
            lemma_last_nonempty_model(bb.drop_last());
        }
    }
}

/// Extending the last swar of a beat commutes with taking the model.
pub proof fn lemma_extend_model(bb: Seq<Seq<Swar>>, i: int, inc: int)
    requires
        0 <= i < bb.len(),
        bb[i].len() > 0,
        0 <= inc,
        bb[i][bb[i].len() - 1].beat_units + inc <= u32::MAX,
    ensures
        beats_model(crate::swarblock::extend_last_spec(bb, i, inc)) == extend_last_m(
            beats_model(bb),
            i,
            inc,
        ),
{
    let lhs = beats_model(crate::swarblock::extend_last_spec(bb, i, inc));
    let rhs = extend_last_m(beats_model(bb), i, inc);
    assert(beats_model(bb)[i] == beat_model(bb[i]));
    assert(beat_model(bb[i]).len() == bb[i].len());
    assert(lhs =~~= rhs);
}

/// The number of leading spaces of a character sequence.
pub open spec fn leading_spaces(s: Seq<char>) -> int
    decreases s.len(),
{
    if s.len() == 0 || s[0] != ' ' {
        0
    } else {
        1 + leading_spaces(s.drop_first())
    }
}

/// The number of trailing spaces of a character sequence.
pub open spec fn trailing_spaces(s: Seq<char>) -> int
    decreases s.len(),
{
    if s.len() == 0 || s.last() != ' ' {
        0
    } else {
        1 + trailing_spaces(s.drop_last())
    }
}

/// `s` with leading and trailing spaces removed.
pub open spec fn trim_spec(s: Seq<char>) -> Seq<char> {
    if leading_spaces(s) == s.len() {
        Seq::empty()
    } else {
        s.subrange(leading_spaces(s), s.len() - trailing_spaces(s))
    }
}

proof fn lemma_leading_spaces(s: Seq<char>)
    ensures
        0 <= leading_spaces(s) <= s.len(),
        forall|k: int| 0 <= k < leading_spaces(s) ==> s[k] == ' ',
        leading_spaces(s) < s.len() ==> s[leading_spaces(s)] != ' ',
    decreases s.len(),
{
    if s.len() > 0 && s[0] == ' ' {
        lemma_leading_spaces(s.drop_first());
        assert forall|k: int| 0 <= k < leading_spaces(s) implies s[k] == ' ' by {
            if k > 0 {
                assert(s.drop_first()[k - 1] == ' ');
            }
        }
    }
}

proof fn lemma_trailing_spaces(s: Seq<char>)
    ensures
        0 <= trailing_spaces(s) <= s.len(),
        forall|k: int| s.len() - trailing_spaces(s) <= k < s.len() ==> s[k] == ' ',
        trailing_spaces(s) < s.len() ==> s[s.len() - 1 - trailing_spaces(s)] != ' ',
    decreases s.len(),
{
    if s.len() > 0 && s.last() == ' ' {
        lemma_trailing_spaces(s.drop_last());
        assert forall|k: int| s.len() - trailing_spaces(s) <= k < s.len() implies s[k] == ' ' by {
            if k < s.len() - 1 {
                assert(s.drop_last()[k] == ' ');
                assert(s[k] == s.drop_last()[k]);
            }
        }
    }
}

/// A non-blank sequence has a non-space character between its leading
/// and trailing space runs.
proof fn lemma_trim_bounds(s: Seq<char>)
    requires
        leading_spaces(s) < s.len(),
    ensures
        leading_spaces(s) + trailing_spaces(s) < s.len(),
{
    lemma_leading_spaces(s);
    lemma_trailing_spaces(s);
    if leading_spaces(s) + trailing_spaces(s) >= s.len() {
        assert(s[leading_spaces(s)] == ' ');
    }
}

/// Remove leading and trailing spaces.
pub fn trim_str(s: &str) -> (r: String)
    ensures
        r@ == trim_spec(s@),
{
    proof {
        lemma_leading_spaces(s@);
        lemma_trailing_spaces(s@);
    }
    let n = s.unicode_len();
    let mut lead: usize = 0;
    while lead < n && s.get_char(lead) == ' '
        invariant
            n == s@.len(),
            lead <= n,
            lead <= leading_spaces(s@),
        decreases n - lead,
    {
        proof {
            lemma_leading_spaces(s@);
            if lead + 1 > leading_spaces(s@) {
                assert(s@[leading_spaces(s@)] == ' ');
            }
        }
        lead = lead + 1;
    }
    proof {
        lemma_leading_spaces(s@);
        assert(lead == leading_spaces(s@));
    }
    if lead == n {
        return String::new();
    }
    proof {
        lemma_trim_bounds(s@);
    }
    let mut trail: usize = 0;
    while s.get_char(n - 1 - trail) == ' '
        invariant
            n == s@.len(),
            leading_spaces(s@) == lead < n,
            leading_spaces(s@) + trailing_spaces(s@) < n,
            trail <= trailing_spaces(s@),
        decreases n - trail,
    {
        proof {
            lemma_trailing_spaces(s@);
            if trail + 1 > trailing_spaces(s@) {
                assert(s@[n - 1 - trailing_spaces(s@)] != ' ');
                assert(n - 1 - trail >= n - trailing_spaces(s@));
            }
        }
        trail = trail + 1;
    }
    proof {
        lemma_trailing_spaces(s@);
        assert(trail == trailing_spaces(s@));
    }
    let r = s.substring_char(lead, n - trail).to_owned();
    r
}

/// Whether `c` occurs in `s`.
pub fn str_contains_char(s: &str, c: char) -> (r: bool)
    ensures
        r == s@.contains(c),
{
    let n = s.unicode_len();
    for i in 0..n
        invariant
            n == s@.len(),
            forall|k: int| 0 <= k < i ==> s@[k] != c,
    {
        if s.get_char(i) == c {
            assert(s@.contains(c));
            return true;
        }
    }
    assert(!s@.contains(c)) by {
        if s@.contains(c) {
            let k = choose|k: int| 0 <= k < s@.len() && s@[k] == c;
        }
    }
    false
}

/// Whether `s` is the one-character sequence `c`.
pub fn str_is_char(s: &str, c: char) -> (r: bool)
    ensures
        r == (s@ == seq![c]),
{
    let n = s.unicode_len();
    if n == 1 {
        if s.get_char(0) == c {
            proof {
                assert(s@ =~= seq![c]);
            }
            true
        } else {
            proof {
                assert(s@ != seq![c]);
            }
            false
        }
    } else {
        proof {
            assert(s@ != seq![c]);
        }
        false
    }
}

/// The largest `p` in `[from, n)` such that nothing in `[from, p)` is a
/// separator; `p` points at the first separator at or after `from`, or
/// at the end.
fn find_char_from(s: &str, sep: char, from: usize) -> (p: usize)
    requires
        from <= s@.len(),
    ensures
        from <= p <= s@.len(),
        forall|k: int| from <= k < p ==> s@[k] != sep,
        p < s@.len() ==> s@[p as int] == sep,
{
    let n = s.unicode_len();
    let mut p = from;
    while p < n
        invariant
            n == s@.len(),
            from <= p <= n,
            forall|k: int| from <= k < p ==> s@[k] != sep,
        decreases n - p,
    {
        if s.get_char(p) == sep {
            return p;
        }
        p = p + 1;
    }
    p
}

/// One step of splitting: a separator-free prefix of length `p` is the
/// first part, and the rest splits beyond it.
proof fn lemma_split_step(s: Seq<char>, sep: char, p: int)
    requires
        0 <= p <= s.len(),
        forall|k: int| 0 <= k < p ==> s[k] != sep,
        p < s.len() ==> s[p] == sep,
    ensures
        p == s.len() ==> split_seq(s, sep) == seq![s],
        p < s.len() ==> split_seq(s, sep) == seq![s.take(p)] + split_seq(s.skip(p + 1), sep),
    decreases p,
{
    if p == 0 {
        if s.len() == 0 {
            assert(split_seq(s, sep) =~~= seq![s]);
        } else {
            assert(s[0] == sep);
            assert(s.drop_first() =~= s.skip(1));
            assert(s.take(0) =~= Seq::<char>::empty());
            assert(split_seq(s, sep) =~= seq![s.take(0)] + split_seq(s.skip(1), sep));
        }
    } else {
        assert(s.len() > 0 && s[0] != sep);
        let t = s.drop_first();
        assert(forall|k: int| 0 <= k < p - 1 ==> #[trigger] t[k] == s[k + 1]);
        lemma_split_step(t, sep, p - 1);
        lemma_split_len(t, sep);
        let rest = split_seq(t, sep);
        if p == s.len() {
            assert(split_seq(s, sep) == seq![seq![s[0]] + rest[0]] + rest.drop_first());
            assert(split_seq(t, sep) == seq![t]);
            assert(rest[0] == t);
            assert(rest.drop_first() =~= Seq::<Seq<char>>::empty());
            assert(seq![s[0]] + rest[0] =~= s);
            assert(split_seq(s, sep) =~= seq![s]);
        } else {
            assert(t[p - 1] == s[p] == sep);
            assert(split_seq(t, sep) == seq![t.take(p - 1)] + split_seq(t.skip(p), sep));
            assert((seq![t.take(p - 1)] + split_seq(t.skip(p), sep))[0] == t.take(p - 1));
            assert(seq![s[0]] + t.take(p - 1) =~= s.take(p));
            assert(t.skip(p) =~= s.skip(p + 1));
            assert(rest.drop_first() =~= split_seq(t.skip(p), sep));
            assert(split_seq(s, sep) =~= seq![s.take(p)] + split_seq(s.skip(p + 1), sep));
        }
    }
}

/// Split a string at every occurrence of `sep`.
pub fn split_on(s: &str, sep: char) -> (r: Vec<String>)
    ensures
        r.deep_view() == split_seq(s@, sep),
{
    let n = s.unicode_len();
    let mut out: Vec<String> = Vec::new();
    let mut pos: usize = 0;
    proof {
        assert(out.deep_view() =~= Seq::<Seq<char>>::empty());
        assert(s@.skip(0) =~= s@);
        assert(out.deep_view() + split_seq(s@, sep) =~= split_seq(s@, sep));
    }
    loop
        invariant
            n == s@.len(),
            pos <= n,
            split_seq(s@, sep) == out.deep_view() + split_seq(s@.skip(pos as int), sep),
        decreases n - pos + 1,
    {
        let ghost out_pre = out.deep_view();
        let p = find_char_from(s, sep, pos);
        let piece = s.substring_char(pos, p).to_owned();
        proof {
            let tail = s@.skip(pos as int);
            assert(forall|k: int| 0 <= k < p - pos ==> #[trigger] tail[k] == s@[k + pos]);
            lemma_split_step(tail, sep, p - pos as int);
            assert(tail.take(p - pos as int) =~= s@.subrange(pos as int, p as int));
            if p < n {
                assert(tail.skip(p - pos + 1) =~= s@.skip(p + 1));
            }
        }
        out.push(piece);
        proof {
            assert(out.deep_view() =~= out_pre.push(s@.subrange(pos as int, p as int)));
        }
        if p == n {
            proof {
                assert(split_seq(s@.skip(pos as int), sep) =~= seq![s@.subrange(pos as int, p as int)]);
                assert(split_seq(s@, sep) =~= out.deep_view());
            }
            return out;
        }
        proof {
            assert(split_seq(s@.skip(pos as int), sep) =~= seq![s@.subrange(pos as int, p as int)]
                + split_seq(s@.skip(p + 1), sep));
            assert(out.deep_view() + split_seq(s@.skip(p + 1), sep) =~= split_seq(s@, sep));
        }
        pos = p + 1;
    }
}


/// Whether every duration of every beat is non-negative and the total
/// duration equals one whole beat per beat slot: what parsing maintains
/// beat by beat.
pub open spec fn conserved_m(beats: Seq<Seq<SwarM>>) -> bool {
    nonneg_m(beats) && total_units_m(beats) == 20 * beats.len()
}

/// The grammar check of one name part.
fn check_name(table: &SwarTable, p: &String) -> (r: Option<MusicError>)
    ensures
        r == name_error(table.entries@, p@),
{
    if p.as_str().unicode_len() == 0 {
        return Some(MusicError::Parse);
    }
    if str_is_char(p.as_str(), '-') {
        return Some(MusicError::Parse);
    }
    match table.lookup(p) {
        Some(_) => None,
        None => Some(MusicError::Lookup),
    }
}

/// Apply one token to the beats built so far, as `parse_token` says.
/// The returned flag is the canonicity of this one step; on an error the
/// beats are left in an unspecified state and the caller discards them.
#[verifier::rlimit(60)]
fn apply_token(
    table: &SwarTable,
    swarbeats: &mut Vec<SwarBeat>,
    tok: &String,
) -> (r: Result<Ghost<bool>, MusicError>)
    requires
        conserved_m(beats_model(beats_view(old(swarbeats)@))),
        beats_view(old(swarbeats)@).len() <= 200_000_000,
    ensures
        ({
            let m0 = beats_model(beats_view(old(swarbeats)@));
            let m1 = beats_model(beats_view(final(swarbeats)@));
            match r {
                Ok(g) => conserved_m(m1) && m1.len() == m0.len() + 1 && forall|c: bool|
                    #[trigger] parse_token(table.entries@, (m0, c), tok@) == Ok::<
                        (Seq<Seq<SwarM>>, bool),
                        MusicError,
                    >((m1, c && g@)),
                Err(e) => forall|c: bool| #[trigger] parse_token(table.entries@, (m0, c), tok@)
                    == Err::<(Seq<Seq<SwarM>>, bool), MusicError>(e),
            }
        }),
{
    let ghost entries = table.entries@;
    let ghost m0 = beats_model(beats_view(swarbeats@));
    if str_is_char(tok.as_str(), '-') {
        proof {
            lemma_last_nonempty_model(beats_view(swarbeats@));
            lemma_last_nonempty_props(beats_view(swarbeats@));
            lemma_last_nonempty_props(m0);
            if let Some(i) = last_nonempty_beat(m0) {
                lemma_beat_elem_le_sum(m0[i], m0[i].len() - 1);
                lemma_beat_le_total(m0, i);
            }
        }
        if extend_last_swar(swarbeats, 20) {
            let ghost i = last_nonempty_beat(m0).unwrap();
            proof {
                lemma_extend_model(beats_view(old(swarbeats)@), i, 20);
            }
            let ghost m_ext = beats_model(beats_view(swarbeats@));
            swarbeats.push(SwarBeat::new(Vec::new()));
            proof {
                assert(beats_model(beats_view(swarbeats@)) =~~= m_ext.push(Seq::<SwarM>::empty()));
                lemma_total_update(m0, i, extend_last_m(m0, i, 20)[i]);
                lemma_beat_sum_update(m0[i], m0[i].len() - 1, extend_last_m(m0, i, 20)[i][m0[i].len() - 1]);
                lemma_total_push(m_ext, Seq::<SwarM>::empty());
                assert(conserved_m(beats_model(beats_view(swarbeats@)))) by {
                    let m1 = beats_model(beats_view(swarbeats@));
                    assert(total_units_m(m1) == total_units_m(m0) + 20);
                    assert forall|a: int| 0 <= a < m1.len() implies nonneg_beat_m(#[trigger] m1[a]) by {
                        if a < m0.len() {
                            assert(nonneg_beat_m(m0[a]));
                        }
                    }
                }
            }
            Ok(Ghost(ext_canonical(m0, i, 20)))
        } else {
            Err(MusicError::Structure)
        }
    } else if str_contains_char(tok.as_str(), ':') {
        let parts = split_on(tok.as_str(), ':');
        let ghost partsM = split_seq(tok@, ':');
        proof {
            assert(forall|k: int| 0 <= k < parts@.len() ==> parts.deep_view()[k] == #[trigger] parts@[k]@);
        }
        if parts.len() == 2 {
            self::apply_half_pair(table, swarbeats, &parts[0], &parts[1], Ghost(tok@))
        } else if parts.len() == 4 {
            self::apply_quad(table, swarbeats, &parts, Ghost(tok@))
        } else {
            Err(MusicError::Parse)
        }
    } else if str_contains_char(tok.as_str(), '/') {
        let parts = split_on(tok.as_str(), '/');
        proof {
            assert(forall|k: int| 0 <= k < parts@.len() ==> parts.deep_view()[k] == #[trigger] parts@[k]@);
        }
        if parts.len() == 2 {
            match check_name(table, &parts[0]) {
                Some(e) => Err(e),
                None => match check_name(table, &parts[1]) {
                    Some(e) => Err(e),
                    None => {
                        let mut swars: Vec<Swar> = Vec::new();
                        swars.push(Swar::new(Pitch::new(parts[0].clone()), 4));
                        swars.push(Swar::new(Pitch::new(parts[1].clone()), 16));
                        let ghost bm = beat_model(swars@);
                        swarbeats.push(SwarBeat::new(swars));
                        proof {
                            assert(bm =~~= seq![(Some(parts@[0]@), 4 as int), (Some(parts@[1]@), 16 as int)]);
                            lemma_beat_sum_two((Some(parts@[0]@), 4 as int), (Some(parts@[1]@), 16 as int));
                            assert(beats_model(beats_view(swarbeats@)) =~~= m0.push(bm));
                            lemma_total_push(m0, bm);
                        }
                        Ok(Ghost(true))
                    },
                },
            }
        } else {
            Err(MusicError::Parse)
        }
    } else {
        match check_name(table, tok) {
            Some(e) => Err(e),
            None => {
                let mut swars: Vec<Swar> = Vec::new();
                swars.push(Swar::new(Pitch::new(tok.clone()), 20));
                let ghost bm = beat_model(swars@);
                swarbeats.push(SwarBeat::new(swars));
                proof {
                    assert(bm =~~= seq![(Some(tok@), 20 as int)]);
                    lemma_beat_sum_one((Some(tok@), 20 as int));
                    assert(beats_model(beats_view(swarbeats@)) =~~= m0.push(bm));
                    lemma_total_push(m0, bm);
                }
                Ok(Ghost(true))
            },
        }
    }
}


/// Apply a two-part `A:B` token, as `parse_half_pair` says.
#[verifier::rlimit(60)]
fn apply_half_pair(
    table: &SwarTable,
    swarbeats: &mut Vec<SwarBeat>,
    a: &String,
    b: &String,
    Ghost(tokv): Ghost<Seq<char>>,
) -> (r: Result<Ghost<bool>, MusicError>)
    requires
        conserved_m(beats_model(beats_view(old(swarbeats)@))),
        beats_view(old(swarbeats)@).len() <= 200_000_000,
        tokv != seq!['-'],
        tokv.contains(':'),
        split_seq(tokv, ':').len() == 2,
        a@ == split_seq(tokv, ':')[0],
        b@ == split_seq(tokv, ':')[1],
    ensures
        ({
            let m0 = beats_model(beats_view(old(swarbeats)@));
            let m1 = beats_model(beats_view(final(swarbeats)@));
            match r {
                Ok(g) => conserved_m(m1) && m1.len() == m0.len() + 1 && forall|c: bool|
                    #[trigger] parse_token(table.entries@, (m0, c), tokv) == Ok::<
                        (Seq<Seq<SwarM>>, bool),
                        MusicError,
                    >((m1, c && g@)),
                Err(e) => forall|c: bool| #[trigger] parse_token(table.entries@, (m0, c), tokv)
                    == Err::<(Seq<Seq<SwarM>>, bool), MusicError>(e),
            }
        }),
{
    let ghost entries = table.entries@;
    let ghost m0 = beats_model(beats_view(swarbeats@));
    if str_is_char(a.as_str(), '-') {
        match check_name(table, b) {
            Some(e) => Err(e),
            None => {
                proof {
                    lemma_last_nonempty_model(beats_view(swarbeats@));
                    lemma_last_nonempty_props(beats_view(swarbeats@));
                    lemma_last_nonempty_props(m0);
                    if let Some(i) = last_nonempty_beat(m0) {
                        lemma_beat_elem_le_sum(m0[i], m0[i].len() - 1);
                        lemma_beat_le_total(m0, i);
                    }
                }
                if extend_last_swar(swarbeats, 10) {
                    let ghost i = last_nonempty_beat(m0).unwrap();
                    proof {
                        lemma_extend_model(beats_view(old(swarbeats)@), i, 10);
                    }
                    let ghost m_ext = beats_model(beats_view(swarbeats@));
                    let mut swars: Vec<Swar> = Vec::new();
                    swars.push(Swar::new(Pitch::new(b.clone()), 10));
                    let ghost bm = beat_model(swars@);
                    swarbeats.push(SwarBeat::new(swars));
                    proof {
                        assert(bm =~~= seq![(Some(b@), 10 as int)]);
                        assert(beats_model(beats_view(swarbeats@)) =~~= m_ext.push(bm));
                        lemma_total_update(m0, i, extend_last_m(m0, i, 10)[i]);
                        lemma_beat_sum_update(m0[i], m0[i].len() - 1, extend_last_m(m0, i, 10)[i][m0[i].len() - 1]);
                        lemma_total_push(m_ext, bm);
                        assert(m_ext == extend_last_m(m0, i, 10));
                        assert(m0.update(i, extend_last_m(m0, i, 10)[i]) == extend_last_m(m0, i, 10));
                        assert(total_units_m(m_ext) == total_units_m(m0) + 10);
                        assert(bm.len() == 1 && bm[0].1 == 10);
                        assert(bm.drop_first() =~= Seq::<SwarM>::empty());
                        assert(beat_sum_m(bm) == bm[0].1 + beat_sum_m(bm.drop_first()));
                        assert(beat_sum_m(bm) == 10);
                        assert(total_units_m(m_ext.push(bm)) == total_units_m(m_ext) + beat_sum_m(bm));
                        assert(conserved_m(beats_model(beats_view(swarbeats@)))) by {
                            let m1 = beats_model(beats_view(swarbeats@));
                            assert(m1 == m_ext.push(bm));
                            assert(total_units_m(m1) == total_units_m(m0) + 20);
                            assert forall|x: int| 0 <= x < m1.len() implies nonneg_beat_m(#[trigger] m1[x]) by {
                                if x < m0.len() {
                                    assert(nonneg_beat_m(m0[x]));
                                }
                            }
                        }
                    }
                    Ok(Ghost(ext_canonical(m0, i, 10)))
                } else {
                    Err(MusicError::Structure)
                }
            },
        }
    } else if str_is_char(b.as_str(), '-') {
        match check_name(table, a) {
            Some(e) => Err(e),
            None => {
                let mut swars: Vec<Swar> = Vec::new();
                swars.push(Swar::new(Pitch::new(a.clone()), 20));
                let ghost bm = beat_model(swars@);
                swarbeats.push(SwarBeat::new(swars));
                proof {
                    assert(bm =~~= seq![(Some(a@), 20 as int)]);
                    lemma_beat_sum_one((Some(a@), 20 as int));
                    assert(beats_model(beats_view(swarbeats@)) =~~= m0.push(bm));
                    lemma_total_push(m0, bm);
                }
                Ok(Ghost(false))
            },
        }
    } else {
        let a_empty = a.as_str().unicode_len() == 0;
        let b_empty = b.as_str().unicode_len() == 0;
        if a_empty && b_empty {
            Err(MusicError::Parse)
        } else if a_empty {
            match check_name(table, b) {
                Some(e) => Err(e),
                None => {
                    let mut swars: Vec<Swar> = Vec::new();
                    swars.push(Swar::empty(10));
                    swars.push(Swar::new(Pitch::new(b.clone()), 10));
                    let ghost bm = beat_model(swars@);
                    swarbeats.push(SwarBeat::new(swars));
                    proof {
                        assert(bm =~~= seq![(None::<Seq<char>>, 10 as int), (Some(b@), 10 as int)]);
                        lemma_beat_sum_two((None::<Seq<char>>, 10 as int), (Some(b@), 10 as int));
                        assert(beats_model(beats_view(swarbeats@)) =~~= m0.push(bm));
                        lemma_total_push(m0, bm);
                    }
                    Ok(Ghost(true))
                },
            }
        } else if b_empty {
            match check_name(table, a) {
                Some(e) => Err(e),
                None => {
                    let mut swars: Vec<Swar> = Vec::new();
                    swars.push(Swar::new(Pitch::new(a.clone()), 10));
                    swars.push(Swar::empty(10));
                    let ghost bm = beat_model(swars@);
                    swarbeats.push(SwarBeat::new(swars));
                    proof {
                        assert(bm =~~= seq![(Some(a@), 10 as int), (None::<Seq<char>>, 10 as int)]);
                        lemma_beat_sum_two((Some(a@), 10 as int), (None::<Seq<char>>, 10 as int));
                        assert(beats_model(beats_view(swarbeats@)) =~~= m0.push(bm));
                        lemma_total_push(m0, bm);
                    }
                    Ok(Ghost(true))
                },
            }
        } else {
            match check_name(table, a) {
                Some(e) => Err(e),
                None => match check_name(table, b) {
                    Some(e) => Err(e),
                    None => {
                        let mut swars: Vec<Swar> = Vec::new();
                        swars.push(Swar::new(Pitch::new(a.clone()), 10));
                        swars.push(Swar::new(Pitch::new(b.clone()), 10));
                        let ghost bm = beat_model(swars@);
                        swarbeats.push(SwarBeat::new(swars));
                        proof {
                            assert(bm =~~= seq![(Some(a@), 10 as int), (Some(b@), 10 as int)]);
                            lemma_beat_sum_two((Some(a@), 10 as int), (Some(b@), 10 as int));
                            assert(beats_model(beats_view(swarbeats@)) =~~= m0.push(bm));
                            lemma_total_push(m0, bm);
                        }
                        Ok(Ghost(true))
                    },
                },
            }
        }
    }
}


/// Apply a four-part `A:B:C:D` token, as `parse_quad_parts` says.
#[verifier::rlimit(100)]
fn apply_quad(
    table: &SwarTable,
    swarbeats: &mut Vec<SwarBeat>,
    parts: &Vec<String>,
    Ghost(tokv): Ghost<Seq<char>>,
) -> (r: Result<Ghost<bool>, MusicError>)
    requires
        conserved_m(beats_model(beats_view(old(swarbeats)@))),
        beats_view(old(swarbeats)@).len() <= 200_000_000,
        tokv != seq!['-'],
        tokv.contains(':'),
        split_seq(tokv, ':').len() == 4,
        parts.deep_view() == split_seq(tokv, ':'),
    ensures
        ({
            let m0 = beats_model(beats_view(old(swarbeats)@));
            let m1 = beats_model(beats_view(final(swarbeats)@));
            match r {
                Ok(g) => conserved_m(m1) && m1.len() == m0.len() + 1 && forall|c: bool|
                    #[trigger] parse_token(table.entries@, (m0, c), tokv) == Ok::<
                        (Seq<Seq<SwarM>>, bool),
                        MusicError,
                    >((m1, c && g@)),
                Err(e) => forall|c: bool| #[trigger] parse_token(table.entries@, (m0, c), tokv)
                    == Err::<(Seq<Seq<SwarM>>, bool), MusicError>(e),
            }
        }),
{
    let ghost entries = table.entries@;
    let ghost m0 = beats_model(beats_view(swarbeats@));
    let ghost partsM = split_seq(tokv, ':');
    let mut cur: Vec<Swar> = Vec::new();
    let mut k: usize = 0;
    proof {
        assert(beat_model(cur@) =~= Seq::<SwarM>::empty());
    }
    while k < 4
        invariant
            k <= 4,
            tokv != seq!['-'],
            tokv.contains(':'),
            partsM == split_seq(tokv, ':'),
            partsM.len() == 4,
            parts.deep_view() == partsM,
            m0 == beats_model(beats_view(old(swarbeats)@)),
            m0.len() <= 200_000_000,
            nonneg_m(beats_model(beats_view(swarbeats@))),
            nonneg_beat_m(beat_model(cur@)),
            beats_model(beats_view(swarbeats@)).len() == m0.len(),
            total_units_m(beats_model(beats_view(swarbeats@))) + beat_sum_m(beat_model(cur@))
                == 20 * m0.len() + 5 * k,
            parse_quad_parts(entries, m0, partsM, 0, Seq::<SwarM>::empty()) == parse_quad_parts(
                entries,
                beats_model(beats_view(swarbeats@)),
                partsM,
                k as int,
                beat_model(cur@),
            ),
            entries == table.entries@,
        decreases 4 - k,
    {
        let ghost mB = beats_model(beats_view(swarbeats@));
        let ghost mCur = beat_model(cur@);
        let part = &parts[k];
        proof {
            assert(part@ == partsM[k as int]);
        }
        if str_is_char(part.as_str(), '-') {
            if cur.len() > 0 {
                let j = cur.len() - 1;
                proof {
                    lemma_beat_elem_le_sum(mCur, j as int);
                    lemma_total_nonneg(mB);
                }
                let u = cur[j].beat_count();
                let pi = cur[j].pitch();
                cur.set(j, Swar { pitch: pi, beat_units: u + 5 });
                proof {
                    assert(beat_model(cur@) =~~= mCur.update(j as int, (mCur[j as int].0, mCur[j as int].1 + 5)));
                    lemma_beat_sum_update(mCur, j as int, (mCur[j as int].0, mCur[j as int].1 + 5));
                    assert(extend_for_continuation(mB, mCur, 5) == Ok::<_, MusicError>((mB, beat_model(cur@))));
                }
            } else {
                proof {
                    assert(mCur =~= Seq::<SwarM>::empty());
                    lemma_last_nonempty_model(beats_view(swarbeats@));
                    lemma_last_nonempty_props(beats_view(swarbeats@));
                    lemma_last_nonempty_props(mB);
                    if let Some(i) = last_nonempty_beat(mB) {
                        lemma_beat_elem_le_sum(mB[i], mB[i].len() - 1);
                        lemma_beat_le_total(mB, i);
                        lemma_beat_sum_nonneg(mCur);
                    }
                }
                let ghost pre_bv = beats_view(swarbeats@);
                if !extend_last_swar(swarbeats, 5) {
                    proof {
                        assert(extend_for_continuation(mB, mCur, 5) == Err::<
                            (Seq<Seq<SwarM>>, Seq<SwarM>),
                            MusicError,
                        >(MusicError::Structure));
                        assert(parse_quad_parts(entries, mB, partsM, k as int, mCur) == Err::<
                            (Seq<Seq<SwarM>>, Seq<SwarM>),
                            MusicError,
                        >(MusicError::Structure));
                        assert forall|c: bool| #[trigger] parse_token(entries, (m0, c), tokv)
                            == Err::<(Seq<Seq<SwarM>>, bool), MusicError>(MusicError::Structure) by {
                            assert(parse_quad_parts(entries, m0, partsM, 0, Seq::<SwarM>::empty())
                                == Err::<(Seq<Seq<SwarM>>, Seq<SwarM>), MusicError>(MusicError::Structure));
                        }
                    }
                    return Err(MusicError::Structure);
                }
                let ghost i = last_nonempty_beat(mB).unwrap();
                proof {
                    lemma_extend_model(pre_bv, i, 5);
                    lemma_total_update(mB, i, extend_last_m(mB, i, 5)[i]);
                    lemma_beat_sum_update(mB[i], mB[i].len() - 1, extend_last_m(mB, i, 5)[i][mB[i].len() - 1]);
                    let m2 = beats_model(beats_view(swarbeats@));
                    assert(m2 == extend_last_m(mB, i, 5));
                    assert forall|x: int| 0 <= x < m2.len() implies nonneg_beat_m(#[trigger] m2[x]) by {
                        assert(nonneg_beat_m(mB[x]));
                    }
                    assert(extend_for_continuation(mB, mCur, 5) == Ok::<_, MusicError>((m2, mCur)));
                }
            }
        } else {
            match check_name(table, part) {
                Some(e) => {
                    proof {
                        assert(parse_quad_parts(entries, mB, partsM, k as int, mCur) == Err::<
                            (Seq<Seq<SwarM>>, Seq<SwarM>),
                            MusicError,
                        >(e));
                        assert forall|c: bool| #[trigger] parse_token(entries, (m0, c), tokv)
                            == Err::<(Seq<Seq<SwarM>>, bool), MusicError>(e) by {
                            assert(parse_quad_parts(entries, m0, partsM, 0, Seq::<SwarM>::empty())
                                == Err::<(Seq<Seq<SwarM>>, Seq<SwarM>), MusicError>(e));
                        }
                    }
                    return Err(e);
                },
                None => {},
            }
            cur.push(Swar::new(Pitch::new(part.clone()), 5));
            proof {
                assert(beat_model(cur@) =~~= mCur.push((Some(partsM[k as int]), 5 as int)));
                lemma_beat_sum_push(mCur, (Some(partsM[k as int]), 5 as int));
            }
        }
        k = k + 1;
    }
    let ghost mB = beats_model(beats_view(swarbeats@));
    let ghost mCur = beat_model(cur@);
    let ghost bm = beat_model(cur@);
    swarbeats.push(SwarBeat::new(cur));
    proof {
        assert(parse_quad_parts(entries, mB, partsM, 4, mCur) == Ok::<
            (Seq<Seq<SwarM>>, Seq<SwarM>),
            MusicError,
        >((mB, mCur)));
        assert(beats_model(beats_view(swarbeats@)) =~~= mB.push(bm));
        lemma_total_push(mB, bm);
        let m1 = beats_model(beats_view(swarbeats@));
        assert forall|x: int| 0 <= x < m1.len() implies nonneg_beat_m(#[trigger] m1[x]) by {
            if x < mB.len() {
                assert(nonneg_beat_m(mB[x]));
            }
        }
        assert(m1 == mB.push(mCur));
        assert(total_units_m(m1) == 20 * m1.len());
        assert forall|c: bool| #[trigger] parse_token(entries, (m0, c), tokv) == Ok::<
            (Seq<Seq<SwarM>>, bool),
            MusicError,
        >((m1, c && quad_canonical(partsM))) by {
            assert(parse_quad_parts(entries, m0, partsM, 0, Seq::<SwarM>::empty()) == Ok::<
                (Seq<Seq<SwarM>>, Seq<SwarM>),
                MusicError,
            >((mB, mCur)));
        }
    }
    Ok(Ghost(quad_canonical(partsM)))
}


/// A split has at most one part per character plus one.
pub proof fn lemma_split_count(s: Seq<char>, sep: char)
    ensures
        split_seq(s, sep).len() <= s.len() + 1,
    decreases s.len(),
{
    if s.len() > 0 {
        lemma_split_count(s.drop_first(), sep);
    }
}

/// Trimming never lengthens a sequence.
pub proof fn lemma_trim_len(s: Seq<char>)
    ensures
        trim_spec(s).len() <= s.len(),
{
    lemma_leading_spaces(s);
    lemma_trailing_spaces(s);
}

/// Parse a notation string into one phrase.  The input is trimmed first;
/// inside it, tokens are separated by single spaces.  On success the
/// stored beats carry exactly the durations the notation denotes, one
/// whole beat per beat slot in total.
pub fn parse_block(table: &SwarTable, s: &str) -> (r: Result<crate::swarblock::SwarBlock, MusicError>)
    requires
        s@.len() < 100_000_000,
    ensures
        match r {
            Ok(b) => parse_spec(table.entries@, trim_spec(s@)) matches Ok(st) && beats_model(b@)
                == st.0 && conserved_m(beats_model(b@)),
            Err(e) => parse_spec(table.entries@, trim_spec(s@)) == Err::<
                (Seq<Seq<SwarM>>, bool),
                MusicError,
            >(e),
        },
{
    let ghost entries = table.entries@;
    let t = trim_str(s);
    let toks = split_on(t.as_str(), ' ');
    let ghost toksv = split_seq(trim_spec(s@), ' ');
    let n = toks.len();
    proof {
        lemma_trim_len(s@);
        lemma_split_count(trim_spec(s@), ' ');
        assert(beats_model(beats_view(Seq::<SwarBeat>::empty())) =~= Seq::<Seq<SwarM>>::empty());
    }
    let mut swarbeats: Vec<SwarBeat> = Vec::new();
    let ghost mut canon: bool = true;
    proof {
        assert(beats_model(beats_view(swarbeats@)) =~= Seq::<Seq<SwarM>>::empty());
    }
    let mut k: usize = 0;
    while k < n
        invariant
            n == toks@.len(),
            toks.deep_view() == toksv,
            toksv == split_seq(trim_spec(s@), ' '),
            toksv.len() <= 100_000_000,
            entries == table.entries@,
            k <= n,
            conserved_m(beats_model(beats_view(swarbeats@))),
            beats_model(beats_view(swarbeats@)).len() == k,
            parse_tokens_from(entries, toksv, (Seq::<Seq<SwarM>>::empty(), true), 0)
                == parse_tokens_from(
                entries,
                toksv,
                (beats_model(beats_view(swarbeats@)), canon),
                k as int,
            ),
        decreases n - k,
    {
        let ghost m_pre = beats_model(beats_view(swarbeats@));
        let tokref = &toks[k];
        proof {
            assert(tokref@ == toksv[k as int]);
        }
        match apply_token(table, &mut swarbeats, tokref) {
            Ok(g) => {
                proof {
                    let m_post = beats_model(beats_view(swarbeats@));
                    assert(parse_token(entries, (m_pre, canon), toksv[k as int]) == Ok::<
                        (Seq<Seq<SwarM>>, bool),
                        MusicError,
                    >((m_post, canon && g@)));
                    assert(parse_tokens_from(entries, toksv, (m_pre, canon), k as int)
                        == parse_tokens_from(entries, toksv, (m_post, canon && g@), k + 1));
                    canon = canon && g@;
                }
            },
            Err(e) => {
                proof {
                    assert(parse_token(entries, (m_pre, canon), toksv[k as int]) == Err::<
                        (Seq<Seq<SwarM>>, bool),
                        MusicError,
                    >(e));
                    assert(parse_tokens_from(entries, toksv, (m_pre, canon), k as int) == Err::<
                        (Seq<Seq<SwarM>>, bool),
                        MusicError,
                    >(e));
                }
                return Err(e);
            },
        }
        k = k + 1;
    }
    proof {
        assert(parse_tokens_from(
            entries,
            toksv,
            (beats_model(beats_view(swarbeats@)), canon),
            n as int,
        ) == Ok::<(Seq<Seq<SwarM>>, bool), MusicError>((beats_model(beats_view(swarbeats@)), canon)));
    }
    Ok(crate::swarblock::SwarBlock(swarbeats))
}

/// The printed name of one swar.
fn swar_name_string(sw: &Swar) -> (r: String)
    ensures
        r@ == swar_m_name(swar_model(*sw)),
{
    match &sw.pitch {
        Some(p) => p.0.clone(),
        None => String::new(),
    }
}

/// Render one beat back to its notation token.
pub fn render_beat(beat: &SwarBeat) -> (r: String)
    ensures
        r@ == render_beat_m(beat_model(beat@)),
{
    let ghost bm = beat_model(beat@);
    let m = beat.swars.len();
    if m == 0 {
        let r = String::from_str("-");
        proof {
            reveal_strlit("-");
            assert(r@ =~= seq!['-']);
        }
        r
    } else if m == 1 {
        let name = swar_name_string(&beat.swars[0]);
        if beat.swars[0].beat_units < 20 {
            let mut r = String::from_str("-:");
            r.append(name.as_str());
            proof {
                reveal_strlit("-:");
                assert("-:"@ =~= seq!['-', ':']);
            }
            r
        } else {
            name
        }
    } else {
        let mut out = swar_name_string(&beat.swars[0]);
        let mut j: usize = 1;
        proof {
            assert(render_beat_m(bm) == swar_m_name(bm[0]) + render_beat_tail(bm, 1));
        }
        while j < m
            invariant
                m == beat.swars@.len(),
                bm == beat_model(beat@),
                m >= 2,
                1 <= j <= m,
                render_beat_m(bm) == out@ + render_beat_tail(bm, j as int),
            decreases m - j,
        {
            if beat.swars[j - 1].beat_units == 4 {
                out.append("/");
                proof {
                    reveal_strlit("/");
                    assert("/"@ =~= seq!['/']);
                }
            } else {
                out.append(":");
                proof {
                    reveal_strlit(":");
                    assert(":"@ =~= seq![':']);
                }
            }
            let name = swar_name_string(&beat.swars[j]);
            out.append(name.as_str());
            proof {
                assert(render_beat_tail(bm, j as int) == seq![beat_sep(bm[j - 1].1)] + swar_m_name(
                    bm[j as int],
                ) + render_beat_tail(bm, j + 1));
            }
            j = j + 1;
        }
        proof {
            assert(render_beat_tail(bm, m as int) =~= Seq::<char>::empty());
            assert(out@ + Seq::<char>::empty() =~= out@);
        }
        out
    }
}

/// Appending one part to a join appends a separator and the part.
pub proof fn lemma_join_push(parts: Seq<Seq<char>>, p: Seq<char>, sep: char)
    ensures
        parts.len() == 0 ==> join_seq(parts.push(p), sep) == p,
        parts.len() > 0 ==> join_seq(parts.push(p), sep) == join_seq(parts, sep) + seq![sep] + p,
    decreases parts.len(),
{
    if parts.len() == 0 {
        assert(join_seq(parts.push(p), sep) == parts.push(p)[0]);
    } else {
        lemma_join_push(parts.drop_first(), p, sep);
        assert(parts.push(p).drop_first() =~= parts.drop_first().push(p));
        assert(parts.push(p)[0] == parts[0]);
        assert(join_seq(parts.push(p), sep) == parts[0] + seq![sep] + join_seq(
            parts.drop_first().push(p),
            sep,
        ));
        if parts.len() == 1 {
            assert(parts.drop_first() =~= Seq::<Seq<char>>::empty());
            assert(join_seq(parts.drop_first().push(p), sep) == p);
            assert(join_seq(parts, sep) == parts[0]);
        } else {
            assert(parts[0] + seq![sep] + (join_seq(parts.drop_first(), sep) + seq![sep] + p) =~= (
            parts[0] + seq![sep] + join_seq(parts.drop_first(), sep)) + seq![sep] + p);
        }
    }
}

/// Render a sequence of beats to notation, beats joined by single
/// spaces.
fn render_beats(beats: &Vec<SwarBeat>) -> (r: String)
    ensures
        r@ == render_beats_m(beats_model(beats_view(beats@))),
{
    let ghost bm = beats_model(beats_view(beats@));
    let ghost rendered = bm.map_values(|b: Seq<SwarM>| render_beat_m(b));
    let n = beats.len();
    let mut out = String::new();
    for i in 0..n
        invariant
            n == beats@.len(),
            bm == beats_model(beats_view(beats@)),
            rendered == bm.map_values(|b: Seq<SwarM>| render_beat_m(b)),
            out@ == join_seq(rendered.take(i as int), ' '),
    {
        let piece = render_beat(&beats[i]);
        proof {
            assert(rendered.take(i + 1) =~= rendered.take(i as int).push(rendered[i as int]));
            lemma_join_push(rendered.take(i as int), rendered[i as int], ' ');
            reveal_strlit(" ");
            assert(" "@ =~= seq![' ']);
            assert(rendered[i as int] == render_beat_m(beat_model(beats@[i as int]@)));
        }
        if i > 0 {
            out.append(" ");
        }
        out.append(piece.as_str());
    }
    proof {
        assert(rendered.take(n as int) =~= rendered);
    }
    out
}


/// Every part of a split is at most as long as the whole.
pub proof fn lemma_split_piece_len(s: Seq<char>, sep: char)
    ensures
        forall|k: int| 0 <= k < split_seq(s, sep).len() ==> (#[trigger] split_seq(s, sep)[k]).len()
            <= s.len(),
    decreases s.len(),
{
    if s.len() > 0 {
        lemma_split_piece_len(s.drop_first(), sep);
        let rest = split_seq(s.drop_first(), sep);
        lemma_split_len(s.drop_first(), sep);
        if s[0] == sep {
            assert forall|k: int| 0 <= k < split_seq(s, sep).len() implies (#[trigger] split_seq(
                s,
                sep,
            )[k]).len() <= s.len() by {
                if k > 0 {
                    assert(split_seq(s, sep)[k] == rest[k - 1]);
                }
            }
        } else {
            assert forall|k: int| 0 <= k < split_seq(s, sep).len() implies (#[trigger] split_seq(
                s,
                sep,
            )[k]).len() <= s.len() by {
                if k == 0 {
                    assert(split_seq(s, sep)[0] == seq![s[0]] + rest[0]);
                } else {
                    assert(split_seq(s, sep)[k] == rest.drop_first()[k - 1]);
                    assert(rest.drop_first()[k - 1] == rest[k]);
                }
            }
        }
    }
}

impl Swar {
    /// The printed form of this swar: its pitch name, or nothing for
    /// silence.
    pub fn to_string(&self) -> (r: String)
        ensures
            r@ == swar_m_name(swar_model(*self)),
    {
        swar_name_string(self)
    }
}

impl SwarBeat {
    /// This beat's notation token.
    pub fn to_string(&self) -> (r: String)
        ensures
            r@ == render_beat_m(beat_model(self@)),
    {
        render_beat(self)
    }
}

impl crate::swarblock::SwarBlock {
    /// The notation of the phrase: beat tokens joined by single spaces.
    pub fn to_string(&self) -> (r: String)
        ensures
            r@ == render_beats_m(beats_model(self@)),
    {
        render_beats(&self.0)
    }

    /// Parse a notation string into a phrase.
    pub fn parse(table: &SwarTable, s: &str) -> (r: Result<crate::swarblock::SwarBlock, MusicError>)
        requires
            s@.len() < 100_000_000,
        ensures
            match r {
                Ok(b) => parse_spec(table.entries@, trim_spec(s@)) matches Ok(st) && beats_model(b@)
                    == st.0 && conserved_m(beats_model(b@)),
                Err(e) => parse_spec(table.entries@, trim_spec(s@)) == Err::<
                    (Seq<Seq<SwarM>>, bool),
                    MusicError,
                >(e),
            },
    {
        parse_block(table, s)
    }
}

impl crate::swarblocks::SwarBlocks {
    /// The notation of the whole phrase group: every beat's token joined
    /// by single spaces, phrase boundaries not marked.
    pub fn to_string(&self) -> (r: String)
        requires
            crate::swarblocks::flat_beats(self@).len() <= usize::MAX,
        ensures
            r@ == render_beats_m(beats_model(crate::swarblocks::flat_beats(self@))),
    {
        let v = self.swarbeats();
        proof {
            assert(beats_view(v@) =~= crate::swarblocks::flat_beats(self@));
        }
        render_beats(&v)
    }

    /// Parse a comma-separated list of notation strings into a phrase
    /// group, one phrase per comma-separated piece, each piece trimmed.
    /// Fails with the error of the first piece that does not parse.
    pub fn parse(table: &SwarTable, s: &str) -> (r: Result<crate::swarblocks::SwarBlocks, MusicError>)
        requires
            s@.len() < 100_000_000,
        ensures
            ({
                let pieces = split_seq(s@, ',');
                match r {
                    Ok(blocks) => blocks@.len() == pieces.len() && forall|i: int|
                        0 <= i < pieces.len() ==> piece_parses_to(
                            table.entries@,
                            #[trigger] pieces[i],
                            blocks@[i],
                        ),
                    Err(e) => exists|i: int|
                        0 <= i < pieces.len() && parse_spec(table.entries@, trim_spec(#[trigger] pieces[i]))
                            == Err::<(Seq<Seq<SwarM>>, bool), MusicError>(e) && forall|j: int|
                            0 <= j < i ==> parse_spec(table.entries@, trim_spec(#[trigger] pieces[j])) is Ok,
                }
            }),
    {
        let ghost pieces_v = split_seq(s@, ',');
        let pieces = split_on(s, ',');
        proof {
            lemma_split_piece_len(s@, ',');
        }
        let n = pieces.len();
        let mut blocks: Vec<crate::swarblock::SwarBlock> = Vec::new();
        for i in 0..n
            invariant
                n == pieces@.len(),
                pieces.deep_view() == pieces_v,
                pieces_v == split_seq(s@, ','),
                s@.len() < 100_000_000,
                forall|k: int| 0 <= k < pieces_v.len() ==> (#[trigger] pieces_v[k]).len() <= s@.len(),
                blocks@.len() == i,
                forall|k: int|
                    0 <= k < i ==> piece_parses_to(table.entries@, pieces_v[k], #[trigger] blocks@[k]@),
        {
            proof {
                assert(pieces@[i as int]@ == pieces_v[i as int]);
            }
            let ghost pre_blocks = blocks@;
            match parse_block(table, pieces[i].as_str()) {
                Ok(b) => {
                    let ghost bv = b@;
                    blocks.push(b);
                    proof {
                        assert(piece_parses_to(table.entries@, pieces_v[i as int], bv));
                        assert forall|k: int|
                            0 <= k < i + 1 implies piece_parses_to(
                            table.entries@,
                            pieces_v[k],
                            #[trigger] blocks@[k]@,
                        ) by {
                            if k < i {
                                assert(blocks@[k] == pre_blocks[k]);
                            } else {
                                assert(blocks@[k]@ == bv);
                            }
                        }
                    }
                },
                Err(e) => {
                    proof {
                        assert(parse_spec(table.entries@, trim_spec(pieces_v[i as int])) == Err::<
                            (Seq<Seq<SwarM>>, bool),
                            MusicError,
                        >(e));
                        assert forall|j: int| 0 <= j < i implies parse_spec(
                            table.entries@,
                            trim_spec(#[trigger] pieces_v[j]),
                        ) is Ok by {
                            assert(piece_parses_to(table.entries@, pieces_v[j], blocks@[j]@));
                        }
                    }
                    return Err(e);
                },
            }
        }
        let r = crate::swarblocks::SwarBlocks(blocks);
        proof {
            assert(forall|k: int| 0 <= k < n ==> #[trigger] r@[k] == blocks@[k]@);
        }
        Ok(r)
    }
}

/// One comma-separated piece parses successfully and denotes exactly the
/// given beats.
pub open spec fn piece_parses_to(
    entries: Seq<SwarTableEntry>,
    piece: Seq<char>,
    bv: Seq<Seq<Swar>>,
) -> bool {
    parse_spec(entries, trim_spec(piece)) matches Ok(st) && beats_model(bv) == st.0 && conserved_m(
        beats_model(bv),
    )
}


/// Whether two strings hold the same characters.
pub fn str_eq(a: &str, b: &str) -> (r: bool)
    ensures
        r == (a@ == b@),
{
    let na = a.unicode_len();
    let nb = b.unicode_len();
    if na != nb {
        proof {
            assert(a@ != b@);
        }
        return false;
    }
    for i in 0..na
        invariant
            na == a@.len(),
            na == b@.len(),
            forall|k: int| 0 <= k < i ==> a@[k] == b@[k],
    {
        if a.get_char(i) != b.get_char(i) {
            return false;
        }
    }
    proof {
        assert(a@ =~= b@);
    }
    true
}

} // verus!
