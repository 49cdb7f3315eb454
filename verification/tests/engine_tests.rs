use rustymusic::constants::{DRILL_NOTE_UNITS, DRILL_TONIC_UNITS, UNITS_PER_BEAT};
use rustymusic::error::MusicError;
use rustymusic::mutation::MutationOperatorKind;
use rustymusic::octaves::{Aroha, Avroha};
use rustymusic::pitch::{initialise_swars, Pitch, SwarTable};
use rustymusic::raag::{Antara, Raag, Sthayi, Swarmaalika};
use rustymusic::random::randomiser;
use rustymusic::swar::Swar;
use rustymusic::swarblock::SwarInSwarBlock;

fn durga(table: &SwarTable) -> Raag {
    let aroha = Aroha::new(
        rustymusic::swarblocks::SwarBlocks::parse(table, "S - R - M - P - D - S. - -").unwrap(),
    )
    .unwrap();
    let avroha = Avroha::new(
        rustymusic::swarblocks::SwarBlocks::parse(table, "S. - D - P - M - R - S -").unwrap(),
    )
    .unwrap();
    let pakad = rustymusic::swarblocks::SwarBlocks::parse(table, "M P D M R, R M P M R S").unwrap();
    let line_a = rustymusic::swarblocks::SwarBlocks::parse(table, "M:M P D S. D:P D - -").unwrap();
    let sthayi = Sthayi::new(vec![("lineA".to_string(), line_a)]);
    let antara = Antara::new(vec![]);
    let swarmaalika = Swarmaalika::new(None, sthayi, antara, None, Some(1));
    Raag::new("durga".to_string(), aroha, avroha, Some(pakad), None, swarmaalika)
}

/// test if raag composition contains its parts
#[test]
fn test_raag_parts() {
    let table = initialise_swars();
    let raag = durga(&table);
    assert!(raag.aroha().aroha().0.len() > 0);
    assert!(raag.avroha().avroha().0.len() > 0);
    assert!(raag.pakad().is_some());
    assert_eq!(raag.swarmaalika().sam(), 1);
    assert!(raag.swarmaalika().sthayi.get_line("lineA").is_some());
    assert!(raag.swarmaalika().antara.get_line("lineC").is_none());
    assert_eq!(raag.name(), "durga");
}

/// a window drawn consecutively from the aroha classifies as ascending
#[test]
fn test_classify_ascending() {
    let table = initialise_swars();
    let raag = durga(&table);
    let window = vec![
        Swar::new(Pitch::new("S".to_string()), UNITS_PER_BEAT),
        Swar::new(Pitch::new("R".to_string()), UNITS_PER_BEAT),
        Swar::new(Pitch::new("M".to_string()), UNITS_PER_BEAT),
    ];
    assert!(raag.in_aroha(&window, &table));
}

/// the reversed window classifies as descending
#[test]
fn test_classify_descending() {
    let table = initialise_swars();
    let raag = durga(&table);
    let window = vec![
        Swar::new(Pitch::new("M".to_string()), UNITS_PER_BEAT),
        Swar::new(Pitch::new("R".to_string()), UNITS_PER_BEAT),
        Swar::new(Pitch::new("S".to_string()), UNITS_PER_BEAT),
    ];
    assert!(raag.in_avroha(&window, &table));
}

/// an out-of-order window classifies as neither
#[test]
fn test_classify_neither() {
    let table = initialise_swars();
    let raag = durga(&table);
    let window = vec![
        Swar::new(Pitch::new("R".to_string()), UNITS_PER_BEAT),
        Swar::new(Pitch::new("S".to_string()), UNITS_PER_BEAT),
        Swar::new(Pitch::new("P".to_string()), UNITS_PER_BEAT),
    ];
    assert!(!raag.in_aroha(&window, &table));
    assert!(!raag.in_avroha(&window, &table));
}

/// replacing keeps the target's duration and takes the candidate's pitch
#[test]
fn test_apply_replace() {
    let table = initialise_swars();
    let src = rustymusic::swarblocks::SwarBlocks::parse(&table, "S - R - M").unwrap();
    let ix = SwarInSwarBlock { swarbeat_index: 2, swar_index: 0 };
    let cand = Swar::new(Pitch::new("P".to_string()), 7);
    let out = src.apply_mutation(&ix, MutationOperatorKind::Replace, &cand, &cand, true);
    let beat = out.get_swarbeat_at(2);
    assert_eq!(beat.swars[0].pitch.as_ref().unwrap().0, "P");
    assert_eq!(beat.swars[0].beat_units, 2 * UNITS_PER_BEAT);
}

/// splitting a whole beat yields two half-beat swars that sum to a beat
#[test]
fn test_apply_share_beat() {
    let table = initialise_swars();
    let src = rustymusic::swarblocks::SwarBlocks::parse(&table, "S R M").unwrap();
    let ix = SwarInSwarBlock { swarbeat_index: 1, swar_index: 0 };
    let c1 = Swar::new(Pitch::new("P".to_string()), UNITS_PER_BEAT);
    let c2 = Swar::new(Pitch::new("D".to_string()), UNITS_PER_BEAT);
    let out = src.apply_mutation(&ix, MutationOperatorKind::ShareBeat, &c1, &c2, true);
    let beat = out.get_swarbeat_at(1);
    assert_eq!(beat.swars.len(), 2);
    assert_eq!(beat.swars[0].beat_units + beat.swars[1].beat_units, UNITS_PER_BEAT);
    assert_eq!(beat.swars[0].pitch.as_ref().unwrap().0, "P");
    assert_eq!(beat.swars[1].pitch.as_ref().unwrap().0, "D");
}

/// a grace-note split uses the short ornament fraction and its complement
#[test]
fn test_apply_kan_swar() {
    let table = initialise_swars();
    let src = rustymusic::swarblocks::SwarBlocks::parse(&table, "S R M").unwrap();
    let ix = SwarInSwarBlock { swarbeat_index: 1, swar_index: 0 };
    let c1 = Swar::new(Pitch::new("P".to_string()), UNITS_PER_BEAT);
    let c2 = Swar::new(Pitch::new("D".to_string()), UNITS_PER_BEAT);
    let out = src.apply_mutation(&ix, MutationOperatorKind::KanSwar, &c1, &c2, true);
    let beat = out.get_swarbeat_at(1);
    assert_eq!(beat.swars.len(), 2);
    assert_eq!(beat.swars[0].beat_units, 4);
    assert_eq!(beat.swars[1].beat_units, 16);
}

/// splitting never breaks an already subdivided beat: it falls back to replace
#[test]
fn test_share_beat_fallback() {
    let table = initialise_swars();
    let src = rustymusic::swarblocks::SwarBlocks::parse(&table, "S:R M").unwrap();
    let ix = SwarInSwarBlock { swarbeat_index: 0, swar_index: 0 };
    let c1 = Swar::new(Pitch::new("P".to_string()), UNITS_PER_BEAT);
    let out = src.apply_mutation(&ix, MutationOperatorKind::ShareBeat, &c1, &c1, true);
    let beat = out.get_swarbeat_at(0);
    assert_eq!(beat.swars.len(), 2);
    assert_eq!(beat.swars[0].pitch.as_ref().unwrap().0, "P");
    assert_eq!(beat.swars[0].beat_units, 10);
}

/// a mutation is owed on a non-empty source with ordinary durations,
/// and it keeps the phrase and beat structure
#[test]
fn test_randomise_structure() {
    let table = initialise_swars();
    let raag = durga(&table);
    let src = raag.pakad().as_ref().unwrap();
    for _ in 0..20 {
        let m = raag.randomise(src, &table).unwrap();
        assert_eq!(m.0.len(), src.0.len());
        let src_beats: usize = src.0.iter().map(|b| b.0.len()).sum();
        let out_beats: usize = m.0.iter().map(|b| b.0.len()).sum();
        assert_eq!(src_beats, out_beats);
    }
}

/// a practice drill is bracketed by the long tonic and sized as asked
#[test]
fn test_randomiser() {
    let table = initialise_swars();
    let raag = durga(&table);
    let swars = randomiser(&raag, 5).unwrap();
    assert_eq!(swars.len(), 7);
    assert_eq!(swars[0].pitch.as_ref().unwrap().0, "S");
    assert_eq!(swars[0].beat_units, DRILL_TONIC_UNITS);
    assert_eq!(swars[6].beat_units, DRILL_TONIC_UNITS);
    for sw in &swars[1..6] {
        assert_eq!(sw.beat_units, DRILL_NOTE_UNITS);
    }
}

/// the reverse adjacency search skips an empty continuation beat
#[test]
fn test_prev_swar_skips_empty_beat() {
    let table = initialise_swars();
    let src = rustymusic::swarblocks::SwarBlocks::parse(&table, "S - R").unwrap();
    let found = src.swar_index_reverse(1, 0).unwrap();
    assert_eq!(found.swarbeat_index, 0);
    assert_eq!(found.swar_index, 0);
}

/// the adjacency window around a swar holds its pitched neighbours only
#[test]
fn test_adjacent_swars_window() {
    let table = initialise_swars();
    let src = rustymusic::swarblocks::SwarBlocks::parse(&table, "S - R - M").unwrap();
    let ix = SwarInSwarBlock { swarbeat_index: 2, swar_index: 0 };
    let w = src.adjacent_swars(&ix).unwrap();
    assert_eq!(w.len(), 3);
    assert_eq!(w[0].pitch.as_ref().unwrap().0, "S");
    assert_eq!(w[1].pitch.as_ref().unwrap().0, "R");
    assert_eq!(w[2].pitch.as_ref().unwrap().0, "M");
}

/// each error kind describes itself
#[test]
fn test_error_descriptions() {
    assert!(MusicError::Lookup.describe().contains("resolve"));
    assert!(MusicError::Parse.describe().contains("grammar"));
    assert!(MusicError::Structure.describe().contains("extend"));
}

/// random choices always land inside the phrase: the picked beat exists
/// and is never an empty continuation marker
#[test]
fn test_random_swar_index_bounds() {
    let table = initialise_swars();
    let src = rustymusic::swarblocks::SwarBlocks::parse(&table, "S - R:G M:P:D:S. -").unwrap();
    for _ in 0..50 {
        let ix = src.random_swar_index().unwrap();
        assert!(ix.swarbeat_index < 5);
        let beat = src.get_swarbeat_at(ix.swarbeat_index);
        assert!(ix.swar_index < beat.swars.len());
    }
}

/// an empty candidate pool yields no mutation, never a disguised clone
#[test]
fn test_mutate_empty_pool_is_none() {
    let table = initialise_swars();
    let src = rustymusic::swarblocks::SwarBlocks::parse(&table, "S R M").unwrap();
    let ix = SwarInSwarBlock { swarbeat_index: 0, swar_index: 0 };
    assert!(src.mutate(&ix, &vec![]).is_none());
}

/// a bad piece anywhere in a comma-separated group fails the whole load
#[test]
fn test_blocks_parse_error_propagates() {
    let table = initialise_swars();
    assert_eq!(
        rustymusic::swarblocks::SwarBlocks::parse(&table, "S R M, Q P").unwrap_err(),
        MusicError::Lookup
    );
}
