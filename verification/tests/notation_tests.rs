use rustymusic::constants::{KAN_SWAR_BEAT_UNITS, UNITS_PER_BEAT};
use rustymusic::error::MusicError;
use rustymusic::pitch::{initialise_swars, Hertz, Pitch};
use rustymusic::swar::Swar;
use rustymusic::swarbeat::SwarBeat;
use rustymusic::swarblock::{extend_last_swar, get_last_swarbeat_with_swar, SwarBlock};

/// test S is set to C#, base pitch
#[test]
fn test_base_swar_is_sa() {
    let table = initialise_swars();
    let base_hz = Hertz::new(27718, "C#".to_string());
    let sa_pitch = Pitch::new("S".to_string());
    let sa = Swar::new(sa_pitch, UNITS_PER_BEAT);
    assert_eq!(sa.pitch.unwrap().hertz(&table).unwrap(), base_hz);
}

/// test swar with single beat
#[test]
fn test_swar_repr_single_beat() {
    let sa_pitch = Pitch::new("S".to_string());
    let sa = Swar::new(sa_pitch, UNITS_PER_BEAT);
    assert_eq!(sa.to_string(), "S");
}

/// test a swarbeat with a pair of swars
#[test]
fn test_swarbeat_repr_double() {
    let sa = Swar::new(Pitch::new("S".to_string()), 10);
    let ma = Swar::new(Pitch::new("M".to_string()), 10);
    let sw_bt = SwarBeat::new(vec![sa, ma]);
    assert_eq!(sw_bt.to_string(), "S:M");
}

/// test a swarbeat representation with quadruple swars
#[test]
fn test_swarbeat_repr_quadruple() {
    let sa = Swar::new(Pitch::new("S".to_string()), 5);
    let re = Swar::new(Pitch::new("R".to_string()), 5);
    let ma = Swar::new(Pitch::new("M".to_string()), 5);
    let pa = Swar::new(Pitch::new("P".to_string()), 5);
    let sw_bt = SwarBeat::new(vec![sa, re, ma, pa]);
    assert_eq!(sw_bt.to_string(), "S:R:M:P");
}

/// test a swarbeat representation with kan swar
#[test]
fn test_swarbeat_repr_kan_swar() {
    let ni = Swar::new(Pitch::new(".N".to_string()), KAN_SWAR_BEAT_UNITS);
    let sa = Swar::new(Pitch::new("S".to_string()), UNITS_PER_BEAT - KAN_SWAR_BEAT_UNITS);
    let sw_bt = SwarBeat::new(vec![ni, sa]);
    assert_eq!(sw_bt.to_string(), ".N/S");
}

/// test swarbeat representation with half empty beat
#[test]
fn test_swarbeat_repr_half_empty_beat() {
    let empty = Swar::new(Pitch::new("".to_string()), 10);
    let sa = Swar::new(Pitch::new("S".to_string()), 10);
    let sw_bt = SwarBeat::new(vec![empty, sa]);
    assert_eq!(sw_bt.to_string(), ":S");
}

/// test no of swarbeats match for a sequence
#[test]
fn test_string_to_swarbeats_count() {
    let table = initialise_swars();
    let s = "S:R:M:P S - - M P:P -:D :D P/M";
    let blk = SwarBlock::parse(&table, s).unwrap();
    assert_eq!(blk.len(), 9);
}

/// test if the beat count matches when a swar is extended
#[test]
fn test_extend_swar_with_beat() {
    let table = initialise_swars();
    let s = "S - G -";
    let blk = SwarBlock::parse(&table, s).unwrap();
    let mut swarbeats = blk.0;
    assert!(extend_last_swar(&mut swarbeats, UNITS_PER_BEAT));
    let i = get_last_swarbeat_with_swar(&swarbeats).unwrap();
    let last_swar = swarbeats[i].swars.last().unwrap();
    assert_eq!(last_swar.beat_units, 3 * UNITS_PER_BEAT);
}

/// test if the beat count matches when half a beat swar is extended
#[test]
fn test_extend_swar_with_half_beat() {
    let table = initialise_swars();
    let s = "S - :G";
    let blk = SwarBlock::parse(&table, s).unwrap();
    let mut swarbeats = blk.0;
    assert!(extend_last_swar(&mut swarbeats, UNITS_PER_BEAT));
    let i = get_last_swarbeat_with_swar(&swarbeats).unwrap();
    let last_swar = swarbeats[i].swars.last().unwrap();
    assert_eq!(last_swar.beat_units, UNITS_PER_BEAT + 10);
}

/// test rendering of a swar spanning two swarbeats, e.g.: M:M -:P
#[test]
fn test_load_swar_spanning_two_swarbeats() {
    let table = initialise_swars();
    let s = "M:M -:P";
    let blk = SwarBlock::parse(&table, s).unwrap();
    assert_eq!(blk.to_string(), "M:M -:P");
}

/// test rendering of sequence of swarbeats with different combination of swars and beats
#[test]
fn test_load_multiple_swarbeats() {
    let table = initialise_swars();
    let s = "S:R:M:P S - - M P:P -:D :D P/M";
    let blk = SwarBlock::parse(&table, s).unwrap();
    assert_eq!(blk.to_string(), s);
}

/// the round trip holds for plain, half, quarter, grace and continuation tokens
#[test]
fn test_round_trip_assorted() {
    let table = initialise_swars();
    for s in ["S", "S R G", "S:R", ":D", "D:", "-:D S", "S - - -", "P/M S", ".N/S", "S:R:M:P"] {
        let with_prefix = if s.starts_with('-') || s.starts_with(':') {
            format!("S {}", s)
        } else {
            s.to_string()
        };
        let blk = SwarBlock::parse(&table, &with_prefix).unwrap();
        assert_eq!(blk.to_string(), with_prefix);
    }
}

/// every non-empty beat of a continuation-free notation sums to one beat
#[test]
fn test_beat_sums_whole() {
    let table = initialise_swars();
    let blk = SwarBlock::parse(&table, "S:R:M:P S M P:P :D P/M").unwrap();
    for beat in &blk.0 {
        let total: u32 = beat.swars.iter().map(|sw| sw.beat_units).sum();
        assert_eq!(total, UNITS_PER_BEAT);
    }
}

/// the total duration of a parsed phrase is one beat per beat slot
#[test]
fn test_total_duration_conserved() {
    let table = initialise_swars();
    let blk = SwarBlock::parse(&table, "S:R:M:P S - - M P:P -:D :D P/M").unwrap();
    let total: u32 = blk.0.iter().flat_map(|b| b.swars.iter()).map(|sw| sw.beat_units).sum();
    assert_eq!(total, 9 * UNITS_PER_BEAT);
}

/// an unknown note name is a lookup error
#[test]
fn test_unknown_name_is_lookup_error() {
    let table = initialise_swars();
    assert_eq!(SwarBlock::parse(&table, "S Q").unwrap_err(), MusicError::Lookup);
}

/// a dangling continuation is a structural error
#[test]
fn test_dangling_continuation_is_structure_error() {
    let table = initialise_swars();
    assert_eq!(SwarBlock::parse(&table, "- S").unwrap_err(), MusicError::Structure);
}

/// a wrongly sized group is a parse error
#[test]
fn test_bad_arity_is_parse_error() {
    let table = initialise_swars();
    assert_eq!(SwarBlock::parse(&table, "S:R:M").unwrap_err(), MusicError::Parse);
    assert_eq!(SwarBlock::parse(&table, ":").unwrap_err(), MusicError::Parse);
    assert_eq!(SwarBlock::parse(&table, "").unwrap_err(), MusicError::Parse);
}

/// the frequency table holds three octaves in ascending order
#[test]
fn test_table_three_octaves() {
    let table = initialise_swars();
    assert_eq!(table.entries.len(), 36);
    assert_eq!(Pitch::new("S".to_string()).hertz(&table).unwrap().freq(), 27718);
    assert_eq!(Pitch::new(".N".to_string()).hertz(&table).unwrap().freq(), 26163);
    assert_eq!(Pitch::new("S.".to_string()).hertz(&table).unwrap().freq(), 55437);
    assert_eq!(Pitch::new("S".to_string()).hertz(&table).unwrap().tone(), "C#");
    for w in table.entries.windows(2) {
        assert!(w[0].hertz.freq < w[1].hertz.freq);
    }
}

/// octave marks move a name between registers
#[test]
fn test_pitch_octave_shifts() {
    let re = Pitch::new("R".to_string());
    assert_eq!(re.lower().unwrap().0, ".R");
    assert_eq!(re.higher().unwrap().0, "R.");
    assert_eq!(Pitch::new(".R".to_string()).higher().unwrap().0, "R");
    assert_eq!(Pitch::new("R.".to_string()).lower().unwrap().0, "R");
    assert!(Pitch::new(".R".to_string()).lower().is_none());
    assert!(Pitch::new("R.".to_string()).higher().is_none());
}
