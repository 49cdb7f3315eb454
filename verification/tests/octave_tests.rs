use rustymusic::octaves::{Aroha, Avroha};
use rustymusic::pitch::initialise_swars;
use rustymusic::swarblocks::SwarBlocks;

/// test aroha as string
#[test]
fn test_aroha() {
    let table = initialise_swars();
    let expected = "S - R - M - P - D - S. - -";
    let aroha = Aroha::new(SwarBlocks::parse(&table, expected).unwrap()).unwrap();
    assert_eq!(aroha.aroha().to_string(), expected);
}

/// test aroha lower octave
#[test]
fn test_aroha_lower_octave() {
    let table = initialise_swars();
    let aroha = Aroha::new(SwarBlocks::parse(&table, "S - R - M - P - D - S. - -").unwrap())
        .unwrap();
    let expected = ".R - .M - .P - .D -";
    assert_eq!(aroha.lower().to_string(), expected);
}

/// test aroha higher octave
#[test]
fn test_aroha_higher_octave() {
    let table = initialise_swars();
    let aroha = Aroha::new(SwarBlocks::parse(&table, "S - R - M - P - D - S. - -").unwrap())
        .unwrap();
    let expected = "R. - M. - P. - D. -";
    assert_eq!(aroha.higher().to_string(), expected);
}

/// test aroha all octaves
#[test]
fn test_aroha_all_octaves() {
    let table = initialise_swars();
    let aroha = Aroha::new(SwarBlocks::parse(&table, "S - R - M - P - D - S. - -").unwrap())
        .unwrap();
    let expected = ".R - .M - .P - .D -";
    assert_eq!(aroha.lower.to_string(), expected);
}

/// test avroha as string
#[test]
fn test_avroha() {
    let table = initialise_swars();
    let expected = "S. - D - P - M - R - S -";
    let avroha = Avroha::new(SwarBlocks::parse(&table, expected).unwrap()).unwrap();
    assert_eq!(avroha.avroha().to_string(), expected);
}

/// test avroha lower octave
#[test]
fn test_avroha_lower_octave() {
    let table = initialise_swars();
    let avroha = Avroha::new(SwarBlocks::parse(&table, "S. - D - P - M - R - S -").unwrap())
        .unwrap();
    let expected = ".D - .P - .M - .R -";
    assert_eq!(avroha.lower().to_string(), expected);
}

/// test avroha higher octave
#[test]
fn test_avroha_higher_octave() {
    let table = initialise_swars();
    let avroha = Avroha::new(SwarBlocks::parse(&table, "S. - D - P - M - R - S -").unwrap())
        .unwrap();
    let expected = "D. - P. - M. - R. -";
    assert_eq!(avroha.higher().to_string(), expected);
}

/// test avroha in all three octaves
#[test]
fn test_avroha_all_octaves() {
    let table = initialise_swars();
    let avroha = Avroha::new(SwarBlocks::parse(&table, "S. - D - P - M - R - S -").unwrap())
        .unwrap();
    let expected = "D. - P. - M. - R. - S. - D - P - M - R - S - .D - .P - .M - .R -";
    let avroha_set = avroha.all_octaves();
    assert_eq!(avroha_set.to_string(), expected);
}

/// a single-beat scale has no valid derivation span and fails
#[test]
fn test_single_beat_scale_fails() {
    let table = initialise_swars();
    let one = SwarBlocks::parse(&table, "S").unwrap();
    assert!(Aroha::new(one).is_err());
}

/// a derivation spanning two phrases loses the boundary notes of both
#[test]
fn test_two_phrase_derivation() {
    let table = initialise_swars();
    let aroha = Aroha::new(SwarBlocks::parse(&table, "S - R -, M - S. -").unwrap()).unwrap();
    assert_eq!(aroha.lower().to_string(), ".R - .M -");
}
