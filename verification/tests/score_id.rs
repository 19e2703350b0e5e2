use beatmap_downloader::mods::{mods_bits, with_mod};
use beatmap_downloader::score_id::{beatmap_id_of, parse_score_id, ParseError, ScoreId};

#[test]
fn splits_beatmap_and_mods() {
    let id = parse_score_id("1234_DTHD").unwrap();
    assert_eq!(id.beatmap_id, 1234);
    assert_eq!(id.mods, vec!["DT".to_string(), "HD".to_string()]);
    assert_eq!(
        parse_score_id("1234_DTHD"),
        Ok(ScoreId { beatmap_id: 1234, mods: vec!["DT".to_string(), "HD".to_string()] })
    );
}

#[test]
fn no_mods_is_an_empty_list() {
    let id = parse_score_id("150057_").ok().unwrap();
    assert_eq!(id.beatmap_id, 150057);
    assert!(id.mods.is_empty());
    assert_eq!(mods_bits(&id.mods), Ok(0));
}

#[test]
fn rejects_what_is_no_identifier() {
    assert_eq!(parse_score_id("1234").err(), Some(ParseError::MissingSeparator));
    assert_eq!(parse_score_id("_DT").err(), Some(ParseError::InvalidBeatmapId));
    assert_eq!(parse_score_id("12a4_DT").err(), Some(ParseError::InvalidBeatmapId));
    assert_eq!(parse_score_id("-5_DT").err(), Some(ParseError::InvalidBeatmapId));
    assert_eq!(parse_score_id("4294967296_").err(), Some(ParseError::InvalidBeatmapId));
    assert_eq!(parse_score_id("1234_DTH").err(), Some(ParseError::OddModsLength));
    assert_eq!(parse_score_id("1234_D\u{e9}").err(), Some(ParseError::NotAscii));
}

#[test]
fn largest_beatmap_number() {
    let id = parse_score_id("4294967295_HR").ok().unwrap();
    assert_eq!(id.beatmap_id, u32::MAX);
    assert_eq!(parse_score_id("+7_").ok().unwrap().beatmap_id, 7);
    assert_eq!(parse_score_id("007_").ok().unwrap().beatmap_id, 7);
}

#[test]
fn second_underscore_belongs_to_the_mods() {
    let id = parse_score_id("12_D_").ok().unwrap();
    assert_eq!(id.mods, vec!["D_".to_string()]);
    assert_eq!(mods_bits(&id.mods), Err(ParseError::UnknownMod));
}

#[test]
fn beatmap_of_a_score() {
    assert_eq!(beatmap_id_of("1234_DTHD"), Ok(1234));
    assert_eq!(beatmap_id_of("1234"), Ok(1234));
    assert_eq!(beatmap_id_of("x_DT"), Err(ParseError::InvalidBeatmapId));
    assert_eq!(beatmap_id_of(""), Err(ParseError::InvalidBeatmapId));
}

#[test]
fn legacy_bits_of_mods() {
    let dthd = parse_score_id("1234_DTHD").ok().unwrap();
    assert_eq!(mods_bits(&dthd.mods), Ok(64 + 8));
    let nc = parse_score_id("1_NC").ok().unwrap();
    assert_eq!(mods_bits(&nc.mods), Ok(512 + 64));
    let hdhrdt = parse_score_id("1_HDHRDT").ok().unwrap();
    assert_eq!(mods_bits(&hdhrdt.mods), Ok(8 + 16 + 64));
    let twice = parse_score_id("1_HDHD").ok().unwrap();
    assert_eq!(mods_bits(&twice.mods), Ok(8));
    let unknown = parse_score_id("1_HDZZ").ok().unwrap();
    assert_eq!(mods_bits(&unknown.mods), Err(ParseError::UnknownMod));
}

#[test]
fn beatmap_numbers_are_read_as_the_standard_library_reads_them() {
    for text in [
        "0", "7", "007", "+7", "-7", "", "+", "++7", "7+", " 7", "7 ", "1e3", "0x10", "4294967295",
        "4294967296", "42949672950", "99999999999999999999999", "12345678", "٣",
    ] {
        let id = format!("{}_", text);
        let expected = if text.is_ascii() { text.parse::<u32>().ok() } else { None };
        assert_eq!(parse_score_id(&id).ok().map(|parsed| parsed.beatmap_id), expected, "{}", text);
    }
}

#[test]
fn one_lookup_is_added_to_the_bitmask() {
    assert_eq!(with_mod(8, Some(64)), Ok(72));
    assert_eq!(with_mod(8, Some(8)), Ok(8));
    assert_eq!(with_mod(0, Some(0)), Ok(0));
    assert_eq!(with_mod(8, None), Err(ParseError::UnknownMod));
}

#[test]
fn codes_are_known_in_either_case() {
    let lower = parse_score_id("1_dthd").unwrap();
    assert_eq!(lower.mods, vec!["dt".to_string(), "hd".to_string()]);
    assert_eq!(mods_bits(&lower.mods), Ok(64 + 8));
    let none = parse_score_id("1_NM").unwrap();
    assert_eq!(mods_bits(&none.mods), Ok(0));
}
