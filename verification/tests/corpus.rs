use std::collections::HashMap;

use beatmap_downloader::catalog::{DifficultyRecord, EmbeddingPoint, ScoreMetadata};
use beatmap_downloader::corpus::{
    build_corpus, encode_corpus, make_row, CorpusError, CorpusRow, HEADER_LEN, ROW_STRIDE,
};
use beatmap_downloader::decode::decode_corpus;
use beatmap_downloader::metadata::BeatmapMetadata;
use beatmap_downloader::score_id::ParseError;

fn single(value: f32) -> u32 {
    value.to_bits()
}

fn row(beatmap_id: u32, title: &str, name: &str, creator: &str) -> CorpusRow {
    CorpusRow {
        beatmap_id,
        mods: 72,
        x: single(1.5),
        y: single(-2.25),
        average_pp: single(321.5),
        stars: single(5.75),
        release_year: 2015,
        length_seconds: 183,
        bpm: 190,
        approach_rate: single(9.0),
        circle_size: single(4.0),
        overall_difficulty: single(8.0),
        aim_difficulty: single(2.875),
        speed_difficulty: single(2.5),
        beatmapset_id: 39804,
        user_count: 17,
        title: title.to_string(),
        difficulty_name: name.to_string(),
        creator: creator.to_string(),
    }
}

fn beatmap(beatmap_id: u32, title: &str) -> BeatmapMetadata {
    BeatmapMetadata {
        beatmapset_id: 39804,
        beatmap_id,
        approved_year: Some(2015),
        total_length: 183,
        version: "Insane".to_string(),
        title: title.to_string(),
        creator: "mapper".to_string(),
        bpm: 190,
        difficultyrating: 5.25f64.to_bits(),
        diff_size: single(4.0),
        diff_overall: single(8.0),
        diff_approach: single(9.0),
    }
}

fn score(id: &str, avg_pp: f32, num_users: i32) -> ScoreMetadata {
    ScoreMetadata { score_id: id.to_string(), avg_pp: single(avg_pp), num_users }
}

fn point(id: &str, x: f32, y: f32) -> EmbeddingPoint {
    EmbeddingPoint { score_id: id.to_string(), x: single(x), y: single(y) }
}

fn difficulty(id: &str, aim: f32, speed: f32, stars: f32) -> DifficultyRecord {
    DifficultyRecord {
        score_id: id.to_string(),
        difficulty_aim: single(aim),
        difficulty_speed: single(speed),
        difficulty_flashlight: single(0.5),
        speed_note_count: single(120.0),
        slider_factor: single(0.99),
        stars: single(stars),
    }
}

fn index(beatmaps: Vec<BeatmapMetadata>) -> HashMap<u32, BeatmapMetadata> {
    beatmaps.into_iter().map(|b| (b.beatmap_id, b)).collect()
}

#[test]
fn the_layout_of_one_row() {
    let bytes = encode_corpus(&vec![row(150057, "Title", "Hard", "me")]);
    let mut expected: Vec<u8> = Vec::new();
    expected.extend_from_slice(&1u32.to_le_bytes());
    expected.extend_from_slice(&150057u32.to_le_bytes());
    expected.extend_from_slice(&72u32.to_le_bytes());
    expected.extend_from_slice(&1.5f32.to_le_bytes());
    expected.extend_from_slice(&(-2.25f32).to_le_bytes());
    expected.extend_from_slice(&321.5f32.to_le_bytes());
    expected.extend_from_slice(&5.75f32.to_le_bytes());
    expected.extend_from_slice(&5u16.to_le_bytes());
    expected.extend_from_slice(&4u16.to_le_bytes());
    expected.extend_from_slice(&2u16.to_le_bytes());
    expected.extend_from_slice(&2015u16.to_le_bytes());
    expected.extend_from_slice(&183u16.to_le_bytes());
    expected.extend_from_slice(&190u16.to_le_bytes());
    expected.extend_from_slice(&9.0f32.to_le_bytes());
    expected.extend_from_slice(&4.0f32.to_le_bytes());
    expected.extend_from_slice(&8.0f32.to_le_bytes());
    expected.extend_from_slice(&2.875f32.to_le_bytes());
    expected.extend_from_slice(&2.5f32.to_le_bytes());
    expected.extend_from_slice(&39804u32.to_le_bytes());
    expected.extend_from_slice(&17u16.to_le_bytes());
    assert_eq!(expected.len(), HEADER_LEN + ROW_STRIDE);
    expected.extend_from_slice(b"TitleHardme");
    assert_eq!(bytes, expected);
}

#[test]
fn the_stride_is_62_bytes() {
    assert_eq!(HEADER_LEN, 4);
    assert_eq!(ROW_STRIDE, 62);
    let mut fixed = Vec::new();
    row(1, "a", "b", "c").write_fixed(&mut fixed);
    assert_eq!(fixed.len(), 62);
}

#[test]
fn an_empty_corpus_is_its_header() {
    assert_eq!(encode_corpus(&vec![]), vec![0, 0, 0, 0]);
    assert_eq!(decode_corpus(&[0, 0, 0, 0]), Some(vec![]));
}

#[test]
fn strings_follow_all_rows() {
    let rows = vec![
        row(1, "first", "Easy", "alice"),
        row(2, "", "", ""),
        row(3, "th\u{ef}rd \u{2014} \u{1f3b5}", "Expert+", "b\u{f6}b"),
    ];
    let bytes = encode_corpus(&rows);
    let string_region_offset = 4 + rows.len() * ROW_STRIDE;
    assert_eq!(u32::from_le_bytes([bytes[0], bytes[1], bytes[2], bytes[3]]), 3);
    let mut strings = Vec::new();
    for r in &rows {
        strings.extend_from_slice(r.title.as_bytes());
        strings.extend_from_slice(r.difficulty_name.as_bytes());
        strings.extend_from_slice(r.creator.as_bytes());
    }
    assert_eq!(&bytes[string_region_offset..], &strings[..]);
    let third = 4 + 2 * ROW_STRIDE;
    let title_len = u16::from_le_bytes([bytes[third + 24], bytes[third + 25]]);
    assert_eq!(title_len as usize, rows[2].title.len());
    assert_ne!(title_len as usize, rows[2].title.chars().count());
}

#[test]
fn decoding_recovers_the_rows() {
    let rows = vec![
        row(1, "first", "Easy", "alice"),
        row(2, "", "", ""),
        row(u32::MAX, "th\u{ef}rd \u{2014} \u{1f3b5}", "Expert+", "b\u{f6}b"),
    ];
    assert_eq!(decode_corpus(&encode_corpus(&rows)), Some(rows));
}

#[test]
fn what_is_no_corpus_is_not_decoded() {
    let bytes = encode_corpus(&vec![row(1, "first", "Easy", "alice")]);
    assert!(decode_corpus(&bytes).is_some());
    assert_eq!(decode_corpus(&bytes[..bytes.len() - 1]), None);
    assert_eq!(decode_corpus(&bytes[..3]), None);
    assert_eq!(decode_corpus(&bytes[..40]), None);
    assert_eq!(decode_corpus(&[]), None);
    let mut longer = bytes.clone();
    longer.push(b'x');
    assert!(decode_corpus(&longer).is_none());
    let mut not_text = bytes.clone();
    let last = not_text.len() - 1;
    not_text[last] = 0xff;
    assert!(decode_corpus(&not_text).is_none());
    let mut more_rows = bytes.clone();
    more_rows[0] = 2;
    assert!(decode_corpus(&more_rows).is_none());
}

#[test]
fn a_row_is_joined_from_its_records() {
    let catalog = vec![score("150057_DTHD", 321.5, 17)];
    let beatmaps = index(vec![beatmap(150057, "Title")]);
    let embedding = vec![point("150057_DTHD", 1.5, -2.25)];
    let difficulties = vec![difficulty("150057_DTHD", 2.875, 2.5, 5.75)];
    let bytes = build_corpus(&catalog, &beatmaps, &embedding, &difficulties).unwrap();
    let rows = decode_corpus(&bytes).unwrap();
    let mut expected = row(150057, "Title", "Insane", "mapper");
    expected.mods = 64 + 8;
    assert_eq!(rows, vec![expected]);
}

#[test]
fn rows_come_in_the_order_of_the_embedding() {
    let catalog = vec![score("1_", 1.0, 1), score("2_HR", 2.0, 2), score("3_DT", 3.0, 3)];
    let beatmaps = index(vec![beatmap(1, "one"), beatmap(2, "two"), beatmap(3, "three")]);
    let embedding = vec![point("3_DT", 0.0, 0.0), point("1_", 0.0, 0.0), point("2_HR", 0.0, 0.0)];
    let bytes = build_corpus(&catalog, &beatmaps, &embedding, &vec![]).unwrap();
    let rows = decode_corpus(&bytes).unwrap();
    let ids: Vec<u32> = rows.iter().map(|r| r.beatmap_id).collect();
    assert_eq!(ids, vec![3, 1, 2]);
    let mods: Vec<u32> = rows.iter().map(|r| r.mods).collect();
    assert_eq!(mods, vec![64, 0, 16]);
    let titles: Vec<&str> = rows.iter().map(|r| r.title.as_str()).collect();
    assert_eq!(titles, vec!["three", "one", "two"]);
}

#[test]
fn a_score_without_difficulty_gets_zeros() {
    let catalog = vec![score("150057_DTHD", 321.5, 17)];
    let beatmaps = index(vec![beatmap(150057, "Title")]);
    let embedding = vec![point("150057_DTHD", 1.5, -2.25)];
    let elsewhere = vec![difficulty("1_", 2.875, 2.5, 5.75)];
    let bytes = build_corpus(&catalog, &beatmaps, &embedding, &elsewhere).unwrap();
    assert_eq!(&bytes[4 + 20..4 + 24], &0.0f32.to_le_bytes());
    assert_eq!(&bytes[4 + 48..4 + 52], &0.0f32.to_le_bytes());
    assert_eq!(&bytes[4 + 52..4 + 56], &0.0f32.to_le_bytes());
    let rows = decode_corpus(&bytes).unwrap();
    assert_eq!(f32::from_bits(rows[0].stars), 0.0);
    assert_eq!(f32::from_bits(rows[0].aim_difficulty), 0.0);
    assert_eq!(f32::from_bits(rows[0].speed_difficulty), 0.0);
    assert_eq!(f32::from_bits(rows[0].average_pp), 321.5);
    assert_eq!(rows[0].title, "Title");
}

#[test]
fn the_placeholder_is_all_zero() {
    let record = DifficultyRecord::placeholder("150057_DTHD".to_string());
    assert_eq!(record.score_id, "150057_DTHD");
    for bits in [
        record.difficulty_aim,
        record.difficulty_speed,
        record.difficulty_flashlight,
        record.speed_note_count,
        record.slider_factor,
    ] {
        assert_eq!(f32::from_bits(bits), 0.0);
    }
    assert_eq!(f32::from_bits(record.stars), 0.0);
}

#[test]
fn a_beatmap_without_metadata_fails_the_build() {
    let catalog = vec![score("1_DT", 1.0, 1), score("999_DT", 2.0, 2)];
    let beatmaps = index(vec![beatmap(1, "one")]);
    let valid_row = point("1_DT", 0.0, 0.0);
    let orphan_row = point("999_DT", 0.0, 0.0);
    assert!(build_corpus(&catalog, &beatmaps, &vec![point("1_DT", 0.0, 0.0)], &vec![]).is_ok());
    assert_eq!(
        build_corpus(&catalog, &beatmaps, &vec![valid_row, orphan_row], &vec![]),
        Err(CorpusError::MissingBeatmap)
    );
    let orphan_first = vec![point("999_DT", 0.0, 0.0), point("1_DT", 0.0, 0.0)];
    assert_eq!(
        build_corpus(&catalog, &beatmaps, &orphan_first, &vec![]),
        Err(CorpusError::MissingBeatmap)
    );
}

#[test]
fn each_error_of_the_join() {
    let catalog = vec![score("1_DT", 1.0, 1), score("1_ZZ", 1.0, 1), score("1DT", 1.0, 1)];
    let beatmaps = index(vec![beatmap(1, "one")]);
    let build = |id: &str| build_corpus(&catalog, &beatmaps, &vec![point(id, 0.0, 0.0)], &vec![]);
    assert_eq!(build("2_DT"), Err(CorpusError::MissingScore));
    assert_eq!(build("1_ZZ"), Err(CorpusError::InvalidScoreId(ParseError::UnknownMod)));
    assert_eq!(build("1DT"), Err(CorpusError::InvalidScoreId(ParseError::MissingSeparator)));
    assert!(build("1_DT").is_ok());
}

#[test]
fn the_first_error_in_the_order_of_the_points_is_reported() {
    let catalog = vec![score("1_DT", 1.0, 1), score("5_DT", 1.0, 1)];
    let beatmaps = index(vec![beatmap(1, "one")]);
    let embedding = vec![point("1_DT", 0.0, 0.0), point("9_", 0.0, 0.0), point("5_DT", 0.0, 0.0)];
    assert_eq!(
        build_corpus(&catalog, &beatmaps, &embedding, &vec![]),
        Err(CorpusError::MissingScore)
    );
}

#[test]
fn of_two_records_with_one_identifier_the_later_counts() {
    let catalog = vec![score("1_DT", 1.0, 1), score("1_DT", 2.0, 2)];
    let beatmaps = index(vec![beatmap(1, "one")]);
    let embedding = vec![point("1_DT", 0.0, 0.0)];
    let difficulties = vec![difficulty("1_DT", 1.0, 1.0, 1.0), difficulty("1_DT", 2.0, 3.0, 4.0)];
    let rows =
        decode_corpus(&build_corpus(&catalog, &beatmaps, &embedding, &difficulties).unwrap())
            .unwrap();
    assert_eq!(f32::from_bits(rows[0].average_pp), 2.0);
    assert_eq!(rows[0].user_count, 2);
    assert_eq!(f32::from_bits(rows[0].aim_difficulty), 2.0);
    assert_eq!(f32::from_bits(rows[0].speed_difficulty), 3.0);
    assert_eq!(f32::from_bits(rows[0].stars), 4.0);
}

#[test]
fn sixteen_bit_fields_keep_the_low_bits() {
    let mut unusual = beatmap(1, "one");
    unusual.total_length = 70000;
    unusual.bpm = -1;
    unusual.approved_year = None;
    let none = DifficultyRecord::placeholder("1_".to_string());
    let made =
        make_row(&point("1_", 0.0, 0.0), &score("1_", 0.0, 65536 + 7), 1, 0, &unusual, &none);
    assert_eq!(made.length_seconds, 4464);
    assert_eq!(made.length_seconds, 70000i32 as u16);
    assert_eq!(made.bpm, 65535);
    assert_eq!(made.bpm, -1i32 as u16);
    assert_eq!(made.user_count, 7);
    assert_eq!(made.release_year, 0);
    unusual.approved_year = Some(2007);
    unusual.total_length = i32::MIN;
    let made = make_row(&point("1_", 0.0, 0.0), &score("1_", 0.0, i32::MAX), 1, 0, &unusual, &none);
    assert_eq!(made.release_year, 2007);
    assert_eq!(made.length_seconds, 0);
    assert_eq!(made.user_count, 65535);
    unusual.approved_year = Some(-1);
    unusual.bpm = 0x12345;
    let made = make_row(&point("1_", 0.0, 0.0), &score("1_", 0.0, -2), 1, 0, &unusual, &none);
    assert_eq!(made.release_year, -1i32 as u16);
    assert_eq!(made.bpm, 0x12345i32 as u16);
    assert_eq!(made.user_count, -2i32 as u16);
}

#[test]
fn a_long_string_keeps_the_low_bits_of_its_length() {
    let long = "x".repeat(65536 + 3);
    let bytes = encode_corpus(&vec![row(1, &long, "b", "c")]);
    assert_eq!(u16::from_le_bytes([bytes[4 + 24], bytes[4 + 25]]), 3);
    assert_eq!(bytes.len(), 4 + ROW_STRIDE + long.len() + 2);
}
