use beatmap_downloader::metadata::{
    approved_year_from, read_beatmap_metadata, BeatmapMetadata, BeatmapRow, MetadataError,
};

fn table_row(beatmap_id: i64, title: &str) -> BeatmapRow {
    BeatmapRow {
        beatmapset_id: 39804,
        beatmap_id,
        approved_date: 1_431_648_000_000_000_000,
        total_length: 183,
        version: "Insane".to_string(),
        title: title.to_string(),
        creator: "mapper".to_string(),
        bpm: 190,
        difficultyrating: 5.25f64.to_bits(),
        diff_size: 4.0f32.to_bits(),
        diff_overall: 8.0f32.to_bits(),
        diff_approach: 9.0f32.to_bits(),
    }
}

#[test]
fn a_row_becomes_a_record() {
    let made = BeatmapMetadata::from_row(&table_row(150057, "Title")).unwrap();
    assert_eq!(made.beatmapset_id, 39804);
    assert_eq!(made.beatmap_id, 150057);
    assert_eq!(made.approved_year, Some(2015));
    assert_eq!(made.total_length, 183);
    assert_eq!(made.version, "Insane");
    assert_eq!(made.title, "Title");
    assert_eq!(made.creator, "mapper");
    assert_eq!(made.bpm, 190);
    assert_eq!(f64::from_bits(made.difficultyrating), 5.25);
    assert_eq!(f32::from_bits(made.diff_size), 4.0);
    assert_eq!(f32::from_bits(made.diff_overall), 8.0);
    assert_eq!(f32::from_bits(made.diff_approach), 9.0);
}

#[test]
fn the_year_of_approval() {
    let year = |nanos: i64| {
        let mut row = table_row(1, "t");
        row.approved_date = nanos;
        BeatmapMetadata::from_row(&row).ok().unwrap().approved_year
    };
    assert_eq!(year(0), None);
    assert_eq!(year(1), Some(1970));
    assert_eq!(year(-1), Some(1970));
    assert_eq!(year(-1_000_000_000), Some(1969));
    assert_eq!(year(1_199_145_599_000_000_000), Some(2007));
    assert_eq!(year(1_199_145_600_000_000_000), Some(2008));
    assert_eq!(year(1_199_145_600_999_999_999), Some(2008));
    assert_eq!(year(i64::MAX), Some(2262));
    assert_eq!(year(i64::MIN), Some(1677));
}

#[test]
fn no_date_is_no_year() {
    assert_eq!(approved_year_from(0, Some(1970)), None);
    assert_eq!(approved_year_from(5, Some(1970)), Some(1970));
    assert_eq!(approved_year_from(5, None), None);
}

#[test]
fn a_number_out_of_range_names_its_column() {
    let error = |change: fn(&mut BeatmapRow)| {
        let mut row = table_row(1, "t");
        change(&mut row);
        BeatmapMetadata::from_row(&row).err()
    };
    assert_eq!(error(|r| r.beatmapset_id = -1), Some(MetadataError::BeatmapsetId));
    assert_eq!(error(|r| r.beatmapset_id = 1 << 32), Some(MetadataError::BeatmapsetId));
    assert_eq!(error(|r| r.beatmap_id = -1), Some(MetadataError::BeatmapId));
    assert_eq!(error(|r| r.beatmap_id = 1 << 32), Some(MetadataError::BeatmapId));
    assert_eq!(error(|r| r.total_length = 1 << 31), Some(MetadataError::TotalLength));
    assert_eq!(error(|r| r.total_length = -(1 << 31) - 1), Some(MetadataError::TotalLength));
    assert_eq!(error(|r| r.bpm = 1 << 31), Some(MetadataError::Bpm));
    assert_eq!(error(|r| r.beatmap_id = (1 << 32) - 1), None);
    assert_eq!(error(|r| r.bpm = -(1 << 31)), None);
    assert_eq!(
        error(|r| {
            r.beatmap_id = -1;
            r.beatmapset_id = -1;
        }),
        Some(MetadataError::BeatmapsetId)
    );
}

#[test]
fn the_table_is_indexed_by_beatmap() {
    let rows = vec![table_row(1, "one"), table_row(2, "two"), table_row(1, "one again")];
    let index = read_beatmap_metadata(&rows).ok().unwrap();
    assert_eq!(index.len(), 2);
    assert_eq!(index[&1].title, "one again");
    assert_eq!(index[&2].title, "two");
    assert!(!index.contains_key(&3));
    assert!(read_beatmap_metadata(&vec![]).ok().unwrap().is_empty());
}

#[test]
fn the_first_bad_row_fails_the_table() {
    let mut bad_bpm = table_row(2, "two");
    bad_bpm.bpm = i64::MAX;
    let mut bad_id = table_row(3, "three");
    bad_id.beatmap_id = -3;
    let rows = vec![table_row(1, "one"), bad_bpm, bad_id];
    assert_eq!(read_beatmap_metadata(&rows).err(), Some(MetadataError::Bpm));
}
