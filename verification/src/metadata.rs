//! Beatmap metadata: one record per beatmap, made from a row of the
//! reference table and found again by the beatmap's number.

use vstd::prelude::*;
use std::collections::HashMap;
use chrono::{DateTime, Datelike};
use crate::corpus::Single;
use crate::difficulty::Double;

verus! {

broadcast use vstd::std_specs::hash::group_hash_axioms;

/// Nanoseconds in a second.
pub const NANOS_PER_SECOND: i64 = 1_000_000_000;

/// A row of the metadata table, as it is stored.
#[derive(Clone, Debug, PartialEq, Eq)]
pub struct BeatmapRow {
    pub beatmapset_id: i64,
    pub beatmap_id: i64,
    /// Nanoseconds since the Unix epoch; 0 where the beatmap is not approved.
    pub approved_date: i64,
    pub total_length: i64,
    pub version: String,
    pub title: String,
    pub creator: String,
    pub bpm: i64,
    /// The star rating that the table gives the beatmap without mods.
    pub difficultyrating: Double,
    pub diff_size: Single,
    pub diff_overall: Single,
    pub diff_approach: Single,
}

/// What the corpus needs to know of a beatmap.
#[derive(Clone, Debug, PartialEq, Eq)]
pub struct BeatmapMetadata {
    pub beatmapset_id: u32,
    pub beatmap_id: u32,
    /// Calendar year (UTC) of the approval.
    pub approved_year: Option<i32>,
    pub total_length: i32,
    /// Name of the difficulty.
    pub version: String,
    pub title: String,
    pub creator: String,
    pub bpm: i32,
    /// The star rating that the table gives the beatmap without mods.
    pub difficultyrating: Double,
    pub diff_size: Single,
    pub diff_overall: Single,
    pub diff_approach: Single,
}

/// The column of a row whose number does not fit its field.
#[derive(Clone, Copy, Debug, PartialEq, Eq, Structural)]
pub enum MetadataError {
    BeatmapsetId,
    BeatmapId,
    TotalLength,
    Bpm,
}

/// The calendar year (UTC) of the moment `secs` seconds after the Unix
/// epoch, where the calendar reaches that far.
pub uninterp spec fn utc_year(secs: i64) -> Option<i32>;

/// The `year` of the date that `DateTime::from_timestamp` of chrono gives
/// for `secs` whole seconds; none where it gives no date. Trusted, not
/// proved: the outcome depends on `secs` alone; `utc_year` is its name.
#[verifier::external_body]
fn year_of_timestamp(secs: i64) -> (year: Option<i32>)
    ensures
        year == utc_year(secs),
{
    match DateTime::from_timestamp(secs, 0) {
        Some(at) => Some(at.year()),
        None => None,
    }
}

/// Whole seconds of `nanos` nanoseconds, rounded towards zero.
pub open spec fn whole_seconds(nanos: i64) -> i64 {
    if nanos >= 0 {
        (nanos / NANOS_PER_SECOND) as i64
    } else {
        (-((-nanos) / NANOS_PER_SECOND as int)) as i64
    }
}

/// The year of approval for a date stored as `nanos`: none where `nanos` is 0.
pub open spec fn approved_year(nanos: i64) -> Option<i32> {
    if nanos == 0 {
        None
    } else {
        utc_year(whole_seconds(nanos))
    }
}

/// The year of approval that `year` stands for where the date was stored as
/// `nanos` and `year` is the year of its whole seconds.
pub fn approved_year_from(nanos: i64, year: Option<i32>) -> (approved: Option<i32>)
    ensures
        approved == if nanos == 0 {
            None
        } else {
            year
        },
{
    if nanos == 0 {
        None
    } else {
        year
    }
}

/// The record that `row` gives, or the column that is out of range.
pub open spec fn metadata_of(row: BeatmapRow) -> Result<BeatmapMetadata, MetadataError> {
    if !(0 <= row.beatmapset_id <= u32::MAX) {
        Err(MetadataError::BeatmapsetId)
    } else if !(0 <= row.beatmap_id <= u32::MAX) {
        Err(MetadataError::BeatmapId)
    } else if !(i32::MIN <= row.total_length <= i32::MAX) {
        Err(MetadataError::TotalLength)
    } else if !(i32::MIN <= row.bpm <= i32::MAX) {
        Err(MetadataError::Bpm)
    } else {
        Ok(
            BeatmapMetadata {
                beatmapset_id: row.beatmapset_id as u32,
                beatmap_id: row.beatmap_id as u32,
                approved_year: approved_year(row.approved_date),
                total_length: row.total_length as i32,
                version: row.version,
                title: row.title,
                creator: row.creator,
                bpm: row.bpm as i32,
                difficultyrating: row.difficultyrating,
                diff_size: row.diff_size,
                diff_overall: row.diff_overall,
                diff_approach: row.diff_approach,
            },
        )
    }
}

impl BeatmapMetadata {
    /// Makes the record of a row of the metadata table.
    pub fn from_row(row: &BeatmapRow) -> (made: Result<BeatmapMetadata, MetadataError>)
        ensures
            made == metadata_of(*row),
    {
        if row.beatmapset_id < 0 || row.beatmapset_id > 0xffff_ffff {
            return Err(MetadataError::BeatmapsetId);
        }
        if row.beatmap_id < 0 || row.beatmap_id > 0xffff_ffff {
            return Err(MetadataError::BeatmapId);
        }
        if row.total_length < -0x8000_0000 || row.total_length > 0x7fff_ffff {
            return Err(MetadataError::TotalLength);
        }
        if row.bpm < -0x8000_0000 || row.bpm > 0x7fff_ffff {
            return Err(MetadataError::Bpm);
        }
        let seconds: i64 = row.approved_date / NANOS_PER_SECOND;
        Ok(
            BeatmapMetadata {
                beatmapset_id: row.beatmapset_id as u32,
                beatmap_id: row.beatmap_id as u32,
                approved_year: approved_year_from(row.approved_date, year_of_timestamp(seconds)),
                total_length: row.total_length as i32,
                version: row.version.clone(),
                title: row.title.clone(),
                creator: row.creator.clone(),
                bpm: row.bpm as i32,
                difficultyrating: row.difficultyrating,
                diff_size: row.diff_size,
                diff_overall: row.diff_overall,
                diff_approach: row.diff_approach,
            },
        )
    }
}

/// The records of `rows` by beatmap number, or the first error. Of two rows
/// with one number the later stays.
pub open spec fn index_of(rows: Seq<BeatmapRow>) -> Result<
    Map<u32, BeatmapMetadata>,
    MetadataError,
>
    decreases rows.len(),
{
    if rows.len() == 0 {
        Ok(Map::empty())
    } else {
        match index_of(rows.drop_last()) {
            Err(e) => Err(e),
            Ok(index) => match metadata_of(rows.last()) {
                Err(e) => Err(e),
                Ok(metadata) => Ok(index.insert(metadata.beatmap_id, metadata)),
            },
        }
    }
}

/// An error in a row is the error of every longer table, unless an earlier
/// row has one.
proof fn lemma_index_error(rows: Seq<BeatmapRow>, n: int)
    requires
        0 <= n <= rows.len(),
        index_of(rows.take(n)) is Err,
    ensures
        index_of(rows) == index_of(rows.take(n)),
    decreases rows.len() - n,
{
    if n == rows.len() {
        assert(rows.take(n) =~= rows);
    } else {
        assert(rows.take(n + 1).drop_last() =~= rows.take(n));
        lemma_index_error(rows, n + 1);
    }
}

/// Reads the metadata table into an index by beatmap number.
pub fn read_beatmap_metadata(rows: &Vec<BeatmapRow>) -> (index: Result<
    HashMap<u32, BeatmapMetadata>,
    MetadataError,
>)
    ensures
        match index {
            Ok(by_id) => index_of(rows@) == Ok::<Map<u32, BeatmapMetadata>, MetadataError>(by_id@),
            Err(e) => index_of(rows@) == Err::<Map<u32, BeatmapMetadata>, MetadataError>(e),
        },
{
    let mut by_id: HashMap<u32, BeatmapMetadata> = HashMap::new();
    let mut i: usize = 0;
    while i < rows.len()
        invariant
            0 <= i <= rows@.len(),
            index_of(rows@.take(i as int)) == Ok::<Map<u32, BeatmapMetadata>, MetadataError>(by_id@),
        decreases rows@.len() - i,
    {
        assert(rows@.take(i + 1).drop_last() =~= rows@.take(i as int));
        match BeatmapMetadata::from_row(&rows[i]) {
            Err(e) => {
                proof {
                    lemma_index_error(rows@, i + 1);
                }
                return Err(e);
            },
            Ok(metadata) => {
                by_id.insert(metadata.beatmap_id, metadata);
            },
        }
        i = i + 1;
    }
    assert(rows@.take(i as int) =~= rows@);
    Ok(by_id)
}

} // verus!
