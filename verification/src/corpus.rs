//! The binary corpus: a row count, one fixed-width row per embedded score,
//! and after all rows the strings that the rows refer to.
//!
//! Every number is little-endian. The three strings of a row (title,
//! difficulty name, creator) stand end to end in the string region, without
//! delimiter or terminator, in the order of the rows: a reader keeps a cursor
//! that starts at `string_region_offset` and moves on by the three byte
//! lengths of each row.

use vstd::prelude::*;
use vstd::hash_map::StringHashMap;
use vstd::string::StringSliceAdditionalSpecFns;
use vstd::utf8::encode_utf8;
use std::collections::HashMap;
use crate::catalog::{
    index_by_score_id, is_index_of, last_position, lemma_last_position, DifficultyRecord,
    EmbeddingPoint, ScoreMetadata,
};
use crate::metadata::BeatmapMetadata;
use crate::mods::{mods_bitmask, mods_bits};
use crate::score_id::{parse_score_id, score_id_model, ParseError};
use crate::wire::{le_u16, le_u32, lemma_le_u16_len, lemma_le_u32_len, push_u16, push_u32};

verus! {

broadcast use vstd::std_specs::hash::group_hash_axioms;

/// Bit pattern of an IEEE 754 single-precision number.
pub type Single = u32;

/// Bytes of the row count that opens the corpus.
pub const HEADER_LEN: usize = 4;

/// Bytes of one row in the fixed-width region.
pub const ROW_STRIDE: usize = 62;

/// One entry of the corpus.
#[derive(Clone, Debug, PartialEq, Eq)]
pub struct CorpusRow {
    pub beatmap_id: u32,
    /// Legacy bitmask of the mods of the score.
    pub mods: u32,
    /// Coordinates of the embedded point.
    pub x: Single,
    pub y: Single,
    pub average_pp: Single,
    pub stars: Single,
    /// Year of approval, 0 where the beatmap is not approved or the date is unknown.
    pub release_year: u16,
    pub length_seconds: u16,
    pub bpm: u16,
    pub approach_rate: Single,
    pub circle_size: Single,
    pub overall_difficulty: Single,
    pub aim_difficulty: Single,
    pub speed_difficulty: Single,
    pub beatmapset_id: u32,
    pub user_count: u16,
    pub title: String,
    pub difficulty_name: String,
    pub creator: String,
}

/// What a [`CorpusRow`] holds, with each string as its characters.
pub struct RowModel {
    pub beatmap_id: u32,
    pub mods: u32,
    pub x: Single,
    pub y: Single,
    pub average_pp: Single,
    pub stars: Single,
    pub release_year: u16,
    pub length_seconds: u16,
    pub bpm: u16,
    pub approach_rate: Single,
    pub circle_size: Single,
    pub overall_difficulty: Single,
    pub aim_difficulty: Single,
    pub speed_difficulty: Single,
    pub beatmapset_id: u32,
    pub user_count: u16,
    pub title: Seq<char>,
    pub difficulty_name: Seq<char>,
    pub creator: Seq<char>,
}

impl View for CorpusRow {
    type V = RowModel;

    open spec fn view(&self) -> RowModel {
        RowModel {
            beatmap_id: self.beatmap_id,
            mods: self.mods,
            x: self.x,
            y: self.y,
            average_pp: self.average_pp,
            stars: self.stars,
            release_year: self.release_year,
            length_seconds: self.length_seconds,
            bpm: self.bpm,
            approach_rate: self.approach_rate,
            circle_size: self.circle_size,
            overall_difficulty: self.overall_difficulty,
            aim_difficulty: self.aim_difficulty,
            speed_difficulty: self.speed_difficulty,
            beatmapset_id: self.beatmapset_id,
            user_count: self.user_count,
            title: self.title@,
            difficulty_name: self.difficulty_name@,
            creator: self.creator@,
        }
    }
}

/// The models of a list of rows, in order.
pub open spec fn models(rows: Seq<CorpusRow>) -> Seq<RowModel> {
    Seq::new(rows.len(), |i: int| rows[i]@)
}

/// The low 16 bits of `n`.
pub open spec fn low_u16(n: int) -> u16 {
    (n % 0x1_0000) as u16
}

/// The low 32 bits of `n`.
pub open spec fn low_u32(n: int) -> u32 {
    (n % 0x1_0000_0000) as u32
}

/// The length field of the string `text`: the low 16 bits of its UTF-8 length.
pub open spec fn length_field(text: Seq<char>) -> u16 {
    low_u16(encode_utf8(text).len() as int)
}

impl RowModel {
    /// The row in the fixed-width region.
    #[verifier::opaque]
    pub open spec fn fixed_bytes(&self) -> Seq<u8> {
        le_u32(self.beatmap_id)
            + le_u32(self.mods)
            + le_u32(self.x)
            + le_u32(self.y)
            + le_u32(self.average_pp)
            + le_u32(self.stars)
            + le_u16(length_field(self.title))
            + le_u16(length_field(self.difficulty_name))
            + le_u16(length_field(self.creator))
            + le_u16(self.release_year)
            + le_u16(self.length_seconds)
            + le_u16(self.bpm)
            + le_u32(self.approach_rate)
            + le_u32(self.circle_size)
            + le_u32(self.overall_difficulty)
            + le_u32(self.aim_difficulty)
            + le_u32(self.speed_difficulty)
            + le_u32(self.beatmapset_id)
            + le_u16(self.user_count)
    }

    /// What the row adds to the string region.
    pub open spec fn string_bytes(&self) -> Seq<u8> {
        encode_utf8(self.title) + encode_utf8(self.difficulty_name) + encode_utf8(self.creator)
    }

    /// Every row takes `ROW_STRIDE` bytes of the fixed-width region.
    pub proof fn lemma_fixed_len(self)
        ensures
            self.fixed_bytes().len() == ROW_STRIDE,
    {
        broadcast use {lemma_le_u16_len, lemma_le_u32_len};

        reveal(RowModel::fixed_bytes);
    }
}

impl CorpusRow {
    /// Appends the fixed-width row to `buf`.
    pub fn write_fixed(&self, buf: &mut Vec<u8>)
        ensures
            final(buf)@ == old(buf)@ + self@.fixed_bytes(),
    {
        let ghost start = buf@;
        let ghost mut row = le_u32(self.beatmap_id);
        push_u32(buf, self.beatmap_id);
        then_u32(buf, self.mods, Ghost(start), Ghost(row));
        proof { row = row + le_u32(self.mods); }
        then_u32(buf, self.x, Ghost(start), Ghost(row));
        proof { row = row + le_u32(self.x); }
        then_u32(buf, self.y, Ghost(start), Ghost(row));
        proof { row = row + le_u32(self.y); }
        then_u32(buf, self.average_pp, Ghost(start), Ghost(row));
        proof { row = row + le_u32(self.average_pp); }
        then_u32(buf, self.stars, Ghost(start), Ghost(row));
        proof { row = row + le_u32(self.stars); }
        let title_len: u16 = (self.title.as_str().as_bytes().len() % 0x1_0000) as u16;
        then_u16(buf, title_len, Ghost(start), Ghost(row));
        proof { row = row + le_u16(title_len); }
        let name_len: u16 = (self.difficulty_name.as_str().as_bytes().len() % 0x1_0000) as u16;
        then_u16(buf, name_len, Ghost(start), Ghost(row));
        proof { row = row + le_u16(name_len); }
        let creator_len: u16 = (self.creator.as_str().as_bytes().len() % 0x1_0000) as u16;
        then_u16(buf, creator_len, Ghost(start), Ghost(row));
        proof { row = row + le_u16(creator_len); }
        then_u16(buf, self.release_year, Ghost(start), Ghost(row));
        proof { row = row + le_u16(self.release_year); }
        then_u16(buf, self.length_seconds, Ghost(start), Ghost(row));
        proof { row = row + le_u16(self.length_seconds); }
        then_u16(buf, self.bpm, Ghost(start), Ghost(row));
        proof { row = row + le_u16(self.bpm); }
        then_u32(buf, self.approach_rate, Ghost(start), Ghost(row));
        proof { row = row + le_u32(self.approach_rate); }
        then_u32(buf, self.circle_size, Ghost(start), Ghost(row));
        proof { row = row + le_u32(self.circle_size); }
        then_u32(buf, self.overall_difficulty, Ghost(start), Ghost(row));
        proof { row = row + le_u32(self.overall_difficulty); }
        then_u32(buf, self.aim_difficulty, Ghost(start), Ghost(row));
        proof { row = row + le_u32(self.aim_difficulty); }
        then_u32(buf, self.speed_difficulty, Ghost(start), Ghost(row));
        proof { row = row + le_u32(self.speed_difficulty); }
        then_u32(buf, self.beatmapset_id, Ghost(start), Ghost(row));
        proof { row = row + le_u32(self.beatmapset_id); }
        then_u16(buf, self.user_count, Ghost(start), Ghost(row));
        proof {
            row = row + le_u16(self.user_count);
            reveal(RowModel::fixed_bytes);
        }
    }

    /// Appends the three strings of the row to `buf`.
    pub fn write_strings(&self, buf: &mut Vec<u8>)
        ensures
            final(buf)@ == old(buf)@ + self@.string_bytes(),
    {
        buf.extend_from_slice(self.title.as_str().as_bytes());
        buf.extend_from_slice(self.difficulty_name.as_str().as_bytes());
        buf.extend_from_slice(self.creator.as_str().as_bytes());
        assert(buf@ =~= old(buf)@ + self@.string_bytes());
    }
}

/// The fixed-width region: the rows one after another.
pub open spec fn rows_fixed(rows: Seq<RowModel>) -> Seq<u8>
    decreases rows.len(),
{
    if rows.len() == 0 {
        Seq::empty()
    } else {
        rows_fixed(rows.drop_last()) + rows.last().fixed_bytes()
    }
}

/// The string region: the strings of the rows one after another.
pub open spec fn rows_strings(rows: Seq<RowModel>) -> Seq<u8>
    decreases rows.len(),
{
    if rows.len() == 0 {
        Seq::empty()
    } else {
        rows_strings(rows.drop_last()) + rows.last().string_bytes()
    }
}

/// Where the string region of a corpus of `row_count` rows starts.
pub open spec fn string_region_offset(row_count: nat) -> nat {
    HEADER_LEN as nat + row_count * ROW_STRIDE as nat
}

/// The corpus of `rows`: the low 32 bits of their number, the rows, the strings.
pub open spec fn corpus_bytes(rows: Seq<RowModel>) -> Seq<u8> {
    le_u32(low_u32(rows.len() as int)) + rows_fixed(rows) + rows_strings(rows)
}

/// The fixed-width region of `rows` takes `ROW_STRIDE` bytes for each row.
pub proof fn lemma_rows_fixed_len(rows: Seq<RowModel>)
    ensures
        rows_fixed(rows).len() == rows.len() * ROW_STRIDE,
    decreases rows.len(),
{
    if rows.len() > 0 {
        lemma_rows_fixed_len(rows.drop_last());
        rows.last().lemma_fixed_len();
    }
}

/// The string region of a corpus starts at `string_region_offset` and runs
/// to the end.
pub proof fn lemma_string_region(rows: Seq<RowModel>)
    ensures
        corpus_bytes(rows).len() == string_region_offset(rows.len()) + rows_strings(rows).len(),
        corpus_bytes(rows).subrange(
            string_region_offset(rows.len()) as int,
            corpus_bytes(rows).len() as int,
        ) == rows_strings(rows),
        corpus_bytes(rows).subrange(0, HEADER_LEN as int) == le_u32(low_u32(rows.len() as int)),
        corpus_bytes(rows).subrange(HEADER_LEN as int, string_region_offset(rows.len()) as int)
            == rows_fixed(rows),
{
    broadcast use lemma_le_u32_len;

    lemma_rows_fixed_len(rows);
}

/// Encodes `rows` as a corpus, in their order.
pub fn encode_corpus(rows: &Vec<CorpusRow>) -> (out: Vec<u8>)
    ensures
        out@ == corpus_bytes(models(rows@)),
{
    let mut out: Vec<u8> = Vec::new();
    let mut strings: Vec<u8> = Vec::new();
    let n: usize = rows.len();
    push_u32(&mut out, (n as u64 % 0x1_0000_0000) as u32);
    let ghost header = out@;
    let mut i: usize = 0;
    while i < n
        invariant
            n == rows@.len(),
            0 <= i <= n,
            out@ == header + rows_fixed(models(rows@).take(i as int)),
            strings@ == rows_strings(models(rows@).take(i as int)),
        decreases n - i,
    {
        let ghost before = models(rows@).take(i as int);
        let ghost after = models(rows@).take(i + 1);
        assert(after.drop_last() =~= before);
        assert(after.last() == rows@[i as int]@);
        rows[i].write_fixed(&mut out);
        rows[i].write_strings(&mut strings);
        assert(out@ =~= header + rows_fixed(after));
        i = i + 1;
    }
    assert(models(rows@).take(n as int) =~= models(rows@));
    out.append(&mut strings);
    out
}

/// Why no corpus was built.
#[derive(Clone, Copy, Debug, PartialEq, Eq, Structural)]
pub enum CorpusError {
    /// The catalog has no score with the identifier of an embedded point.
    MissingScore,
    /// The identifier of an embedded point does not name a beatmap and mods.
    InvalidScoreId(ParseError),
    /// The beatmap of an embedded point has no metadata.
    MissingBeatmap,
}

/// The difficulty of the score of `point`: the stored one, or where none is
/// stored the record with zero for every value.
pub open spec fn difficulty_of(
    difficulties: Seq<DifficultyRecord>,
    point: EmbeddingPoint,
) -> DifficultyRecord {
    match last_position(difficulties, point.score_id@) {
        Some(at) => difficulties[at],
        None => DifficultyRecord::zero(point.score_id),
    }
}

/// The row of a point whose records were found. A number that the row
/// stores in 16 bits keeps its low 16 bits.
pub open spec fn row_of(
    point: EmbeddingPoint,
    score: ScoreMetadata,
    beatmap_id: u32,
    mods: u32,
    beatmap: BeatmapMetadata,
    difficulty: DifficultyRecord,
) -> RowModel {
    RowModel {
        beatmap_id,
        mods,
        x: point.x,
        y: point.y,
        average_pp: score.avg_pp,
        stars: difficulty.stars,
        release_year: match beatmap.approved_year {
            Some(year) => low_u16(year as int),
            None => 0,
        },
        length_seconds: low_u16(beatmap.total_length as int),
        bpm: low_u16(beatmap.bpm as int),
        approach_rate: beatmap.diff_approach,
        circle_size: beatmap.diff_size,
        overall_difficulty: beatmap.diff_overall,
        aim_difficulty: difficulty.difficulty_aim,
        speed_difficulty: difficulty.difficulty_speed,
        beatmapset_id: beatmap.beatmapset_id,
        user_count: low_u16(score.num_users as int),
        title: beatmap.title@,
        difficulty_name: beatmap.version@,
        creator: beatmap.creator@,
    }
}

/// The row of an embedded point, or why it has none. The score must be in
/// the catalog, its identifier must name a beatmap and known mods, and the
/// beatmap must have metadata; a stored difficulty is not needed.
pub open spec fn join_row(
    point: EmbeddingPoint,
    catalog: Seq<ScoreMetadata>,
    beatmaps: Map<u32, BeatmapMetadata>,
    difficulties: Seq<DifficultyRecord>,
) -> Result<RowModel, CorpusError> {
    match last_position(catalog, point.score_id@) {
        None => Err(CorpusError::MissingScore),
        Some(at) => match score_id_model(point.score_id@) {
            Err(e) => Err(CorpusError::InvalidScoreId(e)),
            Ok(id) => match mods_bitmask(id.mods) {
                None => Err(CorpusError::InvalidScoreId(ParseError::UnknownMod)),
                Some(mods) => if !beatmaps.contains_key(id.beatmap_id) {
                    Err(CorpusError::MissingBeatmap)
                } else {
                    Ok(
                        row_of(
                            point,
                            catalog[at],
                            id.beatmap_id,
                            mods,
                            beatmaps[id.beatmap_id],
                            difficulty_of(difficulties, point),
                        ),
                    )
                },
            },
        },
    }
}

/// The rows of the embedded points, in their order, or the error of the
/// first point that has no row.
pub open spec fn join_rows(
    points: Seq<EmbeddingPoint>,
    catalog: Seq<ScoreMetadata>,
    beatmaps: Map<u32, BeatmapMetadata>,
    difficulties: Seq<DifficultyRecord>,
) -> Result<Seq<RowModel>, CorpusError>
    decreases points.len(),
{
    if points.len() == 0 {
        Ok(Seq::empty())
    } else {
        match join_rows(points.drop_last(), catalog, beatmaps, difficulties) {
            Err(e) => Err(e),
            Ok(rows) => match join_row(points.last(), catalog, beatmaps, difficulties) {
                Err(e) => Err(e),
                Ok(row) => Ok(rows.push(row)),
            },
        }
    }
}

/// Whether a point has a row does not depend on the stored difficulties, and
/// the row of a score without stored difficulty is made from the record that
/// is zero throughout: its star rating, aim difficulty and speed difficulty
/// are zero.
pub proof fn lemma_placeholder(
    point: EmbeddingPoint,
    catalog: Seq<ScoreMetadata>,
    beatmaps: Map<u32, BeatmapMetadata>,
    difficulties: Seq<DifficultyRecord>,
)
    ensures
        join_row(point, catalog, beatmaps, difficulties) is Ok <==> join_row(
            point,
            catalog,
            beatmaps,
            Seq::empty(),
        ) is Ok,
        last_position(difficulties, point.score_id@) is None ==> {
            &&& difficulty_of(difficulties, point) == DifficultyRecord::zero(point.score_id)
            &&& join_row(point, catalog, beatmaps, difficulties) == join_row(
                point,
                catalog,
                beatmaps,
                Seq::empty(),
            )
            &&& join_row(point, catalog, beatmaps, difficulties) matches Ok(row) ==> row.stars
                == 0 && row.aim_difficulty == 0 && row.speed_difficulty == 0
        },
{
}

/// The low 16 bits of `v`.
fn low_bits(v: i32) -> (low: u16)
    ensures
        low == low_u16(v as int),
{
    let shifted: i64 = v as i64 + 0x8000_0000;
    (shifted % 0x1_0000) as u16
}

/// Makes the row of a point from the records found for it.
pub fn make_row(
    point: &EmbeddingPoint,
    score: &ScoreMetadata,
    beatmap_id: u32,
    mods: u32,
    beatmap: &BeatmapMetadata,
    difficulty: &DifficultyRecord,
) -> (row: CorpusRow)
    ensures
        row@ == row_of(*point, *score, beatmap_id, mods, *beatmap, *difficulty),
{
    CorpusRow {
        beatmap_id,
        mods,
        x: point.x,
        y: point.y,
        average_pp: score.avg_pp,
        stars: difficulty.stars,
        release_year: match beatmap.approved_year {
            Some(year) => low_bits(year),
            None => 0,
        },
        length_seconds: low_bits(beatmap.total_length),
        bpm: low_bits(beatmap.bpm),
        approach_rate: beatmap.diff_approach,
        circle_size: beatmap.diff_size,
        overall_difficulty: beatmap.diff_overall,
        aim_difficulty: difficulty.difficulty_aim,
        speed_difficulty: difficulty.difficulty_speed,
        beatmapset_id: beatmap.beatmapset_id,
        user_count: low_bits(score.num_users),
        title: beatmap.title.clone(),
        difficulty_name: beatmap.version.clone(),
        creator: beatmap.creator.clone(),
    }
}

/// Finds the records of `point` and makes its row.
fn join_point(
    point: &EmbeddingPoint,
    catalog: &Vec<ScoreMetadata>,
    score_index: &StringHashMap<usize>,
    beatmaps: &HashMap<u32, BeatmapMetadata>,
    difficulties: &Vec<DifficultyRecord>,
    difficulty_index: &StringHashMap<usize>,
) -> (joined: Result<CorpusRow, CorpusError>)
    requires
        is_index_of(score_index@, catalog@),
        is_index_of(difficulty_index@, difficulties@),
    ensures
        match joined {
            Ok(row) => join_row(*point, catalog@, beatmaps@, difficulties@) == Ok::<
                RowModel,
                CorpusError,
            >(row@),
            Err(e) => join_row(*point, catalog@, beatmaps@, difficulties@) == Err::<
                RowModel,
                CorpusError,
            >(e),
        },
{
    let key: &str = point.score_id.as_str();
    proof {
        lemma_last_position(catalog@, key@);
        lemma_last_position(difficulties@, key@);
    }
    let score: &ScoreMetadata = match score_index.get(key) {
        None => {
            return Err(CorpusError::MissingScore);
        },
        Some(at) => &catalog[*at],
    };
    let id = match parse_score_id(key) {
        Err(e) => {
            return Err(CorpusError::InvalidScoreId(e));
        },
        Ok(id) => id,
    };
    let mods: u32 = match mods_bits(&id.mods) {
        Err(e) => {
            return Err(CorpusError::InvalidScoreId(e));
        },
        Ok(mods) => mods,
    };
    let beatmap: &BeatmapMetadata = match beatmaps.get(&id.beatmap_id) {
        None => {
            return Err(CorpusError::MissingBeatmap);
        },
        Some(beatmap) => beatmap,
    };
    match difficulty_index.get(key) {
        Some(at) => Ok(make_row(point, score, id.beatmap_id, mods, beatmap, &difficulties[*at])),
        None => {
            let placeholder = DifficultyRecord::placeholder(point.score_id.clone());
            Ok(make_row(point, score, id.beatmap_id, mods, beatmap, &placeholder))
        },
    }
}

/// One point without row leaves the whole embedding without rows.
pub proof fn lemma_join_rows_error(
    points: Seq<EmbeddingPoint>,
    catalog: Seq<ScoreMetadata>,
    beatmaps: Map<u32, BeatmapMetadata>,
    difficulties: Seq<DifficultyRecord>,
    k: int,
)
    requires
        0 <= k < points.len(),
        join_row(points[k], catalog, beatmaps, difficulties) is Err,
    ensures
        join_rows(points, catalog, beatmaps, difficulties) is Err,
    decreases points.len(),
{
    if k < points.len() - 1 {
        lemma_join_rows_error(points.drop_last(), catalog, beatmaps, difficulties, k);
    }
}

/// The error of the points read so far is the error of all points.
proof fn lemma_join_rows_stops(
    points: Seq<EmbeddingPoint>,
    catalog: Seq<ScoreMetadata>,
    beatmaps: Map<u32, BeatmapMetadata>,
    difficulties: Seq<DifficultyRecord>,
    n: int,
)
    requires
        0 <= n <= points.len(),
        join_rows(points.take(n), catalog, beatmaps, difficulties) is Err,
    ensures
        join_rows(points, catalog, beatmaps, difficulties) == join_rows(
            points.take(n),
            catalog,
            beatmaps,
            difficulties,
        ),
    decreases points.len() - n,
{
    if n == points.len() {
        assert(points.take(n) =~= points);
    } else {
        assert(points.take(n + 1).drop_last() =~= points.take(n));
        lemma_join_rows_stops(points, catalog, beatmaps, difficulties, n + 1);
    }
}

/// Builds the corpus of an embedding: one row for each point, in the order
/// of the points (`order_points` puts them in the order of their
/// identifiers). Fails as a whole where one point has no row.
pub fn build_corpus(
    score_metadata: &Vec<ScoreMetadata>,
    beatmaps: &HashMap<u32, BeatmapMetadata>,
    embedding: &Vec<EmbeddingPoint>,
    difficulties: &Vec<DifficultyRecord>,
) -> (corpus: Result<Vec<u8>, CorpusError>)
    ensures
        match corpus {
            Ok(bytes) => join_rows(embedding@, score_metadata@, beatmaps@, difficulties@)
                matches Ok(rows) && bytes@ == corpus_bytes(rows),
            Err(e) => join_rows(embedding@, score_metadata@, beatmaps@, difficulties@) == Err::<
                Seq<RowModel>,
                CorpusError,
            >(e),
        },
{
    let score_index = index_by_score_id(score_metadata);
    let difficulty_index = index_by_score_id(difficulties);
    let mut rows: Vec<CorpusRow> = Vec::new();
    let mut i: usize = 0;
    assert(models(rows@) =~= Seq::<RowModel>::empty());
    while i < embedding.len()
        invariant
            0 <= i <= embedding@.len(),
            is_index_of(score_index@, score_metadata@),
            is_index_of(difficulty_index@, difficulties@),
            join_rows(embedding@.take(i as int), score_metadata@, beatmaps@, difficulties@) == Ok::<
                Seq<RowModel>,
                CorpusError,
            >(models(rows@)),
        decreases embedding@.len() - i,
    {
        assert(embedding@.take(i + 1).drop_last() =~= embedding@.take(i as int));
        match join_point(
            &embedding[i],
            score_metadata,
            &score_index,
            beatmaps,
            difficulties,
            &difficulty_index,
        ) {
            Err(e) => {
                proof {
                    lemma_join_rows_stops(
                        embedding@,
                        score_metadata@,
                        beatmaps@,
                        difficulties@,
                        i + 1,
                    );
                }
                return Err(e);
            },
            Ok(row) => {
                let ghost before = models(rows@);
                rows.push(row);
                assert(models(rows@) =~= before.push(row@));
            },
        }
        i = i + 1;
    }
    assert(embedding@.take(i as int) =~= embedding@);
    Ok(encode_corpus(&rows))
}

/// Appends `x` to a buffer that holds `acc` after `start`.
fn then_u16(buf: &mut Vec<u8>, x: u16, Ghost(start): Ghost<Seq<u8>>, Ghost(acc): Ghost<Seq<u8>>)
    requires
        old(buf)@ == start + acc,
    ensures
        final(buf)@ == start + (acc + le_u16(x)),
{
    push_u16(buf, x);
    assert((start + acc) + le_u16(x) =~= start + (acc + le_u16(x)));
}

/// Appends `x` to a buffer that holds `acc` after `start`.
fn then_u32(buf: &mut Vec<u8>, x: u32, Ghost(start): Ghost<Seq<u8>>, Ghost(acc): Ghost<Seq<u8>>)
    requires
        old(buf)@ == start + acc,
    ensures
        final(buf)@ == start + (acc + le_u32(x)),
{
    push_u32(buf, x);
    assert((start + acc) + le_u32(x) =~= start + (acc + le_u32(x)));
}

} // verus!
