//! Reading a corpus back into its rows.

use vstd::prelude::*;
use vstd::slice::{slice_subrange, slice_to_vec};
use vstd::utf8::{decode_utf8, encode_utf8, valid_utf8};
use crate::corpus::{
    corpus_bytes, lemma_rows_fixed_len, length_field, low_u32, models, rows_fixed, rows_strings,
    CorpusRow, RowModel, HEADER_LEN, ROW_STRIDE,
};
use crate::wire::{
    from_le_u16, from_le_u32, le_u16, le_u32, lemma_le_u16_len, lemma_le_u16_round_trip,
    lemma_le_u32_len, lemma_le_u32_round_trip, read_u16, read_u32,
};

verus! {

/// The 16-bit number stored at `at`.
pub open spec fn u16_at(bytes: Seq<u8>, at: int) -> u16 {
    from_le_u16(bytes.subrange(at, at + 2))
}

/// The 32-bit number stored at `at`.
pub open spec fn u32_at(bytes: Seq<u8>, at: int) -> u32 {
    from_le_u32(bytes.subrange(at, at + 4))
}

/// The byte length of the title of the row stored at `base`.
pub open spec fn title_len_at(bytes: Seq<u8>, base: int) -> int {
    u16_at(bytes, base + 24) as int
}

/// The byte length of the difficulty name of the row stored at `base`.
pub open spec fn name_len_at(bytes: Seq<u8>, base: int) -> int {
    u16_at(bytes, base + 26) as int
}

/// The byte length of the creator of the row stored at `base`.
pub open spec fn creator_len_at(bytes: Seq<u8>, base: int) -> int {
    u16_at(bytes, base + 28) as int
}

/// The row stored at `base`, with the strings that belong to it.
pub open spec fn row_at(
    bytes: Seq<u8>,
    base: int,
    title: Seq<char>,
    difficulty_name: Seq<char>,
    creator: Seq<char>,
) -> RowModel {
    RowModel {
        beatmap_id: u32_at(bytes, base),
        mods: u32_at(bytes, base + 4),
        x: u32_at(bytes, base + 8),
        y: u32_at(bytes, base + 12),
        average_pp: u32_at(bytes, base + 16),
        stars: u32_at(bytes, base + 20),
        release_year: u16_at(bytes, base + 30),
        length_seconds: u16_at(bytes, base + 32),
        bpm: u16_at(bytes, base + 34),
        approach_rate: u32_at(bytes, base + 36),
        circle_size: u32_at(bytes, base + 40),
        overall_difficulty: u32_at(bytes, base + 44),
        aim_difficulty: u32_at(bytes, base + 48),
        speed_difficulty: u32_at(bytes, base + 52),
        beatmapset_id: u32_at(bytes, base + 56),
        user_count: u16_at(bytes, base + 60),
        title,
        difficulty_name,
        creator,
    }
}

/// Where row `k` of a corpus is stored.
pub open spec fn row_base(k: int) -> int {
    HEADER_LEN as int + k * ROW_STRIDE as int
}

/// The rows from row `k` on of a corpus of `count` rows, where the strings
/// of row `k` start at `cursor`. None where a string is cut short or is not
/// UTF-8, or where the strings do not end with the corpus.
pub open spec fn rows_from(bytes: Seq<u8>, k: int, count: int, cursor: int) -> Option<
    Seq<RowModel>,
>
    decreases count - k,
{
    if k >= count {
        if cursor == bytes.len() {
            Some(Seq::empty())
        } else {
            None
        }
    } else {
        let base = row_base(k);
        let title_end = cursor + title_len_at(bytes, base);
        let name_end = title_end + name_len_at(bytes, base);
        let creator_end = name_end + creator_len_at(bytes, base);
        let title = bytes.subrange(cursor, title_end);
        let name = bytes.subrange(title_end, name_end);
        let creator = bytes.subrange(name_end, creator_end);
        if creator_end > bytes.len() || !valid_utf8(title) || !valid_utf8(name) || !valid_utf8(
            creator,
        ) {
            None
        } else {
            match rows_from(bytes, k + 1, count, creator_end) {
                None => None,
                Some(rest) => Some(
                    seq![
                        row_at(
                            bytes,
                            base,
                            decode_utf8(title),
                            decode_utf8(name),
                            decode_utf8(creator),
                        ),
                    ] + rest,
                ),
            }
        }
    }
}

/// The rows that the corpus `bytes` holds. None where `bytes` is no corpus.
pub open spec fn decoded_corpus(bytes: Seq<u8>) -> Option<Seq<RowModel>> {
    if bytes.len() < HEADER_LEN {
        None
    } else {
        let count = u32_at(bytes, 0) as int;
        if bytes.len() < row_base(count) {
            None
        } else {
            rows_from(bytes, 0, count, row_base(count))
        }
    }
}

/// `String::from_utf8` of std. Trusted, not proved: it accepts exactly the
/// byte strings that are UTF-8, and gives the characters that they encode.
#[verifier::external_body]
fn string_from_utf8(bytes: Vec<u8>) -> (text: Option<String>)
    ensures
        match text {
            Some(s) => valid_utf8(bytes@) && s@ == decode_utf8(bytes@),
            None => !valid_utf8(bytes@),
        },
{
    match String::from_utf8(bytes) {
        Ok(s) => Some(s),
        Err(_) => None,
    }
}

/// Reads the string stored in `bytes[from..to]`.
fn read_string(bytes: &[u8], from: usize, to: usize) -> (text: Option<String>)
    requires
        from <= to <= bytes@.len(),
    ensures
        match text {
            Some(s) => valid_utf8(bytes@.subrange(from as int, to as int)) && s@ == decode_utf8(
                bytes@.subrange(from as int, to as int),
            ),
            None => !valid_utf8(bytes@.subrange(from as int, to as int)),
        },
{
    string_from_utf8(slice_to_vec(slice_subrange(bytes, from, to)))
}

/// Reads the row stored at `base`, without its strings.
fn read_row(
    bytes: &[u8],
    base: usize,
    title: String,
    difficulty_name: String,
    creator: String,
) -> (row: CorpusRow)
    requires
        base + ROW_STRIDE <= bytes@.len() <= usize::MAX,
    ensures
        row@ == row_at(bytes@, base as int, title@, difficulty_name@, creator@),
{
    CorpusRow {
        beatmap_id: read_u32(bytes, base),
        mods: read_u32(bytes, base + 4),
        x: read_u32(bytes, base + 8),
        y: read_u32(bytes, base + 12),
        average_pp: read_u32(bytes, base + 16),
        stars: read_u32(bytes, base + 20),
        release_year: read_u16(bytes, base + 30),
        length_seconds: read_u16(bytes, base + 32),
        bpm: read_u16(bytes, base + 34),
        approach_rate: read_u32(bytes, base + 36),
        circle_size: read_u32(bytes, base + 40),
        overall_difficulty: read_u32(bytes, base + 44),
        aim_difficulty: read_u32(bytes, base + 48),
        speed_difficulty: read_u32(bytes, base + 52),
        beatmapset_id: read_u32(bytes, base + 56),
        user_count: read_u16(bytes, base + 60),
        title,
        difficulty_name,
        creator,
    }
}

/// Reads the corpus `bytes` back into its rows.
pub fn decode_corpus(bytes: &[u8]) -> (rows: Option<Vec<CorpusRow>>)
    ensures
        match rows {
            Some(rows) => decoded_corpus(bytes@) == Some(models(rows@)),
            None => decoded_corpus(bytes@) is None,
        },
{
    if bytes.len() < HEADER_LEN {
        return None;
    }
    let count: u32 = read_u32(bytes, 0);
    if (bytes.len() as u64) < HEADER_LEN as u64 + ROW_STRIDE as u64 * (count as u64) {
        return None;
    }
    let count: usize = count as usize;
    let mut rows: Vec<CorpusRow> = Vec::new();
    let mut cursor: usize = HEADER_LEN + ROW_STRIDE * count;
    let mut k: usize = 0;
    let ghost start = cursor as int;
    assert(models(rows@) =~= Seq::<RowModel>::empty());
    while k < count
        invariant
            0 <= k <= count,
            row_base(count as int) <= cursor <= bytes@.len(),
            row_base(count as int) <= bytes@.len(),
            start == row_base(count as int),
            decoded_corpus(bytes@) == rows_from(bytes@, 0, count as int, start),
            rows@.len() == k,
            rows_from(bytes@, 0, count as int, start) == match rows_from(
                bytes@,
                k as int,
                count as int,
                cursor as int,
            ) {
                Some(rest) => Some(models(rows@) + rest),
                None => None,
            },
        decreases count - k,
    {
        let base: usize = HEADER_LEN + ROW_STRIDE * k;
        let title_len: usize = read_u16(bytes, base + 24) as usize;
        let name_len: usize = read_u16(bytes, base + 26) as usize;
        let creator_len: usize = read_u16(bytes, base + 28) as usize;
        if bytes.len() - cursor < title_len + name_len + creator_len {
            return None;
        }
        let title_end: usize = cursor + title_len;
        let name_end: usize = title_end + name_len;
        let creator_end: usize = name_end + creator_len;
        let title = match read_string(bytes, cursor, title_end) {
            None => {
                return None;
            },
            Some(title) => title,
        };
        let name = match read_string(bytes, title_end, name_end) {
            None => {
                return None;
            },
            Some(name) => name,
        };
        let creator = match read_string(bytes, name_end, creator_end) {
            None => {
                return None;
            },
            Some(creator) => creator,
        };
        let row = read_row(bytes, base, title, name, creator);
        proof {
            let rest = rows_from(bytes@, k + 1, count as int, creator_end as int);
            if rest is Some {
                assert(models(rows@.push(row)) + rest->0 =~= models(rows@) + (seq![row@]
                    + rest->0));
            }
        }
        rows.push(row);
        cursor = creator_end;
        k = k + 1;
    }
    if cursor != bytes.len() {
        return None;
    }
    assert(models(rows@) + Seq::<RowModel>::empty() =~= models(rows@));
    Some(rows)
}

/// The strings of `row` are short enough for their length fields.
pub open spec fn fits(row: RowModel) -> bool {
    &&& encode_utf8(row.title).len() <= u16::MAX
    &&& encode_utf8(row.difficulty_name).len() <= u16::MAX
    &&& encode_utf8(row.creator).len() <= u16::MAX
}

/// The corpus of `rows` holds their number and the lengths of their strings
/// in full.
pub open spec fn encodable(rows: Seq<RowModel>) -> bool {
    &&& rows.len() <= u32::MAX
    &&& forall|k: int| 0 <= k < rows.len() ==> fits(#[trigger] rows[k])
}

/// A byte string that starts with `prefix + field` holds `field` after `prefix`.
proof fn lemma_field(whole: Seq<u8>, prefix: Seq<u8>, field: Seq<u8>)
    requires
        prefix.len() + field.len() <= whole.len(),
        whole.take((prefix.len() + field.len()) as int) == prefix + field,
    ensures
        whole.subrange(prefix.len() as int, (prefix.len() + field.len()) as int) == field,
        whole.take(prefix.len() as int) == prefix,
{
    let joined = whole.take((prefix.len() + field.len()) as int);
    assert forall|i: int| 0 <= i < field.len() implies whole.subrange(
        prefix.len() as int,
        (prefix.len() + field.len()) as int,
    )[i] == field[i] by {
        assert(joined[prefix.len() + i] == field[i]);
    }
    assert(whole.subrange(prefix.len() as int, (prefix.len() + field.len()) as int) =~= field);
    assert forall|i: int| 0 <= i < prefix.len() implies whole.take(prefix.len() as int)[i]
        == prefix[i] by {
        assert(joined[i] == prefix[i]);
    }
    assert(whole.take(prefix.len() as int) =~= prefix);
}

/// The 32-bit number written after `prefix` is read back at the length of `prefix`.
proof fn lemma_u32_field(whole: Seq<u8>, prefix: Seq<u8>, x: u32)
    requires
        prefix.len() + 4 <= whole.len(),
        whole.take(prefix.len() as int + 4) == prefix + le_u32(x),
    ensures
        u32_at(whole, prefix.len() as int) == x,
        whole.take(prefix.len() as int) == prefix,
{
    lemma_le_u32_round_trip(x);
    lemma_field(whole, prefix, le_u32(x));
}

/// The 16-bit number written after `prefix` is read back at the length of `prefix`.
proof fn lemma_u16_field(whole: Seq<u8>, prefix: Seq<u8>, x: u16)
    requires
        prefix.len() + 2 <= whole.len(),
        whole.take(prefix.len() as int + 2) == prefix + le_u16(x),
    ensures
        u16_at(whole, prefix.len() as int) == x,
        whole.take(prefix.len() as int) == prefix,
{
    lemma_le_u16_round_trip(x);
    lemma_field(whole, prefix, le_u16(x));
}

/// Each field of a row is read back from the bytes of the row.
pub proof fn lemma_row_fields(row: RowModel)
    ensures
        row_at(row.fixed_bytes(), 0, row.title, row.difficulty_name, row.creator) == row,
        title_len_at(row.fixed_bytes(), 0) == length_field(row.title),
        name_len_at(row.fixed_bytes(), 0) == length_field(
            row.difficulty_name,
        ),
        creator_len_at(row.fixed_bytes(), 0) == length_field(row.creator),
{
    broadcast use {lemma_le_u16_len, lemma_le_u32_len};

    reveal(RowModel::fixed_bytes);
    let whole = row.fixed_bytes();
    row.lemma_fixed_len();
    let upto1 = le_u32(row.beatmap_id);
    let upto2 = upto1 + le_u32(row.mods);
    let upto3 = upto2 + le_u32(row.x);
    let upto4 = upto3 + le_u32(row.y);
    let upto5 = upto4 + le_u32(row.average_pp);
    let upto6 = upto5 + le_u32(row.stars);
    let upto7 = upto6 + le_u16(length_field(row.title));
    let upto8 = upto7 + le_u16(length_field(row.difficulty_name));
    let upto9 = upto8 + le_u16(length_field(row.creator));
    let upto10 = upto9 + le_u16(row.release_year);
    let upto11 = upto10 + le_u16(row.length_seconds);
    let upto12 = upto11 + le_u16(row.bpm);
    let upto13 = upto12 + le_u32(row.approach_rate);
    let upto14 = upto13 + le_u32(row.circle_size);
    let upto15 = upto14 + le_u32(row.overall_difficulty);
    let upto16 = upto15 + le_u32(row.aim_difficulty);
    let upto17 = upto16 + le_u32(row.speed_difficulty);
    let upto18 = upto17 + le_u32(row.beatmapset_id);
    assert(whole.take(62) =~= whole);
    lemma_u16_field(whole, upto18, row.user_count);
    lemma_u32_field(whole, upto17, row.beatmapset_id);
    lemma_u32_field(whole, upto16, row.speed_difficulty);
    lemma_u32_field(whole, upto15, row.aim_difficulty);
    lemma_u32_field(whole, upto14, row.overall_difficulty);
    lemma_u32_field(whole, upto13, row.circle_size);
    lemma_u32_field(whole, upto12, row.approach_rate);
    lemma_u16_field(whole, upto11, row.bpm);
    lemma_u16_field(whole, upto10, row.length_seconds);
    lemma_u16_field(whole, upto9, row.release_year);
    lemma_u16_field(whole, upto8, length_field(row.creator));
    lemma_u16_field(whole, upto7, length_field(row.difficulty_name));
    lemma_u16_field(whole, upto6, length_field(row.title));
    lemma_u32_field(whole, upto5, row.stars);
    lemma_u32_field(whole, upto4, row.average_pp);
    lemma_u32_field(whole, upto3, row.y);
    lemma_u32_field(whole, upto2, row.x);
    lemma_u32_field(whole, upto1, row.mods);
    lemma_u32_field(whole, Seq::<u8>::empty(), row.beatmap_id);
}

/// What is read in a window of a byte string is read in the window's copy.
proof fn lemma_window(bytes: Seq<u8>, base: int, window: Seq<u8>)
    requires
        0 <= base,
        base + window.len() <= bytes.len(),
        bytes.subrange(base, base + window.len()) == window,
    ensures
        forall|from: int, to: int|
            0 <= from <= to <= window.len() ==> bytes.subrange(base + from, base + to)
                == #[trigger] window.subrange(from, to),
{
    assert forall|from: int, to: int| 0 <= from <= to <= window.len() implies bytes.subrange(
        base + from,
        base + to,
    ) == #[trigger] window.subrange(from, to) by {
        assert(bytes.subrange(base + from, base + to) =~= bytes.subrange(
            base,
            base + window.len(),
        ).subrange(from, to));
    }
}

/// Row `k` of the fixed-width region is the row of `rows[k]`.
pub proof fn lemma_fixed_window(rows: Seq<RowModel>, k: int)
    requires
        0 <= k < rows.len(),
    ensures
        rows_fixed(rows).len() == rows.len() * ROW_STRIDE,
        rows_fixed(rows).subrange(k * ROW_STRIDE as int, (k + 1) * ROW_STRIDE as int)
            == rows[k].fixed_bytes(),
    decreases rows.len(),
{
    let before = rows_fixed(rows.drop_last());
    let last = rows.last().fixed_bytes();
    lemma_rows_fixed_len(rows);
    lemma_rows_fixed_len(rows.drop_last());
    rows.last().lemma_fixed_len();
    if k == rows.len() - 1 {
        assert((before + last).subrange(k * 62, (k + 1) * 62) =~= last);
    } else {
        lemma_fixed_window(rows.drop_last(), k);
        assert((before + last).subrange(k * 62, (k + 1) * 62) =~= before.subrange(
            k * 62,
            (k + 1) * 62,
        ));
    }
}

/// How many bytes the strings of the first `k` rows take.
pub open spec fn strings_before(rows: Seq<RowModel>, k: int) -> int {
    rows_strings(rows.take(k)).len() as int
}

/// The strings of the first `k` rows open the string region.
proof fn lemma_strings_prefix(rows: Seq<RowModel>, k: int)
    requires
        0 <= k <= rows.len(),
    ensures
        strings_before(rows, k) <= rows_strings(rows).len(),
        rows_strings(rows).take(strings_before(rows, k)) == rows_strings(rows.take(k)),
    decreases rows.len() - k,
{
    if k == rows.len() {
        assert(rows.take(k) =~= rows);
        assert(rows_strings(rows).take(strings_before(rows, k)) =~= rows_strings(rows));
    } else {
        lemma_strings_prefix(rows, k + 1);
        assert(rows.take(k + 1).drop_last() =~= rows.take(k));
        let longer = rows_strings(rows.take(k + 1));
        assert(longer == rows_strings(rows.take(k)) + rows[k].string_bytes());
        assert(rows_strings(rows).take(strings_before(rows, k)) =~= longer.take(
            strings_before(rows, k),
        ));
        assert(longer.take(strings_before(rows, k)) =~= rows_strings(rows.take(k)));
    }
}

/// The strings of row `k` stand in the string region after the strings of
/// the rows before it.
pub proof fn lemma_strings_window(rows: Seq<RowModel>, k: int)
    requires
        0 <= k < rows.len(),
    ensures
        strings_before(rows, k + 1) == strings_before(rows, k) + rows[k].string_bytes().len(),
        strings_before(rows, k + 1) <= rows_strings(rows).len(),
        rows_strings(rows).subrange(strings_before(rows, k), strings_before(rows, k + 1))
            == rows[k].string_bytes(),
{
    lemma_strings_prefix(rows, k + 1);
    assert(rows.take(k + 1).drop_last() =~= rows.take(k));
    let longer = rows_strings(rows.take(k + 1));
    assert(longer == rows_strings(rows.take(k)) + rows[k].string_bytes());
    assert(rows_strings(rows).subrange(strings_before(rows, k), strings_before(rows, k + 1))
        =~= longer.subrange(strings_before(rows, k), strings_before(rows, k + 1)));
    assert(longer.subrange(strings_before(rows, k), strings_before(rows, k + 1))
        =~= rows[k].string_bytes());
}

/// The row read in a window that holds the bytes of `row` is `row`.
proof fn lemma_row_at_window(bytes: Seq<u8>, base: int, row: RowModel)
    requires
        0 <= base,
        base + ROW_STRIDE <= bytes.len(),
        bytes.subrange(base, base + ROW_STRIDE) == row.fixed_bytes(),
    ensures
        row_at(bytes, base, row.title, row.difficulty_name, row.creator) == row,
{
    let fixed = row.fixed_bytes();
    row.lemma_fixed_len();
    lemma_row_fields(row);
    lemma_window(bytes, base, fixed);
    assert(bytes.subrange(base + 0, base + 4) == fixed.subrange(0, 4));
    assert(bytes.subrange(base + 4, base + 8) == fixed.subrange(4, 8));
    assert(bytes.subrange(base + 8, base + 12) == fixed.subrange(8, 12));
    assert(bytes.subrange(base + 12, base + 16) == fixed.subrange(12, 16));
    assert(bytes.subrange(base + 16, base + 20) == fixed.subrange(16, 20));
    assert(bytes.subrange(base + 20, base + 24) == fixed.subrange(20, 24));
    assert(bytes.subrange(base + 30, base + 32) == fixed.subrange(30, 32));
    assert(bytes.subrange(base + 32, base + 34) == fixed.subrange(32, 34));
    assert(bytes.subrange(base + 34, base + 36) == fixed.subrange(34, 36));
    assert(bytes.subrange(base + 36, base + 40) == fixed.subrange(36, 40));
    assert(bytes.subrange(base + 40, base + 44) == fixed.subrange(40, 44));
    assert(bytes.subrange(base + 44, base + 48) == fixed.subrange(44, 48));
    assert(bytes.subrange(base + 48, base + 52) == fixed.subrange(48, 52));
    assert(bytes.subrange(base + 52, base + 56) == fixed.subrange(52, 56));
    assert(bytes.subrange(base + 56, base + 60) == fixed.subrange(56, 60));
    assert(bytes.subrange(base + 60, base + 62) == fixed.subrange(60, 62));
}

/// `bytes` holds the fixed-width row of `rows[k]` at its place, and its
/// strings at theirs, in a corpus of as many rows as `rows` has.
pub open spec fn holds_row(bytes: Seq<u8>, rows: Seq<RowModel>, k: int) -> bool {
    let strings = row_base(rows.len() as int);
    &&& bytes.subrange(row_base(k), row_base(k) + ROW_STRIDE as int) == rows[k].fixed_bytes()
    &&& strings_before(rows, k + 1) == strings_before(rows, k) + rows[k].string_bytes().len()
    &&& strings + strings_before(rows, k + 1) <= bytes.len()
    &&& bytes.subrange(strings + strings_before(rows, k), strings + strings_before(rows, k + 1))
        == rows[k].string_bytes()
}

/// The corpus of `rows` holds each row.
proof fn lemma_corpus_holds_row(rows: Seq<RowModel>, k: int)
    requires
        0 <= k < rows.len(),
    ensures
        holds_row(corpus_bytes(rows), rows, k),
        corpus_bytes(rows).len() == row_base(rows.len() as int) + strings_before(
            rows,
            rows.len() as int,
        ),
{
    broadcast use lemma_le_u32_len;

    let bytes = corpus_bytes(rows);
    let header = le_u32(low_u32(rows.len() as int));
    let fixed = rows_fixed(rows);
    let strings = rows_strings(rows);
    lemma_rows_fixed_len(rows);
    lemma_fixed_window(rows, k);
    lemma_strings_window(rows, k);
    assert(rows.take(rows.len() as int) =~= rows);
    assert(bytes == (header + fixed) + strings);
    assert(bytes.subrange(row_base(k), row_base(k) + 62) =~= fixed.subrange(k * 62, (k + 1) * 62));
    let from = strings_before(rows, k);
    let to = strings_before(rows, k + 1);
    lemma_strings_prefix(rows, k);
    assert(bytes.subrange(row_base(rows.len() as int) + from, row_base(rows.len() as int) + to)
        =~= strings.subrange(from, to));
}

/// The length fields read in a window that holds the bytes of `row`.
proof fn lemma_row_lengths(bytes: Seq<u8>, base: int, row: RowModel)
    requires
        0 <= base,
        base + ROW_STRIDE <= bytes.len(),
        bytes.subrange(base, base + ROW_STRIDE) == row.fixed_bytes(),
    ensures
        title_len_at(bytes, base) == length_field(row.title),
        name_len_at(bytes, base) == length_field(row.difficulty_name),
        creator_len_at(bytes, base) == length_field(row.creator),
{
    let fixed = row.fixed_bytes();
    row.lemma_fixed_len();
    lemma_row_fields(row);
    lemma_window(bytes, base, fixed);
    assert(bytes.subrange(base + 24, base + 26) == fixed.subrange(24, 26));
    assert(bytes.subrange(base + 26, base + 28) == fixed.subrange(26, 28));
    assert(bytes.subrange(base + 28, base + 30) == fixed.subrange(28, 30));
}

/// Three byte strings end to end, taken apart by their lengths.
proof fn lemma_three_parts(bytes: Seq<u8>, cursor: int, a: Seq<u8>, b: Seq<u8>, c: Seq<u8>)
    requires
        0 <= cursor,
        cursor + a.len() + b.len() + c.len() <= bytes.len(),
        bytes.subrange(cursor, cursor + (a + b + c).len()) == a + b + c,
    ensures
        bytes.subrange(cursor, cursor + a.len()) == a,
        bytes.subrange(cursor + a.len(), cursor + a.len() + b.len()) == b,
        bytes.subrange(cursor + a.len() + b.len(), cursor + a.len() + b.len() + c.len()) == c,
{
    let whole = a + b + c;
    let held = bytes.subrange(cursor, cursor + whole.len());
    assert(bytes.subrange(cursor, cursor + a.len()) =~= held.subrange(0, a.len() as int));
    assert(held.subrange(0, a.len() as int) =~= a);
    assert(bytes.subrange(cursor + a.len(), cursor + a.len() + b.len()) =~= held.subrange(
        a.len() as int,
        (a.len() + b.len()) as int,
    ));
    assert(held.subrange(a.len() as int, (a.len() + b.len()) as int) =~= b);
    assert(bytes.subrange(cursor + a.len() + b.len(), cursor + a.len() + b.len() + c.len())
        =~= held.subrange((a.len() + b.len()) as int, (a.len() + b.len() + c.len()) as int));
    assert(held.subrange((a.len() + b.len()) as int, (a.len() + b.len() + c.len()) as int)
        =~= c);
}

/// What is read of a row whose bytes and strings `bytes` holds.
proof fn lemma_row_read(bytes: Seq<u8>, base: int, cursor: int, row: RowModel)
    requires
        fits(row),
        0 <= base,
        base + ROW_STRIDE <= bytes.len(),
        bytes.subrange(base, base + ROW_STRIDE) == row.fixed_bytes(),
        0 <= cursor,
        cursor + row.string_bytes().len() <= bytes.len(),
        bytes.subrange(cursor, cursor + row.string_bytes().len()) == row.string_bytes(),
    ensures
        title_len_at(bytes, base) == encode_utf8(row.title).len(),
        name_len_at(bytes, base) == encode_utf8(row.difficulty_name).len(),
        creator_len_at(bytes, base) == encode_utf8(row.creator).len(),
        bytes.subrange(cursor, cursor + title_len_at(bytes, base)) == encode_utf8(row.title),
        bytes.subrange(
            cursor + title_len_at(bytes, base),
            cursor + title_len_at(bytes, base) + name_len_at(bytes, base),
        ) == encode_utf8(row.difficulty_name),
        bytes.subrange(
            cursor + title_len_at(bytes, base) + name_len_at(bytes, base),
            cursor + title_len_at(bytes, base) + name_len_at(bytes, base) + creator_len_at(
                bytes,
                base,
            ),
        ) == encode_utf8(row.creator),
        row_at(bytes, base, row.title, row.difficulty_name, row.creator) == row,
{
    lemma_row_lengths(bytes, base, row);
    lemma_row_at_window(bytes, base, row);
    lemma_three_parts(
        bytes,
        cursor,
        encode_utf8(row.title),
        encode_utf8(row.difficulty_name),
        encode_utf8(row.creator),
    );
}

/// From row `k` on, a byte string that holds each row of `rows` is read
/// back as `rows` from `k` on.
proof fn lemma_rows_from_held(bytes: Seq<u8>, rows: Seq<RowModel>, k: int)
    requires
        encodable(rows),
        0 <= k <= rows.len(),
        bytes.len() == row_base(rows.len() as int) + strings_before(rows, rows.len() as int),
        forall|j: int| 0 <= j < rows.len() ==> #[trigger] holds_row(bytes, rows, j),
        0 <= strings_before(rows, k),
    ensures
        rows_from(
            bytes,
            k,
            rows.len() as int,
            row_base(rows.len() as int) + strings_before(rows, k),
        ) == Some(rows.skip(k)),
    decreases rows.len() - k,
{
    broadcast use {vstd::utf8::encode_utf8_valid_utf8, vstd::utf8::encode_utf8_decode_utf8};

    let count = rows.len() as int;
    let cursor = row_base(count) + strings_before(rows, k);
    if k == count {
        assert(rows.skip(k) =~= Seq::<RowModel>::empty());
    } else {
        let row = rows[k];
        assert(holds_row(bytes, rows, k));
        assert(fits(row));
        lemma_row_read(bytes, row_base(k), cursor, row);
        lemma_rows_from_held(bytes, rows, k + 1);
        assert(seq![row] + rows.skip(k + 1) =~= rows.skip(k));
    }
}

/// Decoding the corpus of `rows` gives `rows` again, each number and each
/// string as it was.
pub proof fn lemma_decode_encode(rows: Seq<RowModel>)
    requires
        encodable(rows),
    ensures
        decoded_corpus(corpus_bytes(rows)) == Some(rows),
{
    let bytes = corpus_bytes(rows);
    lemma_count_read(rows);
    assert forall|j: int| 0 <= j < rows.len() implies #[trigger] holds_row(bytes, rows, j) by {
        lemma_corpus_holds_row(rows, j);
    }
    lemma_corpus_len(rows);
    assert(rows.take(0) =~= Seq::<RowModel>::empty());
    lemma_rows_from_held(bytes, rows, 0);
    assert(rows.skip(0) =~= rows);
}

/// The corpus of `rows` opens with their number.
proof fn lemma_count_read(rows: Seq<RowModel>)
    requires
        rows.len() <= u32::MAX,
    ensures
        corpus_bytes(rows).len() >= HEADER_LEN,
        u32_at(corpus_bytes(rows), 0) == rows.len(),
{
    broadcast use lemma_le_u32_len;

    let header = le_u32(low_u32(rows.len() as int));
    lemma_le_u32_round_trip(low_u32(rows.len() as int));
    assert(corpus_bytes(rows).subrange(0, 4) =~= header);
}

/// The corpus of `rows` ends with the strings of its last row.
proof fn lemma_corpus_len(rows: Seq<RowModel>)
    ensures
        corpus_bytes(rows).len() == row_base(rows.len() as int) + strings_before(
            rows,
            rows.len() as int,
        ),
{
    broadcast use lemma_le_u32_len;

    lemma_rows_fixed_len(rows);
    assert(rows.take(rows.len() as int) =~= rows);
}

} // verus!
