//! Score identifiers. A score is a beatmap played with a set of mods, and its
//! identifier is the beatmap's number, an underscore, and the mods' two-letter
//! codes end to end: `"1234_DTHD"`.

use vstd::prelude::*;
use vstd::string::{StrSliceExecFns, StringExecFns};
use vstd::utf8::is_ascii_chars;

verus! {

broadcast use vstd::string::group_string_axioms;

/// Why a score identifier was not accepted.
#[derive(Clone, Copy, Debug, PartialEq, Eq, Structural)]
pub enum ParseError {
    /// A character of the identifier is not ASCII.
    NotAscii,
    /// The identifier holds no underscore.
    MissingSeparator,
    /// What stands before the first underscore is no beatmap number.
    InvalidBeatmapId,
    /// What stands after the first underscore does not split into
    /// two-character codes.
    OddModsLength,
    /// A code names no mod.
    UnknownMod,
}

/// A score identifier taken apart.
#[derive(Clone, Debug, PartialEq, Eq)]
pub struct ScoreId {
    pub beatmap_id: u32,
    /// The mods' codes, in the identifier's order.
    pub mods: Vec<String>,
}

/// What a [`ScoreId`] holds, with each code as its characters.
pub struct ScoreIdModel {
    pub beatmap_id: u32,
    pub mods: Seq<Seq<char>>,
}

/// The characters of each string of `strings`.
pub open spec fn views(strings: Seq<String>) -> Seq<Seq<char>> {
    Seq::new(strings.len(), |i: int| strings[i]@)
}

impl View for ScoreId {
    type V = ScoreIdModel;

    open spec fn view(&self) -> ScoreIdModel {
        ScoreIdModel { beatmap_id: self.beatmap_id, mods: views(self.mods@) }
    }
}

pub open spec fn is_digit(c: char) -> bool {
    '0' <= c <= '9'
}

pub open spec fn all_digits(s: Seq<char>) -> bool {
    forall|i: int| 0 <= i < s.len() ==> is_digit(#[trigger] s[i])
}

/// The value of the decimal digit `c`.
pub open spec fn digit_value(c: char) -> nat {
    if is_digit(c) {
        (c as int - '0' as int) as nat
    } else {
        0
    }
}

/// The number that the decimal digits `digits` write.
pub open spec fn decimal_value(digits: Seq<char>) -> nat
    decreases digits.len(),
{
    if digits.len() == 0 {
        0
    } else {
        10 * decimal_value(digits.drop_last()) + digit_value(digits.last())
    }
}

/// `s` without its leading plus sign, if it has one.
pub open spec fn unsigned_part(s: Seq<char>) -> Seq<char> {
    if s.len() > 0 && s[0] == '+' {
        s.skip(1)
    } else {
        s
    }
}

/// The beatmap number that `s` writes: decimal digits, at least one, after
/// an optional plus sign, with a value that fits 32 bits.
pub open spec fn beatmap_id_value(s: Seq<char>) -> Option<u32> {
    let digits = unsigned_part(s);
    if digits.len() > 0 && all_digits(digits) && decimal_value(digits) <= u32::MAX {
        Some(decimal_value(digits) as u32)
    } else {
        None
    }
}

/// No underscore stands before position `i` of `s`.
pub open spec fn no_separator_before(s: Seq<char>, i: int) -> bool {
    forall|j: int| 0 <= j < i ==> #[trigger] s[j] != '_'
}

/// The first underscore of `s` stands at position `i`.
pub open spec fn is_separator_at(s: Seq<char>, i: int) -> bool {
    0 <= i < s.len() && s[i] == '_' && no_separator_before(s, i)
}

/// Where the first underscore of `s` stands; the length of `s` if it has none.
pub open spec fn separator_index(s: Seq<char>) -> int {
    if exists|i: int| is_separator_at(s, i) {
        choose|i: int| is_separator_at(s, i)
    } else {
        s.len() as int
    }
}

/// The `k`-th two-character code of `mods`.
pub open spec fn mod_code(mods: Seq<char>, k: int) -> Seq<char> {
    mods.subrange(2 * k, 2 * k + 2)
}

/// The two-character codes that `mods` is made of.
pub open spec fn mod_codes(mods: Seq<char>) -> Seq<Seq<char>> {
    Seq::new(mods.len() / 2, |k: int| mod_code(mods, k))
}

/// What the identifier `s` decomposes into, or why it does not.
pub open spec fn score_id_model(s: Seq<char>) -> Result<ScoreIdModel, ParseError> {
    let at = separator_index(s);
    if !is_ascii_chars(s) {
        Err(ParseError::NotAscii)
    } else if at == s.len() {
        Err(ParseError::MissingSeparator)
    } else {
        match beatmap_id_value(s.take(at)) {
            None => Err(ParseError::InvalidBeatmapId),
            Some(beatmap_id) => {
                let mods = s.skip(at + 1);
                if mods.len() % 2 != 0 {
                    Err(ParseError::OddModsLength)
                } else {
                    Ok(ScoreIdModel { beatmap_id, mods: mod_codes(mods) })
                }
            },
        }
    }
}

/// The beatmap of the score `s`: the number before the first underscore, or
/// all of `s` where it holds none.
pub open spec fn beatmap_id_model(s: Seq<char>) -> Result<u32, ParseError> {
    if !is_ascii_chars(s) {
        Err(ParseError::NotAscii)
    } else {
        match beatmap_id_value(s.take(separator_index(s))) {
            None => Err(ParseError::InvalidBeatmapId),
            Some(beatmap_id) => Ok(beatmap_id),
        }
    }
}

/// An underscore at `i` with none before it is the separator.
pub proof fn lemma_separator_unique(s: Seq<char>, i: int)
    requires
        is_separator_at(s, i),
    ensures
        separator_index(s) == i,
{
    let k = separator_index(s);
    assert(is_separator_at(s, k));
    if k < i {
        assert(s[k] != '_');
    }
    if i < k {
        assert(s[i] != '_');
    }
}

/// A string without underscore has no separator.
pub proof fn lemma_separator_absent(s: Seq<char>)
    requires
        no_separator_before(s, s.len() as int),
    ensures
        separator_index(s) == s.len(),
{
    if exists|i: int| is_separator_at(s, i) {
        let k = choose|i: int| is_separator_at(s, i);
        assert(s[k] != '_');
    }
}

/// The digits read so far never write more than all of them do.
proof fn lemma_decimal_prefix(digits: Seq<char>, n: int)
    requires
        0 <= n <= digits.len(),
    ensures
        decimal_value(digits.take(n)) <= decimal_value(digits),
    decreases digits.len() - n,
{
    if n == digits.len() {
        assert(digits.take(n) =~= digits);
    } else {
        lemma_decimal_prefix(digits, n + 1);
        assert(digits.take(n + 1).drop_last() =~= digits.take(n));
    }
}

/// The position of the first underscore of the ASCII string `s`, or its length.
fn find_separator(s: &str) -> (at: usize)
    requires
        is_ascii_chars(s@),
    ensures
        at == separator_index(s@),
        at <= s@.len(),
{
    let n: usize = s.unicode_len();
    let mut i: usize = 0;
    while i < n
        invariant
            is_ascii_chars(s@),
            n == s@.len(),
            0 <= i <= n,
            no_separator_before(s@, i as int),
        decreases n - i,
    {
        if s.get_ascii(i) == 95u8 {
            proof {
                assert(s@[i as int] == '_');
                lemma_separator_unique(s@, i as int);
            }
            return i;
        }
        assert(s@[i as int] != '_');
        i = i + 1;
    }
    proof {
        lemma_separator_absent(s@);
    }
    n
}

/// Reads the beatmap number that characters `from..to` of the ASCII string
/// `s` write.
fn read_beatmap_id(s: &str, from: usize, to: usize) -> (id: Option<u32>)
    requires
        is_ascii_chars(s@),
        from <= to <= s@.len(),
    ensures
        id == beatmap_id_value(s@.subrange(from as int, to as int)),
{
    let ghost whole = s@.subrange(from as int, to as int);
    let mut i: usize = from;
    if i < to && s.get_ascii(i) == 43u8 {
        assert(whole[0] == '+');
        i = i + 1;
    } else if i < to {
        assert(whole[0] != '+');
    }
    let ghost digits = unsigned_part(whole);
    let start: usize = i;
    assert(digits =~= s@.subrange(start as int, to as int));
    if i == to {
        return None;
    }
    let mut value: u64 = 0;
    while i < to
        invariant
            is_ascii_chars(s@),
            from <= start <= i <= to <= s@.len(),
            start < to,
            digits == s@.subrange(start as int, to as int),
            digits == unsigned_part(s@.subrange(from as int, to as int)),
            all_digits(digits.take(i - start)),
            value == decimal_value(digits.take(i - start)),
            value <= u32::MAX,
        decreases to - i,
    {
        let b: u8 = s.get_ascii(i);
        let ghost read = digits.take(i - start + 1);
        assert(read.drop_last() =~= digits.take(i - start));
        assert(read.last() == s@[i as int]);
        if b < 48u8 || b > 57u8 {
            assert(!is_digit(digits[i - start]));
            return None;
        }
        assert(is_digit(s@[i as int]));
        value = 10 * value + (b - 48u8) as u64;
        if value > 0xffff_ffff {
            proof {
                lemma_decimal_prefix(digits, i - start + 1);
            }
            return None;
        }
        i = i + 1;
    }
    assert(digits.take(to - start) =~= digits);
    Some(value as u32)
}

/// Takes the score identifier `id` apart.
pub fn parse_score_id(id: &str) -> (parsed: Result<ScoreId, ParseError>)
    ensures
        match parsed {
            Ok(score) => score_id_model(id@) == Ok::<ScoreIdModel, ParseError>(score@),
            Err(e) => score_id_model(id@) == Err::<ScoreIdModel, ParseError>(e),
        },
{
    if !id.is_ascii() {
        return Err(ParseError::NotAscii);
    }
    let n: usize = id.unicode_len();
    let at: usize = find_separator(id);
    if at == n {
        return Err(ParseError::MissingSeparator);
    }
    assert(id@.take(at as int) =~= id@.subrange(0, at as int));
    let beatmap_id: u32 = match read_beatmap_id(id, 0, at) {
        None => {
            return Err(ParseError::InvalidBeatmapId);
        },
        Some(beatmap_id) => beatmap_id,
    };
    let ghost tail = id@.skip(at + 1);
    let count: usize = (n - at - 1) / 2;
    if (n - at - 1) % 2 != 0 {
        return Err(ParseError::OddModsLength);
    }
    let mut mods: Vec<String> = Vec::new();
    let mut k: usize = 0;
    while k < count
        invariant
            is_ascii_chars(id@),
            n == id@.len(),
            at < n,
            tail == id@.skip(at + 1),
            count == tail.len() / 2,
            tail.len() % 2 == 0,
            0 <= k <= count,
            mods@.len() == k,
            forall|j: int| 0 <= j < k ==> (#[trigger] mods@[j])@ == mod_code(tail, j),
        decreases count - k,
    {
        let from: usize = at + 1 + 2 * k;
        let code: &str = id.substring_ascii(from, from + 2);
        assert(code@ =~= mod_code(tail, k as int));
        mods.push(String::from_str(code));
        k = k + 1;
    }
    let score = ScoreId { beatmap_id, mods };
    assert(score@.mods =~= mod_codes(tail));
    Ok(score)
}

/// The beatmap of the score `id`.
pub fn beatmap_id_of(id: &str) -> (beatmap: Result<u32, ParseError>)
    ensures
        beatmap == beatmap_id_model(id@),
{
    if !id.is_ascii() {
        return Err(ParseError::NotAscii);
    }
    let at: usize = find_separator(id);
    assert(id@.take(at as int) =~= id@.subrange(0, at as int));
    match read_beatmap_id(id, 0, at) {
        None => Err(ParseError::InvalidBeatmapId),
        Some(beatmap_id) => Ok(beatmap_id),
    }
}

} // verus!
