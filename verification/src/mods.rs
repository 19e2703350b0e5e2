//! Mods as the legacy bitmask that the difficulty calculation and the corpus
//! take.

use vstd::prelude::*;
use rosu_mods::GameModsLegacy;
use crate::score_id::{views, ParseError};

verus! {

/// The bit value of the mod that `code` names, where it names one.
pub uninterp spec fn legacy_mod_bits(code: Seq<char>) -> Option<u32>;

/// Parses `code` with `GameModsLegacy::from_str` of rosu_mods and gives the
/// `bits` of what it found; none where it reports an error. Trusted, not
/// proved: the outcome depends on the characters of `code` alone;
/// `legacy_mod_bits` is the name of that outcome.
#[verifier::external_body]
fn lookup_mod(code: &str) -> (bits: Option<u32>)
    ensures
        bits == legacy_mod_bits(code@),
{
    match code.parse::<GameModsLegacy>() {
        Ok(found) => Some(found.bits()),
        Err(_) => None,
    }
}

/// The bitmask of the mods that `codes` name: the bits of each, combined.
/// `None` where a code names no mod.
pub open spec fn mods_bitmask(codes: Seq<Seq<char>>) -> Option<u32>
    decreases codes.len(),
{
    if codes.len() == 0 {
        Some(0)
    } else {
        match (mods_bitmask(codes.drop_last()), legacy_mod_bits(codes.last())) {
            (Some(mask), Some(bits)) => Some(mask | bits),
            _ => None,
        }
    }
}

/// Adds the outcome of one lookup to the bitmask `mask`.
pub fn with_mod(mask: u32, lookup: Option<u32>) -> (combined: Result<u32, ParseError>)
    ensures
        combined == match lookup {
            Some(bits) => Ok::<u32, ParseError>(mask | bits),
            None => Err::<u32, ParseError>(ParseError::UnknownMod),
        },
{
    match lookup {
        Some(bits) => Ok(mask | bits),
        None => Err(ParseError::UnknownMod),
    }
}

/// A code that names no mod leaves every list that holds it without bitmask.
pub proof fn lemma_unknown_mod(codes: Seq<Seq<char>>, k: int)
    requires
        0 <= k < codes.len(),
        legacy_mod_bits(codes[k]) is None,
    ensures
        mods_bitmask(codes) is None,
    decreases codes.len(),
{
    if k < codes.len() - 1 {
        lemma_unknown_mod(codes.drop_last(), k);
    }
}

/// The legacy bitmask of the mods that `codes` name.
pub fn mods_bits(codes: &Vec<String>) -> (mask: Result<u32, ParseError>)
    ensures
        mask == match mods_bitmask(views(codes@)) {
            Some(bits) => Ok::<u32, ParseError>(bits),
            None => Err::<u32, ParseError>(ParseError::UnknownMod),
        },
{
    let mut mask: u32 = 0;
    let mut k: usize = 0;
    while k < codes.len()
        invariant
            0 <= k <= codes@.len(),
            mods_bitmask(views(codes@).take(k as int)) == Some(mask),
        decreases codes@.len() - k,
    {
        let ghost read = views(codes@).take(k + 1);
        assert(read.drop_last() =~= views(codes@).take(k as int));
        assert(read.last() == codes@[k as int]@);
        match with_mod(mask, lookup_mod(codes[k].as_str())) {
            Ok(combined) => {
                mask = combined;
            },
            Err(e) => {
                proof {
                    lemma_unknown_mod(views(codes@), k as int);
                }
                return Err(e);
            },
        }
        k = k + 1;
    }
    assert(views(codes@).take(k as int) =~= views(codes@));
    Ok(mask)
}

} // verus!
