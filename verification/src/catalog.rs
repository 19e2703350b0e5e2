//! The records that the corpus joins, each found by the identifier of its
//! score.

use vstd::prelude::*;
use vstd::hash_map::StringHashMap;
use crate::corpus::Single;

verus! {

/// A score of the catalog with its aggregate statistics.
#[derive(Clone, Debug, PartialEq, Eq)]
pub struct ScoreMetadata {
    pub score_id: String,
    /// Average performance points of the plays of the score.
    pub avg_pp: Single,
    /// Number of users who played the score.
    pub num_users: i32,
}

/// Where the embedding put a score.
#[derive(Clone, Debug, PartialEq, Eq)]
pub struct EmbeddingPoint {
    pub score_id: String,
    pub x: Single,
    pub y: Single,
}

/// The stored difficulty of a score.
#[derive(Clone, Debug, PartialEq, Eq)]
pub struct DifficultyRecord {
    pub score_id: String,
    pub difficulty_aim: Single,
    pub difficulty_speed: Single,
    pub difficulty_flashlight: Single,
    pub speed_note_count: Single,
    pub slider_factor: Single,
    pub stars: Single,
}

impl DifficultyRecord {
    /// The record that stands in for a score whose difficulty is not stored:
    /// every value is zero.
    pub open spec fn zero(score_id: String) -> DifficultyRecord {
        DifficultyRecord {
            score_id,
            difficulty_aim: 0,
            difficulty_speed: 0,
            difficulty_flashlight: 0,
            speed_note_count: 0,
            slider_factor: 0,
            stars: 0,
        }
    }

    /// Makes the record that stands in for the score `score_id`.
    pub fn placeholder(score_id: String) -> (record: DifficultyRecord)
        ensures
            record == DifficultyRecord::zero(score_id),
    {
        DifficultyRecord {
            score_id,
            difficulty_aim: 0,
            difficulty_speed: 0,
            difficulty_flashlight: 0,
            speed_note_count: 0,
            slider_factor: 0,
            stars: 0,
        }
    }
}

/// A record that is found by the identifier of a score.
pub trait Keyed {
    /// The identifier of the record's score.
    spec fn key(&self) -> Seq<char>;

    fn score_id(&self) -> (id: &str)
        ensures
            id@ == self.key(),
    ;
}

impl Keyed for ScoreMetadata {
    open spec fn key(&self) -> Seq<char> {
        self.score_id@
    }

    fn score_id(&self) -> (id: &str) {
        self.score_id.as_str()
    }
}

impl Keyed for DifficultyRecord {
    open spec fn key(&self) -> Seq<char> {
        self.score_id@
    }

    fn score_id(&self) -> (id: &str) {
        self.score_id.as_str()
    }
}

/// The position of the last record of `records` with the identifier `key`.
pub open spec fn last_position<T: Keyed>(records: Seq<T>, key: Seq<char>) -> Option<int>
    decreases records.len(),
{
    if records.len() == 0 {
        None
    } else if records.last().key() == key {
        Some(records.len() - 1)
    } else {
        last_position(records.drop_last(), key)
    }
}

/// A position that `last_position` gives is one of the list, and the record
/// there has the key.
pub proof fn lemma_last_position<T: Keyed>(records: Seq<T>, key: Seq<char>)
    ensures
        last_position(records, key) matches Some(at) ==> 0 <= at < records.len()
            && records[at].key() == key,
    decreases records.len(),
{
    if records.len() > 0 && records.last().key() != key {
        lemma_last_position(records.drop_last(), key);
    }
}

/// `index` leads from each identifier to the last record of `records` that
/// has it.
pub open spec fn is_index_of<T: Keyed>(index: Map<Seq<char>, usize>, records: Seq<T>) -> bool {
    forall|key: Seq<char>|
        match #[trigger] last_position(records, key) {
            Some(at) => index.contains_key(key) && index[key] == at,
            None => !index.contains_key(key),
        }
}

/// Indexes `records` by identifier. Of two records with one identifier the
/// later is found.
pub fn index_by_score_id<T: Keyed>(records: &Vec<T>) -> (index: StringHashMap<usize>)
    ensures
        is_index_of(index@, records@),
{
    let mut index: StringHashMap<usize> = StringHashMap::new();
    let mut i: usize = 0;
    while i < records.len()
        invariant
            0 <= i <= records@.len(),
            is_index_of(index@, records@.take(i as int)),
        decreases records@.len() - i,
    {
        let ghost before = records@.take(i as int);
        let ghost after = records@.take(i + 1);
        let ghost old_index = index@;
        let id: &str = records[i].score_id();
        index.insert(id.to_owned(), i);
        proof {
            assert(after.drop_last() =~= before);
            assert(after.last() == records@[i as int]);
            assert forall|key: Seq<char>|
                match #[trigger] last_position(after, key) {
                    Some(at) => index@.contains_key(key) && index@[key] == at,
                    None => !index@.contains_key(key),
                } by {
                if key != id@ {
                    assert(last_position(after, key) == last_position(before, key));
                }
            }
        }
        i = i + 1;
    }
    assert(records@.take(i as int) =~= records@);
    index
}

} // verus!
