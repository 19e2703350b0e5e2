//! The difficulty table: the difficulty of each score, found by the score's
//! identifier. An entry is written once and never changed.

use vstd::prelude::*;
use vstd::hash_map::StringHashMap;
use crate::difficulty::DifficultyAttributes;
use crate::score_id::views;

verus! {

/// Why the table did not take a difficulty.
#[derive(Clone, Copy, Debug, PartialEq, Eq, Structural)]
pub enum StoreError {
    /// The score has a difficulty already.
    Conflict,
}

/// A difficulty table in memory.
pub struct DifficultyStore {
    /// The difficulty of each score.
    records: StringHashMap<DifficultyAttributes>,
    /// The scores of the table, in the order of their arrival.
    order: Vec<String>,
}

impl DifficultyStore {
    /// `order` lists each score of the table once.
    pub closed spec fn wf(&self) -> bool {
        &&& forall|key: Seq<char>|
            self.records@.contains_key(key) <==> #[trigger] views(self.order@).contains(key)
        &&& views(self.order@).no_duplicates()
    }

    /// The difficulty of each score of the table.
    pub closed spec fn view(&self) -> Map<Seq<char>, DifficultyAttributes> {
        self.records@
    }

    /// The scores of the table, in the order of their arrival.
    pub closed spec fn stored(&self) -> Seq<Seq<char>> {
        views(self.order@)
    }

    /// `stored` lists the scores of the table, each once.
    pub proof fn lemma_stored(&self)
        requires
            self.wf(),
        ensures
            self.stored().no_duplicates(),
            forall|key: Seq<char>| self@.contains_key(key) <==> #[trigger] self.stored().contains(key),
    {
    }

    /// A table without entries.
    pub fn new() -> (store: DifficultyStore)
        ensures
            store.wf(),
            store@ == Map::<Seq<char>, DifficultyAttributes>::empty(),
            store.stored() == Seq::<Seq<char>>::empty(),
    {
        let store = DifficultyStore { records: StringHashMap::new(), order: Vec::new() };
        assert(views(store.order@) =~= Seq::<Seq<char>>::empty());
        store
    }

    /// Has the score `score_id` a difficulty?
    pub fn contains(&self, score_id: &str) -> (found: bool)
        ensures
            found == self@.contains_key(score_id@),
    {
        self.records.contains_key(score_id)
    }

    /// The difficulty of the score `score_id`, where the table has one.
    pub fn get(&self, score_id: &str) -> (difficulty: Option<DifficultyAttributes>)
        ensures
            difficulty == if self@.contains_key(score_id@) {
                Some(self@[score_id@])
            } else {
                None
            },
    {
        match self.records.get(score_id) {
            Some(attributes) => Some(*attributes),
            None => None,
        }
    }

    /// The scores of the table, in the order of their arrival.
    pub fn ids(&self) -> (ids: Vec<String>)
        ensures
            views(ids@) == self.stored(),
    {
        let mut ids: Vec<String> = Vec::new();
        let mut i: usize = 0;
        while i < self.order.len()
            invariant
                0 <= i <= self.order@.len(),
                ids@.len() == i,
                forall|k: int| 0 <= k < i ==> (#[trigger] ids@[k])@ == self.order@[k]@,
            decreases self.order@.len() - i,
        {
            ids.push(self.order[i].clone());
            i = i + 1;
        }
        assert(views(ids@) =~= views(self.order@));
        ids
    }

    /// Stores `difficulty` as the difficulty of the score `score_id`. A score
    /// that has a difficulty already keeps it, and the call fails.
    pub fn put(&mut self, score_id: &str, difficulty: DifficultyAttributes) -> (done: Result<
        (),
        StoreError,
    >)
        requires
            old(self).wf(),
        ensures
            final(self).wf(),
            done is Ok <==> !old(self)@.contains_key(score_id@),
            match done {
                Ok(_) => {
                    &&& final(self)@ == old(self)@.insert(score_id@, difficulty)
                    &&& final(self).stored() == old(self).stored().push(score_id@)
                },
                Err(e) => {
                    &&& e == StoreError::Conflict
                    &&& final(self)@ == old(self)@
                    &&& final(self).stored() == old(self).stored()
                },
            },
    {
        if self.records.contains_key(score_id) {
            return Err(StoreError::Conflict);
        }
        let ghost before = views(self.order@);
        self.records.insert(score_id.to_owned(), difficulty);
        self.order.push(score_id.to_owned());
        proof {
            let after = views(self.order@);
            assert(after =~= before.push(score_id@));
            assert(!before.contains(score_id@));
            assert forall|key: Seq<char>| self.records@.contains_key(key) <==> #[trigger]
                after.contains(key) by {
                if key == score_id@ {
                    assert(after[before.len() as int] == key);
                } else if before.contains(key) {
                    let at = choose|at: int| 0 <= at < before.len() && before[at] == key;
                    assert(after[at] == key);
                }
            }
        }
        Ok(())
    }
}

} // verus!
