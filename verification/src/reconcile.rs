//! Reconciliation of a cache with the catalog: which keys the cache lacks,
//! and the bookkeeping of the run that fills them in. A run takes the missing
//! keys one by one; a key that fails is counted and left for the next run.

use vstd::prelude::*;
use vstd::hash_set::StringHashSet;
use std::collections::HashSet;
use crate::catalog::ScoreMetadata;
use crate::score_id::{beatmap_id_model, beatmap_id_of, views, ParseError};

verus! {

broadcast use vstd::std_specs::hash::group_hash_axioms;

/// The keys of `all` that `persisted` lacks: each once, in the order of
/// their first occurrence.
pub open spec fn missing<K>(all: Seq<K>, persisted: Set<K>) -> Seq<K>
    decreases all.len(),
{
    if all.len() == 0 {
        Seq::empty()
    } else {
        let before = missing(all.drop_last(), persisted);
        if persisted.contains(all.last()) || before.contains(all.last()) {
            before
        } else {
            before.push(all.last())
        }
    }
}

/// A key is missing exactly if it is in `all` and not in `persisted`.
pub proof fn lemma_missing_contains<K>(all: Seq<K>, persisted: Set<K>, key: K)
    ensures
        missing(all, persisted).contains(key) <==> all.contains(key) && !persisted.contains(key),
    decreases all.len(),
{
    if all.len() > 0 {
        let before = missing(all.drop_last(), persisted);
        lemma_missing_contains(all.drop_last(), persisted, key);
        lemma_missing_contains(all.drop_last(), persisted, all.last());
        if all.contains(key) {
            let at = choose|at: int| 0 <= at < all.len() && all[at] == key;
            if at < all.len() - 1 {
                assert(all.drop_last()[at] == key);
            }
        }
        if all.drop_last().contains(key) {
            let at = choose|at: int| 0 <= at < all.len() - 1 && all.drop_last()[at] == key;
            assert(all[at] == key);
        }
        assert(all[all.len() - 1] == all.last());
        if !(persisted.contains(all.last()) || before.contains(all.last())) {
            let after = before.push(all.last());
            assert(after[before.len() as int] == all.last());
            if before.contains(key) {
                let at = choose|at: int| 0 <= at < before.len() && before[at] == key;
                assert(after[at] == key);
            }
        }
    }
}

/// No key is missing twice.
pub proof fn lemma_missing_no_duplicates<K>(all: Seq<K>, persisted: Set<K>)
    ensures
        missing(all, persisted).no_duplicates(),
    decreases all.len(),
{
    if all.len() > 0 {
        lemma_missing_no_duplicates(all.drop_last(), persisted);
    }
}

/// The missing keys are the set difference of the catalog and the cache.
pub proof fn lemma_missing_is_difference<K>(all: Seq<K>, persisted: Set<K>)
    ensures
        missing(all, persisted).to_set() == all.to_set().difference(persisted),
{
    assert forall|key: K|
        missing(all, persisted).to_set().contains(key) <==> all.to_set().difference(
            persisted,
        ).contains(key) by {
        lemma_missing_contains(all, persisted, key);
    }
    assert(missing(all, persisted).to_set() =~= all.to_set().difference(persisted));
}

/// Reconciling again after the keys `stored` were added to the cache leaves
/// what was missing before, without the stored keys and in the same order:
/// nothing that is persisted is done twice.
pub proof fn lemma_second_run<K>(all: Seq<K>, persisted: Set<K>, stored: Set<K>)
    ensures
        missing(all, persisted.union(stored)) == missing(all, persisted).filter(
            |key: K| !stored.contains(key),
        ),
    decreases all.len(),
{
    let left = |key: K| !stored.contains(key);
    if all.len() == 0 {
        assert(missing(all, persisted).filter(left) =~= Seq::<K>::empty());
    } else {
        let last = all.last();
        let before = missing(all.drop_last(), persisted);
        let again = missing(all.drop_last(), persisted.union(stored));
        lemma_second_run(all.drop_last(), persisted, stored);
        assert(again == before.filter(left));
        if before.filter(left).contains(last) {
            before.lemma_filter_contains_rev(left, last);
        }
        if before.contains(last) && left(last) {
            let at = choose|at: int| 0 <= at < before.len() && before[at] == last;
            before.lemma_filter_contains(left, at);
        }
        if !persisted.contains(last) && !before.contains(last) {
            assert(before.push(last).drop_last() =~= before);
            assert(before.push(last).last() == last);
            reveal(Seq::filter);
        }
    }
}

/// Reconciling again after every missing key was stored leaves nothing to do.
pub proof fn lemma_second_run_idle<K>(all: Seq<K>, persisted: Set<K>)
    ensures
        missing(all, persisted.union(missing(all, persisted).to_set())).len() == 0,
{
    let first = missing(all, persisted);
    let again = missing(all, persisted.union(first.to_set()));
    if again.len() > 0 {
        let key = again[0];
        assert(again.contains(key));
        lemma_missing_contains(all, persisted.union(first.to_set()), key);
        lemma_missing_contains(all, persisted, key);
    }
}

/// The beatmaps of `all` that are not among the fetched ones.
pub fn get_beatmap_ids_to_fetch(all: &Vec<u32>, fetched: &Vec<u32>) -> (to_fetch: Vec<u32>)
    ensures
        to_fetch@ == missing(all@, fetched@.to_set()),
        to_fetch@.to_set() == all@.to_set().difference(fetched@.to_set()),
        to_fetch@.no_duplicates(),
{
    let mut seen: HashSet<u32> = HashSet::new();
    let mut i: usize = 0;
    while i < fetched.len()
        invariant
            0 <= i <= fetched@.len(),
            seen@ == fetched@.take(i as int).to_set(),
        decreases fetched@.len() - i,
    {
        seen.insert(fetched[i]);
        proof {
            let before = fetched@.take(i as int);
            let after = fetched@.take(i + 1);
            assert(after =~= before.push(fetched@[i as int]));
            before.lemma_push_to_set_commute(fetched@[i as int]);
        }
        i = i + 1;
    }
    assert(fetched@.take(i as int) =~= fetched@);
    let mut to_fetch: Vec<u32> = Vec::new();
    let mut k: usize = 0;
    assert(seen@ =~= fetched@.to_set().union(to_fetch@.to_set()));
    while k < all.len()
        invariant
            0 <= k <= all@.len(),
            to_fetch@ == missing(all@.take(k as int), fetched@.to_set()),
            seen@ == fetched@.to_set().union(to_fetch@.to_set()),
        decreases all@.len() - k,
    {
        let id: u32 = all[k];
        assert(all@.take(k + 1).drop_last() =~= all@.take(k as int));
        if !seen.contains(&id) {
            let ghost before = to_fetch@;
            seen.insert(id);
            to_fetch.push(id);
            proof {
                before.lemma_push_to_set_commute(id);
                assert(seen@ =~= fetched@.to_set().union(to_fetch@.to_set()));
            }
        }
        k = k + 1;
    }
    proof {
        assert(all@.take(k as int) =~= all@);
        lemma_missing_is_difference(all@, fetched@.to_set());
        lemma_missing_no_duplicates(all@, fetched@.to_set());
    }
    to_fetch
}

/// The scores of `all` that are not among the stored ones.
pub fn get_score_ids_needing_difficulty(all: &Vec<String>, stored: &Vec<String>) -> (needing: Vec<
    String,
>)
    ensures
        views(needing@) == missing(views(all@), views(stored@).to_set()),
        views(needing@).to_set() == views(all@).to_set().difference(views(stored@).to_set()),
        views(needing@).no_duplicates(),
{
    let mut seen: StringHashSet = StringHashSet::new();
    let mut i: usize = 0;
    while i < stored.len()
        invariant
            0 <= i <= stored@.len(),
            seen@ == views(stored@).take(i as int).to_set(),
        decreases stored@.len() - i,
    {
        seen.insert(stored[i].clone());
        proof {
            let before = views(stored@).take(i as int);
            let after = views(stored@).take(i + 1);
            assert(after =~= before.push(stored@[i as int]@));
            before.lemma_push_to_set_commute(stored@[i as int]@);
        }
        i = i + 1;
    }
    assert(views(stored@).take(i as int) =~= views(stored@));
    let mut needing: Vec<String> = Vec::new();
    let mut k: usize = 0;
    assert(views(needing@) =~= Seq::<Seq<char>>::empty());
    assert(seen@ =~= views(stored@).to_set().union(views(needing@).to_set()));
    while k < all.len()
        invariant
            0 <= k <= all@.len(),
            views(needing@) == missing(views(all@).take(k as int), views(stored@).to_set()),
            seen@ == views(stored@).to_set().union(views(needing@).to_set()),
        decreases all@.len() - k,
    {
        assert(views(all@).take(k + 1).drop_last() =~= views(all@).take(k as int));
        assert(views(all@).take(k + 1).last() == all@[k as int]@);
        if !seen.contains(all[k].as_str()) {
            let ghost before = views(needing@);
            seen.insert(all[k].clone());
            needing.push(all[k].clone());
            proof {
                assert(views(needing@) =~= before.push(all@[k as int]@));
                before.lemma_push_to_set_commute(all@[k as int]@);
                assert(seen@ =~= views(stored@).to_set().union(views(needing@).to_set()));
            }
        }
        k = k + 1;
    }
    proof {
        assert(views(all@).take(k as int) =~= views(all@));
        lemma_missing_is_difference(views(all@), views(stored@).to_set());
        lemma_missing_no_duplicates(views(all@), views(stored@).to_set());
    }
    needing
}

/// The beatmap of each score of the catalog, or the error of the first
/// identifier that names none.
pub open spec fn beatmap_ids(catalog: Seq<ScoreMetadata>) -> Result<Seq<u32>, ParseError>
    decreases catalog.len(),
{
    if catalog.len() == 0 {
        Ok(Seq::empty())
    } else {
        match beatmap_ids(catalog.drop_last()) {
            Err(e) => Err(e),
            Ok(ids) => match beatmap_id_model(catalog.last().score_id@) {
                Err(e) => Err(e),
                Ok(id) => Ok(ids.push(id)),
            },
        }
    }
}

/// The error of the scores read so far is the error of the catalog.
proof fn lemma_beatmap_ids_stop(catalog: Seq<ScoreMetadata>, n: int)
    requires
        0 <= n <= catalog.len(),
        beatmap_ids(catalog.take(n)) is Err,
    ensures
        beatmap_ids(catalog) == beatmap_ids(catalog.take(n)),
    decreases catalog.len() - n,
{
    if n == catalog.len() {
        assert(catalog.take(n) =~= catalog);
    } else {
        assert(catalog.take(n + 1).drop_last() =~= catalog.take(n));
        lemma_beatmap_ids_stop(catalog, n + 1);
    }
}

/// The beatmaps that the scores of the catalog are played on, one for each
/// score and in the order of the scores.
pub fn all_beatmap_ids(score_metadata: &Vec<ScoreMetadata>) -> (all: Result<Vec<u32>, ParseError>)
    ensures
        match all {
            Ok(ids) => beatmap_ids(score_metadata@) == Ok::<Seq<u32>, ParseError>(ids@),
            Err(e) => beatmap_ids(score_metadata@) == Err::<Seq<u32>, ParseError>(e),
        },
{
    let mut ids: Vec<u32> = Vec::new();
    let mut i: usize = 0;
    while i < score_metadata.len()
        invariant
            0 <= i <= score_metadata@.len(),
            beatmap_ids(score_metadata@.take(i as int)) == Ok::<Seq<u32>, ParseError>(ids@),
        decreases score_metadata@.len() - i,
    {
        assert(score_metadata@.take(i + 1).drop_last() =~= score_metadata@.take(i as int));
        match beatmap_id_of(score_metadata[i].score_id.as_str()) {
            Err(e) => {
                proof {
                    lemma_beatmap_ids_stop(score_metadata@, i + 1);
                }
                return Err(e);
            },
            Ok(id) => {
                ids.push(id);
            },
        }
        i = i + 1;
    }
    assert(score_metadata@.take(i as int) =~= score_metadata@);
    Ok(ids)
}

/// How many of `outcomes` are successes.
pub open spec fn successes(outcomes: Seq<bool>) -> nat
    decreases outcomes.len(),
{
    if outcomes.len() == 0 {
        0
    } else {
        successes(outcomes.drop_last()) + if outcomes.last() {
            1nat
        } else {
            0nat
        }
    }
}

/// No more successes than outcomes.
pub proof fn lemma_successes_bound(outcomes: Seq<bool>)
    ensures
        successes(outcomes) <= outcomes.len(),
    decreases outcomes.len(),
{
    if outcomes.len() > 0 {
        lemma_successes_bound(outcomes.drop_last());
    }
}

/// The keys of `pending` whose outcome is a success.
pub open spec fn stored_keys<K>(pending: Seq<K>, outcomes: Seq<bool>) -> Set<K> {
    Set::new(
        |key: K|
            exists|at: int|
                0 <= at < outcomes.len() && at < pending.len() && outcomes[at] && pending[at]
                    == key,
    )
}

/// The bookkeeping of one run over a list of missing keys. The run goes
/// through the positions of the list in order, once each, whatever the
/// outcomes are.
pub struct Backfill {
    total: usize,
    success_count: usize,
    failure_count: usize,
    outcomes: Ghost<Seq<bool>>,
}

impl Backfill {
    /// The counters agree with the outcomes, and no more keys were handled
    /// than there are.
    pub closed spec fn wf(&self) -> bool {
        &&& self.success_count + self.failure_count == self.outcomes@.len()
        &&& self.success_count == successes(self.outcomes@)
        &&& self.outcomes@.len() <= self.total
    }

    /// The number of keys of the run.
    pub closed spec fn total(&self) -> nat {
        self.total as nat
    }

    /// The outcomes of the keys handled so far, in their order.
    pub closed spec fn outcomes(&self) -> Seq<bool> {
        self.outcomes@
    }

    /// A run over `total` missing keys, none of them handled yet.
    pub fn new(total: usize) -> (run: Backfill)
        ensures
            run.wf(),
            run.total() == total,
            run.outcomes() == Seq::<bool>::empty(),
    {
        Backfill { total, success_count: 0, failure_count: 0, outcomes: Ghost(Seq::empty()) }
    }

    /// The position of the key to handle next; none when the run is over.
    pub fn next(&self) -> (position: Option<usize>)
        requires
            self.wf(),
        ensures
            position == if self.outcomes().len() < self.total() {
                Some(self.outcomes().len() as usize)
            } else {
                None
            },
    {
        let handled: usize = self.success_count + self.failure_count;
        if handled < self.total {
            Some(handled)
        } else {
            None
        }
    }

    /// Records the outcome of the key that `next` gave, and moves on to the
    /// following key. A failure ends nothing. When the run is over the call
    /// changes nothing.
    pub fn record(&mut self, stored: bool)
        requires
            old(self).wf(),
        ensures
            final(self).wf(),
            final(self).total() == old(self).total(),
            final(self).outcomes() == if old(self).outcomes().len() < old(self).total() {
                old(self).outcomes().push(stored)
            } else {
                old(self).outcomes()
            },
    {
        let handled: usize = self.success_count + self.failure_count;
        if handled < self.total {
            let ghost before = self.outcomes@;
            if stored {
                self.success_count = self.success_count + 1;
            } else {
                self.failure_count = self.failure_count + 1;
            }
            self.outcomes = Ghost(before.push(stored));
            assert(before.push(stored).drop_last() =~= before);
        }
    }

    /// Is every key handled?
    pub fn is_finished(&self) -> (finished: bool)
        requires
            self.wf(),
        ensures
            finished == (self.outcomes().len() == self.total()),
    {
        self.success_count + self.failure_count == self.total
    }

    /// How many keys were stored.
    pub fn success_count(&self) -> (count: usize)
        requires
            self.wf(),
        ensures
            count == successes(self.outcomes()),
    {
        self.success_count
    }

    /// How many keys failed.
    pub fn failure_count(&self) -> (count: usize)
        requires
            self.wf(),
        ensures
            count == self.outcomes().len() - successes(self.outcomes()),
    {
        self.failure_count
    }
}

/// After a run over the missing keys a second reconciliation finds the keys
/// that failed, in their order, and no key that was stored.
pub proof fn lemma_run_then_reconcile<K>(all: Seq<K>, persisted: Set<K>, run: Backfill)
    requires
        run.wf(),
        run.total() == missing(all, persisted).len(),
    ensures
        missing(all, persisted.union(stored_keys(missing(all, persisted), run.outcomes())))
            == missing(all, persisted).filter(
            |key: K| !stored_keys(missing(all, persisted), run.outcomes()).contains(key),
        ),
        successes(run.outcomes()) == run.total() ==> missing(
            all,
            persisted.union(stored_keys(missing(all, persisted), run.outcomes())),
        ).len() == 0,
{
    let pending = missing(all, persisted);
    let stored = stored_keys(pending, run.outcomes());
    lemma_second_run(all, persisted, stored);
    if successes(run.outcomes()) == run.total() {
        lemma_successes_bound(run.outcomes());
        lemma_all_successes(run.outcomes());
        let again = missing(all, persisted.union(stored));
        if again.len() > 0 {
            let key = again[0];
            assert(again.contains(key));
            lemma_missing_contains(all, persisted.union(stored), key);
            lemma_missing_contains(all, persisted, key);
            let at = choose|at: int| 0 <= at < pending.len() && pending[at] == key;
            assert(run.outcomes()[at]);
            assert(stored.contains(key));
        }
    }
}

/// Where every outcome counts as a success, every outcome is one.
proof fn lemma_all_successes(outcomes: Seq<bool>)
    requires
        successes(outcomes) == outcomes.len(),
    ensures
        forall|at: int| 0 <= at < outcomes.len() ==> outcomes[at],
    decreases outcomes.len(),
{
    if outcomes.len() > 0 {
        lemma_successes_bound(outcomes.drop_last());
        lemma_all_successes(outcomes.drop_last());
        assert forall|at: int| 0 <= at < outcomes.len() implies outcomes[at] by {
            if at < outcomes.len() - 1 {
                assert(outcomes.drop_last()[at]);
            }
        }
    }
}

} // verus!
