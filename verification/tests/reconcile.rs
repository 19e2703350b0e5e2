use beatmap_downloader::catalog::ScoreMetadata;
use beatmap_downloader::reconcile::{
    all_beatmap_ids, get_beatmap_ids_to_fetch, get_score_ids_needing_difficulty, Backfill,
};
use beatmap_downloader::score_id::ParseError;

fn strings(ids: &[&str]) -> Vec<String> {
    ids.iter().map(|id| id.to_string()).collect()
}

fn score(id: &str) -> ScoreMetadata {
    ScoreMetadata { score_id: id.to_string(), avg_pp: 0, num_users: 1 }
}

#[test]
fn missing_is_the_set_difference() {
    let mut missing = get_beatmap_ids_to_fetch(&vec![1, 2, 3], &vec![2]);
    missing.sort();
    assert_eq!(missing, vec![1, 3]);
}

#[test]
fn missing_keeps_the_first_occurrence_of_each() {
    assert_eq!(get_beatmap_ids_to_fetch(&vec![5, 3, 5, 9, 3, 1], &vec![9, 9, 4]), vec![5, 3, 1]);
    assert_eq!(get_beatmap_ids_to_fetch(&vec![], &vec![1]), Vec::<u32>::new());
    assert_eq!(get_beatmap_ids_to_fetch(&vec![1, 2], &vec![]), vec![1, 2]);
    assert_eq!(get_beatmap_ids_to_fetch(&vec![1, 2], &vec![2, 1]), Vec::<u32>::new());
}

#[test]
fn scores_that_need_a_difficulty() {
    let all = strings(&["1_DT", "2_", "1_DT", "3_HDHR"]);
    let stored = strings(&["2_", "7_"]);
    assert_eq!(get_score_ids_needing_difficulty(&all, &stored), strings(&["1_DT", "3_HDHR"]));
    assert_eq!(get_score_ids_needing_difficulty(&all, &all), Vec::<String>::new());
}

#[test]
fn beatmaps_of_the_catalog() {
    let catalog = vec![score("10_DT"), score("20_"), score("10_HD"), score("30")];
    assert_eq!(all_beatmap_ids(&catalog), Ok(vec![10, 20, 10, 30]));
    let broken = vec![score("10_DT"), score("x_HD"), score("\u{fc}_")];
    assert_eq!(all_beatmap_ids(&broken), Err(ParseError::InvalidBeatmapId));
    assert_eq!(all_beatmap_ids(&vec![]), Ok(vec![]));
}

#[test]
fn a_failure_does_not_end_the_run() {
    let pending = vec![4u32, 5, 6, 7];
    let mut run = Backfill::new(pending.len());
    let mut visited = Vec::new();
    while let Some(at) = run.next() {
        visited.push(pending[at]);
        run.record(pending[at] != 5);
    }
    assert_eq!(visited, pending);
    assert!(run.is_finished());
    assert_eq!(run.success_count(), 3);
    assert_eq!(run.failure_count(), 1);
    run.record(true);
    assert_eq!(run.success_count(), 3);
    assert_eq!(run.next(), None);
}

#[test]
fn an_empty_run_is_finished() {
    let run = Backfill::new(0);
    assert!(run.is_finished());
    assert_eq!(run.next(), None);
    assert_eq!(run.success_count(), 0);
    assert_eq!(run.failure_count(), 0);
}

#[test]
fn a_second_run_does_nothing_twice() {
    let all = vec![1u32, 2, 3, 4, 5];
    let mut persisted = vec![2u32];
    let pending = get_beatmap_ids_to_fetch(&all, &persisted);
    assert_eq!(pending, vec![1, 3, 4, 5]);
    let mut run = Backfill::new(pending.len());
    while let Some(at) = run.next() {
        let stored = pending[at] != 4;
        if stored {
            persisted.push(pending[at]);
        }
        run.record(stored);
    }
    assert_eq!(get_beatmap_ids_to_fetch(&all, &persisted), vec![4]);
    persisted.push(4);
    assert_eq!(get_beatmap_ids_to_fetch(&all, &persisted), Vec::<u32>::new());
}
