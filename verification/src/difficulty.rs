//! The difficulty of a score: the rating of a beatmap's content under the
//! mods of the score, and the steps that lead from a score identifier to it.

use vstd::prelude::*;
use rosu_pp::any::DifficultyAttributes as Rated;
use rosu_pp::{Beatmap, Difficulty};
use crate::archive::{gunzip, gzip_of, pack, unpack};
use crate::mods::{mods_bitmask, mods_bits};
use crate::score_id::{parse_score_id, score_id_model, ParseError};

verus! {

/// Bit pattern of an IEEE 754 double-precision number.
pub type Double = u64;

/// The difficulty of a beatmap under a set of mods.
#[derive(Clone, Copy, Debug, PartialEq, Eq, Structural)]
pub struct DifficultyAttributes {
    pub aim: Double,
    pub speed: Double,
    pub flashlight: Double,
    pub speed_note_count: Double,
    pub slider_factor: Double,
    /// The overall star rating.
    pub stars: Double,
}

/// Why a beatmap has no difficulty.
#[derive(Clone, Copy, Debug, PartialEq, Eq, Structural)]
pub enum DifficultyError {
    /// The content is no beatmap.
    Malformed,
    /// The beatmap is made for another game mode.
    NotOsu,
}

/// What the rating of a beatmap gave.
#[derive(Clone, Copy, Debug, PartialEq, Eq, Structural)]
pub enum Rating {
    Osu(DifficultyAttributes),
    /// The attributes of another game mode.
    OtherMode,
}

/// What rating the content `raw` under the mods of the bitmask `mods`
/// gives; none where `raw` is no beatmap.
pub uninterp spec fn rating_of(raw: Seq<u8>, mods: u32) -> Option<Rating>;

/// Parses `raw` with `Beatmap::from_bytes` of rosu_pp and rates the beatmap
/// with `Difficulty::calculate` under the mods of the bitmask `mods`; none
/// where the parse fails. The attributes of the osu! mode come back as the
/// bit patterns of their numbers. Trusted, not proved: the outcome depends
/// on `raw` and `mods` alone; `rating_of` is the name of that outcome.
#[verifier::external_body]
fn rate(raw: &[u8], mods: u32) -> (rating: Option<Rating>)
    ensures
        rating == rating_of(raw@, mods),
{
    match Beatmap::from_bytes(raw) {
        Err(_) => None,
        Ok(map) => match Difficulty::new().mods(mods).calculate(&map) {
            Rated::Osu(found) => Some(Rating::Osu(DifficultyAttributes {
                aim: found.aim.to_bits(),
                speed: found.speed.to_bits(),
                flashlight: found.flashlight.to_bits(),
                speed_note_count: found.speed_note_count.to_bits(),
                slider_factor: found.slider_factor.to_bits(),
                stars: found.stars.to_bits(),
            })),
            Rated::Taiko(_) | Rated::Catch(_) | Rated::Mania(_) => Some(Rating::OtherMode),
        },
    }
}

/// The difficulty that the outcome of a rating stands for: content that is
/// no beatmap is `Malformed`, a beatmap of another mode is `NotOsu`.
pub open spec fn difficulty_of(rating: Option<Rating>) -> Result<
    DifficultyAttributes,
    DifficultyError,
> {
    match rating {
        None => Err(DifficultyError::Malformed),
        Some(Rating::Osu(attributes)) => Ok(attributes),
        Some(Rating::OtherMode) => Err(DifficultyError::NotOsu),
    }
}

/// The difficulty that the outcome of a rating stands for.
pub fn rated(rating: Option<Rating>) -> (difficulty: Result<DifficultyAttributes, DifficultyError>)
    ensures
        difficulty == difficulty_of(rating),
{
    match rating {
        None => Err(DifficultyError::Malformed),
        Some(Rating::Osu(attributes)) => Ok(attributes),
        Some(Rating::OtherMode) => Err(DifficultyError::NotOsu),
    }
}

/// Rates the beatmap with the content `raw` under the mods of the bitmask
/// `mods`.
pub fn compute_difficulty_inner(raw: &[u8], mods: u32) -> (difficulty: Result<
    DifficultyAttributes,
    DifficultyError,
>)
    ensures
        difficulty == difficulty_of(rating_of(raw@, mods)),
{
    rated(rate(raw, mods))
}

/// Why a score has no difficulty.
#[derive(Clone, Copy, Debug, PartialEq, Eq, Structural)]
pub enum ComputeError {
    /// The identifier names no beatmap and mods.
    InvalidScoreId(ParseError),
    /// The archive could not be read.
    LoadFailed,
    /// The beatmap could not be fetched.
    FetchFailed,
    /// What the archive holds for the beatmap is no gzip stream.
    CorruptBeatmap,
    /// The beatmap could not be rated.
    Difficulty(DifficultyError),
    /// The reply answers no step that was asked for.
    OutOfTurn,
}

/// Where a computation stands.
#[derive(Clone, Copy, Debug, PartialEq, Eq, Structural)]
pub enum Phase {
    /// The archive is asked for the beatmap.
    Loading,
    /// The beatmap is not archived and is fetched.
    Fetching,
    /// The fetched beatmap is handed to the archive.
    Storing,
    Finished,
}

/// What the driver of a computation does next.
pub enum Step {
    /// Load the stored form of the beatmap from the archive.
    LoadBeatmap { beatmap_id: u32 },
    /// Fetch the content of the beatmap.
    FetchBeatmap { beatmap_id: u32 },
    /// Store `gzipped` in the archive as the beatmap.
    StoreBeatmap { beatmap_id: u32, gzipped: Vec<u8> },
    /// Nothing: this is the outcome.
    Done(Result<DifficultyAttributes, ComputeError>),
}

/// What the driver found when it did a step.
pub enum Reply {
    /// The stored form of the beatmap.
    Loaded(Vec<u8>),
    /// The archive does not hold the beatmap.
    NotArchived,
    LoadFailed,
    /// The content of the beatmap.
    Fetched(Vec<u8>),
    FetchFailed,
    /// The archive was handed the beatmap; whether it kept it does not matter.
    Stored,
}

/// How the computation ends when the content `raw` is rated under the mods
/// of the bitmask `mods`.
pub open spec fn outcome_of(raw: Seq<u8>, mods: u32) -> Result<
    DifficultyAttributes,
    ComputeError,
> {
    match difficulty_of(rating_of(raw, mods)) {
        Ok(attributes) => Ok(attributes),
        Err(e) => Err(ComputeError::Difficulty(e)),
    }
}

/// `step` ends the computation with `outcome`.
pub open spec fn is_done(step: Step, outcome: Result<DifficultyAttributes, ComputeError>) -> bool {
    step matches Step::Done(ended) && ended == outcome
}

/// `step` ends the computation with the error `e`.
pub open spec fn is_failure(step: Step, e: ComputeError) -> bool {
    is_done(step, Err(e))
}

/// The computation of the difficulty of one score. The beatmap comes from
/// the archive; where the archive does not hold it, it is fetched, handed to
/// the archive, and rated whether or not the archive kept it.
pub struct DifficultyJob {
    beatmap_id: u32,
    mods: u32,
    phase: Phase,
    /// The fetched content, while it is being stored.
    fetched: Vec<u8>,
}

impl DifficultyJob {
    pub closed spec fn beatmap_id(&self) -> u32 {
        self.beatmap_id
    }

    /// The legacy bitmask of the mods of the score.
    pub closed spec fn mods(&self) -> u32 {
        self.mods
    }

    pub closed spec fn phase(&self) -> Phase {
        self.phase
    }

    /// The fetched content, while it is being stored.
    pub closed spec fn fetched(&self) -> Seq<u8> {
        self.fetched@
    }

    /// Starts the computation for the score `score_id`. The first step is to
    /// load the beatmap of the score.
    pub fn start(score_id: &str) -> (started: Result<DifficultyJob, ComputeError>)
        ensures
            match started {
                Ok(job) => score_id_model(score_id@) matches Ok(id) && job.beatmap_id()
                    == id.beatmap_id && mods_bitmask(id.mods) == Some(job.mods()) && job.phase()
                    == Phase::Loading,
                Err(e) => match score_id_model(score_id@) {
                    Err(reason) => e == ComputeError::InvalidScoreId(reason),
                    Ok(id) => mods_bitmask(id.mods) is None && e == ComputeError::InvalidScoreId(
                        ParseError::UnknownMod,
                    ),
                },
            },
    {
        let id = match parse_score_id(score_id) {
            Err(e) => {
                return Err(ComputeError::InvalidScoreId(e));
            },
            Ok(id) => id,
        };
        match mods_bits(&id.mods) {
            Err(e) => Err(ComputeError::InvalidScoreId(e)),
            Ok(mods) => Ok(
                DifficultyJob {
                    beatmap_id: id.beatmap_id,
                    mods,
                    phase: Phase::Loading,
                    fetched: Vec::new(),
                },
            ),
        }
    }

    /// The beatmap that the computation needs.
    pub fn beatmap(&self) -> (beatmap_id: u32)
        ensures
            beatmap_id == self.beatmap_id(),
    {
        self.beatmap_id
    }

    /// The step that a computation starts with.
    pub fn first_step(&self) -> (step: Step)
        ensures
            step matches Step::LoadBeatmap { beatmap_id } && beatmap_id == self.beatmap_id(),
    {
        Step::LoadBeatmap { beatmap_id: self.beatmap_id }
    }

    /// Rates `raw` under the mods of the score.
    fn rate_content(&self, raw: &[u8]) -> (outcome: Result<DifficultyAttributes, ComputeError>)
        ensures
            outcome == outcome_of(raw@, self.mods()),
    {
        match compute_difficulty_inner(raw, self.mods) {
            Ok(attributes) => Ok(attributes),
            Err(e) => Err(ComputeError::Difficulty(e)),
        }
    }

    /// Takes the reply to the step that was asked for last, and gives the
    /// next step.
    pub fn advance(&mut self, reply: Reply) -> (step: Step)
        ensures
            final(self).beatmap_id() == old(self).beatmap_id(),
            final(self).mods() == old(self).mods(),
            match (old(self).phase(), reply) {
                (Phase::Loading, Reply::NotArchived) => {
                    &&& final(self).phase() == Phase::Fetching
                    &&& step matches Step::FetchBeatmap { beatmap_id }
                    &&& beatmap_id == old(self).beatmap_id()
                },
                (Phase::Loading, Reply::LoadFailed) => {
                    &&& final(self).phase() == Phase::Finished
                    &&& is_failure(step, ComputeError::LoadFailed)
                },
                (Phase::Loading, Reply::Loaded(gzipped)) => {
                    &&& final(self).phase() == Phase::Finished
                    &&& match gunzip(gzipped@) {
                        Some(raw) => is_done(step, outcome_of(raw, old(self).mods())),
                        None => is_failure(step, ComputeError::CorruptBeatmap),
                    }
                },
                (Phase::Fetching, Reply::FetchFailed) => {
                    &&& final(self).phase() == Phase::Finished
                    &&& is_failure(step, ComputeError::FetchFailed)
                },
                (Phase::Fetching, Reply::Fetched(raw)) => match gzip_of(raw@) {
                    Some(stored) => {
                        &&& final(self).phase() == Phase::Storing
                        &&& final(self).fetched() == raw@
                        &&& step matches Step::StoreBeatmap { beatmap_id, gzipped }
                        &&& beatmap_id == old(self).beatmap_id()
                        &&& gzipped@ == stored
                        &&& gunzip(gzipped@) == Some(raw@)
                    },
                    None => {
                        &&& final(self).phase() == Phase::Finished
                        &&& is_done(step, outcome_of(raw@, old(self).mods()))
                    },
                },
                (Phase::Storing, Reply::Stored) => {
                    &&& final(self).phase() == Phase::Finished
                    &&& is_done(step, outcome_of(old(self).fetched(), old(self).mods()))
                },
                _ => {
                    &&& final(self).phase() == Phase::Finished
                    &&& is_failure(step, ComputeError::OutOfTurn)
                },
            },
    {
        let phase: Phase = self.phase;
        self.phase = Phase::Finished;
        match (phase, reply) {
            (Phase::Loading, Reply::NotArchived) => {
                self.phase = Phase::Fetching;
                Step::FetchBeatmap { beatmap_id: self.beatmap_id }
            },
            (Phase::Loading, Reply::LoadFailed) => Step::Done(Err(ComputeError::LoadFailed)),
            (Phase::Loading, Reply::Loaded(gzipped)) => match unpack(gzipped.as_slice()) {
                Ok(raw) => Step::Done(self.rate_content(raw.as_slice())),
                Err(_) => Step::Done(Err(ComputeError::CorruptBeatmap)),
            },
            (Phase::Fetching, Reply::FetchFailed) => Step::Done(Err(ComputeError::FetchFailed)),
            (Phase::Fetching, Reply::Fetched(raw)) => match pack(raw.as_slice()) {
                Ok(gzipped) => {
                    self.phase = Phase::Storing;
                    self.fetched = raw;
                    Step::StoreBeatmap { beatmap_id: self.beatmap_id, gzipped }
                },
                Err(_) => Step::Done(self.rate_content(raw.as_slice())),
            },
            (Phase::Storing, Reply::Stored) => {
                let outcome = self.rate_content(self.fetched.as_slice());
                Step::Done(outcome)
            },
            _ => Step::Done(Err(ComputeError::OutOfTurn)),
        }
    }
}

} // verus!
