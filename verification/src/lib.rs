//! Keeps two caches in step with a catalog of scores, and builds the binary
//! corpus that the embedding visualisation loads.
//!
//! A score is a beatmap played with a set of mods. For every beatmap of the
//! catalog the archive holds the raw content, gzipped; for every score the
//! difficulty table holds the rating of its beatmap under its mods. Both are
//! filled by runs that take the missing keys one by one and leave a key that
//! failed for the next run.
//!
//! - [`score_id`]: score identifiers, `"{beatmap}_{mods}"`.
//! - [`mods`]: the legacy bitmask of a list of mod codes.
//! - [`reconcile`]: the keys that a cache lacks, and the bookkeeping of a run.
//! - [`archive`]: the stored form of a beatmap, and an archive in memory.
//! - [`difficulty`]: the rating of a beatmap, and the steps from a score
//!   identifier to its difficulty.
//! - [`store`]: a difficulty table in memory.
//! - [`metadata`], [`catalog`]: the records that the corpus joins.
//! - [`order`]: the order in which the corpus emits its rows.
//! - [`corpus`], [`decode`], [`wire`]: the corpus format, written and read.
//!
//! Numbers with a fraction are kept as the bit patterns of their IEEE 754
//! form; the library moves them and never computes with them.

pub mod archive;
pub mod catalog;
pub mod corpus;
pub mod decode;
pub mod difficulty;
pub mod metadata;
pub mod mods;
pub mod order;
pub mod reconcile;
pub mod score_id;
pub mod store;
pub mod wire;
