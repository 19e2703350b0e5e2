//! The beatmap archive: the raw content of each beatmap, kept gzipped and
//! found by the beatmap's number. An entry is written once and never changed.

use vstd::prelude::*;
use std::collections::HashMap;
use std::io::{Read, Write};
use flate2::read::GzDecoder;
use flate2::write::GzEncoder;
use flate2::Compression;

verus! {

broadcast use vstd::std_specs::hash::group_hash_axioms;

/// Why the archive did not do what was asked.
#[derive(Clone, Copy, Debug, PartialEq, Eq, Structural)]
pub enum ArchiveError {
    /// The beatmap is in the archive already.
    Conflict,
    /// The content could not be compressed.
    Compression,
    /// What is stored is no gzip stream.
    Corrupt,
}

/// What the gzip stream `gzipped` decompresses to, where it is one.
pub uninterp spec fn gunzip(gzipped: Seq<u8>) -> Option<Seq<u8>>;

/// The gzip stream that compressing `raw` gives, where compressing succeeds.
pub uninterp spec fn gzip_of(raw: Seq<u8>) -> Option<Seq<u8>>;

/// Compresses `raw` into memory with `flate2::write::GzEncoder` at the
/// default level (`write_all`, then `finish`). Trusted, not proved: whether
/// it succeeds and what it gives depend on the bytes of `raw` alone
/// (`gzip_of` is the name of that outcome), and what comes out is a gzip
/// stream of `raw`, so that decompressing it gives `raw` again.
#[verifier::external_body]
fn gzip(raw: &[u8]) -> (gzipped: Option<Vec<u8>>)
    ensures
        match gzipped {
            Some(bytes) => gzip_of(raw@) == Some(bytes@) && gunzip(bytes@) == Some(raw@),
            None => gzip_of(raw@) is None,
        },
{
    let mut encoder = GzEncoder::new(Vec::new(), Compression::default());
    match encoder.write_all(raw) {
        Ok(()) => match encoder.finish() {
            Ok(bytes) => Some(bytes),
            Err(_) => None,
        },
        Err(_) => None,
    }
}

/// Decompresses `gzipped` with `flate2::read::GzDecoder` (`read_to_end`).
/// Trusted, not proved: whether it succeeds and what it gives depend on the
/// bytes of `gzipped` alone; `gunzip` is the name of that outcome.
#[verifier::external_body]
fn gunzip_bytes(gzipped: &[u8]) -> (raw: Option<Vec<u8>>)
    ensures
        match raw {
            Some(bytes) => gunzip(gzipped@) == Some(bytes@),
            None => gunzip(gzipped@) is None,
        },
{
    let mut raw = Vec::new();
    match GzDecoder::new(gzipped).read_to_end(&mut raw) {
        Ok(_) => Some(raw),
        Err(_) => None,
    }
}

/// The stored form that a compression gave, or the error of its failure.
pub fn compressed(outcome: Option<Vec<u8>>) -> (stored: Result<Vec<u8>, ArchiveError>)
    ensures
        stored == match outcome {
            Some(bytes) => Ok::<Vec<u8>, ArchiveError>(bytes),
            None => Err::<Vec<u8>, ArchiveError>(ArchiveError::Compression),
        },
{
    match outcome {
        Some(bytes) => Ok(bytes),
        None => Err(ArchiveError::Compression),
    }
}

/// The content that a decompression gave, or the error of its failure.
pub fn decompressed(outcome: Option<Vec<u8>>) -> (raw: Result<Vec<u8>, ArchiveError>)
    ensures
        raw == match outcome {
            Some(bytes) => Ok::<Vec<u8>, ArchiveError>(bytes),
            None => Err::<Vec<u8>, ArchiveError>(ArchiveError::Corrupt),
        },
{
    match outcome {
        Some(bytes) => Ok(bytes),
        None => Err(ArchiveError::Corrupt),
    }
}

/// The stored form of the content `raw`: the gzip stream that compressing
/// `raw` gives. It unpacks to `raw` again. Fails where compressing fails.
pub fn pack(raw: &[u8]) -> (stored: Result<Vec<u8>, ArchiveError>)
    ensures
        match stored {
            Ok(gzipped) => gzip_of(raw@) == Some(gzipped@) && gunzip(gzipped@) == Some(raw@),
            Err(e) => e == ArchiveError::Compression && gzip_of(raw@) is None,
        },
{
    compressed(gzip(raw))
}

/// The content whose stored form is `gzipped`.
pub fn unpack(gzipped: &[u8]) -> (raw: Result<Vec<u8>, ArchiveError>)
    ensures
        match raw {
            Ok(bytes) => gunzip(gzipped@) == Some(bytes@),
            Err(e) => e == ArchiveError::Corrupt && gunzip(gzipped@) is None,
        },
{
    decompressed(gunzip_bytes(gzipped))
}

/// An archive in memory.
pub struct ContentArchive {
    /// The stored form of each beatmap.
    blobs: HashMap<u32, Vec<u8>>,
    /// The archived beatmaps, in the order of their arrival.
    order: Vec<u32>,
}

impl ContentArchive {
    /// Every entry unpacks, and `order` lists each archived beatmap once.
    pub closed spec fn wf(&self) -> bool {
        &&& forall|id: u32| #[trigger]
            self.blobs@.contains_key(id) ==> gunzip(self.blobs@[id]@) is Some
        &&& forall|id: u32| self.blobs@.contains_key(id) <==> #[trigger] self.order@.contains(id)
        &&& self.order@.no_duplicates()
    }

    /// The content of each archived beatmap.
    pub closed spec fn view(&self) -> Map<u32, Seq<u8>> {
        Map::new(
            |id: u32| self.blobs@.contains_key(id),
            |id: u32| gunzip(self.blobs@[id]@).unwrap(),
        )
    }

    /// The archived beatmaps, in the order of their arrival.
    pub closed spec fn archived(&self) -> Seq<u32> {
        self.order@
    }

    /// What `get` gives for a beatmap after `put` succeeded for it is the
    /// content that was put, byte for byte, and the empty content too.
    pub proof fn lemma_get_after_put(
        before: ContentArchive,
        after: ContentArchive,
        id: u32,
        raw: Seq<u8>,
    )
        requires
            after@ == before@.insert(id, raw),
        ensures
            after@.contains_key(id),
            after@[id] == raw,
    {
    }

    /// `archived` lists the beatmaps of the archive, each once.
    pub proof fn lemma_archived(&self)
        requires
            self.wf(),
        ensures
            self.archived().no_duplicates(),
            forall|id: u32| self@.contains_key(id) <==> #[trigger] self.archived().contains(id),
    {
    }

    /// An archive without entries.
    pub fn new() -> (archive: ContentArchive)
        ensures
            archive.wf(),
            archive@ == Map::<u32, Seq<u8>>::empty(),
            archive.archived() == Seq::<u32>::empty(),
    {
        let archive = ContentArchive { blobs: HashMap::new(), order: Vec::new() };
        assert(archive@ =~= Map::<u32, Seq<u8>>::empty());
        archive
    }

    /// Is the beatmap `id` archived?
    pub fn contains(&self, id: u32) -> (found: bool)
        requires
            self.wf(),
        ensures
            found == self@.contains_key(id),
    {
        self.blobs.contains_key(&id)
    }

    /// The numbers of the archived beatmaps, in the order of their arrival.
    pub fn ids(&self) -> (ids: Vec<u32>)
        requires
            self.wf(),
        ensures
            ids@ == self.archived(),
    {
        self.order.clone()
    }

    /// The content of the beatmap `id`, where it is archived.
    pub fn get(&self, id: u32) -> (content: Option<Vec<u8>>)
        requires
            self.wf(),
        ensures
            match content {
                Some(raw) => self@.contains_key(id) && raw@ == self@[id],
                None => !self@.contains_key(id),
            },
    {
        match self.blobs.get(&id) {
            None => None,
            Some(gzipped) => match unpack(gzipped.as_slice()) {
                Ok(raw) => Some(raw),
                Err(_) => {
                    proof {
                        assert(self.blobs@.contains_key(id));
                        assert(false);
                    }
                    None
                },
            },
        }
    }

    /// Archives `raw` as the content of the beatmap `id`. A beatmap that is
    /// archived already keeps its content, and the call fails with
    /// `Conflict`; otherwise it fails only where compressing `raw` fails,
    /// with `Compression`. After a success `get` gives `raw` for `id`.
    pub fn put(&mut self, id: u32, raw: &[u8]) -> (done: Result<(), ArchiveError>)
        requires
            old(self).wf(),
        ensures
            final(self).wf(),
            done is Ok <==> !old(self)@.contains_key(id) && gzip_of(raw@) is Some,
            match done {
                Ok(_) => !old(self)@.contains_key(id) && final(self)@ == old(self)@.insert(
                    id,
                    raw@,
                ) && final(self).archived() == old(self).archived().push(id),
                Err(e) => final(self)@ == old(self)@ && final(self).archived() == old(
                    self,
                ).archived() && e == if old(self)@.contains_key(id) {
                    ArchiveError::Conflict
                } else {
                    ArchiveError::Compression
                },
            },
    {
        if self.blobs.contains_key(&id) {
            return Err(ArchiveError::Conflict);
        }
        match pack(raw) {
            Err(e) => Err(e),
            Ok(gzipped) => {
                self.blobs.insert(id, gzipped);
                self.order.push(id);
                proof {
                    assert(self@ =~= old(self)@.insert(id, raw@));
                    assert(!old(self).order@.contains(id));
                    assert(self.order@ == old(self).order@.push(id));
                    assert(self.order@.no_duplicates());
                    assert forall|other: u32| #[trigger]
                        self.blobs@.contains_key(other) implies gunzip(self.blobs@[other]@)
                        is Some by {
                        if other != id {
                            assert(old(self).blobs@.contains_key(other));
                        }
                    }
                    assert forall|other: u32| self.blobs@.contains_key(other) <==> #[trigger]
                        self.order@.contains(other) by {
                        if other == id {
                            assert(self.order@[self.order@.len() - 1] == id);
                        } else if old(self).order@.contains(other) {
                            let at = choose|at: int|
                                0 <= at < old(self).order@.len() && old(self).order@[at] == other;
                            assert(self.order@[at] == other);
                        }
                    }
                }
                Ok(())
            },
        }
    }
}

} // verus!
