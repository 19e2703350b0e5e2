use std::io::Read;

use beatmap_downloader::archive::{
    compressed, decompressed, pack, unpack, ArchiveError, ContentArchive,
};

fn sample() -> Vec<u8> {
    b"osu file format v14\n\n[General]\nAudioFilename: audio.mp3\n".to_vec()
}

#[test]
fn beatmap_download_sanity() {
    let beatmap_id = 150057;
    let raw_beatmap = sample();
    let mut archive = ContentArchive::new();
    archive.put(beatmap_id, &raw_beatmap).unwrap();
    let raw_beatmap_from_archive = archive.get(beatmap_id).unwrap();
    assert_eq!(raw_beatmap, raw_beatmap_from_archive);
}

#[test]
fn unpack_gives_back_what_was_packed() {
    let every_byte: Vec<u8> = (0..=255u8).collect();
    let long: Vec<u8> = (0..100_000u32).map(|i| (i % 251) as u8).collect();
    for raw in [Vec::new(), vec![0u8], sample(), every_byte, long] {
        let stored = pack(&raw).unwrap();
        assert_eq!(unpack(&stored), Ok(raw));
    }
}

#[test]
fn the_stored_form_is_a_gzip_stream() {
    let raw = sample();
    let stored = pack(&raw).unwrap();
    assert_ne!(stored, raw);
    assert_eq!(&stored[..3], &[0x1f, 0x8b, 8]);
    let mut read_back = Vec::new();
    flate2::read::GzDecoder::new(&stored[..]).read_to_end(&mut read_back).unwrap();
    assert_eq!(read_back, raw);
}

#[test]
fn what_is_no_gzip_stream_is_corrupt() {
    assert_eq!(unpack(&sample()), Err(ArchiveError::Corrupt));
    assert_eq!(unpack(&[]), Err(ArchiveError::Corrupt));
    let mut cut = pack(&sample()).unwrap();
    cut.truncate(cut.len() - 9);
    assert_eq!(unpack(&cut), Err(ArchiveError::Corrupt));
}

#[test]
fn empty_content_round_trips() {
    let mut archive = ContentArchive::new();
    assert_eq!(archive.put(1, &[]), Ok(()));
    assert_eq!(archive.get(1), Some(Vec::new()));
}

#[test]
fn a_second_put_is_a_conflict() {
    let mut archive = ContentArchive::new();
    assert_eq!(archive.put(7, b"first"), Ok(()));
    assert_eq!(archive.put(7, b"second"), Err(ArchiveError::Conflict));
    assert_eq!(archive.get(7), Some(b"first".to_vec()));
    assert_eq!(archive.ids(), vec![7]);
}

#[test]
fn lookups_and_enumeration() {
    let mut archive = ContentArchive::new();
    assert!(!archive.contains(3));
    assert_eq!(archive.get(3), None);
    assert!(archive.ids().is_empty());
    archive.put(3, b"three").unwrap();
    archive.put(1, b"one").unwrap();
    assert!(archive.contains(3));
    assert!(archive.contains(1));
    assert!(!archive.contains(2));
    assert_eq!(archive.ids(), vec![3, 1]);
    assert_eq!(archive.get(1), Some(b"one".to_vec()));
}

#[test]
fn a_failed_compression_or_decompression_is_an_error() {
    assert_eq!(compressed(None), Err(ArchiveError::Compression));
    assert_eq!(compressed(Some(vec![1, 2])), Ok(vec![1, 2]));
    assert_eq!(decompressed(None), Err(ArchiveError::Corrupt));
    assert_eq!(decompressed(Some(vec![])), Ok(vec![]));
}
