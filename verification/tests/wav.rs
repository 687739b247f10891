//! Reading and writing 16-bit PCM.

use stemsplits::wav;
use stemsplits::wav::{deinterleave, interleave, read, WavError};

#[test]
fn what_was_written_is_read_back() {
    let samples = [0i16, -1, 32_767, -32_768, 256, -257];
    let bytes = wav::write(44_100, 2, &samples);
    assert_eq!(bytes.len(), 44 + 12);
    let audio = read(&bytes).unwrap();
    assert_eq!(audio.sample_rate, 44_100);
    assert_eq!(audio.channels, 2);
    assert_eq!(audio.samples, samples);
}

#[test]
fn the_header_is_the_canonical_one() {
    let bytes = wav::write(44_100, 2, &[1, 2]);
    assert_eq!(&bytes[..4], b"RIFF");
    assert_eq!(&bytes[4..8], &40u32.to_le_bytes());
    assert_eq!(&bytes[8..16], b"WAVEfmt ");
    assert_eq!(&bytes[16..20], &16u32.to_le_bytes());
    assert_eq!(&bytes[20..22], &1u16.to_le_bytes());
    assert_eq!(&bytes[22..24], &2u16.to_le_bytes());
    assert_eq!(&bytes[24..28], &44_100u32.to_le_bytes());
    assert_eq!(&bytes[28..32], &176_400u32.to_le_bytes());
    assert_eq!(&bytes[32..34], &4u16.to_le_bytes());
    assert_eq!(&bytes[34..36], &16u16.to_le_bytes());
    assert_eq!(&bytes[36..40], b"data");
    assert_eq!(&bytes[40..44], &4u32.to_le_bytes());
    assert_eq!(&bytes[44..], &[1, 0, 2, 0]);
}

#[test]
fn other_files_are_refused() {
    assert_eq!(read(b"RIFF").unwrap_err(), WavError::NotWave);
    let mut other = wav::write(44_100, 2, &[1, 2]);
    other[8] = b'w';
    assert_eq!(read(&other).unwrap_err(), WavError::NotWave);
    let mut deep = wav::write(44_100, 2, &[1, 2]);
    deep[34] = 24;
    assert_eq!(read(&deep).unwrap_err(), WavError::UnsupportedBits(24));
    assert_eq!(read(&wav::write(44_100, 2, &[])).unwrap_err(), WavError::NoAudio);
    assert_eq!(read(&wav::write(44_100, 0, &[1])).unwrap_err(), WavError::NoAudio);
}

#[test]
fn unknown_chunks_are_skipped() {
    let plain = wav::write(8_000, 1, &[5, 6]);
    let mut bytes = plain[..12].to_vec();
    bytes.extend_from_slice(b"LIST");
    bytes.extend_from_slice(&3u32.to_le_bytes());
    bytes.extend_from_slice(&[9, 9, 9, 0]);
    bytes.extend_from_slice(&plain[12..]);
    let audio = read(&bytes).unwrap();
    assert_eq!(audio.samples, vec![5, 6]);
    assert_eq!(audio.sample_rate, 8_000);
}

#[test]
fn channels_come_apart_and_together() {
    let both = [1, 10, 2, 20, 3];
    assert_eq!(deinterleave(&both, false), vec![1, 2, 3]);
    assert_eq!(deinterleave(&both, true), vec![10, 20]);
    assert_eq!(interleave(&[1, 2], &[10, 20]), vec![1, 10, 2, 20]);
    let joined = interleave(&[1, 2], &[10, 20]);
    assert_eq!(deinterleave(&joined, false), vec![1, 2]);
    assert_eq!(deinterleave(&joined, true), vec![10, 20]);
}

#[test]
fn a_chunk_before_the_audio_is_skipped() {
    let plain = wav::write(8_000, 2, &[5, 6, -7, 8]);
    // After the format chunk, an even and an empty one.
    let mut bytes = plain[..36].to_vec();
    bytes.extend_from_slice(b"fact");
    bytes.extend_from_slice(&4u32.to_le_bytes());
    bytes.extend_from_slice(&[1, 2, 3, 4]);
    bytes.extend_from_slice(b"cue ");
    bytes.extend_from_slice(&0u32.to_le_bytes());
    bytes.extend_from_slice(&plain[36..]);
    let audio = read(&bytes).unwrap();
    assert_eq!((audio.sample_rate, audio.channels), (8_000, 2));
    assert_eq!(audio.samples, vec![5, 6, -7, 8]);
}

#[test]
fn a_chunk_after_a_short_format_is_skipped_too() {
    // The format chunk declares no bytes; its fields lie in the chunk after it.
    let plain = wav::write(8_000, 1, &[5, 6]);
    let mut bytes = plain[..16].to_vec();
    bytes.extend_from_slice(&0u32.to_le_bytes());
    let mut body = Vec::new();
    body.extend_from_slice(b"LIST");
    body.extend_from_slice(&8u32.to_le_bytes());
    body.extend_from_slice(&[0, 0, 0, 0, 0, 0, 16, 0]);
    bytes.extend_from_slice(&body);
    let boundary = bytes.len();
    bytes.extend_from_slice(&plain[36..]);
    let before = read(&bytes).unwrap();
    let mut longer = bytes[..boundary].to_vec();
    longer.extend_from_slice(b"cue ");
    longer.extend_from_slice(&1u32.to_le_bytes());
    longer.extend_from_slice(&[7, 0]);
    longer.extend_from_slice(&bytes[boundary..]);
    let after = read(&longer).unwrap();
    assert_eq!(after.samples, vec![5, 6]);
    assert_eq!(after.samples, before.samples);
    assert_eq!(after.sample_rate, before.sample_rate);
    assert_eq!(after.channels, before.channels);
}
