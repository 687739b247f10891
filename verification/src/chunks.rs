//! Chunks that a WAV file may hold beside its format and its data.

use vstd::prelude::*;

use crate::bytes::{long_at, word_at};
use crate::wav::{
    data_tag, format_tag, is_wave, nothing_read, parsed, samples_at, scanned, Audio,
};

verus! {

/// Whether reading from `cursor` on comes to a chunk boundary at `at`, and the
/// sixteen bytes that are read of each format chunk before it end there.
pub open spec fn comes_to(bytes: Seq<u8>, cursor: int, at: int) -> bool
    decreases (if cursor <= at { at - cursor + 1 } else { 0 }),
{
    if cursor >= at {
        cursor == at
    } else {
        let size = long_at(bytes, cursor + 4) as int;
        &&& 0 <= cursor
        &&& cursor + 8 <= at <= bytes.len()
        &&& bytes.subrange(cursor, cursor + 4) == format_tag() ==> cursor + 24 <= at
        &&& comes_to(bytes, cursor + 8 + size + size % 2, at)
    }
}

/// A whole chunk, padded to an even count, that is neither format nor data.
pub open spec fn is_other_chunk(chunk: Seq<u8>) -> bool {
    &&& chunk.len() >= 8
    &&& chunk.subrange(0, 4) != format_tag()
    &&& chunk.subrange(0, 4) != data_tag()
    &&& chunk.len() == 8 + long_at(chunk, 4) + long_at(chunk, 4) % 2
}

/// The bytes of a file with others inserted at a position.
pub open spec fn with_inserted(bytes: Seq<u8>, at: int, chunk: Seq<u8>) -> Seq<u8> {
    bytes.take(at) + chunk + bytes.skip(at)
}

/// Nothing that is read moves on its own: past the insertion, reading goes on
/// as it did.
proof fn lemma_scanned_behind(bytes: Seq<u8>, at: int, chunk: Seq<u8>, cursor: int, audio: Audio)
    requires
        0 <= at <= bytes.len(),
        at <= cursor,
    ensures
        scanned(with_inserted(bytes, at, chunk), cursor + chunk.len(), audio) == scanned(
            bytes,
            cursor,
            audio,
        ),
    decreases (if cursor <= bytes.len() { bytes.len() - cursor + 1 } else { 0 }),
{
    let longer = with_inserted(bytes, at, chunk);
    let shifted = cursor + chunk.len();
    if cursor + 8 <= bytes.len() {
        assert forall|i: int| at <= i < bytes.len() implies longer[#[trigger] (i + chunk.len())]
            == bytes[i] by {}
        assert(longer.subrange(shifted, shifted + 4) =~= bytes.subrange(cursor, cursor + 4)) by {
            assert forall|k: int| 0 <= k < 4 implies longer[shifted + k] == #[trigger] bytes[cursor
                + k] by {
                assert(longer[(cursor + k) + chunk.len()] == bytes[cursor + k]);
            }
        }
        lemma_numbers_behind(bytes, at, chunk, cursor + 4);
        let size = long_at(bytes, cursor + 4) as int;
        let body = cursor + 8;
        let next = body + size + size % 2;
        if body + 16 <= bytes.len() {
            lemma_numbers_behind(bytes, at, chunk, body + 2);
            lemma_numbers_behind(bytes, at, chunk, body + 4);
            lemma_numbers_behind(bytes, at, chunk, body + 14);
        }
        let formatted = Audio {
            channels: word_at(bytes, body + 2),
            sample_rate: long_at(bytes, body + 4),
            bits: word_at(bytes, body + 14),
            ..audio
        };
        let filled = Audio { samples: samples_at(bytes, body, size), ..audio };
        if body + size <= bytes.len() {
            assert(samples_at(longer, body + chunk.len(), size) =~= samples_at(bytes, body, size))
                by {
                assert forall|i: int| 0 <= i < size / 2 implies #[trigger] samples_at(
                    longer,
                    body + chunk.len(),
                    size,
                )[i] == samples_at(bytes, body, size)[i] by {
                    lemma_numbers_behind(bytes, at, chunk, body + 2 * i);
                }
            }
        }
        lemma_scanned_behind(bytes, at, chunk, next, formatted);
        lemma_scanned_behind(bytes, at, chunk, next, filled);
        lemma_scanned_behind(bytes, at, chunk, next, audio);
    }
}

/// Numbers past the insertion read as they did.
proof fn lemma_numbers_behind(bytes: Seq<u8>, at: int, chunk: Seq<u8>, place: int)
    requires
        0 <= at <= place,
        at <= bytes.len(),
    ensures
        place + 2 <= bytes.len() ==> word_at(
            with_inserted(bytes, at, chunk),
            place + chunk.len(),
        ) == word_at(bytes, place),
        place + 4 <= bytes.len() ==> long_at(
            with_inserted(bytes, at, chunk),
            place + chunk.len(),
        ) == long_at(bytes, place),
{
    let longer = with_inserted(bytes, at, chunk);
    let n = chunk.len();
    assert forall|k: int| 0 <= k < 4 && place + k < bytes.len() implies longer[place + n + k]
        == #[trigger] bytes[place + k] by {}
}

proof fn lemma_scanned_around(bytes: Seq<u8>, at: int, chunk: Seq<u8>, cursor: int, audio: Audio)
    requires
        0 <= cursor,
        at <= bytes.len(),
        comes_to(bytes, cursor, at),
        is_other_chunk(chunk),
    ensures
        scanned(with_inserted(bytes, at, chunk), cursor, audio) == scanned(bytes, cursor, audio),
    decreases at - cursor,
{
    let longer = with_inserted(bytes, at, chunk);
    if cursor == at {
        assert(longer.subrange(at, at + 4) =~= chunk.subrange(0, 4));
        assert forall|k: int| 0 <= k < chunk.len() implies longer[at + k]
            == #[trigger] chunk[k] by {}
        assert(long_at(longer, at + 4) == long_at(chunk, 4)) by {
            assert(longer[at + 4] == chunk[4] && longer[at + 5] == chunk[5] && longer[at + 6]
                == chunk[6] && longer[at + 7] == chunk[7]);
        }
        lemma_scanned_behind(bytes, at, chunk, at, audio);
    } else {
        let size = long_at(bytes, cursor + 4) as int;
        let body = cursor + 8;
        let next = body + size + size % 2;
        assert(next <= at) by {
            reveal_with_fuel(comes_to, 2);
        }
        assert forall|i: int| 0 <= i < at implies longer[i] == #[trigger] bytes[i] by {}
        assert(longer.subrange(cursor, cursor + 4) =~= bytes.subrange(cursor, cursor + 4));
        let formatted = Audio {
            channels: word_at(bytes, body + 2),
            sample_rate: long_at(bytes, body + 4),
            bits: word_at(bytes, body + 14),
            ..audio
        };
        let filled = Audio { samples: samples_at(bytes, body, size), ..audio };
        assert(samples_at(longer, body, size) =~= samples_at(bytes, body, size));
        lemma_scanned_around(bytes, at, chunk, next, formatted);
        lemma_scanned_around(bytes, at, chunk, next, filled);
        lemma_scanned_around(bytes, at, chunk, next, audio);
    }
}

/// Unknown chunks are skipped: a file reads alike with one more chunk inserted
/// at a chunk boundary, odd sizes padded to even, unless a format chunk before
/// it is too short to hold a format and was read past that boundary.
pub proof fn law_unknown_chunks_are_skipped(bytes: Seq<u8>, at: int, chunk: Seq<u8>)
    requires
        is_wave(bytes),
        12 <= at <= bytes.len(),
        comes_to(bytes, 12, at),
        is_other_chunk(chunk),
    ensures
        parsed(with_inserted(bytes, at, chunk)) == parsed(bytes),
{
    let longer = with_inserted(bytes, at, chunk);
    assert(longer.subrange(0, 4) =~= bytes.subrange(0, 4));
    assert(longer.subrange(8, 12) =~= bytes.subrange(8, 12));
    lemma_scanned_around(bytes, at, chunk, 12, nothing_read());
}

} // verus!
