//! Minimal 16-bit PCM WAV reading and writing.
//!
//! Enough to feed the separator and write its stems; the app's own encoder
//! takes over from there. Handles the one format the tools produce.

use vstd::prelude::*;

use crate::bytes::{long_at, u16le, u32le, word_at};

verus! {

/// The audio of a file.
#[derive(Debug)]
pub struct Wav {
    pub sample_rate: u32,
    pub channels: u16,
    /// Interleaved 16-bit samples.
    pub samples: Vec<i16>,
}

/// Why a file was not read.
#[derive(Clone, Copy, Debug, PartialEq, Eq, Structural)]
pub enum WavError {
    /// Not a RIFF/WAVE file.
    NotWave,
    /// Samples of another width than 16 bits: this one.
    UnsupportedBits(u16),
    /// No samples, or no channels.
    NoAudio,
}

/// What a file says up to some chunk.
#[verifier::ext_equal]
pub struct Audio {
    pub sample_rate: u32,
    pub channels: u16,
    pub bits: u16,
    pub samples: Seq<i16>,
}

/// `RIFF`.
pub open spec fn riff_tag() -> Seq<u8> {
    seq![0x52u8, 0x49, 0x46, 0x46]
}

/// `WAVE`.
pub open spec fn wave_tag() -> Seq<u8> {
    seq![0x57u8, 0x41, 0x56, 0x45]
}

/// `fmt `.
pub open spec fn format_tag() -> Seq<u8> {
    seq![0x66u8, 0x6d, 0x74, 0x20]
}

/// `data`.
pub open spec fn data_tag() -> Seq<u8> {
    seq![0x64u8, 0x61, 0x74, 0x61]
}

/// The two's complement 16-bit sample with these bits.
pub open spec fn signed(word: u16) -> i16 {
    if word < 0x8000 {
        word as i16
    } else {
        (word - 0x1_0000) as i16
    }
}

/// The bits of a 16-bit sample.
pub open spec fn unsigned(sample: i16) -> u16 {
    if sample >= 0 {
        sample as u16
    } else {
        (sample + 0x1_0000) as u16
    }
}

/// The samples in `size` bytes from a position; an odd byte at the end is not
/// one.
pub open spec fn samples_at(bytes: Seq<u8>, at: int, size: int) -> Seq<i16> {
    Seq::new((size / 2) as nat, |i: int| signed(word_at(bytes, at + 2 * i)))
}

/// What the file says once the chunks from `cursor` on are read.
///
/// A chunk is a tag, a size and that many bytes, padded to an even count. A
/// format chunk sets the format; a data chunk sets the samples, and is refused
/// unless the format read so far is 16-bit. Any other chunk, and one of these
/// two that is cut short, is passed over.
pub open spec fn scanned(bytes: Seq<u8>, cursor: int, audio: Audio) -> Result<Audio, WavError>
    decreases (if cursor <= bytes.len() { bytes.len() - cursor + 1 } else { 0 }),
{
    if cursor < 0 || cursor + 8 > bytes.len() {
        Ok(audio)
    } else {
        let tag = bytes.subrange(cursor, cursor + 4);
        let size = long_at(bytes, cursor + 4) as int;
        let body = cursor + 8;
        let next = body + size + size % 2;
        if tag == format_tag() && body + 16 <= bytes.len() {
            scanned(
                bytes,
                next,
                Audio {
                    channels: word_at(bytes, body + 2),
                    sample_rate: long_at(bytes, body + 4),
                    bits: word_at(bytes, body + 14),
                    ..audio
                },
            )
        } else if tag == data_tag() && body + size <= bytes.len() {
            if audio.bits != 16 {
                Err(WavError::UnsupportedBits(audio.bits))
            } else {
                scanned(bytes, next, Audio { samples: samples_at(bytes, body, size), ..audio })
            }
        } else {
            scanned(bytes, next, audio)
        }
    }
}

/// The audio of a file before its first chunk.
pub open spec fn nothing_read() -> Audio {
    Audio { sample_rate: 0, channels: 0, bits: 0, samples: Seq::empty() }
}

/// Whether a file is long enough and tagged as RIFF/WAVE.
pub open spec fn is_wave(bytes: Seq<u8>) -> bool {
    &&& bytes.len() >= 44
    &&& bytes.subrange(0, 4) == riff_tag()
    &&& bytes.subrange(8, 12) == wave_tag()
}

/// What reading a file gives.
pub open spec fn parsed(bytes: Seq<u8>) -> Result<Audio, WavError> {
    if !is_wave(bytes) {
        Err(WavError::NotWave)
    } else {
        match scanned(bytes, 12, nothing_read()) {
            Err(error) => Err(error),
            Ok(audio) => if audio.samples.len() == 0 || audio.channels == 0 {
                Err(WavError::NoAudio)
            } else {
                Ok(audio)
            },
        }
    }
}

/// Whether the four bytes at a position are this tag.
fn tagged(bytes: &[u8], at: usize, tag: [u8; 4]) -> (same: bool)
    requires
        at + 4 <= bytes@.len(),
    ensures
        same == (bytes@.subrange(at as int, at + 4) == tag@),
{
    let same = bytes[at] == tag[0] && bytes[at + 1] == tag[1] && bytes[at + 2] == tag[2] && bytes[at
        + 3] == tag[3];
    proof {
        let slice = bytes@.subrange(at as int, at + 4);
        assert(slice[0] == bytes@[at as int] && slice[1] == bytes@[at + 1] && slice[2] == bytes@[at
            + 2] && slice[3] == bytes@[at + 3]);
        if same {
            assert(slice =~= tag@);
        }
    }
    same
}

/// The samples in `size` bytes from a position.
fn decode(bytes: &[u8], at: usize, size: usize) -> (samples: Vec<i16>)
    requires
        at + size <= bytes@.len(),
    ensures
        samples@ == samples_at(bytes@, at as int, size as int),
{
    let count = size / 2;
    let length = bytes.len();
    let mut samples: Vec<i16> = Vec::with_capacity(count);
    let mut index: usize = 0;
    while index < count
        invariant
            count == size / 2,
            at + size <= length,
            length == bytes@.len(),
            index <= count,
            samples@ =~= samples_at(bytes@, at as int, size as int).take(index as int),
        decreases count - index,
    {
        let word = u16le(bytes, at + 2 * index);
        let sample = if word < 0x8000 {
            word as i16
        } else {
            (word as i32 - 0x1_0000) as i16
        };
        samples.push(sample);
        index = index + 1;
    }
    samples
}

/// Reads the bytes of a file.
pub fn read(bytes: &[u8]) -> (wav: Result<Wav, WavError>)
    ensures
        match parsed(bytes@) {
            Ok(audio) => wav matches Ok(wav) && wav.sample_rate == audio.sample_rate
                && wav.channels == audio.channels && wav.samples@ == audio.samples,
            Err(error) => wav matches Err(found) && found == error,
        },
{
    let length = bytes.len();
    if length < 44 {
        return Err(WavError::NotWave);
    }
    if !tagged(bytes, 0, [0x52, 0x49, 0x46, 0x46]) || !tagged(bytes, 8, [0x57, 0x41, 0x56, 0x45]) {
        return Err(WavError::NotWave);
    }
    let mut cursor: usize = 12;
    let mut sample_rate: u32 = 0;
    let mut channels: u16 = 0;
    let mut bits: u16 = 0;
    let mut samples: Vec<i16> = Vec::new();
    while length - cursor >= 8
        invariant
            length == bytes@.len(),
            is_wave(bytes@),
            12 <= cursor <= length,
            scanned(bytes@, cursor as int, Audio { sample_rate, channels, bits, samples: samples@ })
                == scanned(bytes@, 12, nothing_read()),
        decreases length - cursor,
    {
        let size = u32le(bytes, cursor + 4);
        let body = cursor + 8;
        let rest = length - body;
        let size_usize = size as usize;
        if tagged(bytes, cursor, [0x66, 0x6d, 0x74, 0x20]) && rest >= 16 {
            channels = u16le(bytes, body + 2);
            sample_rate = u32le(bytes, body + 4);
            bits = u16le(bytes, body + 14);
        } else if tagged(bytes, cursor, [0x64, 0x61, 0x74, 0x61]) && size_usize <= rest {
            if bits != 16 {
                return Err(WavError::UnsupportedBits(bits));
            }
            samples = decode(bytes, body, size_usize);
        }
        let ghost audio = Audio { sample_rate, channels, bits, samples: samples@ };
        let ghost next = body + size + size % 2;
        proof {
            assert(next > length ==> scanned(bytes@, next, audio) == scanned(
                bytes@,
                length as int,
                audio,
            ));
        }
        // A chunk that reaches past the end is the last one.
        cursor = if rest < size_usize || rest - size_usize < size_usize % 2 {
            length
        } else {
            body + size_usize + size_usize % 2
        };
    }
    if samples.len() == 0 || channels == 0 {
        return Err(WavError::NoAudio);
    }
    Ok(Wav { sample_rate, channels, samples })
}

/// The bytes of a 16-bit number, least significant first.
pub open spec fn word_bytes(value: int) -> Seq<u8> {
    seq![(value % 0x100) as u8, (value / 0x100 % 0x100) as u8]
}

/// The bytes of a 32-bit number, least significant first.
pub open spec fn long_bytes(value: int) -> Seq<u8> {
    seq![
        (value % 0x100) as u8,
        (value / 0x100 % 0x100) as u8,
        (value / 0x1_0000 % 0x100) as u8,
        (value / 0x100_0000 % 0x100) as u8,
    ]
}

/// The bytes of samples, one after another.
pub open spec fn sample_bytes(samples: Seq<i16>) -> Seq<u8> {
    Seq::new(
        2 * samples.len(),
        |i: int| word_bytes(unsigned(samples[i / 2]) as int)[i % 2],
    )
}

/// The size field of the data chunk: twice the sample count, modulo 32 bits.
pub open spec fn payload_of(count: nat) -> int {
    2 * count as int % 0x1_0000_0000
}

/// The 44 bytes before the samples: the RIFF header, a 16-byte PCM format
/// chunk, and the header of the data chunk.
#[verifier::opaque]
pub open spec fn header(sample_rate: u32, channels: u16, payload: int) -> Seq<u8> {
    riff_tag() + long_bytes(36 + payload) + wave_tag() + format_tag() + long_bytes(16)
        + word_bytes(1) + word_bytes(channels as int) + long_bytes(sample_rate as int)
        + long_bytes(sample_rate * channels * 2) + word_bytes(channels * 2) + word_bytes(16)
        + data_tag() + long_bytes(payload)
}

/// The bytes of a file with these samples.
pub open spec fn rendered(sample_rate: u32, channels: u16, samples: Seq<i16>) -> Seq<u8> {
    header(sample_rate, channels, payload_of(samples.len())) + sample_bytes(samples)
}

/// Whether the sizes that a header states fit their fields.
pub open spec fn renderable(sample_rate: u32, channels: u16, count: nat) -> bool {
    &&& 36 + payload_of(count) <= u32::MAX
    &&& sample_rate * channels * 2 <= u32::MAX
    &&& channels * 2 <= u16::MAX
}

fn push_tag(bytes: &mut Vec<u8>, tag: [u8; 4])
    ensures
        final(bytes)@ == old(bytes)@ + tag@,
{
    bytes.push(tag[0]);
    bytes.push(tag[1]);
    bytes.push(tag[2]);
    bytes.push(tag[3]);
    assert(bytes@ =~= old(bytes)@ + tag@);
}

fn push_word(bytes: &mut Vec<u8>, value: u16)
    ensures
        final(bytes)@ == old(bytes)@ + word_bytes(value as int),
{
    bytes.push((value % 0x100) as u8);
    bytes.push((value / 0x100) as u8);
    assert(bytes@ =~= old(bytes)@ + word_bytes(value as int));
}

fn push_long(bytes: &mut Vec<u8>, value: u32)
    ensures
        final(bytes)@ == old(bytes)@ + long_bytes(value as int),
{
    bytes.push((value % 0x100) as u8);
    bytes.push((value / 0x100 % 0x100) as u8);
    bytes.push((value / 0x1_0000 % 0x100) as u8);
    bytes.push((value / 0x100_0000) as u8);
    assert(bytes@ =~= old(bytes)@ + long_bytes(value as int));
}

/// The bytes of a file with these interleaved 16-bit samples.
pub fn write(sample_rate: u32, channels: u16, samples: &[i16]) -> (bytes: Vec<u8>)
    requires
        2 * samples@.len() <= usize::MAX,
        renderable(sample_rate, channels, samples@.len()),
    ensures
        bytes@ == rendered(sample_rate, channels, samples@),
{
    let count = samples.len();
    let payload = ((count as u64 * 2) % 0x1_0000_0000) as u32;
    proof {
        assert(0 <= sample_rate * channels <= sample_rate * channels * 2) by (nonlinear_arith)
            requires
                sample_rate >= 0,
                channels >= 0,
        ;
    }
    let mut bytes: Vec<u8> = Vec::new();
    push_tag(&mut bytes, [0x52, 0x49, 0x46, 0x46]);
    push_long(&mut bytes, 36 + payload);
    push_tag(&mut bytes, [0x57, 0x41, 0x56, 0x45]);
    push_tag(&mut bytes, [0x66, 0x6d, 0x74, 0x20]);
    push_long(&mut bytes, 16);
    push_word(&mut bytes, 1);
    push_word(&mut bytes, channels);
    push_long(&mut bytes, sample_rate);
    push_long(&mut bytes, sample_rate * channels as u32 * 2);
    push_word(&mut bytes, channels * 2);
    push_word(&mut bytes, 16);
    push_tag(&mut bytes, [0x64, 0x61, 0x74, 0x61]);
    push_long(&mut bytes, payload);
    let ghost head = header(sample_rate, channels, payload as int);
    proof {
        reveal(header);
        assert([0x52u8, 0x49, 0x46, 0x46]@ =~= riff_tag());
        assert([0x57u8, 0x41, 0x56, 0x45]@ =~= wave_tag());
        assert([0x66u8, 0x6d, 0x74, 0x20]@ =~= format_tag());
        assert([0x64u8, 0x61, 0x74, 0x61]@ =~= data_tag());
        assert(bytes@ =~= head);
    }
    let mut index: usize = 0;
    while index < count
        invariant
            count == samples@.len(),
            index <= count,
            bytes@ =~= head + sample_bytes(samples@).take(2 * index),
        decreases count - index,
    {
        let sample = samples[index];
        let word = if sample >= 0 {
            sample as u16
        } else {
            (sample as i32 + 0x1_0000) as u16
        };
        push_word(&mut bytes, word);
        proof {
            let done = sample_bytes(samples@);
            assert((2 * index) / 2 == index && (2 * index) % 2 == 0);
            assert((2 * index + 1) / 2 == index && (2 * index + 1) % 2 == 1);
            assert(done.take(2 * (index + 1)) =~= done.take(2 * index as int) + word_bytes(
                word as int,
            ));
        }
        index = index + 1;
    }
    proof {
        assert(sample_bytes(samples@).take(2 * index) =~= sample_bytes(samples@));
    }
    bytes
}

proof fn lemma_word_at(bytes: Seq<u8>, at: int, value: int)
    requires
        0 <= at,
        at + 2 <= bytes.len(),
        0 <= value <= u16::MAX,
        bytes[at] == word_bytes(value)[0],
        bytes[at + 1] == word_bytes(value)[1],
    ensures
        word_at(bytes, at) == value,
{
}

proof fn lemma_long_at(bytes: Seq<u8>, at: int, value: int)
    requires
        0 <= at,
        at + 4 <= bytes.len(),
        0 <= value <= u32::MAX,
        forall|i: int| 0 <= i < 4 ==> #[trigger] bytes[at + i] == long_bytes(value)[i],
    ensures
        long_at(bytes, at) == value,
{
    assert(bytes[at + 0] == long_bytes(value)[0]);
    assert(bytes[at + 1] == long_bytes(value)[1]);
    assert(bytes[at + 2] == long_bytes(value)[2]);
    assert(bytes[at + 3] == long_bytes(value)[3]);
}

#[verifier::rlimit(40)]
proof fn lemma_header_fields(bytes: Seq<u8>, sample_rate: u32, channels: u16, payload: int)
    requires
        bytes.len() >= 44,
        bytes.take(44) == header(sample_rate, channels, payload),
        0 <= payload <= u32::MAX,
    ensures
        is_wave(bytes),
        bytes.subrange(12, 16) == format_tag(),
        long_at(bytes, 16) == 16,
        word_at(bytes, 22) == channels,
        long_at(bytes, 24) == sample_rate,
        word_at(bytes, 34) == 16,
        bytes.subrange(36, 40) == data_tag(),
        long_at(bytes, 40) == payload,
{
    let head = header(sample_rate, channels, payload);
    reveal(header);
    assert forall|i: int| 0 <= i < 44 implies bytes[i] == head[i] by {
        assert(bytes.take(44)[i] == bytes[i]);
    }
    assert(bytes.subrange(0, 4) =~= riff_tag());
    assert(bytes.subrange(8, 12) =~= wave_tag());
    assert(bytes.subrange(12, 16) =~= format_tag());
    assert(bytes.subrange(36, 40) =~= data_tag());
    lemma_long_at(bytes, 16, 16);
    lemma_word_at(bytes, 22, channels as int);
    lemma_long_at(bytes, 24, sample_rate as int);
    lemma_word_at(bytes, 34, 16);
    lemma_long_at(bytes, 40, payload);
}

proof fn lemma_samples_back(bytes: Seq<u8>, at: int, samples: Seq<i16>)
    requires
        0 <= at,
        bytes.len() == at + 2 * samples.len(),
        bytes.skip(at) == sample_bytes(samples),
    ensures
        samples_at(bytes, at, 2 * samples.len() as int) == samples,
{
    let n = samples.len() as int;
    assert forall|i: int| 0 <= i < n implies signed(#[trigger] word_at(bytes, at + 2 * i))
        == samples[i] by {
        assert(bytes[at + 2 * i] == bytes.skip(at)[2 * i]);
        assert(bytes[at + 2 * i + 1] == bytes.skip(at)[2 * i + 1]);
        assert((2 * i) / 2 == i && (2 * i) % 2 == 0 && (2 * i + 1) / 2 == i && (2 * i + 1) % 2
            == 1);
        lemma_word_at(bytes, at + 2 * i, unsigned(samples[i]) as int);
    }
    assert(samples_at(bytes, at, 2 * n) =~= samples);
}

proof fn lemma_two_chunks(bytes: Seq<u8>, sample_rate: u32, channels: u16, samples: Seq<i16>)
    requires
        bytes.len() == 44 + 2 * samples.len(),
        bytes.subrange(12, 16) == format_tag(),
        long_at(bytes, 16) == 16,
        word_at(bytes, 22) == channels,
        long_at(bytes, 24) == sample_rate,
        word_at(bytes, 34) == 16,
        bytes.subrange(36, 40) == data_tag(),
        long_at(bytes, 40) == 2 * samples.len(),
        samples_at(bytes, 44, 2 * samples.len() as int) == samples,
    ensures
        scanned(bytes, 12, nothing_read()) == Ok::<Audio, WavError>(
            Audio { sample_rate, channels, bits: 16, samples },
        ),
{
    let n = samples.len() as int;
    let formatted = Audio { sample_rate, channels, bits: 16, samples: Seq::empty() };
    let complete = Audio { sample_rate, channels, bits: 16, samples };
    assert(scanned(bytes, 44 + 2 * n, complete) == Ok::<Audio, WavError>(complete));
    assert(data_tag()[0] != format_tag()[0]);
    assert(scanned(bytes, 36, formatted) == scanned(bytes, 44 + 2 * n, complete));
    assert(scanned(bytes, 12, nothing_read()) == scanned(bytes, 36, formatted));
}

/// Reading gives back what was written: the rate, the channels and every
/// sample, for audio that is not empty and whose size fits the header.
#[verifier::rlimit(40)]
pub proof fn law_read_gives_back_what_was_written(
    sample_rate: u32,
    channels: u16,
    samples: Seq<i16>,
)
    requires
        36 + 2 * samples.len() <= u32::MAX,
        renderable(sample_rate, channels, samples.len()),
        samples.len() > 0,
        channels > 0,
    ensures
        parsed(rendered(sample_rate, channels, samples)) == Ok::<Audio, WavError>(
            Audio { sample_rate, channels, bits: 16, samples },
        ),
{
    let bytes = rendered(sample_rate, channels, samples);
    let n = samples.len() as int;
    let head = header(sample_rate, channels, 2 * n);
    assert(head.len() == 44) by {
        reveal(header);
    }
    assert(bytes.take(44) =~= head);
    assert(bytes.skip(44) =~= sample_bytes(samples));
    lemma_header_fields(bytes, sample_rate, channels, 2 * n);
    lemma_samples_back(bytes, 44, samples);
    lemma_two_chunks(bytes, sample_rate, channels, samples);
}

/// The samples of one channel of an interleaved pair.
pub open spec fn channel_of<T>(samples: Seq<T>, first: int) -> Seq<T> {
    Seq::new(((samples.len() - first + 1) / 2) as nat, |i: int| samples[2 * i + first])
}

/// Two channels frame by frame, as long as both last.
pub open spec fn interleaving<T>(left: Seq<T>, right: Seq<T>) -> Seq<T> {
    let frames = if left.len() < right.len() {
        left.len()
    } else {
        right.len()
    };
    Seq::new(
        2 * frames,
        |i: int|
            if i % 2 == 0 {
                left[i / 2]
            } else {
                right[i / 2]
            },
    )
}

/// Every other sample: from the first for the left channel, from the second
/// for the right one.
pub fn deinterleave<T: Copy>(samples: &[T], right: bool) -> (channel: Vec<T>)
    ensures
        channel@ == channel_of(
            samples@,
            if right {
                1
            } else {
                0
            },
        ),
{
    let mut channel: Vec<T> = Vec::new();
    let count = samples.len();
    if count == 0 {
        return channel;
    }
    let first: usize = if right {
        1
    } else {
        0
    };
    let frames = (count - first) / 2 + (count - first) % 2;
    let mut index: usize = 0;
    while index < frames
        invariant
            count == samples@.len(),
            first <= 1,
            frames == (count - first) / 2 + (count - first) % 2,
            index <= frames,
            channel@ =~= channel_of(samples@, first as int).take(index as int),
        decreases frames - index,
    {
        channel.push(samples[2 * index + first]);
        index = index + 1;
    }
    assert(channel_of(samples@, first as int).take(index as int) =~= channel_of(
        samples@,
        first as int,
    ));
    channel
}

/// Two channels frame by frame, as long as both last.
pub fn interleave<T: Copy>(left: &[T], right: &[T]) -> (samples: Vec<T>)
    ensures
        samples@ == interleaving(left@, right@),
{
    let frames = if left.len() < right.len() {
        left.len()
    } else {
        right.len()
    };
    let mut samples: Vec<T> = Vec::new();
    let mut index: usize = 0;
    while index < frames
        invariant
            frames <= left@.len(),
            frames <= right@.len(),
            index <= frames,
            interleaving(left@, right@).len() == 2 * frames,
            samples@ =~= interleaving(left@, right@).take(2 * index),
        decreases frames - index,
    {
        samples.push(left[index]);
        samples.push(right[index]);
        index = index + 1;
    }
    assert(interleaving(left@, right@).take(2 * index) =~= interleaving(left@, right@));
    samples
}

/// Taking an interleaved pair apart gives back the two channels.
pub proof fn law_deinterleaving_undoes_interleaving<T>(left: Seq<T>, right: Seq<T>)
    requires
        left.len() == right.len(),
    ensures
        channel_of(interleaving(left, right), 0) == left,
        channel_of(interleaving(left, right), 1) == right,
{
    let both = interleaving(left, right);
    assert(channel_of(both, 0) =~= left);
    assert(channel_of(both, 1) =~= right);
}

} // verus!
