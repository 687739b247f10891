//! The bytes of a written file, one by one.

use vstd::prelude::*;

use crate::wav::{header, rendered};

verus! {

/// A number in two bytes, the least significant first.
pub open spec fn two_bytes(bytes: Seq<u8>, at: int) -> int {
    bytes[at] + 256 * bytes[at + 1]
}

/// A number in four bytes, the least significant first.
pub open spec fn four_bytes(bytes: Seq<u8>, at: int) -> int {
    bytes[at] + 256 * (bytes[at + 1] + 256 * (bytes[at + 2] + 256 * bytes[at + 3]))
}

/// Samples are written from byte 44 on, two bytes each, the least significant
/// first, in two's complement: the high byte's top bit takes 65536 off.
pub proof fn law_samples_are_written_in_twos_complement(
    sample_rate: u32,
    channels: u16,
    samples: Seq<i16>,
    i: int,
)
    requires
        0 <= i < samples.len(),
    ensures
        ({
            let bytes = rendered(sample_rate, channels, samples);
            &&& bytes.len() == 44 + 2 * samples.len()
            &&& samples[i] == two_bytes(bytes, 44 + 2 * i) - (if bytes[45 + 2 * i] >= 128 {
                65_536int
            } else {
                0
            })
        }),
{
    reveal(header);
    assert((2 * i) / 2 == i && (2 * i) % 2 == 0 && (2 * i + 1) / 2 == i && (2 * i + 1) % 2 == 1);
    let value = if samples[i] >= 0 {
        samples[i] as int
    } else {
        samples[i] + 65_536
    };
    assert(value == value % 256 + 256 * (value / 256));
    assert(0 <= value / 256 < 256);
}

/// A written file says what it holds: the sizes of what follows them, one for
/// plain samples, the channels, the frames per second, the bytes per second,
/// the bytes per frame and the bits per sample.
pub proof fn law_headers_say_what_follows(sample_rate: u32, channels: u16, samples: Seq<i16>)
    requires
        36 + 2 * samples.len() <= u32::MAX,
        sample_rate * channels * 2 <= u32::MAX,
        channels * 2 <= u16::MAX,
    ensures
        ({
            let bytes = rendered(sample_rate, channels, samples);
            &&& four_bytes(bytes, 4) == bytes.len() - 8
            &&& four_bytes(bytes, 16) == 16
            &&& two_bytes(bytes, 20) == 1
            &&& two_bytes(bytes, 22) == channels
            &&& four_bytes(bytes, 24) == sample_rate
            &&& four_bytes(bytes, 28) == sample_rate * (channels * 2)
            &&& two_bytes(bytes, 32) == channels * 2
            &&& two_bytes(bytes, 34) == 16
            &&& four_bytes(bytes, 40) == bytes.len() - 44
        }),
{
    reveal(header);
    let payload = 2 * samples.len() as int;
    assert(payload % 0x1_0000_0000 == payload);
    let rate = sample_rate * channels * 2;
    assert(0 <= sample_rate * channels) by (nonlinear_arith)
        requires
            sample_rate >= 0,
            channels >= 0,
    ;
    assert(sample_rate * (channels * 2) == rate) by (nonlinear_arith)
        requires
            rate == sample_rate * channels * 2,
    ;
    lemma_four(36 + payload);
    lemma_four(sample_rate as int);
    lemma_four(rate);
    lemma_four(payload);
}

/// A number below two to the 32 is put together from its bytes.
proof fn lemma_four(value: int)
    requires
        0 <= value <= u32::MAX,
    ensures
        value == value % 256 + 256 * (value / 256 % 256 + 256 * (value / 65_536 % 256 + 256 * (value
            / 16_777_216 % 256))),
{
    assert(value / 65_536 == value / 256 / 256);
    assert(value / 16_777_216 == value / 256 / 256 / 256);
}

} // verus!
