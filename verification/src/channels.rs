//! Which channel of a track goes where: into the model, out of it, and into
//! the stems.

use vstd::prelude::*;

use crate::arithmetic::Arithmetic;
use crate::fields::{field, lemma_count, lemma_root};
use crate::index::{at2, at3, at4, lemma_split2};
use crate::model::HtDemucs;
use crate::separate::{
    cut, lemma_read_by_rows, plane_of, real_plane, segment_row, waveform_of, BINS, FRAMES, PLANE,
    SEGMENT,
};
use crate::tensor::{position, Grid};

verus! {

/// Row-major positions of three coordinates.
proof fn lemma_position3(shape: Seq<usize>, index: Seq<usize>)
    requires
        shape.len() == 3,
        index.len() == 3,
    ensures
        position(shape, index) == (index[0] * shape[1] + index[1]) * shape[2] + index[2],
{
    reveal_with_fuel(position, 4);
    let (s, i) = (shape.drop_last(), index.drop_last());
    assert(s.last() == shape[1] && i.last() == index[1]);
    let (s1, i1) = (s.drop_last(), i.drop_last());
    assert(s1.last() == shape[0] && i1.last() == index[0]);
    assert(position(s1, i1) == 0 * s1.last() + index[0]);
    assert(0 * s1.last() == 0);
}

/// The channels of a segment keep their rows: entry `[0, 0, i]` of the waveform
/// that the model takes is sample `i` of the left channel, and entry
/// `[0, 1, i]` is sample `i` of the right.
pub proof fn law_channels_keep_their_rows<A: Arithmetic>(
    left: Seq<A::Real>,
    right: Seq<A::Real>,
    i: usize,
)
    requires
        left.len() == SEGMENT,
        right.len() == SEGMENT,
        i < SEGMENT,
    ensures
        waveform_of::<A>(left, right).shape == seq![1usize, 2, SEGMENT],
        waveform_of::<A>(left, right).data.len() == 2 * SEGMENT,
        waveform_of::<A>(left, right).data[position(
            seq![1usize, 2, SEGMENT],
            seq![0usize, 0, i],
        ) as int] == left[i as int],
        waveform_of::<A>(left, right).data[position(
            seq![1usize, 2, SEGMENT],
            seq![0usize, 1, i],
        ) as int] == right[i as int],
{
    lemma_position3(seq![1usize, 2, SEGMENT], seq![0usize, 0, i]);
    lemma_position3(seq![1usize, 2, SEGMENT], seq![0usize, 1, i]);
}

/// The two channels of a segment are told apart: segments with the same
/// waveform are the same on the left and the same on the right.
pub proof fn law_waveforms_tell_channels_apart<A: Arithmetic>(
    left: Seq<A::Real>,
    right: Seq<A::Real>,
    other_left: Seq<A::Real>,
    other_right: Seq<A::Real>,
)
    requires
        left.len() == SEGMENT,
        right.len() == SEGMENT,
        other_left.len() == SEGMENT,
        other_right.len() == SEGMENT,
        waveform_of::<A>(left, right) == waveform_of::<A>(other_left, other_right),
    ensures
        left == other_left,
        right == other_right,
{
    assert forall|i: int| 0 <= i < SEGMENT implies #[trigger] left[i] == other_left[i] && right[i]
        == other_right[i] by {
        law_channels_keep_their_rows::<A>(left, right, i as usize);
        law_channels_keep_their_rows::<A>(other_left, other_right, i as usize);
    }
    assert(left =~= other_left);
    assert forall|i: int| 0 <= i < SEGMENT implies #[trigger] right[i] == other_right[i] by {
        assert(left[i] == other_left[i]);
    }
    assert(right =~= other_right);
}

/// A cut reads the channel in place: sample `p` of the segment that starts at
/// `offset` is sample `offset + p` of the channel, and zero past the end of the
/// track. So two cuts agree wherever they overlap.
pub proof fn law_cuts_read_in_place<A: Arithmetic>(
    channel: Seq<A::Real>,
    total: int,
    offset: int,
    other: int,
    p: int,
    q: int,
)
    requires
        0 <= p < SEGMENT,
        0 <= q < SEGMENT,
        offset + p == other + q,
    ensures
        cut::<A>(channel, total, offset).len() == SEGMENT,
        cut::<A>(channel, total, offset)[p] == cut::<A>(channel, total, other)[q],
        offset + p < total ==> cut::<A>(channel, total, offset)[p] == channel[offset + p],
        offset + p >= total ==> cut::<A>(channel, total, offset)[p] == A::zero_spec(),
{
}

/// One segment of a stem's channel, sample by sample. The model hears the left
/// channel in row 0 and the right in row 1, and sees the four spectral planes
/// in order. Of what it gives, the stem's channel is row `2 * stem + channel` of
/// the time branch, plus what the transform makes of planes
/// `4 * stem + 2 * channel` and the next, times a factor whose square is the
/// number of points of the transform.
pub proof fn law_branches_of_a_stem_are_summed<A: Arithmetic>(
    model: HtDemucs<A>,
    forward: spec_fn(Seq<A::Real>, Seq<A::Real>) -> Seq<A::Real>,
    inverse: spec_fn(Seq<A::Real>, Seq<A::Real>) -> Seq<A::Real>,
    left: Seq<A::Real>,
    right: Seq<A::Real>,
    magnitude: Grid<A::Real>,
    waveform: Grid<A::Real>,
    stem: int,
    channel: int,
    reals: Seq<A::Real>,
    imaginaries: Seq<A::Real>,
    p: int,
) -> (factor: A::Real)
    requires
        field::<A>(),
        0 <= stem < 4,
        0 <= channel < 2,
        0 <= p < SEGMENT,
        left.len() == SEGMENT,
        right.len() == SEGMENT,
        forward(left, right).len() == 4 * PLANE,
        magnitude.shape == seq![1usize, 4, BINS, FRAMES],
        magnitude.data.len() == 4 * PLANE,
        waveform.shape == seq![1usize, 2, SEGMENT],
        waveform.data.len() == 2 * SEGMENT,
        forall|c: int, r: int|
            0 <= c < 4 && 0 <= r < PLANE ==> #[trigger] at2(magnitude.data, PLANE as int, c, r)
                == forward(left, right)[c * PLANE + r],
        forall|i: int|
            0 <= i < SEGMENT ==> #[trigger] at3(waveform.data, 2, SEGMENT as int, 0, 0, i)
                == left[i],
        forall|i: int|
            0 <= i < SEGMENT ==> #[trigger] at3(waveform.data, 2, SEGMENT as int, 0, 1, i)
                == right[i],
        16 * PLANE <= model.output(magnitude, waveform).0.data.len(),
        8 * SEGMENT <= model.output(magnitude, waveform).1.data.len(),
        reals.len() == PLANE,
        imaginaries.len() == PLANE,
        forall|f: int, t: int|
            0 <= f < BINS && 0 <= t < FRAMES ==> #[trigger] at2(reals, FRAMES as int, f, t) == at4(
                model.output(magnitude, waveform).0.data,
                16,
                BINS as int,
                FRAMES as int,
                0,
                4 * stem + 2 * channel,
                f,
                t,
            ),
        forall|f: int, t: int|
            0 <= f < BINS && 0 <= t < FRAMES ==> #[trigger] at2(imaginaries, FRAMES as int, f, t)
                == at4(
                model.output(magnitude, waveform).0.data,
                16,
                BINS as int,
                FRAMES as int,
                0,
                4 * stem + 2 * channel + 1,
                f,
                t,
            ),
    ensures
        A::exceeds_spec(factor, A::zero_spec()),
        A::times_spec(factor, factor) == A::from_count_spec(4_096),
        segment_row::<A>(model, forward, inverse, left, right, 2 * stem + channel)[p]
            == A::plus_spec(
            at3(
                model.output(magnitude, waveform).1.data,
                8,
                SEGMENT as int,
                0,
                2 * stem + channel,
                p,
            ),
            A::times_spec(inverse(reals, imaginaries)[p], factor),
        ),
{
    lemma_read_by_rows::<A>(forward(left, right), left, right, magnitude, waveform);
    let (frequency, time) = model.output(magnitude, waveform);
    let row = 2 * stem + channel;
    assert(row / 2 == stem && row % 2 == channel);
    let plane = real_plane(stem, channel);
    assert(plane == 4 * stem + 2 * channel);
    lemma_plane(frequency.data, plane, reals);
    lemma_plane(frequency.data, plane + 1, imaginaries);
    let factor = A::square_root_spec(A::from_count_spec(4_096));
    lemma_count::<A>(4_096);
    lemma_root::<A>(A::from_count_spec(4_096));
    factor
}

/// A plane is fixed by its entries.
proof fn lemma_plane<R>(frequency: Seq<R>, plane: int, entries: Seq<R>)
    requires
        0 <= plane < 16,
        16 * PLANE <= frequency.len(),
        entries.len() == PLANE,
        forall|f: int, t: int|
            0 <= f < BINS && 0 <= t < FRAMES ==> #[trigger] at2(entries, FRAMES as int, f, t)
                == at4(frequency, 16, BINS as int, FRAMES as int, 0, plane, f, t),
    ensures
        plane_of(frequency, plane) == entries,
{
    let taken = plane_of(frequency, plane);
    assert forall|p: int| 0 <= p < PLANE implies #[trigger] taken[p] == entries[p] by {
        lemma_split2(BINS as int, FRAMES as int, p);
        let (f, t) = (p / FRAMES as int, p % FRAMES as int);
        assert(at2(entries, FRAMES as int, f, t) == at4(
            frequency,
            16,
            BINS as int,
            FRAMES as int,
            0,
            plane,
            f,
            t,
        ));
        assert(((0 * 16 + plane) * BINS + f) * FRAMES + t == plane * PLANE + p);
    }
    assert(taken =~= entries);
}

} // verus!
