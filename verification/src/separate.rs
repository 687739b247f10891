//! Separating a whole track into four stems.
//!
//! The model works on one 7.8-second segment. A track is cut into overlapping
//! segments with the pinned plan, each is separated, and the results are sewn
//! back with the triangular overlap-add seam.
//!
//! The Fourier transform is the caller's. For each segment the caller takes
//! the cut from [`Separation::next_segment`], transforms it, runs
//! [`analyse`], inverts the eight spectra that [`spectrum`] reads out, and
//! hands them to [`Separation::absorb`].

use vstd::prelude::*;
use vstd::slice::slice_subrange;

use crate::arithmetic::{lawful, Arithmetic};
use crate::demucs::{
    law_starts_cover_the_track, normalised_triangle, starts, triangular_weight, ChunkPlan, Geometry,
};
use crate::index::{at2, at3, lemma_split2};
use crate::model::HtDemucs;
use crate::seam::{
    added, in_step, law_streaming_equals_batch, law_streaming_reaches_its_boundary, lemma_lengths,
    lemma_mix_ends, lemma_mix_reaches, mixed, samples, silence, streamed, OverlapAdd, Part,
};
use crate::tensor::{lemma_rank3, lemma_rank4, span, volume, Grid, Tensor};

verus! {

/// Frames in one segment of the shipped plan.
pub const SEGMENT: usize = 343_980;

/// New frames that each segment of the shipped plan owns.
pub const STRIDE: usize = 257_985;

/// Frequency bins of the shipped geometry.
pub const BINS: usize = 2_048;

/// Spectral frames of the shipped geometry.
pub const FRAMES: usize = 336;

/// Points of the shipped geometry's Fourier transform.
pub const FFT_SIZE: usize = 4_096;

/// Entries of one spectral plane.
pub const PLANE: usize = 688_128;

/// One segment of a channel of `total` samples: the samples from `offset` on,
/// and zeros past the end.
pub open spec fn cut<A: Arithmetic>(channel: Seq<A::Real>, total: int, offset: int) -> Seq<
    A::Real,
> {
    Seq::new(
        SEGMENT as nat,
        |p: int|
            if offset + p < total {
                channel[offset + p]
            } else {
                A::zero_spec()
            },
    )
}

fn cut_segment<A: Arithmetic>(channel: &[A::Real], total: usize, offset: usize) -> (segment: Vec<
    A::Real,
>)
    requires
        lawful::<A>(),
        total <= channel@.len(),
        offset <= total,
    ensures
        segment@ == cut::<A>(channel@, total as int, offset as int),
{
    let mut segment: Vec<A::Real> = Vec::with_capacity(SEGMENT);
    while segment.len() < SEGMENT
        invariant
            lawful::<A>(),
            total <= channel@.len(),
            offset <= total,
            segment@.len() <= SEGMENT,
            forall|p: int|
                0 <= p < segment@.len() ==> #[trigger] segment@[p] == if offset + p < total {
                    channel@[offset + p]
                } else {
                    A::zero_spec()
                },
        decreases SEGMENT - segment@.len(),
    {
        let place = segment.len();
        if place < total - offset {
            segment.push(channel[offset + place]);
        } else {
            segment.push(A::zero());
        }
    }
    proof {
        assert(segment@ =~= cut::<A>(channel@, total as int, offset as int));
    }
    segment
}

/// The spectrogram of a segment as the model takes it.
pub open spec fn magnitude_of<A: Arithmetic>(planes: Seq<A::Real>) -> Grid<A::Real> {
    Grid { shape: seq![1, 4, BINS, FRAMES], data: planes }
}

/// The waveform of a segment as the model takes it: left, then right.
pub open spec fn waveform_of<A: Arithmetic>(left: Seq<A::Real>, right: Seq<A::Real>) -> Grid<
    A::Real,
> {
    Grid { shape: seq![1, 2, SEGMENT], data: left + right }
}

/// What a model takes of a segment is fixed by its entries.
pub proof fn lemma_read_by_rows<A: Arithmetic>(
    planes: Seq<A::Real>,
    left: Seq<A::Real>,
    right: Seq<A::Real>,
    magnitude: Grid<A::Real>,
    waveform: Grid<A::Real>,
)
    requires
        planes.len() == 4 * PLANE,
        left.len() == SEGMENT,
        right.len() == SEGMENT,
        magnitude.shape == seq![1usize, 4, BINS, FRAMES],
        magnitude.data.len() == 4 * PLANE,
        waveform.shape == seq![1usize, 2, SEGMENT],
        waveform.data.len() == 2 * SEGMENT,
        forall|c: int, r: int|
            0 <= c < 4 && 0 <= r < PLANE ==> #[trigger] at2(magnitude.data, PLANE as int, c, r)
                == planes[c * PLANE + r],
        forall|i: int|
            0 <= i < SEGMENT ==> #[trigger] at3(waveform.data, 2, SEGMENT as int, 0, 0, i)
                == left[i],
        forall|i: int|
            0 <= i < SEGMENT ==> #[trigger] at3(waveform.data, 2, SEGMENT as int, 0, 1, i)
                == right[i],
    ensures
        magnitude_of::<A>(planes) == magnitude,
        waveform_of::<A>(left, right) == waveform,
{
    let (taken, heard) = (magnitude_of::<A>(planes), waveform_of::<A>(left, right));
    assert forall|p: int| 0 <= p < planes.len() implies #[trigger] taken.data[p]
        == magnitude.data[p] by {
        lemma_split2(4, PLANE as int, p);
        assert(at2(magnitude.data, PLANE as int, p / PLANE as int, p % PLANE as int) == planes[p]);
    }
    assert(taken.data =~= magnitude.data);
    assert forall|p: int| 0 <= p < 2 * SEGMENT implies #[trigger] heard.data[p]
        == waveform.data[p] by {
        if p < SEGMENT {
            assert(at3(waveform.data, 2, SEGMENT as int, 0, 0, p) == left[p]);
        } else {
            assert(at3(waveform.data, 2, SEGMENT as int, 0, 1, p - SEGMENT) == right[p - SEGMENT]);
        }
    }
    assert(heard.data =~= waveform.data);
}

/// Runs the model on one segment, given its four spectral planes.
pub fn analyse<A: Arithmetic>(
    model: &HtDemucs<A>,
    planes: Vec<A::Real>,
    left: &[A::Real],
    right: &[A::Real],
) -> (out: (Tensor<A::Real>, Tensor<A::Real>))
    requires
        lawful::<A>(),
        planes@.len() == 4 * PLANE,
        left@.len() == SEGMENT,
        right@.len() == SEGMENT,
        model.admits(seq![1, 4, BINS, FRAMES], seq![1, 2, SEGMENT]),
    ensures
        (out.0@, out.1@) == model.output(
            magnitude_of::<A>(planes@),
            waveform_of::<A>(left@, right@),
        ),
        (out.0@.shape, out.1@.shape) == model.out_shapes(
            seq![1, 4, BINS, FRAMES],
            seq![1, 2, SEGMENT],
        ),
        out.0.wf(),
        out.1.wf(),
        forall|magnitude: Grid<A::Real>, waveform: Grid<A::Real>|
            {
                &&& magnitude.shape == seq![1usize, 4, BINS, FRAMES]
                &&& magnitude.data.len() == 4 * PLANE
                &&& waveform.shape == seq![1usize, 2, SEGMENT]
                &&& waveform.data.len() == 2 * SEGMENT
                &&& forall|c: int, r: int|
                    0 <= c < 4 && 0 <= r < PLANE ==> #[trigger] at2(
                        magnitude.data,
                        PLANE as int,
                        c,
                        r,
                    ) == planes@[c * PLANE + r]
                &&& forall|i: int|
                    0 <= i < SEGMENT ==> #[trigger] at3(
                        waveform.data,
                        2,
                        SEGMENT as int,
                        0,
                        0,
                        i,
                    ) == left@[i]
                &&& forall|i: int|
                    0 <= i < SEGMENT ==> #[trigger] at3(
                        waveform.data,
                        2,
                        SEGMENT as int,
                        0,
                        1,
                        i,
                    ) == right@[i]
            } ==> (out.0@, out.1@) == #[trigger] model.output(magnitude, waveform),
{
    proof {
        assert forall|magnitude: Grid<A::Real>, waveform: Grid<A::Real>|
            {
                &&& magnitude.shape == seq![1usize, 4, BINS, FRAMES]
                &&& magnitude.data.len() == 4 * PLANE
                &&& waveform.shape == seq![1usize, 2, SEGMENT]
                &&& waveform.data.len() == 2 * SEGMENT
                &&& forall|c: int, r: int|
                    0 <= c < 4 && 0 <= r < PLANE ==> #[trigger] at2(
                        magnitude.data,
                        PLANE as int,
                        c,
                        r,
                    ) == planes@[c * PLANE + r]
                &&& forall|i: int|
                    0 <= i < SEGMENT ==> #[trigger] at3(
                        waveform.data,
                        2,
                        SEGMENT as int,
                        0,
                        0,
                        i,
                    ) == left@[i]
                &&& forall|i: int|
                    0 <= i < SEGMENT ==> #[trigger] at3(
                        waveform.data,
                        2,
                        SEGMENT as int,
                        0,
                        1,
                        i,
                    ) == right@[i]
            } implies magnitude_of::<A>(planes@) == magnitude && waveform_of::<A>(left@, right@)
            == waveform && #[trigger] model.output(magnitude, waveform) == model.output(
            magnitude_of::<A>(planes@),
            waveform_of::<A>(left@, right@),
        ) by {
            lemma_read_by_rows::<A>(planes@, left@, right@, magnitude, waveform);
        }
        let shape = seq![1usize, 4, BINS, FRAMES];
        let shape_t = seq![1usize, 2, SEGMENT];
        lemma_rank4(shape);
        lemma_rank3(shape_t);
        assert(shape[0] == 1 && shape[1] == 4 && shape[2] == 2_048 && shape[3] == 336);
        assert(shape_t[0] == 1 && shape_t[1] == 2 && shape_t[2] == 343_980);
        assert(volume(shape) == 2_752_512 && span(shape) == 2_752_512) by {
            assert(1int * 4 * 2_048 * 336 == 2_752_512) by (nonlinear_arith);
        }
        assert(volume(shape_t) == 687_960 && span(shape_t) == 687_960) by {
            assert(1int * 2 * 343_980 == 687_960) by (nonlinear_arith);
        }
    }
    let magnitude = Tensor { shape: vec![1, 4, BINS, FRAMES], data: planes };
    let mut both = vstd::slice::slice_to_vec(left);
    let mut second = vstd::slice::slice_to_vec(right);
    both.append(&mut second);
    let waveform = Tensor { shape: vec![1, 2, SEGMENT], data: both };
    proof {
        assert(magnitude@ =~= magnitude_of::<A>(planes@));
        assert(waveform@ =~= waveform_of::<A>(left@, right@));
    }
    model.forward(&magnitude, &waveform)
}

/// The plane of the frequency branch that holds the real part of a stem's
/// channel. The imaginary part is in the next.
pub open spec fn real_plane(stem: int, channel: int) -> int {
    stem * 4 + channel * 2
}

/// A plane of the frequency branch.
pub open spec fn plane_of<T>(frequency: Seq<T>, plane: int) -> Seq<T> {
    frequency.subrange(plane * PLANE, plane * PLANE + PLANE)
}

/// The real and the imaginary plane of a stem's channel.
pub fn spectrum<T: Copy>(frequency: &Tensor<T>, stem: usize, channel: usize) -> (planes: (
    Vec<T>,
    Vec<T>,
))
    requires
        stem < 4,
        channel < 2,
        16 * PLANE <= frequency@.data.len(),
    ensures
        planes.0@ == plane_of(frequency@.data, real_plane(stem as int, channel as int)),
        planes.1@ == plane_of(frequency@.data, real_plane(stem as int, channel as int) + 1),
{
    let plane = stem * 4 + channel * 2;
    let from = plane * PLANE;
    let data = frequency.data.as_slice();
    (
        vstd::slice::slice_to_vec(slice_subrange(data, from, from + PLANE)),
        vstd::slice::slice_to_vec(slice_subrange(data, from + PLANE, from + PLANE + PLANE)),
    )
}

/// One segment of a stem's channel: the time branch plus the inverted
/// frequency branch, scaled.
pub open spec fn rendered<A: Arithmetic>(
    time: Seq<A::Real>,
    inverse: Seq<A::Real>,
    scale: A::Real,
    row: int,
) -> Seq<A::Real> {
    Seq::new(
        SEGMENT as nat,
        |p: int| A::plus_spec(time[row * SEGMENT + p], A::times_spec(inverse[p], scale)),
    )
}

fn render<A: Arithmetic>(time: &[A::Real], inverse: &[A::Real], scale: A::Real, row: usize) -> (
    segment: Vec<A::Real>)
    requires
        lawful::<A>(),
        row < 8,
        8 * SEGMENT <= time@.len(),
        SEGMENT <= inverse@.len(),
    ensures
        segment@ == rendered::<A>(time@, inverse@, scale, row as int),
{
    let from = row * SEGMENT;
    let mut segment: Vec<A::Real> = Vec::with_capacity(SEGMENT);
    while segment.len() < SEGMENT
        invariant
            lawful::<A>(),
            row < 8,
            from == row * SEGMENT,
            8 * SEGMENT <= time@.len(),
            SEGMENT <= inverse@.len(),
            segment@.len() <= SEGMENT,
            forall|p: int|
                0 <= p < segment@.len() ==> #[trigger] segment@[p] == A::plus_spec(
                    time@[row * SEGMENT + p],
                    A::times_spec(inverse@[p], scale),
                ),
        decreases SEGMENT - segment@.len(),
    {
        let place = segment.len();
        segment.push(A::plus(time[from + place], A::times(inverse[place], scale)));
    }
    proof {
        assert(segment@ =~= rendered::<A>(time@, inverse@, scale, row as int));
    }
    segment
}

/// A track on its way through the model.
pub struct Separation<A: Arithmetic> {
    /// Samples per channel.
    pub total: usize,
    /// Where the segments start.
    pub offsets: Vec<usize>,
    /// The weights of the seam.
    pub window: Vec<A::Real>,
    /// What the inverted frequency branch is multiplied by.
    pub scale: A::Real,
    /// How many segments were absorbed.
    pub done: usize,
    /// One accumulator per stem and channel, in the order of the time branch.
    pub accumulators: Vec<OverlapAdd<A>>,
    /// The segments that each accumulator absorbed.
    pub history: Ghost<Seq<Seq<Seq<A::Real>>>>,
}

impl<A: Arithmetic> Separation<A> {
    /// What accumulator `row` was given.
    pub open spec fn parts(self, row: int) -> Seq<Part<A::Real>> {
        Seq::new(
            self.history@[row].len(),
            |i: int|
                Part {
                    offset: self.offsets@[i] as nat,
                    segment: self.history@[row][i],
                    window: self.window@,
                },
        )
    }

    /// The plan is the shipped one, and each accumulator holds the segments
    /// that were absorbed, in order.
    pub open spec fn wf(self) -> bool {
        &&& self.offsets@ == starts(self.total as nat, SEGMENT as nat, STRIDE as nat)
        &&& self.window@ == normalised_triangle::<A>(SEGMENT as nat)
        &&& self.scale == A::square_root_spec(A::from_count_spec(FFT_SIZE))
        &&& self.done <= self.offsets@.len()
        &&& self.accumulators@.len() == 8
        &&& self.history@.len() == 8
        &&& forall|row: int|
            0 <= row < 8 ==> {
                &&& (#[trigger] self.accumulators@[row]).wf()
                &&& self.accumulators@[row]@ == mixed::<A>(self.parts(row))
            }
        &&& forall|row: int|
            0 <= row < 8 ==> (#[trigger] self.history@[row]).len() == self.done
        &&& forall|row: int, i: int|
            0 <= row < 8 && 0 <= i < self.done ==> (#[trigger] self.history@[row][i]).len()
                == SEGMENT
    }

    /// A stem's channel: the mix of its segments, as long as the track.
    pub open spec fn stem(self, row: int) -> Seq<A::Real> {
        let mix = mixed::<A>(self.parts(row));
        let all = samples::<A>(mix, 0, mix.values.len());
        if all.len() <= self.total {
            all
        } else {
            all.take(self.total as int)
        }
    }

    /// Plans a track whose channels have these lengths. The longer one is cut
    /// to the shorter.
    pub fn start(left: usize, right: usize) -> (separation: Self)
        requires
            lawful::<A>(),
        ensures
            separation.wf(),
            separation.total == if left < right {
                left
            } else {
                right
            },
            separation.done == 0,
    {
        let total = if left < right {
            left
        } else {
            right
        };
        let plan = ChunkPlan::contract();
        let geometry = Geometry::contract();
        let offsets = plan.offsets(total);
        let window = triangular_weight::<A>(plan.segment_frames());
        let scale = A::square_root(A::from_count(geometry.fft_size));
        let mut accumulators: Vec<OverlapAdd<A>> = Vec::new();
        while accumulators.len() < 8
            invariant
                accumulators@.len() <= 8,
                forall|row: int|
                    0 <= row < accumulators@.len() ==> {
                        &&& (#[trigger] accumulators@[row]).wf()
                        &&& accumulators@[row]@ == silence::<A>()
                    },
            decreases 8 - accumulators@.len(),
        {
            accumulators.push(OverlapAdd::new());
        }
        let ghost nothing = Seq::new(8, |row: int| Seq::<Seq<A::Real>>::empty());
        let separation = Separation {
            total,
            offsets,
            window,
            scale,
            done: 0,
            accumulators,
            history: Ghost(nothing),
        };
        proof {
            law_starts_cover_the_track(total as nat, SEGMENT as nat, STRIDE as nat);
            assert forall|row: int| 0 <= row < 8 implies separation.parts(row).len() == 0 by {
                assert(separation.history@[row].len() == 0);
            }
        }
        separation
    }

    /// The next segment of each channel, until all are absorbed.
    pub fn next_segment(&self, left: &[A::Real], right: &[A::Real]) -> (segment: Option<
        (Vec<A::Real>, Vec<A::Real>),
    >)
        requires
            lawful::<A>(),
            self.wf(),
            self.total <= left@.len(),
            self.total <= right@.len(),
        ensures
            match segment {
                Some((left_segment, right_segment)) => {
                    let offset = self.offsets@[self.done as int] as int;
                    &&& self.done < self.offsets@.len()
                    &&& left_segment@ == cut::<A>(left@, self.total as int, offset)
                    &&& right_segment@ == cut::<A>(right@, self.total as int, offset)
                },
                None => self.done == self.offsets@.len(),
            },
    {
        if self.done == self.offsets.len() {
            return None;
        }
        proof {
            self.lemma_offsets(self.done as int);
        }
        let offset = self.offsets[self.done];
        Some(
            (
                cut_segment::<A>(left, self.total, offset),
                cut_segment::<A>(right, self.total, offset),
            ),
        )
    }

    /// Every segment starts within the track, and ends at an address.
    proof fn lemma_offsets(self, i: int)
        requires
            self.offsets@ == starts(self.total as nat, SEGMENT as nat, STRIDE as nat),
            0 <= i < self.offsets@.len(),
        ensures
            self.offsets@[i] <= self.total,
            self.offsets@[i] + SEGMENT <= usize::MAX,
    {
        law_starts_cover_the_track(self.total as nat, SEGMENT as nat, STRIDE as nat);
        let last = self.offsets@.len() - 1;
        assert(i < last ==> self.offsets@[i] < self.offsets@[last]);
    }

    /// Absorbs the next segment: the time branch of its eight rows, and what
    /// the frequency branch of each row was inverted to.
    pub fn absorb(&mut self, time: &Tensor<A::Real>, inverses: &Vec<Vec<A::Real>>)
        requires
            lawful::<A>(),
            old(self).wf(),
            old(self).done < old(self).offsets@.len(),
            8 * SEGMENT <= time@.data.len(),
            inverses@.len() == 8,
            forall|row: int|
                0 <= row < 8 ==> SEGMENT <= (#[trigger] inverses@[row])@.len(),
        ensures
            final(self).wf(),
            final(self).total == old(self).total,
            final(self).done == old(self).done + 1,
            forall|row: int|
                0 <= row < 8 ==> #[trigger] final(self).history@[row]
                    == old(self).history@[row].push(
                    rendered::<A>(time@.data, inverses@[row]@, old(self).scale, row),
                ),
            forall|row: int, p: int|
                0 <= row < 8 && 0 <= p < SEGMENT ==>
                #[trigger] final(self).history@[row].last()[p] == A::plus_spec(
                    at3(time@.data, 8, SEGMENT as int, 0, row, p),
                    A::times_spec(inverses@[row]@[p], old(self).scale),
                ),
    {
        let ghost before = *self;
        let offset = self.offsets[self.done];
        proof {
            self.lemma_offsets(self.done as int);
        }
        let ghost grown = Seq::new(
            8,
            |row: int|
                before.history@[row].push(
                    rendered::<A>(time@.data, inverses@[row]@, before.scale, row),
                ),
        );
        let mut row: usize = 0;
        while row < 8
            invariant
                lawful::<A>(),
                before.wf(),
                before.done < before.offsets@.len(),
                self.total == before.total,
                self.offsets == before.offsets,
                self.window == before.window,
                self.scale == before.scale,
                self.done == before.done,
                self.history == before.history,
                self.accumulators@.len() == 8,
                offset == before.offsets@[before.done as int],
                offset + SEGMENT <= usize::MAX,
                8 * SEGMENT <= time@.data.len(),
                inverses@.len() == 8,
                forall|other: int|
                    0 <= other < 8 ==> SEGMENT <= (#[trigger] inverses@[other])@.len(),
                row <= 8,
                forall|other: int|
                    0 <= other < 8 ==> (#[trigger] self.accumulators@[other]).wf(),
                forall|other: int|
                    0 <= other < 8 ==> #[trigger] self.accumulators@[other]@ == if other < row {
                        added::<A>(
                            before.accumulators@[other]@,
                            Part {
                                offset: offset as nat,
                                segment: rendered::<A>(
                                    time@.data,
                                    inverses@[other]@,
                                    before.scale,
                                    other,
                                ),
                                window: before.window@,
                            },
                        )
                    } else {
                        before.accumulators@[other]@
                    },
            decreases 8 - row,
        {
            let segment = render::<A>(
                time.data.as_slice(),
                inverses[row].as_slice(),
                self.scale,
                row,
            );
            self.accumulators[row].add(offset, segment.as_slice(), self.window.as_slice());
            row = row + 1;
        }
        self.done = self.done + 1;
        self.history = Ghost(grown);
        proof {
            assert forall|row: int| 0 <= row < 8 implies {
                &&& (#[trigger] self.accumulators@[row]).wf()
                &&& self.accumulators@[row]@ == mixed::<A>(self.parts(row))
            } by {
                let parts = self.parts(row);
                assert(before.history@[row].len() == before.done);
                assert(parts.drop_last() =~= before.parts(row));
                assert(parts.last() == (Part {
                    offset: offset as nat,
                    segment: rendered::<A>(time@.data, inverses@[row]@, before.scale, row),
                    window: before.window@,
                }));
                assert(before.accumulators@[row]@ == mixed::<A>(before.parts(row)));
            }
            assert forall|row: int, p: int| 0 <= row < 8 && 0 <= p < SEGMENT implies
                #[trigger] self.history@[row].last()[p] == A::plus_spec(
                at3(time@.data, 8, SEGMENT as int, 0, row, p),
                A::times_spec(inverses@[row]@[p], before.scale),
            ) by {
                assert(self.history@[row].last() == rendered::<A>(
                    time@.data,
                    inverses@[row]@,
                    before.scale,
                    row,
                ));
            }
            assert forall|row: int, i: int| 0 <= row < 8 && 0 <= i < self.done implies (
            #[trigger] self.history@[row][i]).len() == SEGMENT by {
                if i < before.done {
                    assert(before.history@[row][i].len() == SEGMENT);
                }
            }
        }
    }

    /// The four stems, each a left and a right channel as long as the track.
    /// The order is drums, bass, other, vocals.
    pub fn finish(self) -> (stems: Vec<[Vec<A::Real>; 2]>)
        requires
            lawful::<A>(),
            self.wf(),
        ensures
            stems@.len() == 4,
            forall|stem: int, channel: int|
                0 <= stem < 4 && 0 <= channel < 2 ==> (#[trigger] stems@[stem]@[channel])@
                    == self.stem(stem * 2 + channel),
    {
        let mut accumulators = self.accumulators;
        let total = self.total;
        let mut stems: Vec<[Vec<A::Real>; 2]> = Vec::new();
        while stems.len() < 4
            invariant
                lawful::<A>(),
                self.wf(),
                total == self.total,
                accumulators@.len() == 8,
                stems@.len() <= 4,
                forall|row: int|
                    2 * stems@.len() <= row < 8 ==> {
                        &&& (#[trigger] accumulators@[row]).wf()
                        &&& accumulators@[row]@ == mixed::<A>(self.parts(row))
                    },
                forall|stem: int, channel: int|
                    0 <= stem < stems@.len() && 0 <= channel < 2 ==> (
                    #[trigger] stems@[stem]@[channel])@ == self.stem(stem * 2 + channel),
            decreases 4 - stems@.len(),
        {
            let row = 2 * stems.len();
            proof {
                lemma_lengths::<A>(self.parts(row as int));
                lemma_lengths::<A>(self.parts(row + 1));
            }
            let mut left = accumulators[row].finish();
            left.truncate(total);
            let mut right = accumulators[row + 1].finish();
            right.truncate(total);
            proof {
                assert(left@ =~= self.stem(row as int));
                assert(right@ =~= self.stem(row + 1));
            }
            stems.push([left, right]);
        }
        stems
    }
}

/// Once every segment is absorbed, each channel of each stem is exactly as
/// long as the track.
pub proof fn law_stems_are_as_long_as_the_track<A: Arithmetic>(
    separation: Separation<A>,
    row: int,
)
    requires
        separation.wf(),
        separation.done == separation.offsets@.len(),
        0 <= row < 8,
    ensures
        separation.stem(row).len() == separation.total,
{
    law_starts_cover_the_track(separation.total as nat, SEGMENT as nat, STRIDE as nat);
    let last = separation.offsets@.len() - 1;
    assert(separation.history@[row].len() == separation.done);
    assert(separation.history@[row][last].len() == SEGMENT);
    lemma_mix_reaches::<A>(separation.parts(row), last);
}

/// How far a player may be served after each segment: up to the start of the
/// next, and to the end of the track after the last.
pub open spec fn boundaries(offsets: Seq<usize>, total: nat) -> Seq<nat> {
    Seq::new(
        offsets.len(),
        |i: int|
            if i + 1 < offsets.len() {
                offsets[i + 1] as nat
            } else {
                total
            },
    )
}

/// A track served segment by segment, each time up to the start of the next
/// segment, is served whole: the pieces are, one after another, exactly what a
/// mix of all segments gives, and nothing is left at the end.
pub proof fn law_serving_the_plan_equals_batch<A: Arithmetic>(
    parts: Seq<Part<A::Real>>,
    total: nat,
    segment: nat,
    stride: nat,
)
    requires
        segment <= total <= usize::MAX,
        stride > 0,
        parts.len() == starts(total, segment, stride).len(),
        forall|i: int|
            0 <= i < parts.len() ==> (#[trigger] parts[i]).offset == starts(
                total,
                segment,
                stride,
            )[i] && parts[i].segment.len() == segment,
    ensures
        mixed::<A>(parts).values.len() == total,
        streamed::<A>(parts, boundaries(starts(total, segment, stride), total)).1 == samples::<A>(
            mixed::<A>(parts),
            0,
            total,
        ),
{
    let offsets = starts(total, segment, stride);
    let limits = boundaries(offsets, total);
    let count = offsets.len() as int;
    law_starts_cover_the_track(total, segment, stride);
    assert(offsets[count - 1] + segment == total);
    let final_start = offsets[count - 1];
    assert forall|i: int| 0 <= i < count implies #[trigger] offsets[i] <= final_start by {
        assert(i < count - 1 ==> offsets[i] < offsets[count - 1]);
    }
    assert forall|i: int| 0 <= i < parts.len() implies (#[trigger] parts[i]).end() <= total by {
        assert(offsets[i] <= offsets[count - 1]);
    }
    lemma_mix_ends::<A>(parts, total);
    lemma_mix_reaches::<A>(parts, count - 1);
    assert(parts[count - 1].end() == total);
    assert forall|i: int, j: int| 0 <= i <= j < limits.len() implies limits[i] <= limits[j] by {
        if j + 1 < count {
            assert(i + 1 < j + 1 ==> offsets[i + 1] < offsets[j + 1]);
        } else if i + 1 < count {
            assert(offsets[i + 1] <= offsets[count - 1]);
        }
    }
    assert forall|i: int, j: int| 0 <= i < j < parts.len() implies #[trigger] limits[i]
        <= #[trigger] parts[j].offset by {
        assert(i + 1 < j ==> offsets[i + 1] < offsets[j]);
    }
    assert(in_step(parts, limits));
    law_streaming_equals_batch::<A>(parts, limits);
    law_streaming_reaches_its_boundary::<A>(parts, limits);
    let (stream, pieces) = streamed::<A>(parts, limits);
    assert(samples::<A>(stream, stream.flushed, stream.values.len()) =~= Seq::<A::Real>::empty());
    assert(pieces + Seq::<A::Real>::empty() =~= pieces);
}

/// One segment of a stem's channel, from the two channels of the cut: the
/// transform `forward` gives the spectral planes, the model both branches, and
/// the transform `inverse` takes the row's two planes back.
pub open spec fn segment_row<A: Arithmetic>(
    model: HtDemucs<A>,
    forward: spec_fn(Seq<A::Real>, Seq<A::Real>) -> Seq<A::Real>,
    inverse: spec_fn(Seq<A::Real>, Seq<A::Real>) -> Seq<A::Real>,
    left: Seq<A::Real>,
    right: Seq<A::Real>,
    row: int,
) -> Seq<A::Real> {
    let (frequency, time) = model.output(
        magnitude_of::<A>(forward(left, right)),
        waveform_of::<A>(left, right),
    );
    let plane = real_plane(row / 2, row % 2);
    rendered::<A>(
        time.data,
        inverse(plane_of(frequency.data, plane), plane_of(frequency.data, plane + 1)),
        A::square_root_spec(A::from_count_spec(FFT_SIZE)),
        row,
    )
}

/// The samples that both channels have.
pub open spec fn common_length<T>(left: Seq<T>, right: Seq<T>) -> nat {
    if left.len() < right.len() {
        left.len()
    } else {
        right.len()
    }
}

/// What each segment of a track adds to a stem's channel, given the transform.
pub open spec fn track_parts<A: Arithmetic>(
    model: HtDemucs<A>,
    forward: spec_fn(Seq<A::Real>, Seq<A::Real>) -> Seq<A::Real>,
    inverse: spec_fn(Seq<A::Real>, Seq<A::Real>) -> Seq<A::Real>,
    left: Seq<A::Real>,
    right: Seq<A::Real>,
    row: int,
) -> Seq<Part<A::Real>> {
    let total = common_length(left, right);
    let offsets = starts(total, SEGMENT as nat, STRIDE as nat);
    Seq::new(
        offsets.len(),
        |i: int|
            Part {
                offset: offsets[i] as nat,
                segment: segment_row::<A>(
                    model,
                    forward,
                    inverse,
                    cut::<A>(left, total as int, offsets[i] as int),
                    cut::<A>(right, total as int, offsets[i] as int),
                    row,
                ),
                window: normalised_triangle::<A>(SEGMENT as nat),
            },
    )
}

/// A stem's channel of a whole track, given the transform.
pub open spec fn separated<A: Arithmetic>(
    model: HtDemucs<A>,
    forward: spec_fn(Seq<A::Real>, Seq<A::Real>) -> Seq<A::Real>,
    inverse: spec_fn(Seq<A::Real>, Seq<A::Real>) -> Seq<A::Real>,
    left: Seq<A::Real>,
    right: Seq<A::Real>,
    row: int,
) -> Seq<A::Real> {
    let mix = mixed::<A>(track_parts::<A>(model, forward, inverse, left, right, row));
    samples::<A>(mix, 0, mix.values.len()).take(common_length(left, right) as int)
}

/// A track whose every segment was cut, transformed, run through the model,
/// inverted and absorbed comes out as [`separated`] says.
pub proof fn law_a_finished_track_is_separated<A: Arithmetic>(
    separation: Separation<A>,
    model: HtDemucs<A>,
    forward: spec_fn(Seq<A::Real>, Seq<A::Real>) -> Seq<A::Real>,
    inverse: spec_fn(Seq<A::Real>, Seq<A::Real>) -> Seq<A::Real>,
    left: Seq<A::Real>,
    right: Seq<A::Real>,
    row: int,
)
    requires
        separation.wf(),
        separation.total == common_length(left, right),
        separation.done == separation.offsets@.len(),
        0 <= row < 8,
        forall|i: int|
            0 <= i < separation.done ==> #[trigger] separation.history@[row][i] == segment_row::<A>(
                model,
                forward,
                inverse,
                cut::<A>(left, separation.total as int, separation.offsets@[i] as int),
                cut::<A>(right, separation.total as int, separation.offsets@[i] as int),
                row,
            ),
    ensures
        separation.stem(row) == separated::<A>(model, forward, inverse, left, right, row),
        separation.stem(row).len() == common_length(left, right),
{
    law_stems_are_as_long_as_the_track::<A>(separation, row);
    assert(separation.history@[row].len() == separation.done);
    let parts = track_parts::<A>(model, forward, inverse, left, right, row);
    assert(separation.parts(row) =~= parts);
    let mix = mixed::<A>(parts);
    let all = samples::<A>(mix, 0, mix.values.len());
    assert(all.len() == separation.total ==> all.take(separation.total as int) =~= all);
}

/// Every channel of every stem is as long as the shorter input channel, and
/// samples past that length have no effect.
pub proof fn law_only_the_common_length_counts<A: Arithmetic>(
    model: HtDemucs<A>,
    forward: spec_fn(Seq<A::Real>, Seq<A::Real>) -> Seq<A::Real>,
    inverse: spec_fn(Seq<A::Real>, Seq<A::Real>) -> Seq<A::Real>,
    left: Seq<A::Real>,
    right: Seq<A::Real>,
    row: int,
)
    requires
        common_length(left, right) <= usize::MAX,
        0 <= row < 8,
    ensures
        separated::<A>(model, forward, inverse, left, right, row).len() == common_length(
            left,
            right,
        ),
        separated::<A>(model, forward, inverse, left, right, row) == separated::<A>(
            model,
            forward,
            inverse,
            left.take(common_length(left, right) as int),
            right.take(common_length(left, right) as int),
            row,
        ),
{
    let total = common_length(left, right);
    let (short_left, short_right) = (left.take(total as int), right.take(total as int));
    assert(common_length(short_left, short_right) == total);
    law_starts_cover_the_track(total, SEGMENT as nat, STRIDE as nat);
    let offsets = starts(total, SEGMENT as nat, STRIDE as nat);
    let parts = track_parts::<A>(model, forward, inverse, left, right, row);
    let short_parts = track_parts::<A>(model, forward, inverse, short_left, short_right, row);
    assert forall|i: int| 0 <= i < offsets.len() implies #[trigger] parts[i] == short_parts[i] by {
        assert(cut::<A>(left, total as int, offsets[i] as int) =~= cut::<A>(
            short_left,
            total as int,
            offsets[i] as int,
        ));
        assert(cut::<A>(right, total as int, offsets[i] as int) =~= cut::<A>(
            short_right,
            total as int,
            offsets[i] as int,
        ));
    }
    assert(parts =~= short_parts);
    let last = offsets.len() - 1;
    assert(parts[last].end() >= total);
    lemma_mix_reaches::<A>(parts, last);
}

} // verus!
