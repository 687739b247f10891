//! The overlap-add seam: weighted segments in, finished samples out.
//!
//! Samples are only final once no later segment can still touch them, which
//! is exactly the one-segment lookahead a streaming stem player needs.

use vstd::prelude::*;

use crate::arithmetic::{lawful, Arithmetic};

verus! {

/// What an accumulator holds: weighted sums, sums of weights, and how many
/// samples were handed out.
#[verifier::ext_equal]
pub struct Mix<W> {
    pub values: Seq<W>,
    pub weights: Seq<W>,
    pub flushed: nat,
}

/// One segment's contribution: where it starts, its samples, their weights.
#[verifier::ext_equal]
pub struct Part<R> {
    pub offset: nat,
    pub segment: Seq<R>,
    pub window: Seq<R>,
}

impl<R> Part<R> {
    /// The frame after its last one.
    pub open spec fn end(self) -> nat {
        self.offset + self.segment.len()
    }

    /// As many weights as samples.
    pub open spec fn wf(self) -> bool {
        self.segment.len() == self.window.len()
    }
}

/// An accumulator to which nothing was added.
pub open spec fn silence<A: Arithmetic>() -> Mix<A::Wide> {
    Mix { values: Seq::empty(), weights: Seq::empty(), flushed: 0 }
}

/// A sequence extended with zeros to at least `to` entries.
pub open spec fn grown<A: Arithmetic>(sums: Seq<A::Wide>, to: nat) -> Seq<A::Wide> {
    Seq::new(
        if sums.len() < to {
            to
        } else {
            sums.len()
        },
        |i: int|
            if i < sums.len() {
                sums[i]
            } else {
                A::wide_zero_spec()
            },
    )
}

/// The accumulator after one more contribution. Each frame that the part
/// touches gains the sample times its weight, and the weight itself.
pub open spec fn added<A: Arithmetic>(mix: Mix<A::Wide>, part: Part<A::Real>) -> Mix<A::Wide> {
    let values = grown::<A>(mix.values, part.end());
    let weights = grown::<A>(mix.weights, part.end());
    Mix {
        values: Seq::new(
            values.len(),
            |i: int|
                if part.offset <= i < part.end() {
                    A::wide_plus_spec(
                        values[i],
                        A::wide_times_spec(
                            A::widen_spec(part.segment[i - part.offset]),
                            A::widen_spec(part.window[i - part.offset]),
                        ),
                    )
                } else {
                    values[i]
                },
        ),
        weights: Seq::new(
            weights.len(),
            |i: int|
                if part.offset <= i < part.end() {
                    A::wide_plus_spec(weights[i], A::widen_spec(part.window[i - part.offset]))
                } else {
                    weights[i]
                },
        ),
        flushed: mix.flushed,
    }
}

/// The sample at a frame: the weighted sum over the sum of weights, or zero
/// where no weight fell.
pub open spec fn sample<A: Arithmetic>(mix: Mix<A::Wide>, frame: int) -> A::Real {
    if A::wide_exceeds_spec(mix.weights[frame], A::wide_zero_spec()) {
        A::narrow_spec(A::wide_over_spec(mix.values[frame], mix.weights[frame]))
    } else {
        A::zero_spec()
    }
}

/// The samples of the frames from `from` up to `to`.
pub open spec fn samples<A: Arithmetic>(mix: Mix<A::Wide>, from: nat, to: nat) -> Seq<A::Real> {
    Seq::new(
        if from < to {
            (to - from) as nat
        } else {
            0
        },
        |i: int| sample::<A>(mix, from + i),
    )
}

/// A frame, at most the number of frames the accumulator has reached.
pub open spec fn reached<W>(mix: Mix<W>, frame: nat) -> nat {
    if frame < mix.values.len() {
        frame
    } else {
        mix.values.len()
    }
}

/// The accumulator once everything before `frame` is handed out.
pub open spec fn drained<W>(mix: Mix<W>, frame: nat) -> Mix<W> {
    Mix { flushed: reached(mix, frame), ..mix }
}

/// What handing out everything before `frame` gives.
pub open spec fn emitted<A: Arithmetic>(mix: Mix<A::Wide>, frame: nat) -> Seq<A::Real> {
    samples::<A>(mix, mix.flushed, reached(mix, frame))
}

/// One channel's overlap-add accumulator.
///
/// Segments arrive in any order, each with the absolute frame it starts at.
#[derive(Debug)]
pub struct OverlapAdd<A: Arithmetic> {
    values: Vec<A::Wide>,
    weights: Vec<A::Wide>,
    flushed: usize,
}

impl<A: Arithmetic> View for OverlapAdd<A> {
    type V = Mix<A::Wide>;

    closed spec fn view(&self) -> Mix<A::Wide> {
        Mix { values: self.values@, weights: self.weights@, flushed: self.flushed as nat }
    }
}

impl<A: Arithmetic> OverlapAdd<A> {
    /// As many sums of weights as weighted sums, and no more handed out than
    /// there are.
    pub open spec fn wf(self) -> bool {
        &&& self@.values.len() == self@.weights.len()
        &&& self@.flushed <= self@.values.len()
    }

    /// An accumulator to which nothing was added.
    pub fn new() -> (accumulator: Self)
        ensures
            accumulator@ == silence::<A>(),
            accumulator.wf(),
    {
        OverlapAdd { values: Vec::new(), weights: Vec::new(), flushed: 0 }
    }

    /// Makes room for the frames before `to`.
    fn grow(&mut self, to: usize)
        requires
            lawful::<A>(),
            old(self).wf(),
        ensures
            final(self).wf(),
            final(self)@ == (Mix {
                values: grown::<A>(old(self)@.values, to as nat),
                weights: grown::<A>(old(self)@.weights, to as nat),
                flushed: old(self)@.flushed,
            }),
    {
        let ghost values = self@.values;
        let ghost weights = self@.weights;
        while self.values.len() < to
            invariant
                lawful::<A>(),
                self.wf(),
                self@.flushed == old(self)@.flushed,
                values == old(self)@.values,
                weights == old(self)@.weights,
                values.len() <= self@.values.len(),
                self@.values.len() <= to || self@.values.len() == values.len(),
                self@.values =~= grown::<A>(values, self@.values.len()),
                self@.weights =~= grown::<A>(weights, self@.values.len()),
            decreases to - self.values.len(),
        {
            self.values.push(A::wide_zero());
            self.weights.push(A::wide_zero());
        }
        proof {
            assert(self@.values =~= grown::<A>(values, to as nat));
            assert(self@.weights =~= grown::<A>(weights, to as nat));
        }
    }

    /// Adds one segment's contribution at `offset`.
    ///
    /// The seam weights the contribution and the normaliser by the same linear
    /// triangular value, not its square, which is the convention of the
    /// inverse transform.
    pub fn add(&mut self, offset: usize, segment: &[A::Real], window: &[A::Real])
        requires
            lawful::<A>(),
            old(self).wf(),
            segment@.len() == window@.len(),
            offset + segment@.len() <= usize::MAX,
        ensures
            final(self).wf(),
            final(self)@ == added::<A>(
                old(self)@,
                Part { offset: offset as nat, segment: segment@, window: window@ },
            ),
    {
        let ghost part = Part { offset: offset as nat, segment: segment@, window: window@ };
        let ghost goal = added::<A>(self@, part);
        let count = segment.len();
        self.grow(offset + count);
        let ghost start = self@;
        let mut index: usize = 0;
        while index < count
            invariant
                lawful::<A>(),
                self.wf(),
                count == segment@.len(),
                count == window@.len(),
                offset + count <= usize::MAX,
                index <= count,
                part == (Part { offset: offset as nat, segment: segment@, window: window@ }),
                goal == added::<A>(old(self)@, part),
                start.values == grown::<A>(old(self)@.values, part.end()),
                start.weights == grown::<A>(old(self)@.weights, part.end()),
                old(self)@.values.len() == old(self)@.weights.len(),
                self@.flushed == old(self)@.flushed,
                self@.values.len() == start.values.len(),
                forall|i: int|
                    0 <= i < start.values.len() ==> #[trigger] self@.values[i] == (if i < offset
                        + index {
                        goal.values[i]
                    } else {
                        start.values[i]
                    }),
                forall|i: int|
                    0 <= i < start.values.len() ==> #[trigger] self@.weights[i] == (if i < offset
                        + index {
                        goal.weights[i]
                    } else {
                        start.weights[i]
                    }),
            decreases count - index,
        {
            let at = offset + index;
            let weight = A::widen(window[index]);
            let value = A::wide_plus(
                self.values[at],
                A::wide_times(A::widen(segment[index]), weight),
            );
            let total = A::wide_plus(self.weights[at], weight);
            self.values.set(at, value);
            self.weights.set(at, total);
            index = index + 1;
        }
        proof {
            assert(self@.values =~= goal.values);
            assert(self@.weights =~= goal.weights);
        }
    }

    /// Every sample before `frame` is final; returns them normalised.
    pub fn flush_until(&mut self, frame: usize) -> (output: Vec<A::Real>)
        requires
            lawful::<A>(),
            old(self).wf(),
        ensures
            final(self).wf(),
            final(self)@ == drained(old(self)@, frame as nat),
            output@ == emitted::<A>(old(self)@, frame as nat),
    {
        let frame = if frame < self.values.len() {
            frame
        } else {
            self.values.len()
        };
        let ghost mix = self@;
        let mut output: Vec<A::Real> = Vec::new();
        let mut index = self.flushed;
        while index < frame
            invariant
                lawful::<A>(),
                self.wf(),
                self@ == mix,
                mix.flushed <= index,
                frame <= mix.values.len(),
                index <= frame || output@.len() == 0,
                index <= frame || index == mix.flushed,
                output@ =~= samples::<A>(mix, mix.flushed, index as nat),
            decreases frame - index,
        {
            let weight = self.weights[index];
            let value = if A::wide_exceeds(weight, A::wide_zero()) {
                A::narrow(A::wide_over(self.values[index], weight))
            } else {
                A::zero()
            };
            output.push(value);
            index = index + 1;
        }
        self.flushed = frame;
        output
    }

    /// The remaining samples, after the last segment has landed.
    pub fn finish(&mut self) -> (output: Vec<A::Real>)
        requires
            lawful::<A>(),
            old(self).wf(),
        ensures
            final(self).wf(),
            final(self)@ == drained(old(self)@, old(self)@.values.len()),
            output@ == samples::<A>(old(self)@, old(self)@.flushed, old(self)@.values.len()),
    {
        let end = self.values.len();
        self.flush_until(end)
    }
}

/// The accumulator after these contributions, in this order, with nothing
/// handed out.
pub open spec fn mixed<A: Arithmetic>(parts: Seq<Part<A::Real>>) -> Mix<A::Wide>
    decreases parts.len(),
{
    if parts.len() == 0 {
        silence::<A>()
    } else {
        added::<A>(mixed::<A>(parts.drop_last()), parts.last())
    }
}

/// The accumulator and all that was handed out, when each contribution is
/// followed by handing out everything before a boundary.
pub open spec fn streamed<A: Arithmetic>(
    parts: Seq<Part<A::Real>>,
    boundaries: Seq<nat>,
) -> (Mix<A::Wide>, Seq<A::Real>)
    decreases parts.len(),
{
    if parts.len() == 0 {
        (silence::<A>(), Seq::empty())
    } else {
        let before = streamed::<A>(parts.drop_last(), boundaries.drop_last());
        let mix = added::<A>(before.0, parts.last());
        (
            drained(mix, boundaries.last()),
            before.1 + emitted::<A>(mix, boundaries.last()),
        )
    }
}

/// Whether no contribution starts before a boundary that was handed out
/// earlier, and boundaries never move back.
pub open spec fn in_step<R>(parts: Seq<Part<R>>, boundaries: Seq<nat>) -> bool {
    &&& parts.len() == boundaries.len()
    &&& forall|i: int, j: int| 0 <= i <= j < boundaries.len() ==> boundaries[i] <= boundaries[j]
    &&& forall|i: int, j: int|
        0 <= i < j < parts.len() ==> #[trigger] boundaries[i] <= #[trigger] parts[j].offset
}

/// A contribution leaves every earlier sample as it is: what lies before the
/// start of every segment still to come is final.
pub proof fn law_samples_before_a_segment_are_final<A: Arithmetic>(
    mix: Mix<A::Wide>,
    part: Part<A::Real>,
    frame: int,
)
    requires
        mix.values.len() == mix.weights.len(),
        0 <= frame < mix.values.len(),
        frame < part.offset,
    ensures
        sample::<A>(added::<A>(mix, part), frame) == sample::<A>(mix, frame),
{
}

/// Handing out in two steps gives what handing out at once gives.
pub proof fn law_flushing_in_steps<A: Arithmetic>(mix: Mix<A::Wide>, middle: nat, frame: nat)
    requires
        mix.flushed <= middle <= frame,
        mix.flushed <= mix.values.len(),
    ensures
        emitted::<A>(mix, middle) + emitted::<A>(drained(mix, middle), frame) == emitted::<A>(
            mix,
            frame,
        ),
        drained(drained(mix, middle), frame) == drained(mix, frame),
{
    let a = reached(mix, middle);
    let b = reached(mix, frame);
    assert forall|i: int| a <= i < b implies sample::<A>(drained(mix, middle), i)
        == #[trigger] sample::<A>(mix, i) by {}
    assert(emitted::<A>(mix, middle) + emitted::<A>(drained(mix, middle), frame)
        =~= emitted::<A>(mix, frame));
}

proof fn lemma_streamed<A: Arithmetic>(parts: Seq<Part<A::Real>>, boundaries: Seq<nat>)
    requires
        in_step(parts, boundaries),
    ensures
        streamed::<A>(parts, boundaries).0.values == mixed::<A>(parts).values,
        streamed::<A>(parts, boundaries).0.weights == mixed::<A>(parts).weights,
        mixed::<A>(parts).values.len() == mixed::<A>(parts).weights.len(),
        mixed::<A>(parts).flushed == 0,
        streamed::<A>(parts, boundaries).0.flushed == (if parts.len() == 0 {
            0
        } else {
            reached(mixed::<A>(parts), boundaries.last())
        }),
        streamed::<A>(parts, boundaries).1 == samples::<A>(
            mixed::<A>(parts),
            0,
            streamed::<A>(parts, boundaries).0.flushed,
        ),
    decreases parts.len(),
{
    if parts.len() == 0 {
        assert(streamed::<A>(parts, boundaries).1 =~= samples::<A>(mixed::<A>(parts), 0, 0));
    } else {
        let earlier = parts.drop_last();
        let limits = boundaries.drop_last();
        assert(in_step(earlier, limits)) by {
            assert forall|i: int, j: int| 0 <= i < j < earlier.len() implies #[trigger] limits[i]
                <= #[trigger] earlier[j].offset by {
                assert(boundaries[i] <= parts[j].offset);
            }
        }
        lemma_streamed::<A>(earlier, limits);
        let before = streamed::<A>(earlier, limits);
        let mix = added::<A>(before.0, parts.last());
        let whole = mixed::<A>(parts);
        assert(mix.values =~= whole.values);
        assert(mix.weights =~= whole.weights);
        if earlier.len() > 0 {
            assert(limits.last() == boundaries[parts.len() - 2]);
            assert(boundaries[parts.len() - 2] <= parts[parts.len() - 1].offset);
            assert(boundaries[parts.len() - 2] <= boundaries[parts.len() - 1]);
        }
        let a = before.0.flushed;
        let b = reached(whole, boundaries.last());
        assert(a <= b);
        assert forall|i: int| 0 <= i < a implies #[trigger] sample::<A>(whole, i) == sample::<A>(
            mixed::<A>(earlier),
            i,
        ) by {
            law_samples_before_a_segment_are_final::<A>(mixed::<A>(earlier), parts.last(), i);
        }
        assert forall|i: int| 0 <= i < b implies #[trigger] sample::<A>(mix, i) == sample::<A>(
            whole,
            i,
        ) by {}
        assert(before.1 + emitted::<A>(mix, boundaries.last()) =~= samples::<A>(whole, 0, b));
    }
}

/// Streaming gives what a batch gives: when contributions are handed out up to
/// boundaries that no later contribution reaches back over, the pieces and
/// what is left at the end are, one after another, exactly the samples of the
/// whole mix.
pub proof fn law_streaming_equals_batch<A: Arithmetic>(
    parts: Seq<Part<A::Real>>,
    boundaries: Seq<nat>,
)
    requires
        in_step(parts, boundaries),
    ensures
        streamed::<A>(parts, boundaries).1 + samples::<A>(
            streamed::<A>(parts, boundaries).0,
            streamed::<A>(parts, boundaries).0.flushed,
            streamed::<A>(parts, boundaries).0.values.len(),
        ) == samples::<A>(mixed::<A>(parts), 0, mixed::<A>(parts).values.len()),
{
    lemma_streamed::<A>(parts, boundaries);
    let stream = streamed::<A>(parts, boundaries).0;
    let whole = mixed::<A>(parts);
    let end = whole.values.len();
    assert forall|i: int| 0 <= i < end implies #[trigger] sample::<A>(stream, i) == sample::<A>(
        whole,
        i,
    ) by {}
    assert(streamed::<A>(parts, boundaries).1 + samples::<A>(stream, stream.flushed, end)
        =~= samples::<A>(whole, 0, end));
}

/// After streaming, everything before the last boundary was handed out, as far
/// as the mix goes.
pub proof fn law_streaming_reaches_its_boundary<A: Arithmetic>(
    parts: Seq<Part<A::Real>>,
    boundaries: Seq<nat>,
)
    requires
        in_step(parts, boundaries),
        parts.len() > 0,
    ensures
        streamed::<A>(parts, boundaries).0.values == mixed::<A>(parts).values,
        streamed::<A>(parts, boundaries).0.flushed == reached(
            mixed::<A>(parts),
            boundaries.last(),
        ),
{
    lemma_streamed::<A>(parts, boundaries);
}

/// A mix reaches at least to the end of every part.
pub proof fn lemma_mix_reaches<A: Arithmetic>(parts: Seq<Part<A::Real>>, i: int)
    requires
        0 <= i < parts.len(),
    ensures
        parts[i].end() <= mixed::<A>(parts).values.len(),
    decreases parts.len(),
{
    if i < parts.len() - 1 {
        lemma_mix_reaches::<A>(parts.drop_last(), i);
        assert(parts.drop_last()[i] == parts[i]);
    }
}

/// A mix goes no further than its parts.
pub proof fn lemma_mix_ends<A: Arithmetic>(parts: Seq<Part<A::Real>>, end: nat)
    requires
        forall|i: int| 0 <= i < parts.len() ==> (#[trigger] parts[i]).end() <= end,
    ensures
        mixed::<A>(parts).values.len() <= end,
    decreases parts.len(),
{
    if parts.len() > 0 {
        let earlier = parts.drop_last();
        assert forall|i: int| 0 <= i < earlier.len() implies (#[trigger] earlier[i]).end()
            <= end by {
            assert(earlier[i] == parts[i]);
        }
        lemma_mix_ends::<A>(earlier, end);
        assert(parts[parts.len() - 1].end() <= end);
    }
}

/// Whether every sample of every part is this value.
pub open spec fn constant<R>(parts: Seq<Part<R>>, value: R) -> bool {
    forall|i: int, j: int|
        0 <= i < parts.len() && 0 <= j < parts[i].segment.len() ==> #[trigger] parts[i].segment[j]
            == value
}

/// As many sums of weights as weighted sums, and nothing handed out.
pub proof fn lemma_lengths<A: Arithmetic>(parts: Seq<Part<A::Real>>)
    ensures
        mixed::<A>(parts).values.len() == mixed::<A>(parts).weights.len(),
        mixed::<A>(parts).flushed == 0,
    decreases parts.len(),
{
    if parts.len() > 0 {
        lemma_lengths::<A>(parts.drop_last());
    }
}

impl<A: Arithmetic> Clone for OverlapAdd<A> {
    fn clone(&self) -> (copy: Self)
        ensures
            copy@ == self@,
    {
        OverlapAdd {
            values: vstd::slice::slice_to_vec(self.values.as_slice()),
            weights: vstd::slice::slice_to_vec(self.weights.as_slice()),
            flushed: self.flushed,
        }
    }
}

impl<A: Arithmetic> Default for OverlapAdd<A> {
    fn default() -> (accumulator: Self)
        ensures
            accumulator@ == silence::<A>(),
            accumulator.wf(),
    {
        OverlapAdd::new()
    }
}

} // verus!
