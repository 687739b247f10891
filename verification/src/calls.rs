//! How calls relate to each other.

use vstd::prelude::*;

use crate::arithmetic::Arithmetic;
use crate::branches::{law_branches_are_treated_alike, same_kind};
use crate::decoder::DecLayer;
use crate::fields::field;
use crate::index::{at2, at3, at4};
use crate::joins::{law_decoders_see_the_sum, law_input_and_skip_can_be_exchanged};
use crate::layers::AttentionWeights;
use crate::model::HtDemucs;
use crate::moments::normalised;
use crate::passes::law_networks_see_encoder_and_embedding_as_a_sum;
use crate::rings::{lemma_total_alike, ring, total};
use crate::scores::{are_scores, is_weighted_mean, law_attention_takes_weighted_means};
use crate::separate::{
    analyse, lemma_read_by_rows, spectrum, Separation, BINS, FRAMES, PLANE, SEGMENT,
};
use crate::tensor::{Grid, Tensor};
use crate::transformer::CrossTransformer;

verus! {

/// Analysing a segment is running the model on a spectrogram whose planes are
/// the segment's four, in order, and on a waveform whose row 0 is the left
/// channel and whose row 1 is the right.
pub proof fn law_analysing_runs_the_model_by_rows<A: Arithmetic>(
    model: &HtDemucs<A>,
    planes: Vec<A::Real>,
    left: &[A::Real],
    right: &[A::Real],
    magnitude: &Tensor<A::Real>,
    waveform: &Tensor<A::Real>,
    analysed: (Tensor<A::Real>, Tensor<A::Real>),
    run: (Tensor<A::Real>, Tensor<A::Real>),
)
    requires
        planes@.len() == 4 * PLANE,
        left@.len() == SEGMENT,
        right@.len() == SEGMENT,
        call_ensures(analyse::<A>, (model, planes, left, right), analysed),
        call_ensures(HtDemucs::<A>::forward, (model, magnitude, waveform), run),
        magnitude.shape@ == seq![1usize, 4, BINS, FRAMES],
        magnitude.data@.len() == 4 * PLANE,
        waveform.shape@ == seq![1usize, 2, SEGMENT],
        waveform.data@.len() == 2 * SEGMENT,
        forall|c: int, r: int|
            0 <= c < 4 && 0 <= r < PLANE ==> #[trigger] at2(magnitude.data@, PLANE as int, c, r)
                == planes@[c * PLANE + r],
        forall|i: int|
            0 <= i < SEGMENT ==> #[trigger] at3(waveform.data@, 2, SEGMENT as int, 0, 0, i)
                == left@[i],
        forall|i: int|
            0 <= i < SEGMENT ==> #[trigger] at3(waveform.data@, 2, SEGMENT as int, 0, 1, i)
                == right@[i],
    ensures
        analysed.0@ == run.0@,
        analysed.1@ == run.1@,
{
    lemma_read_by_rows::<A>(planes@, left@, right@, magnitude@, waveform@);
}

/// The spectrum of a stem's channel is two planes of the frequency branch:
/// the real parts are plane `4 * stem + 2 * channel`, the imaginary the next.
pub proof fn law_spectra_are_planes_of_their_stem<T: Copy>(
    frequency: &Tensor<T>,
    stem: usize,
    channel: usize,
    planes: (Vec<T>, Vec<T>),
    f: int,
    t: int,
)
    requires
        stem < 4,
        channel < 2,
        16 * PLANE <= frequency.data@.len(),
        call_ensures(spectrum::<T>, (frequency, stem, channel), planes),
        0 <= f < BINS,
        0 <= t < FRAMES,
    ensures
        planes.0@.len() == PLANE,
        planes.1@.len() == PLANE,
        planes.0@[f * FRAMES + t] == at4(
            frequency.data@,
            16,
            BINS as int,
            FRAMES as int,
            0,
            4 * stem + 2 * channel,
            f,
            t,
        ),
        planes.1@[f * FRAMES + t] == at4(
            frequency.data@,
            16,
            BINS as int,
            FRAMES as int,
            0,
            4 * stem + 2 * channel + 1,
            f,
            t,
        ),
{
    let from = (stem * 4 + channel * 2) * PLANE;
    assert(0 <= f * FRAMES + t < PLANE);
    assert(from + PLANE + PLANE <= 16 * PLANE);
}

/// The next segment is read in place: sample `p` of either channel is the
/// track's sample at the segment's start plus `p`, and zero past the end.
pub proof fn law_next_segments_are_read_in_place<A: Arithmetic>(
    separation: &Separation<A>,
    left: &[A::Real],
    right: &[A::Real],
    segment: Option<(Vec<A::Real>, Vec<A::Real>)>,
    p: int,
)
    requires
        separation.wf(),
        separation.total <= left@.len(),
        separation.total <= right@.len(),
        call_ensures(Separation::<A>::next_segment, (separation, left, right), segment),
        0 <= p < SEGMENT,
    ensures
        segment is None <==> separation.done == separation.offsets@.len(),
        segment matches Some((l, r)) ==> {
            let at = separation.offsets@[separation.done as int] + p;
            &&& l@.len() == SEGMENT
            &&& r@.len() == SEGMENT
            &&& at < separation.total ==> l@[p] == left@[at] && r@[p] == right@[at]
            &&& at >= separation.total ==> l@[p] == A::zero_spec() && r@[p] == A::zero_spec()
        },
{
}

/// Two runs of networks that differ in their first frequency encoder and their
/// embedding give the same, where the two come to the same entries together.
pub proof fn law_runs_see_encoder_and_embedding_as_a_sum<A: Arithmetic>(
    one: &HtDemucs<A>,
    other: &HtDemucs<A>,
    magnitude: &Tensor<A::Real>,
    waveform: &Tensor<A::Real>,
    first: (Tensor<A::Real>, Tensor<A::Real>),
    second: (Tensor<A::Real>, Tensor<A::Real>),
    x: Grid<A::Real>,
)
    requires
        call_ensures(HtDemucs::<A>::forward, (one, magnitude, waveform), first),
        call_ensures(HtDemucs::<A>::forward, (other, magnitude, waveform), second),
        x == normalised::<A>(magnitude@),
        one.encoders@.len() > 0,
        one.encoders@.len() == other.encoders@.len(),
        forall|i: int|
            1 <= i < one.encoders@.len() ==> #[trigger] one.encoders@[i] == other.encoders@[i],
        one.tencoders@ == other.tencoders@,
        one.decoders@ == other.decoders@,
        one.tdecoders@ == other.tdecoders@,
        one.decoders@.len() <= one.encoders@.len(),
        one.channel_upsampler == other.channel_upsampler,
        one.channel_upsampler_t == other.channel_upsampler_t,
        one.channel_downsampler == other.channel_downsampler,
        one.channel_downsampler_t == other.channel_downsampler_t,
        one.transformer == other.transformer,
        one.encoders@[0].output(x).shape == other.encoders@[0].output(x).shape,
        one.frequency_embedding.admits(one.encoders@[0].output(x).shape),
        other.frequency_embedding.admits(one.encoders@[0].output(x).shape),
        ({
            let shape = one.encoders@[0].output(x).shape;
            let (n1, n2, n3) = (shape[1] as int, shape[2] as int, shape[3] as int);
            forall|b: int, c: int, f: int, t: int|
                0 <= b < shape[0] && 0 <= c < n1 && 0 <= f < n2 && 0 <= t < n3
                    ==> A::plus_spec(
                    #[trigger] at4(one.encoders@[0].output(x).data, n1, n2, n3, b, c, f, t),
                    A::times_spec(
                        A::times_spec(A::literal_spec(1, 5), one.frequency_embedding.scale),
                        one.frequency_embedding.weight@[f * n1 + c],
                    ),
                ) == A::plus_spec(
                    at4(other.encoders@[0].output(x).data, n1, n2, n3, b, c, f, t),
                    A::times_spec(
                        A::times_spec(A::literal_spec(1, 5), other.frequency_embedding.scale),
                        other.frequency_embedding.weight@[f * n1 + c],
                    ),
                )
        }),
    ensures
        first.0@ == second.0@,
        first.1@ == second.1@,
{
    law_networks_see_encoder_and_embedding_as_a_sum::<A>(
        *one,
        *other,
        magnitude@,
        waveform@,
        x,
    );
}

/// Running a transformer whose branches are exchanged, on branches that are
/// exchanged, gives the results exchanged, with one frequency and positions
/// that weigh nothing.
pub proof fn law_runs_of_exchanged_branches_are_exchanged<A: Arithmetic>(
    one: &CrossTransformer<A>,
    other: &CrossTransformer<A>,
    x: &Tensor<A::Real>,
    xt: &Tensor<A::Real>,
    plane: &Tensor<A::Real>,
    line: &Tensor<A::Real>,
    first: (Tensor<A::Real>, Tensor<A::Real>),
    second: (Tensor<A::Real>, Tensor<A::Real>),
)
    requires
        ring::<A>(),
        x.wf(),
        xt.wf(),
        call_ensures(CrossTransformer::<A>::forward, (one, x, xt), first),
        call_ensures(CrossTransformer::<A>::forward, (other, plane, line), second),
        x.shape@.len() == 4,
        xt.shape@.len() == 3,
        x.shape@[2] == 1,
        x.shape@[0] == xt.shape@[0],
        line.shape@ == seq![x.shape@[0], x.shape@[1], x.shape@[3]],
        line.data@ == x.data@,
        plane.shape@ == seq![xt.shape@[0], xt.shape@[1], 1, xt.shape@[2]],
        plane.data@ == xt.data@,
        other.dim == one.dim,
        other.heads == one.heads,
        one.weight_pos_embed == A::zero_spec(),
        other.weight_pos_embed == A::zero_spec(),
        other.norm_in == one.norm_in_t,
        other.norm_in_t == one.norm_in,
        other.layers@ == one.layers_t@,
        other.layers_t@ == one.layers@,
        one.layers@.len() == one.layers_t@.len(),
        forall|i: int|
            0 <= i < one.layers@.len() ==> same_kind::<A>(
                #[trigger] one.layers@[i],
                one.layers_t@[i],
            ),
    ensures
        second.0.data@ == first.1.data@,
        second.1.data@ == first.0.data@,
{
    law_branches_are_treated_alike::<A>(*one, *other, x@, xt@, line@, plane@);
    assert((first.0@, first.1@) == one.output(x@, xt@));
    assert((second.0@, second.1@) == other.output(plane@, line@));
}

/// Attending takes weighted means: what is attended to is a linear layer on a
/// mixture of which every feature is a mean of the values, weighted by the
/// exponentials of the scores.
pub proof fn law_attending_takes_weighted_means<A: Arithmetic>(
    attention: &AttentionWeights<A>,
    q: &Tensor<A::Real>,
    k: &Tensor<A::Real>,
    v: &Tensor<A::Real>,
    heads: usize,
    out: Tensor<A::Real>,
) -> (mixture: Seq<A::Real>)
    requires
        field::<A>(),
        q.wf(),
        k.wf(),
        v.wf(),
        attention.admits(q.shape@, k.shape@, heads),
        v.shape@ == k.shape@,
        k.shape@[1] > 0,
        call_ensures(AttentionWeights::<A>::attend, (attention, q, k, v, heads), out),
    ensures
        mixture.len() == q.data@.len(),
        forall|b: int, t: int, head: int, e: int, scores: Seq<A::Real>|
            #![trigger are_scores::<A>(*attention, q@, k@, heads, b, t, head, scores), at3(
                mixture,
                q.shape@[1] as int,
                q.shape@[2] as int,
                b,
                t,
                head * (q.shape@[2] as int / heads as int) + e,
            )]
            0 <= b < q.shape@[0] && 0 <= t < q.shape@[1] && 0 <= head < heads && 0 <= e
                < q.shape@[2] as int / heads as int && are_scores::<A>(
                *attention,
                q@,
                k@,
                heads,
                b,
                t,
                head,
                scores,
            ) ==> is_weighted_mean::<A>(
                *attention,
                v@,
                b,
                head * (q.shape@[2] as int / heads as int) + e,
                scores,
                at3(
                    mixture,
                    q.shape@[1] as int,
                    q.shape@[2] as int,
                    b,
                    t,
                    head * (q.shape@[2] as int / heads as int) + e,
                ),
            ),
        forall|row: int, o: int|
            0 <= row < q.shape@[0] * q.shape@[1] && 0 <= o < attention.out_proj.bias@.len()
                ==> #[trigger] at2(
                out.data@,
                attention.out_proj.bias@.len() as int,
                row,
                o,
            ) == A::plus_spec(
                total::<A>(
                    q.shape@[2] as int,
                    |i: int|
                        A::times_spec(
                            mixture[row * q.shape@[2] + i],
                            attention.out_proj.weight@[o * q.shape@[2] + i],
                        ),
                ),
                attention.out_proj.bias@[o],
            ),
{
    let mixture = law_attention_takes_weighted_means::<A>(*attention, q@, k@, v@, heads);
    assert(out@ == attention.output(q@, k@, v@, heads));
    assert forall|row: int, o: int|
        0 <= row < q.shape@[0] * q.shape@[1] && 0 <= o
            < attention.out_proj.bias@.len() implies #[trigger] at2(
        out.data@,
        attention.out_proj.bias@.len() as int,
        row,
        o,
    ) == A::plus_spec(
        total::<A>(
            q.shape@[2] as int,
            |i: int|
                A::times_spec(
                    mixture[row * q.shape@[2] + i],
                    attention.out_proj.weight@[o * q.shape@[2] + i],
                ),
        ),
        attention.out_proj.bias@[o],
    ) by {
        let whole = attention.output(q@, k@, v@, heads);
        assert(at2(whole.data, attention.out_proj.bias@.len() as int, row, o) == at2(
            out.data@,
            attention.out_proj.bias@.len() as int,
            row,
            o,
        ));
        lemma_total_alike::<A>(
            q.shape@[2] as int,
            |i: int|
                A::times_spec(
                    mixture[row * q@.shape[2] + i],
                    attention.out_proj.weight@[o * q@.shape[2] + i],
                ),
            |i: int|
                A::times_spec(
                    mixture[row * q.shape@[2] + i],
                    attention.out_proj.weight@[o * q.shape@[2] + i],
                ),
        );
    }
    mixture
}

/// Two runs of a decoder, on either branch, give the same where the sums of
/// input and skip are the same.
pub proof fn law_runs_of_decoders_see_the_sum<A: Arithmetic>(
    layer: &DecLayer<A>,
    x: &Tensor<A::Real>,
    skip: &Tensor<A::Real>,
    y: &Tensor<A::Real>,
    other: &Tensor<A::Real>,
    length: usize,
    first: Tensor<A::Real>,
    second: Tensor<A::Real>,
)
    requires
        call_ensures(DecLayer::<A>::forward, (layer, x, skip, length), first),
        call_ensures(DecLayer::<A>::forward, (layer, y, other, length), second),
        x.shape@ == y.shape@,
        x.data@.len() == y.data@.len(),
        forall|p: int|
            0 <= p < x.data@.len() ==> #[trigger] A::plus_spec(x.data@[p], skip.data@[p])
                == A::plus_spec(y.data@[p], other.data@[p]),
    ensures
        first@ == second@,
{
    law_decoders_see_the_sum::<A>(*layer, x@, skip@, y@, other@, length);
}

/// Running a decoder with input and skip exchanged gives the same where a sum
/// of two does not depend on which comes first.
pub proof fn law_runs_of_decoders_are_symmetric<A: Arithmetic>(
    layer: &DecLayer<A>,
    x: &Tensor<A::Real>,
    skip: &Tensor<A::Real>,
    length: usize,
    first: Tensor<A::Real>,
    second: Tensor<A::Real>,
)
    requires
        call_ensures(DecLayer::<A>::forward, (layer, x, skip, length), first),
        call_ensures(DecLayer::<A>::forward, (layer, skip, x, length), second),
        x.shape@ == skip.shape@,
        x.data@.len() == skip.data@.len(),
        forall|a: A::Real, b: A::Real| #[trigger] A::plus_spec(a, b) == A::plus_spec(b, a),
    ensures
        first@ == second@,
{
    law_input_and_skip_can_be_exchanged::<A>(*layer, x@, skip@, length);
}

} // verus!
