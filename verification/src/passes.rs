//! The way of a spectrogram and a waveform through the network.

use vstd::prelude::*;

use crate::arithmetic::Arithmetic;
use crate::encoder::FrequencyEmbedding;
use crate::index::{at2, at4, lemma_extent, lemma_join2, lemma_join4, lemma_split4};
use crate::model::HtDemucs;
use crate::moments::{denormalised, normalised, sample_moments, sample_size};
use crate::parameters::parameter;
use crate::rings::{lemma_commute, lemma_regroup, ring};
use crate::tensor::Grid;
use crate::weights::Store;

verus! {

/// Whether `out` is `y`, `[B, C, Fr, T]`, with `factor` times a vector of each
/// frequency added.
pub open spec fn adds_by_frequency<A: Arithmetic>(
    y: Grid<A::Real>,
    factor: A::Real,
    vectors: Seq<A::Real>,
    out: Grid<A::Real>,
) -> bool {
    &&& out.shape == y.shape
    &&& forall|b: int, c: int, f: int, t: int|
        0 <= b < y.shape[0] && 0 <= c < y.shape[1] && 0 <= f < y.shape[2] && 0 <= t < y.shape[3]
            ==> #[trigger] at4(
            out.data,
            y.shape[1] as int,
            y.shape[2] as int,
            y.shape[3] as int,
            b,
            c,
            f,
            t,
        ) == A::plus_spec(
            at4(
                y.data,
                y.shape[1] as int,
                y.shape[2] as int,
                y.shape[3] as int,
                b,
                c,
                f,
                t,
            ),
            A::times_spec(factor, vectors[f * y.shape[1] + c]),
        )
}

/// The frequency embedding is added by frequency: an entry gains the factor
/// times the embedding's own scale times the vector of its frequency.
pub proof fn law_embeddings_are_added_by_frequency<A: Arithmetic>(
    embedding: FrequencyEmbedding<A>,
    y: Grid<A::Real>,
    weight_scale: A::Real,
)
    requires
        embedding.admits(y.shape),
    ensures
        adds_by_frequency::<A>(
            y,
            A::times_spec(weight_scale, embedding.scale),
            embedding.weight@,
            embedding.output(y, weight_scale),
        ),
{
    reveal(FrequencyEmbedding::output);
    let out = embedding.output(y, weight_scale);
    let (n0, n1, n2, n3) = (
        y.shape[0] as int,
        y.shape[1] as int,
        y.shape[2] as int,
        y.shape[3] as int,
    );
    assert forall|b: int, c: int, f: int, t: int|
        0 <= b < n0 && 0 <= c < n1 && 0 <= f < n2 && 0 <= t < n3 implies #[trigger] at4(
        out.data,
        n1,
        n2,
        n3,
        b,
        c,
        f,
        t,
    ) == A::plus_spec(
        at4(y.data, n1, n2, n3, b, c, f, t),
        A::times_spec(
            A::times_spec(weight_scale, embedding.scale),
            embedding.weight@[f * y.shape[1] + c],
        ),
    ) by {
        lemma_join4(n0, n1, n2, n3, b, c, f, t);
    }
}

/// The first encoder's output, which the next encoder takes and the last
/// decoder gets as its skip, carries the frequency embedding of the bundle: a
/// fifth of ten times the vector of its frequency is added to every entry.
pub proof fn law_the_first_skip_carries_the_embedding<A: Arithmetic>(
    model: HtDemucs<A>,
    store: Store,
    x: Grid<A::Real>,
)
    requires
        model.is_from(store),
        model.frequency_embedding.admits(model.encoders@[0].output(x).shape),
    ensures
        adds_by_frequency::<A>(
            model.encoders@[0].output(x),
            A::times_spec(A::literal_spec(1, 5), A::literal_spec(10, 1)),
            parameter::<A>(store, "freq_emb.embedding.weight"@),
            model.encoded(x, 1),
        ),
{
    reveal(HtDemucs::is_from);
    law_embeddings_are_added_by_frequency::<A>(
        model.frequency_embedding,
        model.encoders@[0].output(x),
        A::literal_spec(1, 5),
    );
    assert(model.encoded(x, 0) == x);
}

/// Two networks that differ in their frequency embeddings alone have first
/// skips that differ by those embeddings, and by nothing else.
pub proof fn law_embeddings_shift_the_first_skip<A: Arithmetic>(
    one: HtDemucs<A>,
    other: HtDemucs<A>,
    x: Grid<A::Real>,
    b: int,
    c: int,
    f: int,
    t: int,
)
    requires
        ring::<A>(),
        one.encoders@.len() > 0,
        other.encoders@.len() > 0,
        one.encoders@[0] == other.encoders@[0],
        one.frequency_embedding.admits(one.encoders@[0].output(x).shape),
        other.frequency_embedding.admits(one.encoders@[0].output(x).shape),
        0 <= b < one.encoders@[0].output(x).shape[0],
        0 <= c < one.encoders@[0].output(x).shape[1],
        0 <= f < one.encoders@[0].output(x).shape[2],
        0 <= t < one.encoders@[0].output(x).shape[3],
    ensures
        ({
            let shape = one.encoders@[0].output(x).shape;
            let (n1, n2, n3) = (shape[1] as int, shape[2] as int, shape[3] as int);
            A::plus_spec(
                at4(one.encoded(x, 1).data, n1, n2, n3, b, c, f, t),
                A::times_spec(
                    A::times_spec(A::literal_spec(1, 5), other.frequency_embedding.scale),
                    other.frequency_embedding.weight@[f * n1 + c],
                ),
            ) == A::plus_spec(
                at4(other.encoded(x, 1).data, n1, n2, n3, b, c, f, t),
                A::times_spec(
                    A::times_spec(A::literal_spec(1, 5), one.frequency_embedding.scale),
                    one.frequency_embedding.weight@[f * n1 + c],
                ),
            )
        }),
{
    let y = one.encoders@[0].output(x);
    law_embeddings_are_added_by_frequency::<A>(one.frequency_embedding, y, A::literal_spec(1, 5));
    law_embeddings_are_added_by_frequency::<A>(other.frequency_embedding, y, A::literal_spec(1, 5));
    assert(one.encoded(x, 0) == x && other.encoded(x, 0) == x);
    let n1 = y.shape[1] as int;
    let base = at4(y.data, n1, y.shape[2] as int, y.shape[3] as int, b, c, f, t);
    let u = A::times_spec(
        A::times_spec(A::literal_spec(1, 5), one.frequency_embedding.scale),
        one.frequency_embedding.weight@[f * n1 + c],
    );
    let v = A::times_spec(
        A::times_spec(A::literal_spec(1, 5), other.frequency_embedding.scale),
        other.frequency_embedding.weight@[f * n1 + c],
    );
    lemma_regroup::<A>(base, u, v);
    lemma_regroup::<A>(base, v, u);
    lemma_commute::<A>(u, v);
    assert(at4(
        one.encoded(x, 1).data,
        n1,
        y.shape[2] as int,
        y.shape[3] as int,
        b,
        c,
        f,
        t,
    ) == A::plus_spec(base, u));
    assert(at4(
        other.encoded(x, 1).data,
        n1,
        y.shape[2] as int,
        y.shape[3] as int,
        b,
        c,
        f,
        t,
    ) == A::plus_spec(base, v));
}

/// What a branch was on its way: before every encoder and after the last, and
/// before every decoder and after the last.
pub struct Way<R> {
    pub down: Seq<Grid<R>>,
    pub up: Seq<Grid<R>>,
}

/// Every sample less its mean, over its deviation and a little.
pub open spec fn is_standardised<A: Arithmetic>(x: Grid<A::Real>, out: Grid<A::Real>) -> bool {
    let size = sample_size(x.shape);
    &&& out.shape == x.shape
    &&& forall|b: int, r: int|
        0 <= b < x.shape[0] && 0 <= r < size ==> #[trigger] at2(out.data, size, b, r)
            == A::over_spec(
            A::minus_spec(at2(x.data, size, b, r), sample_moments::<A>(x)[b].mean),
            A::plus_spec(A::literal_spec(1, 100_000), sample_moments::<A>(x)[b].deviation),
        )
}

/// Every sample times the deviation of the input's, plus its mean.
pub open spec fn is_restored<A: Arithmetic>(
    input: Grid<A::Real>,
    x: Grid<A::Real>,
    out: Grid<A::Real>,
) -> bool {
    let size = sample_size(x.shape);
    &&& out.shape == x.shape
    &&& forall|b: int, r: int|
        0 <= b < x.shape[0] && 0 <= r < size ==> #[trigger] at2(out.data, size, b, r)
            == A::plus_spec(
            A::times_spec(at2(x.data, size, b, r), sample_moments::<A>(input)[b].deviation),
            sample_moments::<A>(input)[b].mean,
        )
}

proof fn lemma_standardised<A: Arithmetic>(x: Grid<A::Real>)
    ensures
        is_standardised::<A>(x, normalised::<A>(x)),
{
    reveal(normalised);
    let size = sample_size(x.shape);
    let out = normalised::<A>(x);
    assert forall|b: int, r: int| 0 <= b < x.shape[0] && 0 <= r < size implies #[trigger] at2(
        out.data,
        size,
        b,
        r,
    ) == A::over_spec(
        A::minus_spec(at2(x.data, size, b, r), sample_moments::<A>(x)[b].mean),
        A::plus_spec(A::literal_spec(1, 100_000), sample_moments::<A>(x)[b].deviation),
    ) by {
        lemma_join2(x.shape[0] as int, size, b, r);
    }
}

proof fn lemma_restored<A: Arithmetic>(input: Grid<A::Real>, x: Grid<A::Real>)
    ensures
        is_restored::<A>(input, x, denormalised::<A>(x, sample_moments::<A>(input))),
{
    reveal(denormalised);
    let size = sample_size(x.shape);
    let out = denormalised::<A>(x, sample_moments::<A>(input));
    assert forall|b: int, r: int| 0 <= b < x.shape[0] && 0 <= r < size implies #[trigger] at2(
        out.data,
        size,
        b,
        r,
    ) == A::plus_spec(
        A::times_spec(at2(x.data, size, b, r), sample_moments::<A>(input)[b].deviation),
        sample_moments::<A>(input)[b].mean,
    ) by {
        lemma_join2(x.shape[0] as int, size, b, r);
    }
}

/// The network's way from its inputs to its outputs. Each branch's samples are
/// standardised by their own moments. Every encoder takes what the one before
/// it gave; the frequency embedding joins after the first. Both branches meet in
/// the transformer, their channels raised before it and lowered after it. Every
/// decoder takes what the one before it gave, the output of the opposite
/// encoder as its skip, and the length of that encoder's input. The outputs are
/// taken back to the moments of their own inputs.
pub proof fn law_every_skip_meets_its_decoder<A: Arithmetic>(
    model: HtDemucs<A>,
    magnitude: Grid<A::Real>,
    waveform: Grid<A::Real>,
) -> (ways: (Way<A::Real>, Way<A::Real>))
    requires
        model.admits(magnitude.shape, waveform.shape),
        model.encoders@.len() > 0,
    ensures
        ({
            let (way, way_t) = ways;
            let depth = model.encoders@.len();
            let count = model.decoders@.len();
            let (frequency, time) = model.output(magnitude, waveform);
            let (inner, inner_t) = model.transformer.output(
                model.channel_upsampler.plane_output(way.down[depth as int]),
                model.channel_upsampler_t.output(way_t.down[depth as int]),
            );
            &&& way.down.len() == depth + 1
            &&& way_t.down.len() == depth + 1
            &&& way.up.len() == count + 1
            &&& way_t.up.len() == count + 1
            &&& is_standardised::<A>(magnitude, way.down[0])
            &&& is_standardised::<A>(waveform, way_t.down[0])
            &&& way.down[1] == model.frequency_embedding.output(
                model.encoders@[0].output(way.down[0]),
                A::literal_spec(1, 5),
            )
            &&& forall|i: int|
                1 <= i < depth ==> #[trigger] way.down[i + 1] == model.encoders@[i].output(
                    way.down[i],
                )
            &&& forall|i: int|
                0 <= i < depth ==> #[trigger] way_t.down[i + 1] == model.tencoders@[i].output(
                    way_t.down[i],
                )
            &&& way.up[0] == model.channel_downsampler.plane_output(inner)
            &&& way_t.up[0] == model.channel_downsampler_t.output(inner_t)
            &&& forall|i: int|
                0 <= i < count ==> #[trigger] way.up[i + 1] == model.decoders@[i].output(
                    way.up[i],
                    way.down[depth - i],
                    way.down[depth - i - 1].shape[2],
                )
            &&& forall|i: int|
                0 <= i < count ==> #[trigger] way_t.up[i + 1] == model.tdecoders@[i].output(
                    way_t.up[i],
                    way_t.down[depth - i],
                    way_t.down[depth - i - 1].shape[2],
                )
            &&& is_restored::<A>(magnitude, way.up[count as int], frequency)
            &&& is_restored::<A>(waveform, way_t.up[count as int], time)
        }),
{
    reveal(HtDemucs::admits);
    reveal(HtDemucs::output);
    let depth = model.encoders@.len();
    let count = model.decoders@.len();
    let x = normalised::<A>(magnitude);
    let xt = normalised::<A>(waveform);
    lemma_standardised::<A>(magnitude);
    lemma_standardised::<A>(waveform);
    let down = Seq::new(depth + 1, |i: int| model.encoded(x, i));
    let down_t = Seq::new(depth + 1, |i: int| model.encoded_t(xt, i));
    let (a, b) = model.crossed(down[depth as int], down_t[depth as int]);
    let up = Seq::new(count + 1, |i: int| model.decoded(x, a, i));
    let up_t = Seq::new(count + 1, |i: int| model.decoded_t(xt, b, i));
    lemma_restored::<A>(magnitude, up[count as int]);
    lemma_restored::<A>(waveform, up_t[count as int]);
    assert(model.encoded(x, 0) == x && model.encoded_t(xt, 0) == xt);
    assert(model.encoded(x, 1) == model.frequency_embedding.output(
        model.encoders@[0].output(x),
        A::literal_spec(1, 5),
    ));
    assert forall|i: int| 1 <= i < depth implies #[trigger] down[i + 1]
        == model.encoders@[i].output(down[i]) by {}
    assert forall|i: int| 0 <= i < depth implies #[trigger] down_t[i + 1]
        == model.tencoders@[i].output(down_t[i]) by {}
    assert forall|i: int| 0 <= i < count implies #[trigger] up[i + 1]
        == model.decoders@[i].output(
        up[i],
        down[depth - i],
        down[depth - i - 1].shape[2],
    ) by {}
    assert forall|i: int| 0 <= i < count implies #[trigger] up_t[i + 1]
        == model.tdecoders@[i].output(
        up_t[i],
        down_t[depth - i],
        down_t[depth - i - 1].shape[2],
    ) by {}
    (Way { down, up }, Way { down: down_t, up: up_t })
}

/// Encoders that agree from the second on agree on what they are given.
proof fn lemma_encoded_alike<A: Arithmetic>(
    one: HtDemucs<A>,
    other: HtDemucs<A>,
    x: Grid<A::Real>,
    count: int,
)
    requires
        1 <= count <= one.encoders@.len(),
        one.encoders@.len() == other.encoders@.len(),
        forall|i: int|
            1 <= i < one.encoders@.len() ==> #[trigger] one.encoders@[i] == other.encoders@[i],
        one.encoded(x, 1) == other.encoded(x, 1),
    ensures
        one.encoded(x, count) == other.encoded(x, count),
    decreases count,
{
    if count > 1 {
        lemma_encoded_alike::<A>(one, other, x, count - 1);
        assert(one.encoders@[count - 1] == other.encoders@[count - 1]);
    }
}

proof fn lemma_encoded_alike_t<A: Arithmetic>(
    one: HtDemucs<A>,
    other: HtDemucs<A>,
    xt: Grid<A::Real>,
    count: int,
)
    requires
        one.tencoders@ == other.tencoders@,
    ensures
        one.encoded_t(xt, count) == other.encoded_t(xt, count),
    decreases count,
{
    if count > 0 {
        lemma_encoded_alike_t::<A>(one, other, xt, count - 1);
    }
}

proof fn lemma_decoded_alike<A: Arithmetic>(
    one: HtDemucs<A>,
    other: HtDemucs<A>,
    x: Grid<A::Real>,
    start: Grid<A::Real>,
    count: int,
)
    requires
        0 <= count <= one.encoders@.len(),
        one.encoders@.len() == other.encoders@.len(),
        forall|i: int|
            1 <= i < one.encoders@.len() ==> #[trigger] one.encoders@[i] == other.encoders@[i],
        one.encoded(x, 1) == other.encoded(x, 1),
        one.decoders@ == other.decoders@,
    ensures
        one.decoded(x, start, count) == other.decoded(x, start, count),
    decreases count,
{
    if count > 0 {
        lemma_decoded_alike::<A>(one, other, x, start, count - 1);
        let level = one.encoders@.len() - count;
        lemma_encoded_alike::<A>(one, other, x, level + 1);
        if level > 0 {
            lemma_encoded_alike::<A>(one, other, x, level);
        } else {
            assert(one.encoded(x, 0) == x && other.encoded(x, 0) == x);
        }
    }
}

proof fn lemma_decoded_alike_t<A: Arithmetic>(
    one: HtDemucs<A>,
    other: HtDemucs<A>,
    xt: Grid<A::Real>,
    start: Grid<A::Real>,
    count: int,
)
    requires
        one.encoders@.len() == other.encoders@.len(),
        one.tencoders@ == other.tencoders@,
        one.tdecoders@ == other.tdecoders@,
    ensures
        one.decoded_t(xt, start, count) == other.decoded_t(xt, start, count),
    decreases count,
{
    if count > 0 {
        lemma_decoded_alike_t::<A>(one, other, xt, start, count - 1);
        let level = one.encoders@.len() - count;
        lemma_encoded_alike_t::<A>(one, other, xt, level + 1);
        lemma_encoded_alike_t::<A>(one, other, xt, level);
    }
}

/// A network sees its first encoder and its frequency embedding only through
/// their sum: another first encoder with another embedding, which come to the
/// same entries, make the same outputs.
pub proof fn law_networks_see_encoder_and_embedding_as_a_sum<A: Arithmetic>(
    one: HtDemucs<A>,
    other: HtDemucs<A>,
    magnitude: Grid<A::Real>,
    waveform: Grid<A::Real>,
    x: Grid<A::Real>,
)
    requires
        x == normalised::<A>(magnitude),
        one.encoders@.len() > 0,
        one.encoders@.len() == other.encoders@.len(),
        forall|i: int|
            1 <= i < one.encoders@.len() ==> #[trigger] one.encoders@[i] == other.encoders@[i],
        one.tencoders@ == other.tencoders@,
        one.decoders@ == other.decoders@,
        one.tdecoders@ == other.tdecoders@,
        one.decoders@.len() <= one.encoders@.len(),
        one.channel_upsampler == other.channel_upsampler,
        one.channel_upsampler_t == other.channel_upsampler_t,
        one.channel_downsampler == other.channel_downsampler,
        one.channel_downsampler_t == other.channel_downsampler_t,
        one.transformer == other.transformer,
        one.encoders@[0].output(x).shape == other.encoders@[0].output(x).shape,
        one.frequency_embedding.admits(one.encoders@[0].output(x).shape),
        other.frequency_embedding.admits(one.encoders@[0].output(x).shape),
        ({
            let shape = one.encoders@[0].output(x).shape;
            let (n1, n2, n3) = (shape[1] as int, shape[2] as int, shape[3] as int);
            forall|b: int, c: int, f: int, t: int|
                0 <= b < shape[0] && 0 <= c < n1 && 0 <= f < n2 && 0 <= t < n3
                    ==> A::plus_spec(
                    #[trigger] at4(one.encoders@[0].output(x).data, n1, n2, n3, b, c, f, t),
                    A::times_spec(
                        A::times_spec(A::literal_spec(1, 5), one.frequency_embedding.scale),
                        one.frequency_embedding.weight@[f * n1 + c],
                    ),
                ) == A::plus_spec(
                    at4(other.encoders@[0].output(x).data, n1, n2, n3, b, c, f, t),
                    A::times_spec(
                        A::times_spec(A::literal_spec(1, 5), other.frequency_embedding.scale),
                        other.frequency_embedding.weight@[f * n1 + c],
                    ),
                )
        }),
    ensures
        one.output(magnitude, waveform) == other.output(magnitude, waveform),
{
    reveal(HtDemucs::output);
    let (y, z) = (one.encoders@[0].output(x), other.encoders@[0].output(x));
    let fifth = A::literal_spec(1, 5);
    let (u, v) = (
        one.frequency_embedding.output(y, fifth),
        other.frequency_embedding.output(z, fifth),
    );
    assert(one.encoded(x, 0) == x && other.encoded(x, 0) == x);
    assert(u == v) by {
        reveal(FrequencyEmbedding::output);
        let (n0, n1, n2, n3) = (
            y.shape[0] as int,
            y.shape[1] as int,
            y.shape[2] as int,
            y.shape[3] as int,
        );
        assert(u.data.len() == v.data.len());
        assert forall|p: int| 0 <= p < u.data.len() implies #[trigger] u.data[p] == v.data[p] by {
            lemma_extent(n0, n1);
            lemma_extent(n0 * n1, n2);
            lemma_extent(n0 * n1 * n2, n3);
            lemma_split4(n0, n1, n2, n3, p);
            let (b, c, f, t) = (p / n3 / n2 / n1, p / n3 / n2 % n1, p / n3 % n2, p % n3);
            assert(at4(y.data, n1, n2, n3, b, c, f, t) == at4(y.data, n1, n2, n3, b, c, f, t));
        }
        assert(u.data =~= v.data);
    }
    let depth = one.encoders@.len() as int;
    let count = one.decoders@.len() as int;
    let xt = normalised::<A>(waveform);
    lemma_encoded_alike::<A>(one, other, x, depth);
    lemma_encoded_alike_t::<A>(one, other, xt, depth);
    let (a, b) = one.crossed(one.encoded(x, depth), one.encoded_t(xt, depth));
    lemma_decoded_alike::<A>(one, other, x, a, count);
    lemma_decoded_alike_t::<A>(one, other, xt, b, count);
}

/// Inputs that are alike once standardised give outputs that are alike but for
/// the moments: the frequency output is taken back to the spectrogram's, the
/// time output to the waveform's.
pub proof fn law_outputs_follow_the_moments_of_their_inputs<A: Arithmetic>(
    model: HtDemucs<A>,
    magnitude: Grid<A::Real>,
    waveform: Grid<A::Real>,
    other_magnitude: Grid<A::Real>,
    other_waveform: Grid<A::Real>,
) -> (cores: (Grid<A::Real>, Grid<A::Real>))
    requires
        normalised::<A>(magnitude) == normalised::<A>(other_magnitude),
        normalised::<A>(waveform) == normalised::<A>(other_waveform),
    ensures
        is_restored::<A>(magnitude, cores.0, model.output(magnitude, waveform).0),
        is_restored::<A>(waveform, cores.1, model.output(magnitude, waveform).1),
        is_restored::<A>(
            other_magnitude,
            cores.0,
            model.output(other_magnitude, other_waveform).0,
        ),
        is_restored::<A>(
            other_waveform,
            cores.1,
            model.output(other_magnitude, other_waveform).1,
        ),
{
    reveal(HtDemucs::output);
    let x = normalised::<A>(magnitude);
    let xt = normalised::<A>(waveform);
    let depth = model.encoders@.len() as int;
    let count = model.decoders@.len() as int;
    let (a, b) = model.crossed(model.encoded(x, depth), model.encoded_t(xt, depth));
    let cores = (model.decoded(x, a, count), model.decoded_t(xt, b, count));
    lemma_restored::<A>(magnitude, cores.0);
    lemma_restored::<A>(waveform, cores.1);
    lemma_restored::<A>(other_magnitude, cores.0);
    lemma_restored::<A>(other_waveform, cores.1);
    cores
}

} // verus!
