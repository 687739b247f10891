//! Sinusoidal embeddings of positions.

use vstd::prelude::*;

use crate::arithmetic::{lawful, Arithmetic};
use crate::index::{lemma_extent, lemma_split2, table2};
use crate::tensor::{addressable, lemma_rank3, Grid, Tensor};

verus! {

/// The angle of a position in channel pair `pair`: slower for later pairs.
pub open spec fn angle<A: Arithmetic>(
    position: int,
    pair: int,
    half: int,
    max_period: A::Real,
) -> A::Real {
    A::over_spec(
        A::from_count_spec(position as usize),
        A::power_spec(
            max_period,
            A::over_spec(
                A::from_count_spec(pair as usize),
                A::from_count_spec((half - 1) as usize),
            ),
        ),
    )
}

/// One entry of the embedding of a line: cosines in the first half of the
/// channels, sines in the second, and zero in the odd channel if there is one.
pub open spec fn embedded_1d<A: Arithmetic>(
    time: int,
    channel: int,
    half: int,
    max_period: A::Real,
) -> A::Real {
    if channel < half {
        A::cosine_spec(angle::<A>(time, channel, half, max_period))
    } else if channel < 2 * half {
        A::sine_spec(angle::<A>(time, channel - half, half, max_period))
    } else {
        A::zero_spec()
    }
}

/// The embedding of a line of `time` positions, `[T, 1, C]`.
pub open spec fn embedding_1d<A: Arithmetic>(
    time: usize,
    dim: usize,
    max_period: A::Real,
) -> Grid<A::Real> {
    let half = dim as int / 2;
    Grid {
        shape: seq![time, 1, dim],
        data: table2(
            time as int,
            dim as int,
            |t: int, c: int| embedded_1d::<A>(t, c, half, max_period),
        ),
    }
}

/// The embedding of a line of positions: cosine half, then sine half.
pub fn sin_embedding_1d<A: Arithmetic>(time: usize, dim: usize, max_period: A::Real) -> (out:
    Tensor<A::Real>)
    requires
        lawful::<A>(),
        addressable(seq![time, 1, dim]),
    ensures
        out@ == embedding_1d::<A>(time, dim, max_period),
        out.wf(),
{
    let ghost result = embedding_1d::<A>(time, dim, max_period);
    let half = dim / 2;
    proof {
        lemma_rank3(result.shape);
        lemma_extent(time as int, dim as int);
        assert(time * 1 * dim == time * dim);
    }
    let count = time * dim;
    let mut data: Vec<A::Real> = Vec::new();
    while data.len() < count
        invariant
            lawful::<A>(),
            half == dim / 2,
            count == time * dim,
            data@.len() <= count,
            forall|p: int|
                0 <= p < data@.len() ==> #[trigger] data@[p] == embedded_1d::<A>(
                    p / dim as int,
                    p % dim as int,
                    half as int,
                    max_period,
                ),
        decreases count - data@.len(),
    {
        let position = data.len();
        proof {
            lemma_split2(time as int, dim as int, position as int);
        }
        let t = position / dim;
        let channel = position % dim;
        if channel < 2 * half {
            let pair = if channel < half {
                channel
            } else {
                channel - half
            };
            let exponent = A::over(A::from_count(pair), A::from_count(half - 1));
            let turn = A::over(A::from_count(t), A::power(max_period, exponent));
            if channel < half {
                data.push(A::cosine(turn));
            } else {
                data.push(A::sine(turn));
            }
        } else {
            data.push(A::zero());
        }
    }
    let out = Tensor { shape: vec![time, 1, dim], data };
    proof {
        assert(out@.data =~= result.data);
        assert(out@.shape =~= result.shape);
    }
    out
}

/// How fast the angle of channel pair `pair` turns.
pub open spec fn turn<A: Arithmetic>(pair: int, half: int, max_period: A::Real) -> A::Real {
    A::exponential_spec(
        A::times_spec(
            A::negated_spec(A::from_count_spec((2 * pair) as usize)),
            A::over_spec(A::logarithm_spec(max_period), A::from_count_spec(half as usize)),
        ),
    )
}

/// The sine (even channels) or the cosine (odd channels) of a position.
pub open spec fn wave<A: Arithmetic>(
    position: int,
    channel: int,
    half: int,
    max_period: A::Real,
) -> A::Real {
    let turned = A::times_spec(
        A::from_count_spec(position as usize),
        turn::<A>(channel / 2, half, max_period),
    );
    if channel % 2 == 0 {
        A::sine_spec(turned)
    } else {
        A::cosine_spec(turned)
    }
}

/// One entry of the embedding of a plane: the time in the first half of the
/// channels, the frequency in the second, and zeros where a half has an odd
/// channel.
pub open spec fn embedded_2d<A: Arithmetic>(
    time: int,
    frequency: int,
    channel: int,
    half: int,
    max_period: A::Real,
) -> A::Real {
    let used = 2 * (half / 2);
    if channel < used {
        wave::<A>(time, channel, half, max_period)
    } else if half <= channel < half + used {
        wave::<A>(frequency, channel - half, half, max_period)
    } else {
        A::zero_spec()
    }
}

/// The embedding of a plane, `[1, T * Fr, C]`, token `t * Fr + fr`.
pub open spec fn embedding_2d<A: Arithmetic>(
    dim: usize,
    frequency: usize,
    time: usize,
    max_period: A::Real,
) -> Grid<A::Real> {
    let half = dim as int / 2;
    let f = frequency as int;
    Grid {
        shape: seq![1, (time * frequency) as usize, dim],
        data: table2(
            time * frequency,
            dim as int,
            |token: int, c: int|
                embedded_2d::<A>(token / f, token % f, c, half, max_period),
        ),
    }
}

/// The embedding of a plane of positions: time half, then frequency half.
pub fn sin_embedding_2d<A: Arithmetic>(
    dim: usize,
    frequency: usize,
    time: usize,
    max_period: A::Real,
) -> (out: Tensor<A::Real>)
    requires
        lawful::<A>(),
        time * frequency <= usize::MAX,
        addressable(seq![1, (time * frequency) as usize, dim]),
    ensures
        out@ == embedding_2d::<A>(dim, frequency, time, max_period),
        out.wf(),
{
    let ghost result = embedding_2d::<A>(dim, frequency, time, max_period);
    let half = dim / 2;
    let pairs = half / 2;
    let used = 2 * pairs;
    proof {
        lemma_rank3(result.shape);
        lemma_extent(time as int, frequency as int);
    }
    let tokens = time * frequency;
    proof {
        lemma_extent(tokens as int, dim as int);
        assert(1 * tokens * dim == tokens * dim);
    }
    let log_period = A::over(A::logarithm(max_period), A::from_count(half));
    let mut turns: Vec<A::Real> = Vec::new();
    while turns.len() < pairs
        invariant
            lawful::<A>(),
            half == dim / 2,
            pairs == half / 2,
            log_period == A::over_spec(
                A::logarithm_spec(max_period),
                A::from_count_spec(half),
            ),
            turns@.len() <= pairs,
            forall|i: int|
                0 <= i < turns@.len() ==> #[trigger] turns@[i] == turn::<A>(
                    i,
                    half as int,
                    max_period,
                ),
        decreases pairs - turns@.len(),
    {
        let pair = turns.len();
        turns.push(
            A::exponential(A::times(A::negated(A::from_count(2 * pair)), log_period)),
        );
    }
    let count = tokens * dim;
    let mut data: Vec<A::Real> = Vec::new();
    while data.len() < count
        invariant
            lawful::<A>(),
            half == dim / 2,
            pairs == half / 2,
            used == 2 * pairs,
            tokens == time * frequency,
            count == tokens * dim,
            turns@.len() == pairs,
            forall|i: int|
                0 <= i < pairs ==> #[trigger] turns@[i] == turn::<A>(i, half as int, max_period),
            data@.len() <= count,
            forall|p: int|
                0 <= p < data@.len() ==> #[trigger] data@[p] == embedded_2d::<A>(
                    p / dim as int / frequency as int,
                    p / dim as int % frequency as int,
                    p % dim as int,
                    half as int,
                    max_period,
                ),
        decreases count - data@.len(),
    {
        let position = data.len();
        proof {
            lemma_split2(tokens as int, dim as int, position as int);
            lemma_split2(time as int, frequency as int, position as int / dim as int);
        }
        let token = position / dim;
        let channel = position % dim;
        let place = if channel < half {
            channel
        } else {
            channel - half
        };
        if place < used {
            let along = if channel < half {
                token / frequency
            } else {
                token % frequency
            };
            let turned = A::times(A::from_count(along), turns[place / 2]);
            if place % 2 == 0 {
                data.push(A::sine(turned));
            } else {
                data.push(A::cosine(turned));
            }
        } else {
            data.push(A::zero());
        }
    }
    let out = Tensor { shape: vec![1, tokens, dim], data };
    proof {
        assert(out@.data =~= result.data);
        assert(out@.shape =~= result.shape);
    }
    out
}

/// How many entries of `x` belong to one sample: all of them, unless the first
/// of three axes or more counts the samples.
pub open spec fn run_length<R>(x: Grid<R>) -> int {
    if x.shape.len() >= 3 && 0 < x.shape[0] <= x.data.len() {
        x.data.len() as int / x.shape[0] as int
    } else {
        x.data.len() as int
    }
}

/// `x` with `scale` times the addend added to every sample, from its start on
/// and as far as the addend goes.
pub open spec fn with_scaled<A: Arithmetic>(
    x: Grid<A::Real>,
    addend: Seq<A::Real>,
    scale: A::Real,
) -> Grid<A::Real> {
    Grid {
        shape: x.shape,
        data: Seq::new(
            x.data.len(),
            |p: int|
                if p % run_length(x) < addend.len() {
                    A::plus_spec(
                        x.data[p],
                        A::times_spec(scale, addend[p % run_length(x)]),
                    )
                } else {
                    x.data[p]
                },
        ),
    }
}

/// Adds `scale` times the addend's entries to the first entries of every sample
/// of `x`.
pub fn add_scaled_in_place<A: Arithmetic>(
    x: &mut Tensor<A::Real>,
    addend: &Tensor<A::Real>,
    scale: A::Real,
)
    requires
        lawful::<A>(),
    ensures
        final(x)@ == with_scaled::<A>(old(x)@, addend@.data, scale),
{
    let ghost before = x@;
    let total = x.data.len();
    let mut size = total;
    if x.shape.len() >= 3 && 0 < x.shape[0] && x.shape[0] <= total {
        size = total / x.shape[0];
    }
    assert(total > 0 ==> size > 0) by {
        if size != total {
            vstd::arithmetic::div_mod::lemma_div_non_zero(total as int, before.shape[0] as int);
        }
    }
    let mut position: usize = 0;
    while position < total
        invariant
            lawful::<A>(),
            x@.shape == before.shape,
            x@.data.len() == before.data.len() == total,
            size == run_length(before),
            total > 0 ==> size > 0,
            position <= total,
            forall|p: int|
                0 <= p < total ==> #[trigger] x@.data[p] == if p < position && (p % size as int)
                    < addend@.data.len() {
                    A::plus_spec(
                        before.data[p],
                        A::times_spec(scale, addend@.data[p % size as int]),
                    )
                } else {
                    before.data[p]
                },
        decreases total - position,
    {
        let place = position % size;
        if place < addend.data.len() {
            let value = A::plus(x.data[position], A::times(scale, addend.data[place]));
            x.data.set(position, value);
        }
        position = position + 1;
    }
    proof {
        assert(x@.data =~= with_scaled::<A>(before, addend@.data, scale).data);
    }
}

} // verus!
