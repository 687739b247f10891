//! Taking a batch to mean zero and deviation one, and back.

use vstd::prelude::*;

use crate::arithmetic::{lawful, Arithmetic};
use crate::index::{at2, lemma_split2, table2};
use crate::ops::{sum_of, wide_sum};
use crate::tensor::{lemma_volume_split, product, volume, Grid, Tensor};

verus! {

/// The mean and the deviation of a sample.
#[derive(Debug)]
#[verifier::ext_equal]
pub struct Moments<R> {
    pub mean: R,
    pub deviation: R,
}

/// The sum of the squared distances of `terms` entries from a mean.
pub open spec fn spread_sum<A: Arithmetic>(
    data: Seq<A::Real>,
    from: int,
    mean: A::Wide,
    terms: int,
) -> A::Wide
    decreases terms,
{
    if terms <= 0 {
        A::wide_zero_spec()
    } else {
        A::wide_plus_spec(
            spread_sum::<A>(data, from, mean, terms - 1),
            A::wide_square_spec(
                A::wide_minus_spec(A::widen_spec(data[from + terms - 1]), mean),
            ),
        )
    }
}

/// The mean of `count` entries and their unbiased deviation, wide throughout
/// and rounded at the end.
pub open spec fn moments_of<A: Arithmetic>(
    data: Seq<A::Real>,
    from: int,
    count: usize,
) -> Moments<A::Real> {
    let total = A::wide_count_spec(count);
    let mean = A::wide_over_spec(wide_sum::<A>(data, from, count as int), total);
    let variance = A::wide_over_spec(
        spread_sum::<A>(data, from, mean, count as int),
        A::wide_minus_spec(total, A::wide_count_spec(1)),
    );
    Moments {
        mean: A::narrow_spec(mean),
        deviation: A::narrow_spec(A::wide_square_root_spec(variance)),
    }
}

/// How many entries each sample has.
pub open spec fn sample_size(shape: Seq<usize>) -> int {
    volume(shape.skip(1)) as int
}

/// The moments of every sample.
pub open spec fn sample_moments<A: Arithmetic>(x: Grid<A::Real>) -> Seq<Moments<A::Real>> {
    let size = sample_size(x.shape);
    Seq::new(
        x.shape[0] as nat,
        |b: int| moments_of::<A>(x.data, b * size, size as usize),
    )
}

/// A value less the mean, over the deviation, which is kept from zero.
pub open spec fn standardised<A: Arithmetic>(value: A::Real, moments: Moments<A::Real>) -> A::Real {
    A::over_spec(
        A::minus_spec(value, moments.mean),
        A::plus_spec(A::literal_spec(1, 100_000), moments.deviation),
    )
}

/// Every sample standardised by its own moments.
#[verifier::opaque]
pub open spec fn normalised<A: Arithmetic>(x: Grid<A::Real>) -> Grid<A::Real> {
    let size = sample_size(x.shape);
    Grid {
        shape: x.shape,
        data: table2(
            x.shape[0] as int,
            size,
            |b: int, r: int|
                standardised::<A>(at2(x.data, size, b, r), sample_moments::<A>(x)[b]),
        ),
    }
}

/// A value times the deviation, plus the mean.
pub open spec fn restored<A: Arithmetic>(value: A::Real, moments: Moments<A::Real>) -> A::Real {
    A::plus_spec(A::times_spec(value, moments.deviation), moments.mean)
}

/// Every sample taken back to the moments given for it.
#[verifier::opaque]
pub open spec fn denormalised<A: Arithmetic>(
    x: Grid<A::Real>,
    moments: Seq<Moments<A::Real>>,
) -> Grid<A::Real> {
    let size = sample_size(x.shape);
    Grid {
        shape: x.shape,
        data: table2(
            x.shape[0] as int,
            size,
            |b: int, r: int| restored::<A>(at2(x.data, size, b, r), moments[b]),
        ),
    }
}

/// The samples of a batch lie one after the other.
proof fn lemma_samples(shape: Seq<usize>)
    requires
        shape.len() >= 1,
    ensures
        volume(shape) == shape[0] * sample_size(shape),
{
    lemma_volume_split(shape, 1);
    assert(shape.take(1).drop_last() =~= Seq::<usize>::empty());
    assert(volume(shape.take(1).drop_last()) == 1);
    assert(shape.take(1).last() == shape[0]);
    assert(volume(shape.take(1)) == 1 * shape[0]);
}

fn moments<A: Arithmetic>(data: &[A::Real], from: usize, count: usize) -> (out: Moments<A::Real>)
    requires
        lawful::<A>(),
        from + count <= data@.len(),
    ensures
        out == moments_of::<A>(data@, from as int, count),
{
    assert(data@.len() == data.len());
    let total = A::wide_count(count);
    let mean = A::wide_over(sum_of::<A>(data, from, count), total);
    let mut sum = A::wide_zero();
    let mut term: usize = 0;
    while term < count
        invariant
            lawful::<A>(),
            from + count <= data@.len() <= usize::MAX,
            term <= count,
            sum == spread_sum::<A>(data@, from as int, mean, term as int),
        decreases count - term,
    {
        let distance = A::wide_minus(A::widen(data[from + term]), mean);
        sum = A::wide_plus(sum, A::wide_square(distance));
        term = term + 1;
    }
    let variance = A::wide_over(sum, A::wide_minus(total, A::wide_count(1)));
    Moments { mean: A::narrow(mean), deviation: A::narrow(A::wide_square_root(variance)) }
}

/// Standardises every sample over all of its entries, and gives the moments
/// that were taken away.
pub fn normalise<A: Arithmetic>(x: &Tensor<A::Real>) -> (out: (
    Tensor<A::Real>,
    Vec<Moments<A::Real>>,
))
    requires
        lawful::<A>(),
        x.wf(),
        x@.shape.len() >= 1,
    ensures
        out.0@ == normalised::<A>(x@),
        out.0@.shape == x@.shape,
        out.0.wf(),
        out.1@ == sample_moments::<A>(x@),
{
    let batch = x.shape[0];
    let size = product(x.shape.as_slice(), 1);
    let count = x.data.len();
    proof {
        lemma_samples(x@.shape);
    }
    proof {
        reveal(normalised);
    }
    let mut all: Vec<Moments<A::Real>> = Vec::new();
    while all.len() < batch
        invariant
            lawful::<A>(),
            count == x@.data.len(),
            count == batch * size,
            size == sample_size(x@.shape),
            all@.len() <= batch,
            forall|b: int|
                0 <= b < all@.len() ==> #[trigger] all@[b] == moments_of::<A>(
                    x@.data,
                    b * size,
                    size,
                ),
        decreases batch - all@.len(),
    {
        let sample = all.len();
        proof {
            assert(0 <= sample * size && sample * size + size <= batch * size)
                by (nonlinear_arith)
                requires
                    0 <= sample < batch,
                    0 <= size,
            ;
        }
        all.push(moments::<A>(x.data.as_slice(), sample * size, size));
    }
    proof {
        assert(all@ =~= sample_moments::<A>(x@));
    }
    let eps = A::literal(1, 100_000);
    let mut data: Vec<A::Real> = Vec::new();
    while data.len() < count
        invariant
            lawful::<A>(),
            count == x@.data.len(),
            count == batch * size,
            batch == x@.shape[0],
            size == sample_size(x@.shape),
            eps == A::literal_spec(1, 100_000),
            all@ == sample_moments::<A>(x@),
            data@.len() <= count,
            forall|p: int|
                0 <= p < data@.len() ==> #[trigger] data@[p] == standardised::<A>(
                    at2(x@.data, size as int, p / size as int, p % size as int),
                    all@[p / size as int],
                ),
        decreases count - data@.len(),
    {
        let position = data.len();
        proof {
            lemma_split2(batch as int, size as int, position as int);
        }
        let of = &all[position / size];
        data.push(A::over(A::minus(x.data[position], of.mean), A::plus(eps, of.deviation)));
    }
    proof {
        assert(data@ =~= normalised::<A>(x@).data);
    }
    (Tensor { shape: vstd::slice::slice_to_vec(x.shape.as_slice()), data }, all)
}

/// Takes every sample back to the moments given for it.
pub fn denormalise<A: Arithmetic>(x: &Tensor<A::Real>, moments: &[Moments<A::Real>]) -> (out:
    Tensor<A::Real>)
    requires
        lawful::<A>(),
        x.wf(),
        x@.shape.len() >= 1,
        moments@.len() == x@.shape[0],
    ensures
        out@ == denormalised::<A>(x@, moments@),
        out@.shape == x@.shape,
        out.wf(),
{
    let batch = x.shape[0];
    let size = product(x.shape.as_slice(), 1);
    let count = x.data.len();
    proof {
        lemma_samples(x@.shape);
        reveal(denormalised);
    }
    let mut data: Vec<A::Real> = Vec::new();
    while data.len() < count
        invariant
            lawful::<A>(),
            count == x@.data.len(),
            count == batch * size,
            moments@.len() == batch,
            data@.len() <= count,
            forall|p: int|
                0 <= p < data@.len() ==> #[trigger] data@[p] == restored::<A>(
                    at2(x@.data, size as int, p / size as int, p % size as int),
                    moments@[p / size as int],
                ),
        decreases count - data@.len(),
    {
        let position = data.len();
        proof {
            lemma_split2(batch as int, size as int, position as int);
        }
        let of = &moments[position / size];
        data.push(A::plus(A::times(x.data[position], of.deviation), of.mean));
    }
    proof {
        assert(data@ =~= denormalised::<A>(x@, moments@).data);
    }
    Tensor { shape: vstd::slice::slice_to_vec(x.shape.as_slice()), data }
}

} // verus!
