//! The samples of a batch go through the transformer apart from each other.

use vstd::prelude::*;

use crate::arithmetic::Arithmetic;
use crate::attention::{heads_attention, heads_of, merged_heads, row_of};
use crate::dconv::norm_eps;
use crate::embedding::{embedding_1d, embedding_2d, run_length, with_scaled};
use crate::index::{
    at2, lemma_extent, lemma_join2, lemma_join3, lemma_join4, lemma_split2, lemma_split3,
};
use crate::layers::{
    normed, query_scale, rejoined, scaled, AttentionWeights, Layer, Tail,
};
use crate::layout::{
    arranged_freq, arranged_time, lemma_arranged_shape, unarranged_freq, unarranged_time,
};
use crate::moments::sample_size;
use crate::ops::{
    feature_sum, gelu_spec, group_norm_sequence_spec, layer_norm_spec, layer_scale_last_spec,
    linear_spec, sum_spec, wide_squares, wide_statistic, wide_sum,
};
use crate::parameters::Affine;
use crate::tensor::{lemma_rank2, lemma_rank3, lemma_rank4, volume, Grid};
use crate::transformer::{
    exchanged, pair_admits, token_shape, token_shape_t, CrossTransformer,
};

verus! {

/// Whether `part` is block `b` of `whole`, in blocks of its own length.
pub open spec fn is_block<T>(whole: Seq<T>, part: Seq<T>, b: int) -> bool {
    forall|r: int| 0 <= r < part.len() ==> #[trigger] part[r] == whole[b * part.len() + r]
}

/// Whether `one` is sample `b` of the sequences `all`, `[B, T, C]`.
pub open spec fn is_sample<T>(all: Grid<T>, one: Grid<T>, b: int) -> bool {
    &&& all.shape.len() == 3
    &&& one.shape == seq![1usize, all.shape[1], all.shape[2]]
    &&& 0 <= b < all.shape[0]
    &&& all.data.len() == all.shape[0] * all.shape[1] * all.shape[2]
    &&& one.data.len() == all.shape[1] * all.shape[2]
    &&& is_block(all.data, one.data, b)
}

/// Where entry `r` of a sample of `t` rows of `c` lies in the batch.
proof fn lemma_place(batch: int, t: int, c: int, b: int, r: int)
    requires
        0 <= b < batch,
        0 <= t,
        0 <= c,
        0 <= r < t * c,
    ensures
        0 <= r / c < t,
        0 <= r % c < c,
        0 < c,
        (r / c) * c + r % c == r,
        b * (t * c) + r == (b * t + r / c) * c + r % c,
        0 <= b * (t * c) + r < batch * t * c,
        0 <= b * t + r / c < batch * t,
        (b * (t * c) + r) / c == b * t + r / c,
        (b * (t * c) + r) % c == r % c,
        (b * (t * c) + r) / c / t == b,
        (b * (t * c) + r) / c % t == r / c,
{
    lemma_split2(t, c, r);
    lemma_join3(batch, t, c, b, r / c, r % c);
    lemma_join2(batch, t, b, r / c);
    lemma_join2(batch * t, c, b * t + r / c, r % c);
    assert((b * t + r / c) * c == b * (t * c) + (r / c) * c) by (nonlinear_arith);
}

proof fn lemma_sum_shift<A: Arithmetic>(
    all: Seq<A::Real>,
    one: Seq<A::Real>,
    offset: int,
    from: int,
    terms: int,
)
    requires
        forall|i: int| 0 <= i < one.len() ==> #[trigger] one[i] == all[offset + i],
        0 <= from,
        from + terms <= one.len(),
    ensures
        wide_sum::<A>(one, from, terms) == wide_sum::<A>(all, offset + from, terms),
    decreases terms,
{
    if terms > 0 {
        lemma_sum_shift::<A>(all, one, offset, from, terms - 1);
        assert(one[from + terms - 1] == all[offset + (from + terms - 1)]);
    }
}

proof fn lemma_squares_shift<A: Arithmetic>(
    all: Seq<A::Real>,
    one: Seq<A::Real>,
    offset: int,
    from: int,
    mean: A::Wide,
    terms: int,
)
    requires
        forall|i: int| 0 <= i < one.len() ==> #[trigger] one[i] == all[offset + i],
        0 <= from,
        from + terms <= one.len(),
    ensures
        wide_squares::<A>(one, from, mean, terms) == wide_squares::<A>(
            all,
            offset + from,
            mean,
            terms,
        ),
    decreases terms,
{
    if terms > 0 {
        lemma_squares_shift::<A>(all, one, offset, from, mean, terms - 1);
        assert(one[from + terms - 1] == all[offset + (from + terms - 1)]);
    }
}

proof fn lemma_statistic_shift<A: Arithmetic>(
    all: Seq<A::Real>,
    one: Seq<A::Real>,
    offset: int,
    from: int,
    count: usize,
    eps: A::Real,
)
    requires
        forall|i: int| 0 <= i < one.len() ==> #[trigger] one[i] == all[offset + i],
        0 <= from,
        from + count <= one.len(),
    ensures
        wide_statistic::<A>(one, from, count, eps) == wide_statistic::<A>(
            all,
            offset + from,
            count,
            eps,
        ),
{
    lemma_sum_shift::<A>(all, one, offset, from, count as int);
    let mean = A::wide_over_spec(
        wide_sum::<A>(one, from, count as int),
        A::wide_count_spec(count),
    );
    lemma_squares_shift::<A>(all, one, offset, from, mean, count as int);
}

/// The rows of a sequence's positions.
proof fn lemma_positions(shape: Seq<usize>)
    requires
        shape.len() == 3,
    ensures
        volume(shape.drop_last()) == shape[0] * shape[1],
        shape.last() == shape[2],
{
    lemma_rank2(shape.drop_last());
}

pub proof fn lemma_sample_layer_norm<A: Arithmetic>(
    all: Grid<A::Real>,
    one: Grid<A::Real>,
    b: int,
    weight: Seq<A::Real>,
    bias: Seq<A::Real>,
    eps: A::Real,
)
    requires
        is_sample(all, one, b),
    ensures
        is_sample(
            layer_norm_spec::<A>(all, weight, bias, eps),
            layer_norm_spec::<A>(one, weight, bias, eps),
            b,
        ),
{
    let (batch, t, c) = (all.shape[0] as int, all.shape[1] as int, all.shape[2] as int);
    let from_all = layer_norm_spec::<A>(all, weight, bias, eps);
    let from_one = layer_norm_spec::<A>(one, weight, bias, eps);
    lemma_positions(all.shape);
    lemma_positions(one.shape);
    lemma_extent(t, c);
    lemma_extent(batch, t);
    lemma_extent(batch * t, c);
    assert(1 * t == t);
    assert(from_one.data.len() == t * c);
    assert forall|r: int| 0 <= r < t * c implies #[trigger] from_one.data[r]
        == from_all.data[b * from_one.data.len() + r] by {
        lemma_place(batch, t, c, b, r);
        let row = r / c;
        lemma_join2(t, c, row, 0);
        assert((b * t + row) * c == b * (t * c) + row * c) by (nonlinear_arith);
        assert(row * c + c <= t * c) by (nonlinear_arith)
            requires
                0 <= row < t,
                c >= 0,
        ;
        assert(one.data[r] == all.data[b * one.data.len() + r]);
        lemma_statistic_shift::<A>(
            all.data,
            one.data,
            b * (t * c),
            row * c,
            all.shape[2],
            eps,
        );
    }
}

pub proof fn lemma_sample_sum<A: Arithmetic>(
    all: Grid<A::Real>,
    one: Grid<A::Real>,
    added: Grid<A::Real>,
    one_added: Grid<A::Real>,
    b: int,
)
    requires
        is_sample(all, one, b),
        is_sample(added, one_added, b),
        added.shape[1] == all.shape[1],
        added.shape[2] == all.shape[2],
    ensures
        is_sample(sum_spec::<A>(all, added), sum_spec::<A>(one, one_added), b),
{
    let (batch, t, c) = (all.shape[0] as int, all.shape[1] as int, all.shape[2] as int);
    let from_all = sum_spec::<A>(all, added);
    let from_one = sum_spec::<A>(one, one_added);
    lemma_extent(t, c);
    assert forall|r: int| 0 <= r < t * c implies #[trigger] from_one.data[r]
        == from_all.data[b * from_one.data.len() + r] by {
        lemma_place(batch, t, c, b, r);
        assert(one.data[r] == all.data[b * one.data.len() + r]);
        assert(one_added.data[r] == added.data[b * one_added.data.len() + r]);
    }
}

pub proof fn lemma_sample_gelu<A: Arithmetic>(all: Grid<A::Real>, one: Grid<A::Real>, b: int)
    requires
        is_sample(all, one, b),
    ensures
        is_sample(gelu_spec::<A>(all), gelu_spec::<A>(one), b),
{
    let (batch, t, c) = (all.shape[0] as int, all.shape[1] as int, all.shape[2] as int);
    let from_all = gelu_spec::<A>(all);
    let from_one = gelu_spec::<A>(one);
    lemma_extent(t, c);
    assert forall|r: int| 0 <= r < t * c implies #[trigger] from_one.data[r]
        == from_all.data[b * from_one.data.len() + r] by {
        lemma_place(batch, t, c, b, r);
        assert(one.data[r] == all.data[b * one.data.len() + r]);
    }
}

pub proof fn lemma_sample_scale<A: Arithmetic>(
    all: Grid<A::Real>,
    one: Grid<A::Real>,
    b: int,
    scale: Seq<A::Real>,
)
    requires
        is_sample(all, one, b),
    ensures
        is_sample(
            layer_scale_last_spec::<A>(all, scale),
            layer_scale_last_spec::<A>(one, scale),
            b,
        ),
{
    let (batch, t, c) = (all.shape[0] as int, all.shape[1] as int, all.shape[2] as int);
    let from_all = layer_scale_last_spec::<A>(all, scale);
    let from_one = layer_scale_last_spec::<A>(one, scale);
    lemma_positions(all.shape);
    lemma_positions(one.shape);
    lemma_extent(t, c);
    lemma_extent(batch, t);
    lemma_extent(batch * t, c);
    assert(1 * t == t);
    assert(from_one.data.len() == t * c);
    assert forall|r: int| 0 <= r < t * c implies #[trigger] from_one.data[r]
        == from_all.data[b * from_one.data.len() + r] by {
        lemma_place(batch, t, c, b, r);
        assert(one.data[r] == all.data[b * one.data.len() + r]);
    }
}

/// Rows of equal features have equal weighted sums.
pub proof fn lemma_feature_shift<A: Arithmetic>(
    all: Seq<A::Real>,
    one: Seq<A::Real>,
    weight: Seq<A::Real>,
    width: int,
    row: int,
    other: int,
    out: int,
    terms: int,
)
    requires
        forall|f: int|
            0 <= f < width ==> #[trigger] at2(one, width, row, f) == at2(all, width, other, f),
        terms <= width,
    ensures
        feature_sum::<A>(one, weight, width, row, out, terms) == feature_sum::<A>(
            all,
            weight,
            width,
            other,
            out,
            terms,
        ),
    decreases terms,
{
    if terms > 0 {
        lemma_feature_shift::<A>(all, one, weight, width, row, other, out, terms - 1);
        assert(at2(one, width, row, terms - 1) == at2(all, width, other, terms - 1));
    }
}

pub proof fn lemma_sample_linear<A: Arithmetic>(
    all: Grid<A::Real>,
    one: Grid<A::Real>,
    b: int,
    weight: Seq<A::Real>,
    bias: Seq<A::Real>,
)
    requires
        is_sample(all, one, b),
        bias.len() <= usize::MAX,
    ensures
        is_sample(
            linear_spec::<A>(all, weight, bias),
            linear_spec::<A>(one, weight, bias),
            b,
        ),
{
    let (batch, t, c) = (all.shape[0] as int, all.shape[1] as int, all.shape[2] as int);
    let o = bias.len() as int;
    let from_all = linear_spec::<A>(all, weight, bias);
    let from_one = linear_spec::<A>(one, weight, bias);
    lemma_positions(all.shape);
    lemma_positions(one.shape);
    lemma_extent(t, o);
    lemma_extent(batch, t);
    lemma_extent(batch * t, o);
    assert(1 * t == t);
    assert(from_one.data.len() == t * o);
    assert(from_one.shape =~= seq![1usize, from_all.shape[1], from_all.shape[2]]);
    assert forall|r: int| 0 <= r < t * o implies #[trigger] from_one.data[r]
        == from_all.data[b * from_one.data.len() + r] by {
        lemma_place(batch, t, o, b, r);
        let row = r / o;
        assert forall|f: int| 0 <= f < c implies #[trigger] at2(one.data, c, row, f) == at2(
            all.data,
            c,
            b * t + row,
            f,
        ) by {
            lemma_join2(t, c, row, f);
            assert((b * t + row) * c == b * (t * c) + row * c) by (nonlinear_arith);
            assert(one.data[row * c + f] == all.data[b * one.data.len() + (row * c + f)]);
        }
        lemma_feature_shift::<A>(all.data, one.data, weight, c, row, b * t + row, r % o, c);
    }
}

pub proof fn lemma_sample_sequence_norm<A: Arithmetic>(
    all: Grid<A::Real>,
    one: Grid<A::Real>,
    b: int,
    weight: Seq<A::Real>,
    bias: Seq<A::Real>,
    eps: A::Real,
)
    requires
        is_sample(all, one, b),
        all.shape[1] * all.shape[2] <= usize::MAX,
    ensures
        is_sample(
            group_norm_sequence_spec::<A>(all, weight, bias, eps),
            group_norm_sequence_spec::<A>(one, weight, bias, eps),
            b,
        ),
{
    let (batch, t, c) = (all.shape[0] as int, all.shape[1] as int, all.shape[2] as int);
    let from_all = group_norm_sequence_spec::<A>(all, weight, bias, eps);
    let from_one = group_norm_sequence_spec::<A>(one, weight, bias, eps);
    lemma_extent(t, c);
    lemma_extent(batch, t);
    lemma_extent(batch * t, c);
    assert(1 * t * c == t * c);
    assert(from_one.data.len() == t * c);
    let size = all.shape[1] * all.shape[2];
    assert(0 * size == 0);
    lemma_statistic_shift::<A>(all.data, one.data, b * (t * c), 0, size as usize, eps);
    assert forall|r: int| 0 <= r < t * c implies #[trigger] from_one.data[r]
        == from_all.data[b * from_one.data.len() + r] by {
        lemma_place(batch, t, c, b, r);
        lemma_place(1, t, c, 0, r);
        assert(0 * (t * c) + r == r);
        assert(one.data[r] == all.data[b * one.data.len() + r]);
    }
}

/// A batch and a sample of it agree on the size of a sample.
proof fn lemma_sizes<R>(all: Grid<R>, one: Grid<R>, b: int)
    requires
        is_sample(all, one, b),
        all.shape[1] * all.shape[2] > 0,
    ensures
        run_length(all) == all.shape[1] * all.shape[2],
        run_length(one) == all.shape[1] * all.shape[2],
{
    let (batch, size) = (all.shape[0] as int, all.shape[1] * all.shape[2]);
    vstd::arithmetic::mul::lemma_mul_is_associative(
        batch,
        all.shape[1] as int,
        all.shape[2] as int,
    );
    vstd::arithmetic::div_mod::lemma_div_multiples_vanish(size, batch);
    assert(batch <= batch * size) by (nonlinear_arith)
        requires
            batch >= 0,
            size > 0,
    ;
}

pub proof fn lemma_sample_embedding<A: Arithmetic>(
    all: Grid<A::Real>,
    one: Grid<A::Real>,
    b: int,
    addend: Seq<A::Real>,
    scale: A::Real,
)
    requires
        is_sample(all, one, b),
    ensures
        is_sample(
            with_scaled::<A>(all, addend, scale),
            with_scaled::<A>(one, addend, scale),
            b,
        ),
{
    let (batch, t, c) = (all.shape[0] as int, all.shape[1] as int, all.shape[2] as int);
    let from_all = with_scaled::<A>(all, addend, scale);
    let from_one = with_scaled::<A>(one, addend, scale);
    lemma_extent(t, c);
    vstd::arithmetic::mul::lemma_mul_is_associative(batch, t, c);
    assert forall|r: int| 0 <= r < t * c implies #[trigger] from_one.data[r]
        == from_all.data[b * from_one.data.len() + r] by {
        lemma_place(batch, t, c, b, r);
        lemma_join2(batch, t * c, b, r);
        lemma_sizes(all, one, b);
        vstd::arithmetic::div_mod::lemma_small_mod(r as nat, (t * c) as nat);
        assert(one.data[r] == all.data[b * one.data.len() + r]);
    }
}

/// Where entry `r` of a sample of `h` heads of `t` rows of `d` lies.
proof fn lemma_place4(batch: int, h: int, t: int, d: int, b: int, r: int)
    requires
        0 <= b < batch,
        0 <= h,
        0 <= t,
        0 <= d,
        0 <= r < h * t * d,
    ensures
        0 < d,
        0 <= r / d / t < h,
        0 <= r / d % t < t,
        0 <= r % d < d,
        r / d / t / h == 0,
        r / d / t % h == r / d / t,
        r == (r / d / t * t + r / d % t) * d + r % d,
        0 <= b * (h * t * d) + r < batch * h * t * d,
        b * (h * t * d) + r == ((b * h + r / d / t) * t + r / d % t) * d + r % d,
        (b * (h * t * d) + r) / d / t / h == b,
        (b * (h * t * d) + r) / d / t % h == r / d / t,
        (b * (h * t * d) + r) / d % t == r / d % t,
        (b * (h * t * d) + r) % d == r % d,
{
    lemma_split3(h, t, d, r);
    let (i, j, k) = (r / d / t, r / d % t, r % d);
    lemma_join4(batch, h, t, d, b, i, j, k);
    vstd::arithmetic::div_mod::lemma_small_mod(i as nat, h as nat);
    vstd::arithmetic::div_mod::lemma_basic_div(i, h);
    assert(((b * h + i) * t + j) * d + k == b * (h * t * d) + ((i * t + j) * d + k))
        by (nonlinear_arith);
}

proof fn lemma_block_heads<T>(
    all: Seq<T>,
    one: Seq<T>,
    batch: int,
    time: int,
    dim: int,
    heads: int,
    b: int,
)
    requires
        0 <= b < batch,
        0 <= time,
        0 <= dim,
        heads > 0,
        one.len() == time * dim,
        is_block(all, one, b),
    ensures
        heads_of(one, 1, time, dim, heads).len() == heads * time * (dim / heads),
        is_block(
            heads_of(all, batch, time, dim, heads),
            heads_of(one, 1, time, dim, heads),
            b,
        ),
{
    let d = dim / heads;
    vstd::arithmetic::div_mod::lemma_fundamental_div_mod(dim, heads);
    vstd::arithmetic::div_mod::lemma_mod_bound(dim, heads);
    vstd::arithmetic::div_mod::lemma_div_pos_is_pos(dim, heads);
    let from_all = heads_of(all, batch, time, dim, heads);
    let from_one = heads_of(one, 1, time, dim, heads);
    lemma_extent(heads, time);
    lemma_extent(heads * time, d);
    assert(1 * heads * time * d == heads * time * d);
    assert forall|r: int| 0 <= r < from_one.len() implies #[trigger] from_one[r] == from_all[b
        * from_one.len() + r] by {
        lemma_place4(batch, heads, time, d, b, r);
        let (h, t, k) = (r / d / time, r / d % time, r % d);
        lemma_join2(heads, d, h, k);
        let c = h * d + k;
        assert(heads * d == d * heads) by (nonlinear_arith);
        lemma_join2(time, dim, t, c);
        lemma_join3(batch, time, dim, b, t, c);
        assert((b * time + t) * dim + c == b * (time * dim) + (t * dim + c)) by (nonlinear_arith);
        assert((0 * time + t) * dim + c == t * dim + c);
        assert(one[t * dim + c] == all[b * one.len() + (t * dim + c)]);
    }
}

proof fn lemma_block_merged<T>(
    all: Seq<T>,
    one: Seq<T>,
    batch: int,
    heads: int,
    time: int,
    d: int,
    b: int,
)
    requires
        0 <= b < batch,
        0 <= heads,
        0 <= time,
        0 <= d,
        one.len() == heads * time * d,
        is_block(all, one, b),
    ensures
        merged_heads(one, 1, heads, time, d).len() == time * (heads * d),
        is_block(
            merged_heads(all, batch, heads, time, d),
            merged_heads(one, 1, heads, time, d),
            b,
        ),
{
    let width = heads * d;
    lemma_extent(heads, d);
    lemma_extent(time, width);
    let from_all = merged_heads(all, batch, heads, time, d);
    let from_one = merged_heads(one, 1, heads, time, d);
    assert(1 * time * width == time * width);
    assert forall|r: int| 0 <= r < from_one.len() implies #[trigger] from_one[r] == from_all[b
        * from_one.len() + r] by {
        lemma_place(batch, time, width, b, r);
        lemma_place(1, time, width, 0, r);
        assert(0 * (time * width) + r == r);
        let (t, c) = (r / width, r % width);
        lemma_split2(heads, d, c);
        let (h, k) = (c / d, c % d);
        lemma_join3(heads, time, d, h, t, k);
        assert(((b * heads + h) * time + t) * d + k == b * (heads * time * d) + ((h * time + t) * d
            + k)) by (nonlinear_arith);
        assert(((0 * heads + h) * time + t) * d + k == (h * time + t) * d + k);
        assert(one[(h * time + t) * d + k] == all[b * one.len() + ((h * time + t) * d + k)]);
    }
}

proof fn lemma_block_rows<T>(all: Seq<T>, one: Seq<T>, heads: int, size: int, b: int, h: int)
    requires
        0 <= h < heads,
        0 <= size,
        0 <= b,
        one.len() == heads * size,
        (b + 1) * (heads * size) <= all.len(),
        is_block(all, one, b),
    ensures
        row_of(one, size, h) == row_of(all, size, b * heads + h),
{
    assert((b * heads + h) * size == b * (heads * size) + h * size) by (nonlinear_arith);
    assert(0 <= h * size && h * size + size <= heads * size) by (nonlinear_arith)
        requires
            0 <= h < heads,
            0 <= size,
    ;
    assert(b * (heads * size) >= 0) by (nonlinear_arith)
        requires
            0 <= b,
            0 <= heads * size,
    ;
    assert((b + 1) * (heads * size) == b * (heads * size) + heads * size) by (nonlinear_arith);
    let mine = row_of(one, size, h);
    let theirs = row_of(all, size, b * heads + h);
    assert forall|i: int| 0 <= i < size implies mine[i] == #[trigger] theirs[i] by {
        assert(one[h * size + i] == all[b * one.len() + (h * size + i)]);
    }
    assert(mine =~= theirs);
}

proof fn lemma_block_attention<A: Arithmetic>(
    q: Seq<A::Real>,
    k: Seq<A::Real>,
    v: Seq<A::Real>,
    q1: Seq<A::Real>,
    k1: Seq<A::Real>,
    v1: Seq<A::Real>,
    batch: int,
    heads: int,
    queries: int,
    keys: int,
    d: int,
    b: int,
)
    requires
        0 <= b < batch,
        0 <= heads,
        0 <= queries,
        0 <= keys,
        0 <= d,
        q.len() == batch * (heads * (queries * d)),
        k.len() == batch * (heads * (keys * d)),
        v.len() == batch * (heads * (keys * d)),
        q1.len() == heads * (queries * d),
        k1.len() == heads * (keys * d),
        v1.len() == heads * (keys * d),
        is_block(q, q1, b),
        is_block(k, k1, b),
        is_block(v, v1, b),
    ensures
        heads_attention::<A>(q1, k1, v1, heads, queries, keys, d).len() == heads * (queries * d),
        is_block(
            heads_attention::<A>(q, k, v, batch * heads, queries, keys, d),
            heads_attention::<A>(q1, k1, v1, heads, queries, keys, d),
            b,
        ),
{
    let size = queries * d;
    let width = keys * d;
    lemma_extent(queries, d);
    lemma_extent(keys, d);
    lemma_extent(heads, size);
    lemma_extent(heads, width);
    let from_all = heads_attention::<A>(q, k, v, batch * heads, queries, keys, d);
    let from_one = heads_attention::<A>(q1, k1, v1, heads, queries, keys, d);
    assert((b + 1) * (heads * size) <= batch * (heads * size)) by (nonlinear_arith)
        requires
            b + 1 <= batch,
            0 <= heads * size,
    ;
    assert((b + 1) * (heads * width) <= batch * (heads * width)) by (nonlinear_arith)
        requires
            b + 1 <= batch,
            0 <= heads * width,
    ;
    assert forall|r: int| 0 <= r < from_one.len() implies #[trigger] from_one[r] == from_all[b
        * from_one.len() + r] by {
        lemma_place(batch, heads, size, b, r);
        let h = r / size;
        lemma_block_rows(q, q1, heads, size, b, h);
        lemma_block_rows(k, k1, heads, width, b, h);
        lemma_block_rows(v, v1, heads, width, b, h);
    }
}

/// One sample of an attention is the attention of that sample.
pub proof fn lemma_sample_attention<A: Arithmetic>(
    attention: AttentionWeights<A>,
    q: Grid<A::Real>,
    k: Grid<A::Real>,
    v: Grid<A::Real>,
    q1: Grid<A::Real>,
    k1: Grid<A::Real>,
    v1: Grid<A::Real>,
    heads: usize,
    b: int,
)
    requires
        is_sample(q, q1, b),
        is_sample(k, k1, b),
        is_sample(v, v1, b),
        v.shape == k.shape,
        attention.admits(q.shape, k.shape, heads),
        attention.out_proj.bias@.len() <= usize::MAX,
    ensures
        is_sample(attention.output(q, k, v, heads), attention.output(q1, k1, v1, heads), b),
{
    let batch = q.shape[0] as int;
    let (queries, keys) = (q.shape[1] as int, k.shape[1] as int);
    let w = q.shape[2] as int;
    let h = heads as int;
    let d = w / h;
    lemma_extent(w, w);
    vstd::arithmetic::div_mod::lemma_fundamental_div_mod(w, h);
    vstd::arithmetic::div_mod::lemma_div_pos_is_pos(w, h);
    lemma_sample_projection::<A>(attention, q, q1, 0, b);
    lemma_sample_projection::<A>(attention, k, k1, 1, b);
    lemma_sample_projection::<A>(attention, v, v1, 2, b);
    let (pq, pk, pv) = (
        attention.projection(q, 0).data,
        attention.projection(k, 1).data,
        attention.projection(v, 2).data,
    );
    let (pq1, pk1, pv1) = (
        attention.projection(q1, 0).data,
        attention.projection(k1, 1).data,
        attention.projection(v1, 2).data,
    );
    lemma_block_heads(pq, pq1, batch, queries, w, h, b);
    lemma_block_heads(pk, pk1, batch, keys, w, h, b);
    lemma_block_heads(pv, pv1, batch, keys, w, h, b);
    let factor = query_scale::<A>((q.shape[2] / heads) as usize);
    let sq = heads_of(pq, batch, queries, w, h);
    let sq1 = heads_of(pq1, 1, queries, w, h);
    let (sk, sk1) = (heads_of(pk, batch, keys, w, h), heads_of(pk1, 1, keys, w, h));
    let (sv, sv1) = (heads_of(pv, batch, keys, w, h), heads_of(pv1, 1, keys, w, h));
    let (cq, cq1) = (scaled::<A>(sq, factor), scaled::<A>(sq1, factor));
    lemma_head_count(batch, h, queries, d);
    lemma_head_count(batch, h, keys, d);
    assert((b + 1) * (h * (queries * d)) <= batch * (h * (queries * d))) by (nonlinear_arith)
        requires
            b + 1 <= batch,
            0 <= h * (queries * d),
    ;
    assert forall|r: int| 0 <= r < cq1.len() implies #[trigger] cq1[r] == cq[b * cq1.len() + r] by {
        assert((b + 1) * (h * (queries * d)) == b * (h * (queries * d)) + h * (queries * d))
            by (nonlinear_arith);
        assert(0 <= b * (h * (queries * d))) by (nonlinear_arith)
            requires
                0 <= b,
                0 <= h * (queries * d),
        ;
        assert(sq1[r] == sq[b * sq1.len() + r]);
    }
    lemma_block_attention::<A>(cq, sk, sv, cq1, sk1, sv1, batch, h, queries, keys, d, b);
    let given = heads_attention::<A>(cq, sk, sv, batch * h, queries, keys, d);
    let given1 = heads_attention::<A>(cq1, sk1, sv1, 1 * h, queries, keys, d);
    assert(1 * h == h);
    lemma_block_merged(given, given1, batch, h, queries, d, b);
    let merged = Grid { shape: q.shape, data: merged_heads(given, batch, h, queries, d) };
    let merged1 = Grid { shape: q1.shape, data: merged_heads(given1, 1, h, queries, d) };
    assert(h * d == w);
    lemma_sample_linear::<A>(
        merged,
        merged1,
        b,
        attention.out_proj.weight@,
        attention.out_proj.bias@,
    );
}

/// Counting the entries of heads in either grouping.
proof fn lemma_head_count(batch: int, heads: int, time: int, d: int)
    requires
        0 <= batch,
        0 <= heads,
        0 <= time,
        0 <= d,
    ensures
        heads * time * d == heads * (time * d),
        batch * heads * time * d == batch * (heads * (time * d)),
        0 <= heads * (time * d),
        0 <= batch * (heads * (time * d)),
{
    assert(heads * time * d == heads * (time * d)) by (nonlinear_arith);
    assert(batch * heads * time * d == batch * (heads * (time * d))) by (nonlinear_arith);
    lemma_extent(time, d);
    lemma_extent(heads, time * d);
    lemma_extent(batch, heads * (time * d));
}

proof fn lemma_sample_projection<A: Arithmetic>(
    attention: AttentionWeights<A>,
    x: Grid<A::Real>,
    x1: Grid<A::Real>,
    which: int,
    b: int,
)
    requires
        is_sample(x, x1, b),
        0 <= which < 3,
        3 * (x.shape[2] * x.shape[2]) <= attention.in_proj.weight@.len(),
        3 * x.shape[2] <= attention.in_proj.bias@.len(),
    ensures
        is_sample(attention.projection(x, which), attention.projection(x1, which), b),
        attention.projection(x, which).shape == x.shape,
{
    let w = x.shape[2] as int;
    assert(0 <= which * w && which * w + w <= 3 * w) by (nonlinear_arith)
        requires
            0 <= which < 3,
            0 <= w,
    ;
    let weight = attention.in_proj.weight@.subrange(which * (w * w), which * (w * w) + w * w);
    let bias = attention.in_proj.bias@.subrange(which * w, which * w + w);
    lemma_sample_linear::<A>(x, x1, b, weight, bias);
    assert(attention.projection(x, which).shape =~= x.shape);
}

/// Whether a layer's branches are as wide as the sequence that they join.
pub open spec fn keeps_width<A: Arithmetic>(layer: Layer<A>, width: usize) -> bool {
    match layer {
        Layer::Classic(layer) => {
            &&& layer.attention.out_proj.bias@.len() == width
            &&& layer.tail.feed_forward.linear2.bias@.len() == width
        },
        Layer::Cross(layer) => {
            &&& layer.attention.out_proj.bias@.len() == width
            &&& layer.tail.feed_forward.linear2.bias@.len() == width
        },
    }
}

proof fn lemma_sample_tail<A: Arithmetic>(
    tail: Tail<A>,
    x: Grid<A::Real>,
    x1: Grid<A::Real>,
    branch: Grid<A::Real>,
    branch1: Grid<A::Real>,
    inner: Affine<A>,
    outer: Affine<A>,
    b: int,
)
    requires
        is_sample(x, x1, b),
        is_sample(branch, branch1, b),
        branch.shape == x.shape,
        tail.feed_forward.linear2.bias@.len() == x.shape[2],
        x.shape[1] * x.shape[2] <= usize::MAX,
    ensures
        is_sample(
            tail.output(x, branch, inner, outer),
            tail.output(x1, branch1, inner, outer),
            b,
        ),
        tail.output(x, branch, inner, outer).shape == x.shape,
{
    lemma_sample_scale::<A>(branch, branch1, b, tail.gamma1@);
    let scaled_branch = layer_scale_last_spec::<A>(branch, tail.gamma1@);
    let scaled_branch1 = layer_scale_last_spec::<A>(branch1, tail.gamma1@);
    lemma_sample_sum::<A>(x, x1, scaled_branch, scaled_branch1, b);
    let y = rejoined::<A>(x, branch, tail.gamma1@);
    let y1 = rejoined::<A>(x1, branch1, tail.gamma1@);
    lemma_sample_layer_norm::<A>(y, y1, b, inner.weight@, inner.bias@, norm_eps::<A>());
    let n = normed::<A>(y, inner);
    let n1 = normed::<A>(y1, inner);
    let first = tail.feed_forward.linear1;
    let second = tail.feed_forward.linear2;
    assert(first.bias@.len() == first.bias.len());
    lemma_sample_linear::<A>(n, n1, b, first.weight@, first.bias@);
    let hidden = linear_spec::<A>(n, first.weight@, first.bias@);
    let hidden1 = linear_spec::<A>(n1, first.weight@, first.bias@);
    lemma_sample_gelu::<A>(hidden, hidden1, b);
    lemma_sample_linear::<A>(
        gelu_spec::<A>(hidden),
        gelu_spec::<A>(hidden1),
        b,
        second.weight@,
        second.bias@,
    );
    let forwarded = tail.feed_forward.output(n);
    let forwarded1 = tail.feed_forward.output(n1);
    assert(forwarded.shape =~= x.shape);
    lemma_sample_scale::<A>(forwarded, forwarded1, b, tail.gamma2@);
    lemma_sample_sum::<A>(
        y,
        y1,
        layer_scale_last_spec::<A>(forwarded, tail.gamma2@),
        layer_scale_last_spec::<A>(forwarded1, tail.gamma2@),
        b,
    );
    lemma_sample_sequence_norm::<A>(
        rejoined::<A>(y, forwarded, tail.gamma2@),
        rejoined::<A>(y1, forwarded1, tail.gamma2@),
        b,
        outer.weight@,
        outer.bias@,
        norm_eps::<A>(),
    );
}

/// One sample of an attention that keeps the width, with its shape.
proof fn lemma_sample_attended<A: Arithmetic>(
    attention: AttentionWeights<A>,
    q: Grid<A::Real>,
    k: Grid<A::Real>,
    v: Grid<A::Real>,
    q1: Grid<A::Real>,
    k1: Grid<A::Real>,
    v1: Grid<A::Real>,
    heads: usize,
    b: int,
)
    requires
        is_sample(q, q1, b),
        is_sample(k, k1, b),
        is_sample(v, v1, b),
        v.shape == k.shape,
        attention.admits(q.shape, k.shape, heads),
        attention.out_proj.bias@.len() == q.shape[2],
    ensures
        is_sample(attention.output(q, k, v, heads), attention.output(q1, k1, v1, heads), b),
        attention.output(q, k, v, heads).shape == q.shape,
{
    lemma_sample_attention::<A>(attention, q, k, v, q1, k1, v1, heads, b);
    assert(attention.output(q, k, v, heads).shape =~= q.shape);
}

proof fn lemma_sample_layer<A: Arithmetic>(
    layer: Layer<A>,
    x: Grid<A::Real>,
    x1: Grid<A::Real>,
    other: Option<Grid<A::Real>>,
    other1: Option<Grid<A::Real>>,
    heads: usize,
    b: int,
)
    requires
        is_sample(x, x1, b),
        keeps_width::<A>(layer, x.shape[2]),
        x.shape[1] * x.shape[2] <= usize::MAX,
        match (other, other1) {
            (Some(other), Some(other1)) => is_sample(other, other1, b) && layer.admits(
                x.shape,
                Some(other.shape),
                heads,
            ),
            (None, None) => layer.admits(x.shape, None, heads),
            _ => false,
        },
    ensures
        is_sample(layer.output(x, other, heads), layer.output(x1, other1, heads), b),
        layer.output(x, other, heads).shape == x.shape,
{
    match layer {
        Layer::Classic(layer) => {
            let norm = layer.norm1;
            lemma_sample_layer_norm::<A>(x, x1, b, norm.weight@, norm.bias@, norm_eps::<A>());
            let inside = normed::<A>(x, norm);
            let inside1 = normed::<A>(x1, norm);
            lemma_sample_attended::<A>(
                layer.attention,
                inside,
                inside,
                inside,
                inside1,
                inside1,
                inside1,
                heads,
                b,
            );
            lemma_sample_tail::<A>(
                layer.tail,
                x,
                x1,
                layer.attention.output(inside, inside, inside, heads),
                layer.attention.output(inside1, inside1, inside1, heads),
                layer.norm2,
                layer.norm_out,
                b,
            );
        },
        Layer::Cross(layer) => {
            let k = other->0;
            let k1 = other1->0;
            let (first, second) = (layer.norm1, layer.norm2);
            lemma_sample_layer_norm::<A>(x, x1, b, first.weight@, first.bias@, norm_eps::<A>());
            lemma_sample_layer_norm::<A>(k, k1, b, second.weight@, second.bias@, norm_eps::<A>());
            let query = normed::<A>(x, first);
            let query1 = normed::<A>(x1, first);
            let key = normed::<A>(k, second);
            let key1 = normed::<A>(k1, second);
            lemma_sample_attended::<A>(
                layer.attention,
                query,
                key,
                key,
                query1,
                key1,
                key1,
                heads,
                b,
            );
            lemma_sample_tail::<A>(
                layer.tail,
                x,
                x1,
                layer.attention.output(query, key, key, heads),
                layer.attention.output(query1, key1, key1, heads),
                layer.norm3,
                layer.norm_out,
                b,
            );
        },
    }
}

proof fn lemma_sample_exchanged<A: Arithmetic>(
    layers: Seq<Layer<A>>,
    layers_t: Seq<Layer<A>>,
    x: Grid<A::Real>,
    xt: Grid<A::Real>,
    x1: Grid<A::Real>,
    xt1: Grid<A::Real>,
    heads: usize,
    count: int,
    b: int,
)
    requires
        is_sample(x, x1, b),
        is_sample(xt, xt1, b),
        x.shape[1] * x.shape[2] <= usize::MAX,
        xt.shape[1] * xt.shape[2] <= usize::MAX,
        count <= layers.len() <= layers_t.len(),
        forall|i: int|
            0 <= i < layers.len() ==> pair_admits::<A>(
                #[trigger] layers[i],
                layers_t[i],
                x.shape,
                xt.shape,
                heads,
            ),
        forall|i: int|
            0 <= i < layers.len() ==> keeps_width::<A>(#[trigger] layers[i], x.shape[2]),
        forall|i: int|
            0 <= i < layers.len() ==> keeps_width::<A>(#[trigger] layers_t[i], xt.shape[2]),
    ensures
        is_sample(
            exchanged::<A>(layers, layers_t, x, xt, heads, count).0,
            exchanged::<A>(layers, layers_t, x1, xt1, heads, count).0,
            b,
        ),
        is_sample(
            exchanged::<A>(layers, layers_t, x, xt, heads, count).1,
            exchanged::<A>(layers, layers_t, x1, xt1, heads, count).1,
            b,
        ),
        exchanged::<A>(layers, layers_t, x, xt, heads, count).0.shape == x.shape,
        exchanged::<A>(layers, layers_t, x, xt, heads, count).1.shape == xt.shape,
    decreases count,
{
    if count > 0 {
        lemma_sample_exchanged::<A>(layers, layers_t, x, xt, x1, xt1, heads, count - 1, b);
        let (p, q) = exchanged::<A>(layers, layers_t, x, xt, heads, count - 1);
        let (p1, q1) = exchanged::<A>(layers, layers_t, x1, xt1, heads, count - 1);
        let layer = layers[count - 1];
        let layer_t = layers_t[count - 1];
        match layer {
            Layer::Classic(_) => {
                lemma_sample_layer::<A>(layer, p, p1, None, None, heads, b);
                lemma_sample_layer::<A>(layer_t, q, q1, None, None, heads, b);
            },
            Layer::Cross(_) => {
                lemma_sample_layer::<A>(layer, p, p1, Some(q), Some(q1), heads, b);
                lemma_sample_layer::<A>(layer_t, q, q1, Some(p), Some(p1), heads, b);
            },
        }
    }
}

/// Sample `b` of a batch, as a batch of one.
pub open spec fn sample_of<T>(x: Grid<T>, b: int) -> Grid<T> {
    let size = sample_size(x.shape);
    Grid { shape: x.shape.update(0, 1), data: x.data.subrange(b * size, b * size + size) }
}

/// The entries of a sample of a plane or of a line.
proof fn lemma_sample_of<T>(x: Grid<T>, b: int)
    requires
        x.wf(),
        3 <= x.shape.len() <= 4,
        0 <= b < x.shape[0],
    ensures
        x.shape.len() == 3 ==> sample_size(x.shape) == x.shape[1] * x.shape[2],
        x.shape.len() == 4 ==> sample_size(x.shape) == x.shape[1] * x.shape[2] * x.shape[3],
        x.data.len() == x.shape[0] * sample_size(x.shape),
        0 <= b * sample_size(x.shape),
        b * sample_size(x.shape) + sample_size(x.shape) <= x.data.len(),
        sample_of(x, b).data.len() == sample_size(x.shape),
        is_block(x.data, sample_of(x, b).data, b),
{
    let size = sample_size(x.shape);
    let rest = x.shape.skip(1);
    crate::tensor::lemma_volume_split(x.shape, 1);
    assert(x.shape.take(1).drop_last() =~= Seq::<usize>::empty());
    assert(volume(x.shape.take(1).drop_last()) == 1);
    assert(x.shape.take(1).last() == x.shape[0]);
    assert(volume(x.shape.take(1)) == 1 * x.shape[0]);
    if x.shape.len() == 3 {
        lemma_rank2(rest);
    } else {
        lemma_rank3(rest);
    }
    let batch = x.shape[0] as int;
    assert(0 <= b * size && b * size + size <= batch * size) by (nonlinear_arith)
        requires
            0 <= b < batch,
            0 <= size,
    ;
}

proof fn lemma_sample_arranged_freq<T>(x: Grid<T>, b: int)
    requires
        x.wf(),
        x.shape.len() == 4,
        0 <= b < x.shape[0],
    ensures
        is_sample(arranged_freq(x), arranged_freq(sample_of(x, b)), b),
        arranged_freq(x).shape == token_shape(x.shape),
        token_shape(x.shape)[1] == x.shape[3] * x.shape[2],
        x.shape[3] * x.shape[2] * x.shape[1] <= usize::MAX,
{
    lemma_sample_of(x, b);
    lemma_rank4(x.shape);
    lemma_arranged_shape(x.shape);
    let one = sample_of(x, b);
    let batch = x.shape[0] as int;
    let (c, f, t) = (x.shape[1] as int, x.shape[2] as int, x.shape[3] as int);
    let from_all = arranged_freq(x);
    let from_one = arranged_freq(one);
    lemma_rank3(from_all.shape);
    lemma_extent(t, f);
    lemma_extent(t * f, c);
    assert(1 * (t * f) * c == t * f * c);
    assert(t * f * c <= batch * (t * f) * c && batch * (t * f) * c == batch * ((t * f) * c))
        by (nonlinear_arith)
        requires
            batch >= 1,
            0 <= t * f * c,
    ;
    assert(batch * (t * f) >= 0) by (nonlinear_arith)
        requires
            batch >= 1,
            0 <= t * f,
    ;
    assert forall|r: int| 0 <= r < from_one.data.len() implies #[trigger] from_one.data[r]
        == from_all.data[b * from_one.data.len() + r] by {
        lemma_place(batch, t * f, c, b, r);
        lemma_place(1, t * f, c, 0, r);
        assert(0 * (t * f * c) + r == r);
        let (token, i) = (r / c, r % c);
        lemma_split2(t, f, token);
        let (k, j) = (token / f, token % f);
        lemma_join3(c, f, t, i, j, k);
        assert(((b * c + i) * f + j) * t + k == b * (c * f * t) + ((i * f + j) * t + k))
            by (nonlinear_arith);
        assert(((0 * c + i) * f + j) * t + k == (i * f + j) * t + k);
        assert(one.data[(i * f + j) * t + k] == x.data[b * one.data.len() + ((i * f + j) * t
            + k)]);
    }
}

proof fn lemma_sample_arranged_time<T>(x: Grid<T>, b: int)
    requires
        x.wf(),
        x.shape.len() == 3,
        0 <= b < x.shape[0],
    ensures
        is_sample(arranged_time(x), arranged_time(sample_of(x, b)), b),
        arranged_time(x).shape == token_shape_t(x.shape),
        x.shape[2] * x.shape[1] <= usize::MAX,
{
    lemma_sample_of(x, b);
    lemma_rank3(x.shape);
    let one = sample_of(x, b);
    let batch = x.shape[0] as int;
    let (c, t) = (x.shape[1] as int, x.shape[2] as int);
    let from_all = arranged_time(x);
    let from_one = arranged_time(one);
    lemma_extent(t, c);
    lemma_extent(batch, t);
    lemma_extent(batch * t, c);
    assert(1 * t * c == t * c);
    assert(t * c == c * t) by (nonlinear_arith);
    assert forall|r: int| 0 <= r < from_one.data.len() implies #[trigger] from_one.data[r]
        == from_all.data[b * from_one.data.len() + r] by {
        lemma_place(batch, t, c, b, r);
        lemma_place(1, t, c, 0, r);
        assert(0 * (t * c) + r == r);
        let (k, i) = (r / c, r % c);
        lemma_join2(c, t, i, k);
        assert((b * c + i) * t + k == b * (c * t) + (i * t + k)) by (nonlinear_arith);
        assert((0 * c + i) * t + k == i * t + k);
        assert(one.data[i * t + k] == x.data[b * one.data.len() + (i * t + k)]);
    }
}

proof fn lemma_block_unarranged_freq<T>(
    all: Seq<T>,
    one: Seq<T>,
    batch: usize,
    c: usize,
    f: usize,
    t: usize,
    b: int,
)
    requires
        0 <= b < batch,
        one.len() == t * f * c,
        is_block(all, one, b),
        (Grid {
            shape: seq![batch, c, f, t],
            data: unarranged_freq(all, batch, c, f, t).data,
        }).wf(),
    ensures
        sample_of(unarranged_freq(all, batch, c, f, t), b) == unarranged_freq(one, 1, c, f, t),
{
    let whole = unarranged_freq(all, batch, c, f, t);
    let part = unarranged_freq(one, 1, c, f, t);
    lemma_sample_of(whole, b);
    let (ci, fi, ti) = (c as int, f as int, t as int);
    lemma_extent(ci, fi);
    lemma_extent(ci * fi, ti);
    assert(1 * ci * fi * ti == ci * fi * ti);
    let picked = sample_of(whole, b);
    assert forall|r: int| 0 <= r < ci * fi * ti implies #[trigger] picked.data[r]
        == part.data[r] by {
        lemma_place4(batch as int, ci, fi, ti, b, r);
        let (i, j, k) = (r / ti / fi, r / ti % fi, r % ti);
        lemma_join2(ti, fi, k, j);
        lemma_join3(1, ti * fi, ci, 0, k * fi + j, i);
        lemma_join2(ti * fi, ci, k * fi + j, i);
        assert((b * (ti * fi) + (k * fi + j)) * ci + i == b * (ti * fi * ci) + ((k * fi + j) * ci
            + i)) by (nonlinear_arith);
        assert((0 * (ti * fi) + (k * fi + j)) * ci + i == (k * fi + j) * ci + i);
        assert(one[(k * fi + j) * ci + i] == all[b * one.len() + ((k * fi + j) * ci + i)]);
    }
    assert(picked.data =~= part.data);
    assert(picked.shape =~= part.shape);
}

proof fn lemma_block_unarranged_time<T>(
    all: Seq<T>,
    one: Seq<T>,
    batch: usize,
    c: usize,
    t: usize,
    b: int,
)
    requires
        0 <= b < batch,
        one.len() == t * c,
        is_block(all, one, b),
        (Grid { shape: seq![batch, c, t], data: unarranged_time(all, batch, c, t).data }).wf(),
    ensures
        sample_of(unarranged_time(all, batch, c, t), b) == unarranged_time(one, 1, c, t),
{
    let whole = unarranged_time(all, batch, c, t);
    let part = unarranged_time(one, 1, c, t);
    lemma_sample_of(whole, b);
    let (ci, ti) = (c as int, t as int);
    lemma_extent(ci, ti);
    assert(1 * ci * ti == ci * ti);
    let picked = sample_of(whole, b);
    assert forall|r: int| 0 <= r < ci * ti implies #[trigger] picked.data[r] == part.data[r] by {
        lemma_place(batch as int, ci, ti, b, r);
        lemma_place(1, ci, ti, 0, r);
        assert(0 * (ci * ti) + r == r);
        let (i, k) = (r / ti, r % ti);
        lemma_join2(ti, ci, k, i);
        assert((b * ti + k) * ci + i == b * (ti * ci) + (k * ci + i)) by (nonlinear_arith);
        assert((0 * ti + k) * ci + i == k * ci + i);
        assert(one[k * ci + i] == all[b * one.len() + (k * ci + i)]);
    }
    assert(picked.data =~= part.data);
    assert(picked.shape =~= part.shape);
}

/// The samples of a batch do not affect each other, and each carries its
/// positions: a sample of what the transformer gives is what it gives of that
/// sample alone. The transformer is as wide as its input, and its branches as
/// wide as what they join.
pub proof fn law_samples_stay_apart<A: Arithmetic>(
    transformer: CrossTransformer<A>,
    x: Grid<A::Real>,
    xt: Grid<A::Real>,
    b: int,
)
    requires
        x.wf(),
        xt.wf(),
        transformer.admits(x.shape, xt.shape),
        x.shape[0] == xt.shape[0],
        x.shape[1] == transformer.dim,
        xt.shape[1] == transformer.dim,
        forall|i: int|
            0 <= i < transformer.layers@.len() ==> keeps_width::<A>(
                #[trigger] transformer.layers@[i],
                transformer.dim,
            ),
        forall|i: int|
            0 <= i < transformer.layers@.len() ==> keeps_width::<A>(
                #[trigger] transformer.layers_t@[i],
                transformer.dim,
            ),
        0 <= b < x.shape[0],
    ensures
        sample_of(transformer.output(x, xt).0, b) == transformer.output(
            sample_of(x, b),
            sample_of(xt, b),
        ).0,
        sample_of(transformer.output(x, xt).1, b) == transformer.output(
            sample_of(x, b),
            sample_of(xt, b),
        ).1,
{
    reveal(CrossTransformer::admits);
    reveal(CrossTransformer::output);
    let x1 = sample_of(x, b);
    let xt1 = sample_of(xt, b);
    let (f, t, tt) = (x.shape[2], x.shape[3], xt.shape[2]);
    let dim = transformer.dim;
    lemma_sample_arranged_freq(x, b);
    lemma_sample_arranged_time(xt, b);
    let norm = transformer.norm_in;
    let norm_t = transformer.norm_in_t;
    lemma_sample_layer_norm::<A>(
        arranged_freq(x),
        arranged_freq(x1),
        b,
        norm.weight@,
        norm.bias@,
        norm_eps::<A>(),
    );
    lemma_sample_layer_norm::<A>(
        arranged_time(xt),
        arranged_time(xt1),
        b,
        norm_t.weight@,
        norm_t.bias@,
        norm_eps::<A>(),
    );
    let places = embedding_2d::<A>(dim, f, t, transformer.max_period).data;
    let places_t = embedding_1d::<A>(tt, dim, transformer.max_period).data;
    lemma_extent(t as int, f as int);
    lemma_extent(t * f, dim as int);
    lemma_extent(tt as int, dim as int);
    lemma_sample_embedding::<A>(
        normed::<A>(arranged_freq(x), norm),
        normed::<A>(arranged_freq(x1), norm),
        b,
        places,
        transformer.weight_pos_embed,
    );
    lemma_sample_embedding::<A>(
        normed::<A>(arranged_time(xt), norm_t),
        normed::<A>(arranged_time(xt1), norm_t),
        b,
        places_t,
        transformer.weight_pos_embed,
    );
    let count = transformer.layers@.len() as int;
    let (tokens, tokens_t) = (transformer.tokens(x), transformer.tokens_t(xt));
    let (tokens1, tokens_t1) = (transformer.tokens(x1), transformer.tokens_t(xt1));
    assert(is_sample(tokens, tokens1, b));
    assert(is_sample(tokens_t, tokens_t1, b));
    lemma_sample_exchanged::<A>(
        transformer.layers@,
        transformer.layers_t@,
        tokens,
        tokens_t,
        tokens1,
        tokens_t1,
        transformer.heads,
        count,
        b,
    );
    let (p, q) = exchanged::<A>(
        transformer.layers@,
        transformer.layers_t@,
        tokens,
        tokens_t,
        transformer.heads,
        count,
    );
    let (p1, q1) = exchanged::<A>(
        transformer.layers@,
        transformer.layers_t@,
        tokens1,
        tokens_t1,
        transformer.heads,
        count,
    );
    lemma_rank4(seq![x.shape[0], dim, f, t]);
    lemma_rank3(seq![x.shape[0], dim, tt]);
    lemma_extent(x.shape[0] as int, dim as int);
    lemma_extent(x.shape[0] * dim, f as int);
    lemma_extent(x.shape[0] * dim * f, t as int);
    lemma_extent(x.shape[0] * dim, tt as int);
    lemma_block_unarranged_freq(p.data, p1.data, x.shape[0], dim, f, t, b);
    lemma_block_unarranged_time(q.data, q1.data, x.shape[0], dim, tt, b);
}

} // verus!
