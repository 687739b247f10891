//! What an attention comes to where nothing is rounded: means of the values,
//! weighted by exponentials of scaled products of queries and keys.

use vstd::prelude::*;

use crate::arithmetic::Arithmetic;
use crate::attention::{
    exponentials, head_attention, heads_attention, heads_of, law_heads_are_contiguous,
    merged_heads, row_maximum, row_of, row_sum, softmax, softmax_rows,
};
use crate::fields::{
    field, lemma_cancel, lemma_count, lemma_exponential, lemma_field_is_ring, lemma_multiply_back,
    lemma_positive, lemma_root, lemma_total_positive, lemma_unit,
};
use crate::index::{at2, at3, lemma_extent, lemma_join2, lemma_join3, lemma_join4};
use crate::layers::{query_scale, scaled, AttentionWeights};
use crate::matmul::{flipped, product_of, row_times_column};
use crate::ops::{feature_sum, linear_spec};
use crate::rings::{
    lemma_commute, lemma_regroup, lemma_total_alike, lemma_total_times, ring, total,
};
use crate::tensor::{lemma_rank2, lemma_rank3, volume, Grid};

verus! {

proof fn lemma_row_times_column<A: Arithmetic>(
    a: Seq<A::Real>,
    b: Seq<A::Real>,
    k: int,
    n: int,
    i: int,
    j: int,
    terms: int,
)
    ensures
        row_times_column::<A>(a, b, k, n, i, j, terms) == total::<A>(
            terms,
            |r: int| A::times_spec(a[i * k + r], b[r * n + j]),
        ),
    decreases terms,
{
    if terms > 0 {
        lemma_row_times_column::<A>(a, b, k, n, i, j, terms - 1);
    }
}

/// Every entry of a matrix product is the sum of the products of a row and a
/// column.
pub proof fn law_products_are_rows_by_columns<A: Arithmetic>(
    a: Seq<A::Real>,
    b: Seq<A::Real>,
    m: int,
    k: int,
    n: int,
    i: int,
    j: int,
)
    requires
        0 <= i < m,
        0 <= j < n,
    ensures
        product_of::<A>(a, b, m, k, n).len() == m * n,
        product_of::<A>(a, b, m, k, n)[i * n + j] == total::<A>(
            k,
            |r: int| A::times_spec(a[i * k + r], b[r * n + j]),
        ),
{
    lemma_join2(m, n, i, j);
    lemma_row_times_column::<A>(a, b, k, n, i, j, k);
}

proof fn lemma_row_sum<A: Arithmetic>(row: Seq<A::Real>, terms: int)
    ensures
        row_sum::<A>(row, terms) == total::<A>(terms, |j: int| row[j]),
    decreases terms,
{
    if terms > 0 {
        lemma_row_sum::<A>(row, terms - 1);
    }
}

proof fn lemma_feature_sum<A: Arithmetic>(
    x: Seq<A::Real>,
    weight: Seq<A::Real>,
    width: int,
    row: int,
    out: int,
    features: int,
)
    ensures
        feature_sum::<A>(x, weight, width, row, out, features) == total::<A>(
            features,
            |c: int| A::times_spec(x[row * width + c], weight[out * width + c]),
        ),
    decreases features,
{
    if features > 0 {
        lemma_feature_sum::<A>(x, weight, width, row, out, features - 1);
    }
}

/// Every entry of a linear layer is the sum of the products of a row's
/// features and a row of the weight, and the bias.
pub proof fn law_linear_layers_weigh_features<A: Arithmetic>(
    x: Grid<A::Real>,
    weight: Seq<A::Real>,
    bias: Seq<A::Real>,
    row: int,
    out: int,
)
    requires
        0 <= row < volume(x.shape.drop_last()),
        0 <= out < bias.len(),
    ensures
        linear_spec::<A>(x, weight, bias).data.len() == volume(x.shape.drop_last()) * bias.len(),
        linear_spec::<A>(x, weight, bias).data[row * bias.len() + out] == A::plus_spec(
            total::<A>(
                x.shape.last() as int,
                |c: int|
                    A::times_spec(
                        x.data[row * x.shape.last() + c],
                        weight[out * x.shape.last() + c],
                    ),
            ),
            bias[out],
        ),
{
    let width = x.shape.last() as int;
    lemma_join2(volume(x.shape.drop_last()) as int, bias.len() as int, row, out);
    lemma_feature_sum::<A>(x.data, weight, width, row, out, width);
}

/// The product of a query and a key of one head.
spec fn score<A: Arithmetic>(
    q: Seq<A::Real>,
    k: Seq<A::Real>,
    d: int,
    t: int,
    j: int,
) -> A::Real {
    total::<A>(d, |r: int| A::times_spec(q[t * d + r], k[j * d + r]))
}

/// `(a * b) * c == (a * c) * b`.
proof fn lemma_swap_last<A: Arithmetic>(a: A::Real, b: A::Real, c: A::Real)
    requires
        ring::<A>(),
    ensures
        A::times_spec(A::times_spec(a, b), c) == A::times_spec(A::times_spec(a, c), b),
{
    lemma_regroup::<A>(a, b, c);
    lemma_commute::<A>(b, c);
    lemma_regroup::<A>(a, c, b);
}

/// One head's answer times the exponentials of its scores is the sum of the
/// values times those exponentials.
proof fn lemma_head_weighs<A: Arithmetic>(
    q: Seq<A::Real>,
    k: Seq<A::Real>,
    v: Seq<A::Real>,
    queries: int,
    keys: int,
    d: int,
    t: int,
    e: int,
)
    requires
        field::<A>(),
        keys > 0,
        0 <= t < queries,
        0 <= e < d,
    ensures
        A::times_spec(
            head_attention::<A>(q, k, v, queries, keys, d)[t * d + e],
            total::<A>(keys, |j: int| A::exponential_spec(score::<A>(q, k, d, t, j))),
        ) == total::<A>(
            keys,
            |j: int|
                A::times_spec(A::exponential_spec(score::<A>(q, k, d, t, j)), v[j * d + e]),
        ),
{
    lemma_field_is_ring::<A>();
    let turned = flipped(k, keys, d);
    let scores = product_of::<A>(q, turned, queries, d, keys);
    let row = row_of(scores, keys, t);
    lemma_extent(queries, keys);
    assert(t * keys + keys <= queries * keys && 0 <= t * keys) by (nonlinear_arith)
        requires
            0 <= t < queries,
            keys > 0,
    ;
    let s = |j: int| score::<A>(q, k, d, t, j);
    assert forall|j: int| 0 <= j < keys implies #[trigger] row[j] == s(j) by {
        law_products_are_rows_by_columns::<A>(q, turned, queries, d, keys, t, j);
        let one = |r: int| A::times_spec(q[t * d + r], turned[r * keys + j]);
        let other = |r: int| A::times_spec(q[t * d + r], k[j * d + r]);
        assert forall|r: int| 0 <= r < d implies #[trigger] one(r) == other(r) by {
            lemma_join2(d, keys, r, j);
        }
        lemma_total_alike::<A>(d, one, other);
    }
    let m = row_maximum::<A>(row, keys);
    let top = A::exponential_spec(m);
    let powers = exponentials::<A>(row);
    let power = |j: int| powers[j];
    let sum = row_sum::<A>(powers, keys);
    lemma_row_sum::<A>(powers, keys);
    lemma_total_alike::<A>(keys, |j: int| powers[j], power);
    let whole = |j: int| A::exponential_spec(s(j));
    assert forall|j: int| 0 <= j < keys implies #[trigger] whole(j) == A::times_spec(
        power(j),
        top,
    ) by {
        assert(row[j] == s(j));
        lemma_exponential::<A>(row[j], m);
    }
    assert forall|j: int| 0 <= j < keys implies A::exceeds_spec(
        #[trigger] power(j),
        A::zero_spec(),
    ) by {
        assert(row[j] == s(j));
        lemma_exponential::<A>(A::minus_spec(row[j], m), m);
    }
    lemma_total_positive::<A>(keys, power);
    lemma_positive::<A>(sum);
    lemma_total_times::<A>(keys, power, top);
    lemma_total_alike::<A>(keys, whole, |j: int| A::times_spec(power(j), top));
    let all = total::<A>(keys, whole);
    assert(all == A::times_spec(sum, top));

    let weights = softmax_rows::<A>(scores, queries, keys);
    let answer = head_attention::<A>(q, k, v, queries, keys, d)[t * d + e];
    law_products_are_rows_by_columns::<A>(weights, v, queries, keys, d, t, e);
    let part = |j: int| A::times_spec(A::over_spec(power(j), sum), v[j * d + e]);
    let raw = |j: int| A::times_spec(weights[t * keys + j], v[j * d + e]);
    assert forall|j: int| 0 <= j < keys implies #[trigger] raw(j) == part(j) by {
        lemma_join2(queries, keys, t, j);
        assert(softmax::<A>(row)[j] == A::over_spec(powers[j], sum));
    }
    lemma_total_alike::<A>(keys, raw, part);
    lemma_total_alike::<A>(
        keys,
        raw,
        |r: int| A::times_spec(weights[t * keys + r], v[r * d + e]),
    );
    assert(answer == total::<A>(keys, part));

    // Times the sum of the powers, then times the exponential of the largest.
    let plain = |j: int| A::times_spec(power(j), v[j * d + e]);
    let grown = |j: int| A::times_spec(part(j), sum);
    assert forall|j: int| 0 <= j < keys implies #[trigger] grown(j) == plain(j) by {
        lemma_swap_last::<A>(A::over_spec(power(j), sum), v[j * d + e], sum);
        lemma_multiply_back::<A>(power(j), sum);
    }
    lemma_total_times::<A>(keys, part, sum);
    lemma_total_alike::<A>(keys, grown, plain);
    lemma_total_alike::<A>(keys, grown, |j: int| A::times_spec(part(j), sum));
    assert(A::times_spec(answer, sum) == total::<A>(keys, plain));
    let wanted = |j: int| A::times_spec(whole(j), v[j * d + e]);
    let lifted = |j: int| A::times_spec(plain(j), top);
    assert forall|j: int| 0 <= j < keys implies #[trigger] lifted(j) == wanted(j) by {
        lemma_swap_last::<A>(power(j), v[j * d + e], top);
        assert(whole(j) == A::times_spec(power(j), top));
    }
    lemma_total_times::<A>(keys, plain, top);
    lemma_total_alike::<A>(keys, lifted, wanted);
    lemma_total_alike::<A>(keys, lifted, |j: int| A::times_spec(plain(j), top));
    lemma_regroup::<A>(answer, sum, top);
    lemma_total_alike::<A>(
        keys,
        whole,
        |j: int| A::exponential_spec(score::<A>(q, k, d, t, j)),
    );
    lemma_total_alike::<A>(
        keys,
        wanted,
        |j: int|
            A::times_spec(A::exponential_spec(score::<A>(q, k, d, t, j)), v[j * d + e]),
    );
}

/// Feature `i` of a token's query, key or value: the token's features weighed
/// by a row of the input projection, which holds the queries' rows first, then
/// the keys', then the values'.
pub open spec fn projected_feature<A: Arithmetic>(
    attention: AttentionWeights<A>,
    x: Grid<A::Real>,
    which: int,
    b: int,
    t: int,
    i: int,
) -> A::Real {
    let w = x.shape[2] as int;
    A::plus_spec(
        total::<A>(
            w,
            |c: int|
                A::times_spec(
                    x.data[(b * x.shape[1] + t) * w + c],
                    attention.in_proj.weight@[(which * w + i) * w + c],
                ),
        ),
        attention.in_proj.bias@[which * w + i],
    )
}

/// Whether these are the scores of query `t` against every key in a head: each
/// times the root of the head's width is the product of query and key.
pub open spec fn are_scores<A: Arithmetic>(
    attention: AttentionWeights<A>,
    q: Grid<A::Real>,
    k: Grid<A::Real>,
    heads: usize,
    b: int,
    t: int,
    head: int,
    scores: Seq<A::Real>,
) -> bool {
    let d = q.shape[2] as int / heads as int;
    &&& scores.len() == k.shape[1]
    &&& forall|j: int|
        0 <= j < scores.len() ==> A::times_spec(
            #[trigger] scores[j],
            A::square_root_spec(A::from_count_spec(d as usize)),
        ) == total::<A>(
            d,
            |r: int|
                A::times_spec(
                    projected_feature::<A>(attention, q, 0, b, t, head * d + r),
                    projected_feature::<A>(attention, k, 1, b, j, head * d + r),
                ),
        )
}

/// Whether a value times the sum of the exponentials of the scores is the sum
/// of the values of every key, each times the exponential of its score.
pub open spec fn is_weighted_mean<A: Arithmetic>(
    attention: AttentionWeights<A>,
    v: Grid<A::Real>,
    b: int,
    i: int,
    scores: Seq<A::Real>,
    value: A::Real,
) -> bool {
    A::times_spec(
        value,
        total::<A>(scores.len() as int, |j: int| A::exponential_spec(scores[j])),
    ) == total::<A>(
        scores.len() as int,
        |j: int|
            A::times_spec(
                A::exponential_spec(scores[j]),
                projected_feature::<A>(attention, v, 2, b, j, i),
            ),
    )
}

proof fn lemma_projected_feature<A: Arithmetic>(
    attention: AttentionWeights<A>,
    x: Grid<A::Real>,
    which: int,
    b: int,
    t: int,
    i: int,
)
    requires
        x.shape.len() == 3,
        0 <= which < 3,
        0 <= b < x.shape[0],
        0 <= t < x.shape[1],
        0 <= i < x.shape[2],
        3 * (x.shape[2] * x.shape[2]) <= attention.in_proj.weight@.len(),
        3 * x.shape[2] <= attention.in_proj.bias@.len(),
    ensures
        attention.projection(x, which).data[(b * x.shape[1] + t) * x.shape[2] + i]
            == projected_feature::<A>(attention, x, which, b, t, i),
        attention.projection(x, which).data.len() == x.shape[0] * x.shape[1] * x.shape[2],
{
    let w = x.shape[2] as int;
    let n = x.shape[1] as int;
    lemma_extent(w, w);
    assert(0 <= which * (w * w) && which * (w * w) + w * w <= 3 * (w * w)) by (nonlinear_arith)
        requires
            0 <= which < 3,
            0 <= w * w,
    ;
    assert(0 <= which * w && which * w + w <= 3 * w) by (nonlinear_arith)
        requires
            0 <= which < 3,
            0 <= w,
    ;
    let weight = attention.in_proj.weight@.subrange(which * (w * w), which * (w * w) + w * w);
    let bias = attention.in_proj.bias@.subrange(which * w, which * w + w);
    lemma_rank2(x.shape.drop_last());
    lemma_join2(x.shape[0] as int, n, b, t);
    assert(x.shape.drop_last()[0] == x.shape[0] && x.shape.drop_last()[1] == x.shape[1]);
    law_linear_layers_weigh_features::<A>(x, weight, bias, b * n + t, i);
    let one = |c: int|
        A::times_spec(x.data[(b * n + t) * x.shape.last() + c], weight[i * x.shape.last() + c]);
    let other = |c: int|
        A::times_spec(
            x.data[(b * n + t) * w + c],
            attention.in_proj.weight@[(which * w + i) * w + c],
        );
    assert forall|c: int| 0 <= c < w implies #[trigger] one(c) == other(c) by {
        lemma_join2(w, w, i, c);
        assert((which * w + i) * w + c == which * (w * w) + (i * w + c)) by (nonlinear_arith);
    }
    lemma_total_alike::<A>(w, one, other);
    lemma_total_alike::<A>(
        w,
        one,
        |c: int|
            A::times_spec(
                x.data[(b * n + t) * x.shape.last() + c],
                weight[i * x.shape.last() + c],
            ),
    );
    lemma_total_alike::<A>(
        w,
        other,
        |c: int|
            A::times_spec(
                x.data[(b * x.shape[1] + t) * w + c],
                attention.in_proj.weight@[(which * w + i) * w + c],
            ),
    );
}

/// The factor on the queries times the root of a head's width is one.
proof fn lemma_factor<A: Arithmetic>(d: usize)
    requires
        field::<A>(),
        d > 0,
    ensures
        A::times_spec(
            query_scale::<A>(d),
            A::square_root_spec(A::from_count_spec(d)),
        ) == A::one_spec(),
        A::square_root_spec(A::from_count_spec(d)) != A::zero_spec(),
{
    lemma_count::<A>(d);
    lemma_root::<A>(A::from_count_spec(d));
    lemma_multiply_back::<A>(A::one_spec(), A::square_root_spec(A::from_count_spec(d)));
}

/// Where feature `e` of token `t` of a head lies among the split heads.
proof fn lemma_head_place(batch: int, heads: int, time: int, d: int, b: int, h: int, t: int, e: int)
    requires
        0 <= b < batch,
        0 <= h < heads,
        0 <= t < time,
        0 <= e < d,
    ensures
        0 <= b * heads + h < batch * heads,
        0 <= (b * heads + h) * (time * d),
        (b * heads + h) * (time * d) + time * d <= batch * heads * (time * d),
        0 <= t * d + e < time * d,
        ((b * heads + h) * time + t) * d + e == (b * heads + h) * (time * d) + (t * d + e),
{
    lemma_join2(batch, heads, b, h);
    lemma_join2(time, d, t, e);
    let g = b * heads + h;
    let all = batch * heads;
    let size = time * d;
    assert(0 <= g * size && g * size + size <= all * size) by (nonlinear_arith)
        requires
            0 <= g < all,
            0 <= size,
    ;
    assert((g * time + t) * d + e == g * (time * d) + (t * d + e)) by (nonlinear_arith);
}

/// What the heads of an attention give before the last projection.
spec fn mixture<A: Arithmetic>(
    attention: AttentionWeights<A>,
    q: Grid<A::Real>,
    k: Grid<A::Real>,
    v: Grid<A::Real>,
    heads: usize,
) -> Seq<A::Real> {
    let (batch, queries, keys) = (q.shape[0] as int, q.shape[1] as int, k.shape[1] as int);
    let (w, h) = (q.shape[2] as int, heads as int);
    let d = (q.shape[2] / heads) as int;
    merged_heads(
        heads_attention::<A>(
            scaled::<A>(
                heads_of(attention.projection(q, 0).data, batch, queries, w, h),
                query_scale::<A>(d as usize),
            ),
            heads_of(attention.projection(k, 1).data, batch, keys, w, h),
            heads_of(attention.projection(v, 2).data, batch, keys, w, h),
            batch * h,
            queries,
            keys,
            d,
        ),
        batch,
        h,
        queries,
        d,
    )
}

proof fn lemma_mixture<A: Arithmetic>(
    attention: AttentionWeights<A>,
    q: Grid<A::Real>,
    k: Grid<A::Real>,
    v: Grid<A::Real>,
    heads: usize,
    b: int,
    t: int,
    head: int,
    e: int,
    scores: Seq<A::Real>,
)
    requires
        field::<A>(),
        attention.admits(q.shape, k.shape, heads),
        v.shape == k.shape,
        k.shape[1] > 0,
        0 <= b < q.shape[0],
        0 <= t < q.shape[1],
        0 <= head < heads,
        0 <= e < q.shape[2] as int / heads as int,
        are_scores::<A>(attention, q, k, heads, b, t, head, scores),
    ensures
        is_weighted_mean::<A>(
            attention,
            v,
            b,
            head * (q.shape[2] as int / heads as int) + e,
            scores,
            at3(
                mixture::<A>(attention, q, k, v, heads),
                q.shape[1] as int,
                q.shape[2] as int,
                b,
                t,
                head * (q.shape[2] as int / heads as int) + e,
            ),
        ),
{
    lemma_field_is_ring::<A>();
    let (batch, queries, keys) = (q.shape[0] as int, q.shape[1] as int, k.shape[1] as int);
    let (w, h) = (q.shape[2] as int, heads as int);
    let d = w / h;
    vstd::arithmetic::div_mod::lemma_fundamental_div_mod(w, h);
    assert(h * d == w);
    let (pq, pk, pv) = (
        attention.projection(q, 0).data,
        attention.projection(k, 1).data,
        attention.projection(v, 2).data,
    );
    let factor = query_scale::<A>(d as usize);
    let root = A::square_root_spec(A::from_count_spec(d as usize));
    lemma_factor::<A>(d as usize);
    let sq = heads_of(pq, batch, queries, w, h);
    let cq = scaled::<A>(sq, factor);
    let sk = heads_of(pk, batch, keys, w, h);
    let sv = heads_of(pv, batch, keys, w, h);
    let given = heads_attention::<A>(cq, sk, sv, batch * h, queries, keys, d);
    let i = head * d + e;
    lemma_join2(h, d, head, e);
    lemma_join3(batch, queries, w, b, t, i);
    lemma_join4(batch, h, queries, d, b, head, t, e);
    let g = b * h + head;
    lemma_head_place(batch, h, queries, d, b, head, t, e);
    lemma_join2(batch * h, queries * d, g, t * d + e);
    let (rq, rk, rv) = (
        row_of(cq, queries * d, g),
        row_of(sk, keys * d, g),
        row_of(sv, keys * d, g),
    );
    let answer = head_attention::<A>(rq, rk, rv, queries, keys, d)[t * d + e];
    assert(at3(mixture::<A>(attention, q, k, v, heads), queries, w, b, t, i) == answer);
    lemma_head_weighs::<A>(rq, rk, rv, queries, keys, d, t, e);

    assert(batch * h * queries * d == batch * h * (queries * d)) by (nonlinear_arith);
    assert(batch * h * keys * d == batch * h * (keys * d)) by (nonlinear_arith);
    // The scores are those that the heads use.
    assert forall|j: int| 0 <= j < keys implies #[trigger] scores[j] == score::<A>(
        rq,
        rk,
        d,
        t,
        j,
    ) by {
        let used = |r: int| A::times_spec(rq[t * d + r], rk[j * d + r]);
        let plain = |r: int|
            A::times_spec(
                projected_feature::<A>(attention, q, 0, b, t, head * d + r),
                projected_feature::<A>(attention, k, 1, b, j, head * d + r),
            );
        let back = |r: int| A::times_spec(used(r), root);
        assert forall|r: int| 0 <= r < d implies #[trigger] back(r) == plain(r) by {
            lemma_join2(h, d, head, r);
            lemma_head_place(batch, h, queries, d, b, head, t, r);
            lemma_head_place(batch, h, keys, d, b, head, j, r);
            law_heads_are_contiguous(pq, batch, queries, w, h, b, head, t, r);
            law_heads_are_contiguous(pk, batch, keys, w, h, b, head, j, r);
            lemma_projected_feature::<A>(attention, q, 0, b, t, head * d + r);
            lemma_projected_feature::<A>(attention, k, 1, b, j, head * d + r);
            let x = projected_feature::<A>(attention, q, 0, b, t, head * d + r);
            let y = projected_feature::<A>(attention, k, 1, b, j, head * d + r);
            assert(rq[t * d + r] == A::times_spec(x, factor));
            assert(rk[j * d + r] == y);
            lemma_swap_last::<A>(A::times_spec(x, factor), y, root);
            lemma_regroup::<A>(x, factor, root);
            lemma_unit::<A>(x);
        }
        lemma_total_times::<A>(d, used, root);
        lemma_total_alike::<A>(d, back, |r: int| A::times_spec(used(r), root));
        lemma_total_alike::<A>(d, back, plain);
        lemma_total_alike::<A>(d, used, |r: int| A::times_spec(rq[t * d + r], rk[j * d + r]));
        lemma_total_alike::<A>(
            d,
            plain,
            |r: int|
                A::times_spec(
                    projected_feature::<A>(attention, q, 0, b, t, head * d + r),
                    projected_feature::<A>(attention, k, 1, b, j, head * d + r),
                ),
        );
        lemma_cancel::<A>(scores[j], score::<A>(rq, rk, d, t, j), root);
    }
    let one = |j: int| A::exponential_spec(score::<A>(rq, rk, d, t, j));
    let other = |j: int| A::exponential_spec(scores[j]);
    assert forall|j: int| 0 <= j < keys implies #[trigger] one(j) == other(j) by {
        assert(scores[j] == score::<A>(rq, rk, d, t, j));
    }
    lemma_total_alike::<A>(keys, one, other);
    lemma_total_alike::<A>(
        keys,
        one,
        |j: int| A::exponential_spec(score::<A>(rq, rk, d, t, j)),
    );
    lemma_total_alike::<A>(keys, other, |j: int| A::exponential_spec(scores[j]));
    let left = |j: int|
        A::times_spec(A::exponential_spec(score::<A>(rq, rk, d, t, j)), rv[j * d + e]);
    let right = |j: int|
        A::times_spec(
            A::exponential_spec(scores[j]),
            projected_feature::<A>(attention, v, 2, b, j, i),
        );
    assert forall|j: int| 0 <= j < keys implies #[trigger] left(j) == right(j) by {
        assert(scores[j] == score::<A>(rq, rk, d, t, j));
        lemma_head_place(batch, h, keys, d, b, head, j, e);
        law_heads_are_contiguous(pv, batch, keys, w, h, b, head, j, e);
        lemma_projected_feature::<A>(attention, v, 2, b, j, i);
    }
    lemma_total_alike::<A>(keys, left, right);
    lemma_total_alike::<A>(
        keys,
        left,
        |j: int|
            A::times_spec(A::exponential_spec(score::<A>(rq, rk, d, t, j)), rv[j * d + e]),
    );
    lemma_total_alike::<A>(
        keys,
        right,
        |j: int|
            A::times_spec(
                A::exponential_spec(scores[j]),
                projected_feature::<A>(attention, v, 2, b, j, i),
            ),
    );
}

/// Attention takes means: there is a mixture, as wide as the queries, of which
/// every feature of every head is the mean of the values' features weighted by
/// the exponentials of the head's scores. A score times the root of the head's
/// width is the product of query and key. What the attention gives is a linear
/// layer on that mixture.
pub proof fn law_attention_takes_weighted_means<A: Arithmetic>(
    attention: AttentionWeights<A>,
    q: Grid<A::Real>,
    k: Grid<A::Real>,
    v: Grid<A::Real>,
    heads: usize,
) -> (mixture: Seq<A::Real>)
    requires
        field::<A>(),
        q.wf(),
        k.wf(),
        v.wf(),
        attention.admits(q.shape, k.shape, heads),
        v.shape == k.shape,
        k.shape[1] > 0,
    ensures
        mixture.len() == q.data.len(),
        forall|b: int, t: int, head: int, e: int, scores: Seq<A::Real>|
            #![trigger are_scores::<A>(attention, q, k, heads, b, t, head, scores), at3(
                mixture,
                q.shape[1] as int,
                q.shape[2] as int,
                b,
                t,
                head * (q.shape[2] as int / heads as int) + e,
            )]
            0 <= b < q.shape[0] && 0 <= t < q.shape[1] && 0 <= head < heads && 0 <= e
                < q.shape[2] as int / heads as int && are_scores::<A>(
                attention,
                q,
                k,
                heads,
                b,
                t,
                head,
                scores,
            ) ==> is_weighted_mean::<A>(
                attention,
                v,
                b,
                head * (q.shape[2] as int / heads as int) + e,
                scores,
                at3(
                    mixture,
                    q.shape[1] as int,
                    q.shape[2] as int,
                    b,
                    t,
                    head * (q.shape[2] as int / heads as int) + e,
                ),
            ),
        forall|row: int, out: int|
            0 <= row < q.shape[0] * q.shape[1] && 0 <= out < attention.out_proj.bias@.len()
                ==> #[trigger] at2(
                attention.output(q, k, v, heads).data,
                attention.out_proj.bias@.len() as int,
                row,
                out,
            ) == A::plus_spec(
                total::<A>(
                    q.shape[2] as int,
                    |i: int|
                        A::times_spec(
                            mixture[row * q.shape[2] + i],
                            attention.out_proj.weight@[out * q.shape[2] + i],
                        ),
                ),
                attention.out_proj.bias@[out],
            ),
{
    let mixture = mixture::<A>(attention, q, k, v, heads);
    let (batch, queries) = (q.shape[0] as int, q.shape[1] as int);
    let (w, h) = (q.shape[2] as int, heads as int);
    vstd::arithmetic::div_mod::lemma_fundamental_div_mod(w, h);
    lemma_rank3(q.shape);
    lemma_extent(batch, queries);
    lemma_extent(batch * queries, w);
    assert forall|b: int, t: int, head: int, e: int, scores: Seq<A::Real>|
        #![trigger are_scores::<A>(attention, q, k, heads, b, t, head, scores), at3(
            mixture,
            q.shape[1] as int,
            q.shape[2] as int,
            b,
            t,
            head * (q.shape[2] as int / heads as int) + e,
        )]
        0 <= b < q.shape[0] && 0 <= t < q.shape[1] && 0 <= head < heads && 0 <= e
            < q.shape[2] as int / heads as int && are_scores::<A>(
            attention,
            q,
            k,
            heads,
            b,
            t,
            head,
            scores,
        ) implies is_weighted_mean::<A>(
        attention,
        v,
        b,
        head * (q.shape[2] as int / heads as int) + e,
        scores,
        at3(
            mixture,
            q.shape[1] as int,
            q.shape[2] as int,
            b,
            t,
            head * (q.shape[2] as int / heads as int) + e,
        ),
    ) by {
        lemma_mixture::<A>(attention, q, k, v, heads, b, t, head, e, scores);
    }
    let merged = Grid { shape: q.shape, data: mixture };
    lemma_rank2(q.shape.drop_last());
    assert(q.shape.drop_last()[0] == q.shape[0] && q.shape.drop_last()[1] == q.shape[1]);
    assert forall|row: int, out: int|
        0 <= row < q.shape[0] * q.shape[1] && 0 <= out
            < attention.out_proj.bias@.len() implies #[trigger] at2(
        attention.output(q, k, v, heads).data,
        attention.out_proj.bias@.len() as int,
        row,
        out,
    ) == A::plus_spec(
        total::<A>(
            q.shape[2] as int,
            |i: int|
                A::times_spec(
                    mixture[row * q.shape[2] + i],
                    attention.out_proj.weight@[out * q.shape[2] + i],
                ),
        ),
        attention.out_proj.bias@[out],
    ) by {
        law_linear_layers_weigh_features::<A>(
            merged,
            attention.out_proj.weight@,
            attention.out_proj.bias@,
            row,
            out,
        );
        assert(merged.shape.last() == q.shape[2]);
        lemma_total_alike::<A>(
            w,
            |c: int|
                A::times_spec(
                    merged.data[row * merged.shape.last() + c],
                    attention.out_proj.weight@[out * merged.shape.last() + c],
                ),
            |i: int|
                A::times_spec(
                    mixture[row * q.shape[2] + i],
                    attention.out_proj.weight@[out * q.shape[2] + i],
                ),
        );
    }
    mixture
}

} // verus!
