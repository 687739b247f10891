//! The order of the tokens that an attention reads.

use vstd::prelude::*;
use vstd::seq_lib::{commutative_foldl, lemma_fold_left_permutation};

use crate::arithmetic::Arithmetic;
use crate::attention::{
    exponentials, head_attention, heads_attention, heads_of, merged_heads, row_maximum, row_of,
    row_sum, softmax, softmax_rows,
};
use crate::index::{
    at2, at3, lemma_extent, lemma_join2, lemma_join3, lemma_join4, lemma_split2,
};
use crate::layers::{query_scale, scaled, AttentionWeights};
use crate::matmul::{flipped, product_of, row_times_column};
use crate::ops::linear_spec;
use crate::samples::lemma_feature_shift;
use crate::tensor::{lemma_rank2, Grid};

verus! {

/// The numbers below `n`, in order.
pub open spec fn ids(n: nat) -> Seq<int> {
    Seq::new(n, |i: int| i)
}

/// Whether `order` lists every number below `n` once.
pub open spec fn is_order(order: Seq<int>, n: nat) -> bool {
    order.to_multiset() == ids(n).to_multiset()
}

/// Whether `y` is `x`, `[B, T, C]`, with its tokens in this order: token `t` of
/// `y` is token `order[t]` of `x`.
pub open spec fn is_reordered<T>(x: Grid<T>, y: Grid<T>, order: Seq<int>) -> bool {
    let (t, c) = (x.shape[1] as int, x.shape[2] as int);
    &&& x.shape.len() == 3
    &&& y.shape == x.shape
    &&& x.data.len() == x.shape[0] * t * c
    &&& y.data.len() == x.data.len()
    &&& forall|b: int, k: int, i: int|
        0 <= b < x.shape[0] && 0 <= k < t && 0 <= i < c ==> #[trigger] at3(
            y.data,
            t,
            c,
            b,
            k,
            i,
        ) == at3(x.data, t, c, b, order[k], i)
}

/// Whether the rows of `y` are those of `x`, `[n, width]`, in this order.
pub open spec fn rows_reordered<T>(
    x: Seq<T>,
    y: Seq<T>,
    order: Seq<int>,
    n: int,
    width: int,
) -> bool {
    forall|j: int, d: int|
        0 <= j < n && 0 <= d < width ==> #[trigger] at2(y, width, j, d) == at2(
            x,
            width,
            order[j],
            d,
        )
}

/// Whether the order in which a sum or a maximum is taken does not matter.
pub open spec fn terms_commute<A: Arithmetic>() -> bool {
    &&& forall|sum: A::Real, x: A::Real, y: A::Real| #[trigger]
        A::plus_spec(A::plus_spec(sum, x), y) == A::plus_spec(A::plus_spec(sum, y), x)
    &&& forall|top: A::Real, x: A::Real, y: A::Real| #[trigger]
        A::larger_spec(A::larger_spec(top, x), y) == A::larger_spec(A::larger_spec(top, y), x)
}

proof fn lemma_order(order: Seq<int>, n: nat)
    requires
        is_order(order, n),
    ensures
        order.len() == n,
        forall|j: int| 0 <= j < n ==> 0 <= #[trigger] order[j] < n,
{
    order.to_multiset_ensures();
    ids(n).to_multiset_ensures();
    assert forall|j: int| 0 <= j < n implies 0 <= #[trigger] order[j] < n by {
        assert(order.contains(order[j]));
        assert(ids(n).to_multiset().count(order[j]) > 0);
        assert(ids(n).contains(order[j]));
    }
}

spec fn adding<A: Arithmetic>(row: Seq<A::Real>) -> spec_fn(A::Real, int) -> A::Real {
    |sum: A::Real, i: int| A::plus_spec(sum, row[i])
}

spec fn topping<A: Arithmetic>(row: Seq<A::Real>) -> spec_fn(A::Real, int) -> A::Real {
    |top: A::Real, i: int| A::larger_spec(top, row[i])
}

proof fn lemma_row_folds<A: Arithmetic>(
    row: Seq<A::Real>,
    other: Seq<A::Real>,
    order: Seq<int>,
    terms: int,
)
    requires
        0 <= terms <= order.len(),
        terms <= other.len(),
        forall|j: int| 0 <= j < terms ==> #[trigger] other[j] == row[order[j]],
    ensures
        row_sum::<A>(other, terms) == order.take(terms).fold_left(
            A::zero_spec(),
            adding::<A>(row),
        ),
        row_maximum::<A>(other, terms) == order.take(terms).fold_left(
            A::lowest_spec(),
            topping::<A>(row),
        ),
    decreases terms,
{
    if terms > 0 {
        lemma_row_folds::<A>(row, other, order, terms - 1);
        let taken = order.take(terms);
        assert(taken.drop_last() =~= order.take(terms - 1));
        assert(taken.last() == order[terms - 1]);
        assert(other[terms - 1] == row[order[terms - 1]]);
    } else {
        assert(order.take(terms) =~= Seq::<int>::empty());
    }
}

/// The sum and the maximum of a row do not depend on its order.
proof fn lemma_row_order<A: Arithmetic>(row: Seq<A::Real>, other: Seq<A::Real>, order: Seq<int>)
    requires
        terms_commute::<A>(),
        is_order(order, row.len()),
        other.len() == row.len(),
        forall|j: int| 0 <= j < row.len() ==> #[trigger] other[j] == row[order[j]],
    ensures
        row_sum::<A>(other, row.len() as int) == row_sum::<A>(row, row.len() as int),
        row_maximum::<A>(other, row.len() as int) == row_maximum::<A>(row, row.len() as int),
{
    let n = row.len();
    lemma_order(order, n);
    lemma_row_folds::<A>(row, other, order, n as int);
    lemma_row_folds::<A>(row, row, ids(n), n as int);
    assert(order.take(n as int) =~= order);
    assert(ids(n).take(n as int) =~= ids(n));
    assert(commutative_foldl(adding::<A>(row)));
    assert(commutative_foldl(topping::<A>(row)));
    lemma_fold_left_permutation(order, ids(n), adding::<A>(row), A::zero_spec());
    lemma_fold_left_permutation(order, ids(n), topping::<A>(row), A::lowest_spec());
}

proof fn lemma_softmax_order<A: Arithmetic>(
    row: Seq<A::Real>,
    other: Seq<A::Real>,
    order: Seq<int>,
)
    requires
        terms_commute::<A>(),
        is_order(order, row.len()),
        other.len() == row.len(),
        forall|j: int| 0 <= j < row.len() ==> #[trigger] other[j] == row[order[j]],
    ensures
        forall|j: int|
            0 <= j < row.len() ==> #[trigger] softmax::<A>(other)[j] == softmax::<A>(row)[order[j]],
{
    lemma_order(order, row.len());
    lemma_row_order::<A>(row, other, order);
    let powers = exponentials::<A>(row);
    let other_powers = exponentials::<A>(other);
    assert forall|j: int| 0 <= j < row.len() implies #[trigger] other_powers[j]
        == powers[order[j]] by {
        assert(other[j] == row[order[j]]);
    }
    lemma_row_order::<A>(powers, other_powers, order);
    assert forall|j: int| 0 <= j < row.len() implies #[trigger] softmax::<A>(other)[j]
        == softmax::<A>(row)[order[j]] by {
        assert(other_powers[j] == powers[order[j]]);
    }
}

spec fn mixing<A: Arithmetic>(
    a: Seq<A::Real>,
    b: Seq<A::Real>,
    k: int,
    n: int,
    i: int,
    j: int,
) -> spec_fn(A::Real, int) -> A::Real {
    |sum: A::Real, m: int| A::plus_spec(sum, A::times_spec(at2(a, k, i, m), at2(b, n, m, j)))
}

proof fn lemma_mix_folds<A: Arithmetic>(
    a: Seq<A::Real>,
    b: Seq<A::Real>,
    a2: Seq<A::Real>,
    b2: Seq<A::Real>,
    k: int,
    n: int,
    i: int,
    j: int,
    order: Seq<int>,
    terms: int,
)
    requires
        0 <= terms <= order.len(),
        forall|m: int|
            0 <= m < terms ==> #[trigger] at2(a2, k, i, m) == at2(a, k, i, order[m]) && at2(
                b2,
                n,
                m,
                j,
            ) == at2(b, n, order[m], j),
    ensures
        row_times_column::<A>(a2, b2, k, n, i, j, terms) == order.take(terms).fold_left(
            A::zero_spec(),
            mixing::<A>(a, b, k, n, i, j),
        ),
    decreases terms,
{
    if terms > 0 {
        lemma_mix_folds::<A>(a, b, a2, b2, k, n, i, j, order, terms - 1);
        let taken = order.take(terms);
        assert(taken.drop_last() =~= order.take(terms - 1));
        assert(taken.last() == order[terms - 1]);
        assert(at2(a2, k, i, terms - 1) == at2(a, k, i, order[terms - 1]));
    } else {
        assert(order.take(terms) =~= Seq::<int>::empty());
    }
}

/// A product does not depend on the order of its inner positions.
proof fn lemma_mix_order<A: Arithmetic>(
    a: Seq<A::Real>,
    b: Seq<A::Real>,
    a2: Seq<A::Real>,
    b2: Seq<A::Real>,
    k: nat,
    n: int,
    i: int,
    j: int,
    order: Seq<int>,
)
    requires
        terms_commute::<A>(),
        is_order(order, k),
        forall|m: int|
            0 <= m < k ==> #[trigger] at2(a2, k as int, i, m) == at2(a, k as int, i, order[m])
                && at2(b2, n, m, j) == at2(b, n, order[m], j),
    ensures
        row_times_column::<A>(a2, b2, k as int, n, i, j, k as int) == row_times_column::<A>(
            a,
            b,
            k as int,
            n,
            i,
            j,
            k as int,
        ),
{
    lemma_order(order, k);
    lemma_mix_folds::<A>(a, b, a2, b2, k as int, n, i, j, order, k as int);
    lemma_mix_folds::<A>(a, b, a, b, k as int, n, i, j, ids(k), k as int);
    assert(order.take(k as int) =~= order);
    assert(ids(k).take(k as int) =~= ids(k));
    let f = mixing::<A>(a, b, k as int, n, i, j);
    assert(commutative_foldl(f));
    lemma_fold_left_permutation(order, ids(k), f, A::zero_spec());
}

proof fn lemma_same_row_column<A: Arithmetic>(
    a: Seq<A::Real>,
    b: Seq<A::Real>,
    a2: Seq<A::Real>,
    b2: Seq<A::Real>,
    k: int,
    n: int,
    i: int,
    j: int,
    i2: int,
    j2: int,
    terms: int,
)
    requires
        terms <= k,
        forall|m: int|
            0 <= m < k ==> #[trigger] at2(a2, k, i2, m) == at2(a, k, i, m) && at2(b2, n, m, j2)
                == at2(b, n, m, j),
    ensures
        row_times_column::<A>(a2, b2, k, n, i2, j2, terms) == row_times_column::<A>(
            a,
            b,
            k,
            n,
            i,
            j,
            terms,
        ),
    decreases terms,
{
    if terms > 0 {
        lemma_same_row_column::<A>(a, b, a2, b2, k, n, i, j, i2, j2, terms - 1);
        assert(at2(a2, k, i2, terms - 1) == at2(a, k, i, terms - 1));
    }
}

/// One head does not depend on the order of its keys and values.
proof fn lemma_head_keys<A: Arithmetic>(
    q: Seq<A::Real>,
    k: Seq<A::Real>,
    v: Seq<A::Real>,
    k2: Seq<A::Real>,
    v2: Seq<A::Real>,
    queries: int,
    keys: nat,
    dim: int,
    order: Seq<int>,
)
    requires
        terms_commute::<A>(),
        0 <= queries,
        0 <= dim,
        is_order(order, keys),
        rows_reordered(k, k2, order, keys as int, dim),
        rows_reordered(v, v2, order, keys as int, dim),
    ensures
        head_attention::<A>(q, k2, v2, queries, keys as int, dim) == head_attention::<A>(
            q,
            k,
            v,
            queries,
            keys as int,
            dim,
        ),
{
    let n = keys as int;
    lemma_order(order, keys);
    lemma_extent(queries, n);
    lemma_extent(queries, dim);
    let scores = product_of::<A>(q, flipped(k, n, dim), queries, dim, n);
    let scores2 = product_of::<A>(q, flipped(k2, n, dim), queries, dim, n);
    let soft = softmax_rows::<A>(scores, queries, n);
    let soft2 = softmax_rows::<A>(scores2, queries, n);
    assert forall|i: int, j: int| 0 <= i < queries && 0 <= j < n implies #[trigger] at2(
        scores2,
        n,
        i,
        j,
    ) == at2(scores, n, i, order[j]) by {
        lemma_join2(queries, n, i, j);
        lemma_join2(queries, n, i, order[j]);
        assert forall|m: int| 0 <= m < dim implies #[trigger] at2(flipped(k2, n, dim), n, m, j)
            == at2(flipped(k, n, dim), n, m, order[j]) by {
            lemma_join2(dim, n, m, j);
            lemma_join2(dim, n, m, order[j]);
            assert(at2(k2, dim, j, m) == at2(k, dim, order[j], m));
        }
        assert forall|m: int| 0 <= m < dim implies #[trigger] at2(q, dim, i, m) == at2(q, dim, i, m)
            && at2(flipped(k2, n, dim), n, m, j) == at2(flipped(k, n, dim), n, m, order[j]) by {
            assert(at2(flipped(k2, n, dim), n, m, j) == at2(
                flipped(k, n, dim),
                n,
                m,
                order[j],
            ));
        }
        lemma_same_row_column::<A>(
            q,
            flipped(k, n, dim),
            q,
            flipped(k2, n, dim),
            dim,
            n,
            i,
            order[j],
            i,
            j,
            dim,
        );
    }
    assert forall|i: int, j: int| 0 <= i < queries && 0 <= j < n implies #[trigger] at2(
        soft2,
        n,
        i,
        j,
    ) == at2(soft, n, i, order[j]) by {
        lemma_join2(queries, n, i, j);
        lemma_join2(queries, n, i, order[j]);
        assert(i * n + n <= queries * n) by (nonlinear_arith)
            requires
                0 <= i < queries,
                0 <= n,
        ;
        let row = row_of(scores, n, i);
        let row2 = row_of(scores2, n, i);
        assert forall|m: int| 0 <= m < n implies #[trigger] row2[m] == row[order[m]] by {
            assert(at2(scores2, n, i, m) == at2(scores, n, i, order[m]));
        }
        lemma_softmax_order::<A>(row, row2, order);
        assert(softmax::<A>(row2)[j] == softmax::<A>(row)[order[j]]);
    }
    let one = head_attention::<A>(q, k, v, queries, n, dim);
    let two = head_attention::<A>(q, k2, v2, queries, n, dim);
    assert forall|p: int| 0 <= p < queries * dim implies #[trigger] two[p] == one[p] by {
        lemma_split2(queries, dim, p);
        let (i, d) = (p / dim, p % dim);
        assert forall|m: int| 0 <= m < n implies #[trigger] at2(soft2, n, i, m) == at2(
            soft,
            n,
            i,
            order[m],
        ) && at2(v2, dim, m, d) == at2(v, dim, order[m], d) by {
            assert(at2(v2, dim, m, d) == at2(v, dim, order[m], d));
        }
        lemma_mix_order::<A>(soft, v, soft2, v2, keys, dim, i, d, order);
    }
    assert(two =~= one);
}

/// One head answers its queries in the order in which they are put.
proof fn lemma_head_queries<A: Arithmetic>(
    q: Seq<A::Real>,
    k: Seq<A::Real>,
    v: Seq<A::Real>,
    q2: Seq<A::Real>,
    queries: nat,
    keys: int,
    dim: int,
    order: Seq<int>,
)
    requires
        0 <= keys,
        0 <= dim,
        is_order(order, queries),
        rows_reordered(q, q2, order, queries as int, dim),
    ensures
        rows_reordered(
            head_attention::<A>(q, k, v, queries as int, keys, dim),
            head_attention::<A>(q2, k, v, queries as int, keys, dim),
            order,
            queries as int,
            dim,
        ),
{
    let n = queries as int;
    lemma_order(order, queries);
    let kt = flipped(k, keys, dim);
    let scores = product_of::<A>(q, kt, n, dim, keys);
    let scores2 = product_of::<A>(q2, kt, n, dim, keys);
    let soft = softmax_rows::<A>(scores, n, keys);
    let soft2 = softmax_rows::<A>(scores2, n, keys);
    let one = head_attention::<A>(q, k, v, n, keys, dim);
    let two = head_attention::<A>(q2, k, v, n, keys, dim);
    assert forall|i: int, j: int| 0 <= i < n && 0 <= j < keys implies #[trigger] at2(
        scores2,
        keys,
        i,
        j,
    ) == at2(scores, keys, order[i], j) by {
        lemma_join2(n, keys, i, j);
        lemma_join2(n, keys, order[i], j);
        assert forall|m: int| 0 <= m < dim implies #[trigger] at2(q2, dim, i, m) == at2(
            q,
            dim,
            order[i],
            m,
        ) && at2(kt, keys, m, j) == at2(kt, keys, m, j) by {}
        lemma_same_row_column::<A>(q, kt, q2, kt, dim, keys, order[i], j, i, j, dim);
    }
    assert forall|i: int, d: int| 0 <= i < n && 0 <= d < dim implies #[trigger] at2(two, dim, i, d)
        == at2(one, dim, order[i], d) by {
        lemma_join2(n, dim, i, d);
        lemma_join2(n, dim, order[i], d);
        let row = row_of(scores, keys, order[i]);
        let row2 = row_of(scores2, keys, i);
        assert(i * keys + keys <= n * keys && order[i] * keys + keys <= n * keys && 0 <= i * keys
            && 0 <= order[i] * keys) by (nonlinear_arith)
            requires
                0 <= i < n,
                0 <= order[i] < n,
                0 <= keys,
        ;
        assert forall|m: int| 0 <= m < keys implies #[trigger] row2[m] == row[m] by {
            assert(at2(scores2, keys, i, m) == at2(scores, keys, order[i], m));
        }
        assert(row2 =~= row);
        assert forall|m: int| 0 <= m < keys implies #[trigger] at2(soft2, keys, i, m) == at2(
            soft,
            keys,
            order[i],
            m,
        ) && at2(v, dim, m, d) == at2(v, dim, m, d) by {
            lemma_join2(n, keys, i, m);
            lemma_join2(n, keys, order[i], m);
        }
        lemma_same_row_column::<A>(soft, v, soft2, v, keys, dim, order[i], d, i, d, keys);
    }
}

proof fn lemma_reordered_linear<A: Arithmetic>(
    x: Grid<A::Real>,
    y: Grid<A::Real>,
    order: Seq<int>,
    weight: Seq<A::Real>,
    bias: Seq<A::Real>,
)
    requires
        is_reordered(x, y, order),
        is_order(order, x.shape[1] as nat),
        bias.len() <= usize::MAX,
    ensures
        is_reordered(
            linear_spec::<A>(x, weight, bias),
            linear_spec::<A>(y, weight, bias),
            order,
        ),
        linear_spec::<A>(x, weight, bias).shape == seq![
            x.shape[0],
            x.shape[1],
            bias.len() as usize,
        ],
{
    let (batch, t, c) = (x.shape[0] as int, x.shape[1] as int, x.shape[2] as int);
    let o = bias.len() as int;
    lemma_order(order, x.shape[1] as nat);
    lemma_rank2(x.shape.drop_last());
    lemma_extent(batch, t);
    lemma_extent(batch * t, o);
    let from_x = linear_spec::<A>(x, weight, bias);
    let from_y = linear_spec::<A>(y, weight, bias);
    assert(from_x.shape =~= seq![x.shape[0], x.shape[1], bias.len() as usize]);
    assert forall|b: int, k: int, i: int|
        0 <= b < batch && 0 <= k < t && 0 <= i < o implies #[trigger] at3(
        from_y.data,
        t,
        o,
        b,
        k,
        i,
    ) == at3(from_x.data, t, o, b, order[k], i) by {
        lemma_join3(batch, t, o, b, k, i);
        lemma_join3(batch, t, o, b, order[k], i);
        lemma_join2(batch * t, o, b * t + k, i);
        lemma_join2(batch * t, o, b * t + order[k], i);
        assert forall|f: int| 0 <= f < c implies #[trigger] at2(y.data, c, b * t + k, f) == at2(
            x.data,
            c,
            b * t + order[k],
            f,
        ) by {
            assert(at3(y.data, t, c, b, k, f) == at3(x.data, t, c, b, order[k], f));
        }
        lemma_feature_shift::<A>(x.data, y.data, weight, c, b * t + k, b * t + order[k], i, c);
    }
}

/// The rows of every head are in the order of the tokens.
proof fn lemma_reordered_heads<T>(
    x: Seq<T>,
    y: Seq<T>,
    batch: int,
    t: int,
    w: int,
    heads: int,
    order: Seq<int>,
    g: int,
)
    requires
        0 <= batch,
        0 <= t,
        0 <= w,
        heads > 0,
        is_order(order, t as nat),
        0 <= g < batch * heads,
        forall|b: int, k: int, i: int|
            0 <= b < batch && 0 <= k < t && 0 <= i < w ==> #[trigger] at3(y, t, w, b, k, i) == at3(
                x,
                t,
                w,
                b,
                order[k],
                i,
            ),
    ensures
        rows_reordered(
            row_of(heads_of(x, batch, t, w, heads), t * (w / heads), g),
            row_of(heads_of(y, batch, t, w, heads), t * (w / heads), g),
            order,
            t,
            w / heads,
        ),
{
    let d = w / heads;
    let size = t * d;
    lemma_order(order, t as nat);
    vstd::arithmetic::div_mod::lemma_fundamental_div_mod(w, heads);
    vstd::arithmetic::div_mod::lemma_mod_bound(w, heads);
    vstd::arithmetic::div_mod::lemma_div_pos_is_pos(w, heads);
    lemma_split2(batch, heads, g);
    let (b, h) = (g / heads, g % heads);
    let hx = heads_of(x, batch, t, w, heads);
    let hy = heads_of(y, batch, t, w, heads);
    lemma_extent(t, d);
    assert(batch * heads * t * d == (batch * heads) * size) by (nonlinear_arith)
        requires
            size == t * d,
    ;
    assert(0 <= g * size && g * size + size <= (batch * heads) * size) by (nonlinear_arith)
        requires
            0 <= g < batch * heads,
            0 <= size,
    ;
    assert forall|k: int, i: int| 0 <= k < t && 0 <= i < d implies #[trigger] at2(
        row_of(hy, size, g),
        d,
        k,
        i,
    ) == at2(row_of(hx, size, g), d, order[k], i) by {
        lemma_join2(t, d, k, i);
        lemma_join2(t, d, order[k], i);
        lemma_join4(batch, heads, t, d, b, h, k, i);
        lemma_join4(batch, heads, t, d, b, h, order[k], i);
        lemma_join2(heads, d, h, i);
        assert(heads * d == d * heads) by (nonlinear_arith);
        assert((g * t + k) * d + i == g * (t * d) + (k * d + i)) by (nonlinear_arith);
        assert((g * t + order[k]) * d + i == g * (t * d) + (order[k] * d + i))
            by (nonlinear_arith);
        assert(at3(y, t, w, b, k, h * d + i) == at3(x, t, w, b, order[k], h * d + i));
    }
}

proof fn lemma_projection_shape<A: Arithmetic>(
    attention: AttentionWeights<A>,
    x: Grid<A::Real>,
    y: Grid<A::Real>,
    which: int,
    order: Seq<int>,
)
    requires
        is_reordered(x, y, order),
        is_order(order, x.shape[1] as nat),
        0 <= which < 3,
        3 * x.shape[2] <= attention.in_proj.bias@.len(),
    ensures
        is_reordered(attention.projection(x, which), attention.projection(y, which), order),
        attention.projection(x, which).shape == x.shape,
{
    let w = x.shape[2] as int;
    assert(0 <= which * w && which * w + w <= 3 * w) by (nonlinear_arith)
        requires
            0 <= which < 3,
            0 <= w,
    ;
    let weight = attention.in_proj.weight@.subrange(which * (w * w), which * (w * w) + w * w);
    let bias = attention.in_proj.bias@.subrange(which * w, which * w + w);
    lemma_reordered_linear::<A>(x, y, order, weight, bias);
    assert(attention.projection(x, which).shape =~= x.shape);
}

/// What an attention answers does not depend on the order of the keys, as long
/// as their values go along, where the order of terms does not matter.
pub proof fn law_attention_ignores_the_order_of_keys<A: Arithmetic>(
    attention: AttentionWeights<A>,
    q: Grid<A::Real>,
    k: Grid<A::Real>,
    v: Grid<A::Real>,
    k2: Grid<A::Real>,
    v2: Grid<A::Real>,
    heads: usize,
    order: Seq<int>,
)
    requires
        terms_commute::<A>(),
        attention.admits(q.shape, k.shape, heads),
        v.shape == k.shape,
        is_order(order, k.shape[1] as nat),
        is_reordered(k, k2, order),
        is_reordered(v, v2, order),
    ensures
        attention.output(q, k2, v2, heads) == attention.output(q, k, v, heads),
        attention.output(q, k, v, heads).shape == attention.out_shape(q.shape),
{
    let batch = q.shape[0] as int;
    let (queries, keys) = (q.shape[1] as int, k.shape[1] as int);
    let w = q.shape[2] as int;
    let h = heads as int;
    let d = w / h;
    vstd::arithmetic::div_mod::lemma_div_pos_is_pos(w, h);
    lemma_projection_shape::<A>(attention, k, k2, 1, order);
    lemma_projection_shape::<A>(attention, v, v2, 2, order);
    let (pk, pv) = (attention.projection(k, 1).data, attention.projection(v, 2).data);
    let (pk2, pv2) = (attention.projection(k2, 1).data, attention.projection(v2, 2).data);
    let (sk, sv) = (heads_of(pk, batch, keys, w, h), heads_of(pv, batch, keys, w, h));
    let (sk2, sv2) = (heads_of(pk2, batch, keys, w, h), heads_of(pv2, batch, keys, w, h));
    let factor = query_scale::<A>((q.shape[2] / heads) as usize);
    let cq = scaled::<A>(
        heads_of(attention.projection(q, 0).data, batch, queries, w, h),
        factor,
    );
    let given = heads_attention::<A>(cq, sk, sv, batch * h, queries, keys, d);
    let given2 = heads_attention::<A>(cq, sk2, sv2, batch * h, queries, keys, d);
    lemma_extent(queries, d);
    lemma_extent(batch, h);
    assert forall|p: int| 0 <= p < given.len() implies #[trigger] given2[p] == given[p] by {
        lemma_split2(batch * h, queries * d, p);
        let g = p / (queries * d);
        lemma_reordered_heads(pk, pk2, batch, keys, w, h, order, g);
        lemma_reordered_heads(pv, pv2, batch, keys, w, h, order, g);
        lemma_head_keys::<A>(
            row_of(cq, queries * d, g),
            row_of(sk, keys * d, g),
            row_of(sv, keys * d, g),
            row_of(sk2, keys * d, g),
            row_of(sv2, keys * d, g),
            queries,
            keys as nat,
            d,
            order,
        );
    }
    assert(given2 =~= given);
}

/// An attention answers its queries in the order in which they are put.
pub proof fn law_attention_keeps_the_order_of_queries<A: Arithmetic>(
    attention: AttentionWeights<A>,
    q: Grid<A::Real>,
    q2: Grid<A::Real>,
    k: Grid<A::Real>,
    v: Grid<A::Real>,
    heads: usize,
    order: Seq<int>,
)
    requires
        attention.admits(q.shape, k.shape, heads),
        is_order(order, q.shape[1] as nat),
        is_reordered(q, q2, order),
    ensures
        is_reordered(
            attention.output(q, k, v, heads),
            attention.output(q2, k, v, heads),
            order,
        ),
{
    let batch = q.shape[0] as int;
    let (queries, keys) = (q.shape[1] as int, k.shape[1] as int);
    let w = q.shape[2] as int;
    let h = heads as int;
    let d = w / h;
    let size = queries * d;
    lemma_order(order, q.shape[1] as nat);
    vstd::arithmetic::div_mod::lemma_fundamental_div_mod(w, h);
    vstd::arithmetic::div_mod::lemma_div_pos_is_pos(w, h);
    assert(h * d == w);
    lemma_projection_shape::<A>(attention, q, q2, 0, order);
    let (pq, pq2) = (attention.projection(q, 0).data, attention.projection(q2, 0).data);
    let (sq, sq2) = (heads_of(pq, batch, queries, w, h), heads_of(pq2, batch, queries, w, h));
    let factor = query_scale::<A>((q.shape[2] / heads) as usize);
    let (cq, cq2) = (scaled::<A>(sq, factor), scaled::<A>(sq2, factor));
    let sk = heads_of(attention.projection(k, 1).data, batch, keys, w, h);
    let sv = heads_of(attention.projection(v, 2).data, batch, keys, w, h);
    let given = heads_attention::<A>(cq, sk, sv, batch * h, queries, keys, d);
    let given2 = heads_attention::<A>(cq2, sk, sv, batch * h, queries, keys, d);
    lemma_extent(queries, d);
    lemma_extent(batch, h);
    lemma_extent(batch * h, size);
    assert(batch * h * queries * d == (batch * h) * size) by (nonlinear_arith)
        requires
            size == queries * d,
    ;
    let merged = Grid { shape: q.shape, data: merged_heads(given, batch, h, queries, d) };
    let merged2 = Grid { shape: q.shape, data: merged_heads(given2, batch, h, queries, d) };
    lemma_extent(batch, queries);
    lemma_extent(batch * queries, w);
    assert forall|b: int, t: int, c: int|
        0 <= b < batch && 0 <= t < queries && 0 <= c < w implies #[trigger] at3(
        merged2.data,
        queries,
        w,
        b,
        t,
        c,
    ) == at3(merged.data, queries, w, b, order[t], c) by {
        lemma_join3(batch, queries, w, b, t, c);
        lemma_join3(batch, queries, w, b, order[t], c);
        lemma_split2(h, d, c);
        let g = b * h + c / d;
        let i = c % d;
        lemma_join2(batch, h, b, c / d);
        lemma_head_answers::<A>(
            pq,
            pq2,
            cq,
            cq2,
            sk,
            sv,
            batch,
            h,
            queries,
            keys,
            w,
            factor,
            order,
            g,
            t,
            i,
        );
    }
    assert(attention.out_proj.bias@.len() == attention.out_proj.bias.len());
    lemma_reordered_linear::<A>(
        merged,
        merged2,
        order,
        attention.out_proj.weight@,
        attention.out_proj.bias@,
    );
}

/// One entry of one head, in the order of the queries.
proof fn lemma_head_answers<A: Arithmetic>(
    pq: Seq<A::Real>,
    pq2: Seq<A::Real>,
    cq: Seq<A::Real>,
    cq2: Seq<A::Real>,
    sk: Seq<A::Real>,
    sv: Seq<A::Real>,
    batch: int,
    h: int,
    queries: int,
    keys: int,
    w: int,
    factor: A::Real,
    order: Seq<int>,
    g: int,
    t: int,
    i: int,
)
    requires
        0 <= batch,
        h > 0,
        0 <= queries,
        0 <= keys,
        0 <= w,
        is_order(order, queries as nat),
        cq == scaled::<A>(heads_of(pq, batch, queries, w, h), factor),
        cq2 == scaled::<A>(heads_of(pq2, batch, queries, w, h), factor),
        0 <= g < batch * h,
        0 <= t < queries,
        0 <= i < w / h,
        forall|b: int, k: int, j: int|
            0 <= b < batch && 0 <= k < queries && 0 <= j < w ==> #[trigger] at3(
                pq2,
                queries,
                w,
                b,
                k,
                j,
            ) == at3(pq, queries, w, b, order[k], j),
    ensures
        heads_attention::<A>(cq2, sk, sv, batch * h, queries, keys, w / h)[(g * queries + t) * (w
            / h) + i] == heads_attention::<A>(
            cq,
            sk,
            sv,
            batch * h,
            queries,
            keys,
            w / h,
        )[(g * queries + order[t]) * (w / h) + i],
{
    let d = w / h;
    let size = queries * d;
    lemma_order(order, queries as nat);
    lemma_extent(queries, d);
    lemma_reordered_heads(pq, pq2, batch, queries, w, h, order, g);
    let (sq, sq2) = (heads_of(pq, batch, queries, w, h), heads_of(pq2, batch, queries, w, h));
    let (rq, rq2) = (row_of(cq, size, g), row_of(cq2, size, g));
    assert(batch * h * queries * d == (batch * h) * size) by (nonlinear_arith)
        requires
            size == queries * d,
    ;
    assert(0 <= g * size && g * size + size <= (batch * h) * size) by (nonlinear_arith)
        requires
            0 <= g < batch * h,
            0 <= size,
    ;
    assert forall|j: int, e: int| 0 <= j < queries && 0 <= e < d implies #[trigger] at2(
        rq2,
        d,
        j,
        e,
    ) == at2(rq, d, order[j], e) by {
        lemma_join2(queries, d, j, e);
        lemma_join2(queries, d, order[j], e);
        assert(at2(row_of(sq2, size, g), d, j, e) == at2(row_of(sq, size, g), d, order[j], e));
    }
    lemma_head_queries::<A>(
        rq,
        row_of(sk, keys * d, g),
        row_of(sv, keys * d, g),
        rq2,
        queries as nat,
        keys,
        d,
        order,
    );
    lemma_join2(queries, d, t, i);
    lemma_join2(queries, d, order[t], i);
    lemma_join2(batch * h, size, g, t * d + i);
    lemma_join2(batch * h, size, g, order[t] * d + i);
    assert((g * queries + t) * d + i == g * (queries * d) + (t * d + i)) by (nonlinear_arith);
    assert((g * queries + order[t]) * d + i == g * (queries * d) + (order[t] * d + i))
        by (nonlinear_arith);
    let k = row_of(sk, keys * d, g);
    let v = row_of(sv, keys * d, g);
    assert(at2(head_attention::<A>(rq2, k, v, queries, keys, d), d, t, i) == at2(
        head_attention::<A>(rq, k, v, queries, keys, d),
        d,
        order[t],
        i,
    ));
}

} // verus!
