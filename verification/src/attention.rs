//! Attention with several heads.

use vstd::prelude::*;
use vstd::slice::slice_subrange;

use crate::arithmetic::{lawful, Arithmetic};
use crate::index::{
    at3, at4, lemma_extent, lemma_join2, lemma_join3, lemma_join4, lemma_split2, lemma_split3,
    lemma_split4, table2, table3, table4,
};
use crate::matmul::{flip, flipped, matmul, product_of};

verus! {

/// The largest of the first `terms` entries, from the lowest value up.
pub open spec fn row_maximum<A: Arithmetic>(row: Seq<A::Real>, terms: int) -> A::Real
    decreases terms,
{
    if terms <= 0 {
        A::lowest_spec()
    } else {
        A::larger_spec(row_maximum::<A>(row, terms - 1), row[terms - 1])
    }
}

/// The sum of the first `terms` entries, accumulated from zero in order.
pub open spec fn row_sum<A: Arithmetic>(row: Seq<A::Real>, terms: int) -> A::Real
    decreases terms,
{
    if terms <= 0 {
        A::zero_spec()
    } else {
        A::plus_spec(row_sum::<A>(row, terms - 1), row[terms - 1])
    }
}

/// The exponentials of a row, its largest entry taken off first.
pub open spec fn exponentials<A: Arithmetic>(row: Seq<A::Real>) -> Seq<A::Real> {
    let maximum = row_maximum::<A>(row, row.len() as int);
    Seq::new(row.len(), |j: int| A::exponential_spec(A::minus_spec(row[j], maximum)))
}

/// The exponentials of a row, each over their sum.
pub open spec fn softmax<A: Arithmetic>(row: Seq<A::Real>) -> Seq<A::Real> {
    let powers = exponentials::<A>(row);
    let total = row_sum::<A>(powers, powers.len() as int);
    Seq::new(powers.len(), |j: int| A::over_spec(powers[j], total))
}

fn softmax_of<A: Arithmetic>(row: &[A::Real]) -> (out: Vec<A::Real>)
    requires
        lawful::<A>(),
    ensures
        out@ == softmax::<A>(row@),
{
    let count = row.len();
    let mut maximum = A::lowest();
    let mut term: usize = 0;
    while term < count
        invariant
            lawful::<A>(),
            count == row@.len(),
            term <= count,
            maximum == row_maximum::<A>(row@, term as int),
        decreases count - term,
    {
        maximum = A::larger(maximum, row[term]);
        term = term + 1;
    }
    let ghost wanted = exponentials::<A>(row@);
    let mut powers: Vec<A::Real> = Vec::new();
    let mut total = A::zero();
    while powers.len() < count
        invariant
            lawful::<A>(),
            count == row@.len(),
            maximum == row_maximum::<A>(row@, count as int),
            wanted == exponentials::<A>(row@),
            powers@.len() <= count,
            forall|j: int| 0 <= j < powers@.len() ==> #[trigger] powers@[j] == wanted[j],
            total == row_sum::<A>(wanted, powers@.len() as int),
        decreases count - powers@.len(),
    {
        let power = A::exponential(A::minus(row[powers.len()], maximum));
        powers.push(power);
        total = A::plus(total, power);
    }
    proof {
        assert(powers@ =~= wanted);
    }
    let mut out: Vec<A::Real> = Vec::new();
    while out.len() < count
        invariant
            lawful::<A>(),
            count == row@.len(),
            powers@ == exponentials::<A>(row@),
            total == row_sum::<A>(powers@, count as int),
            out@.len() <= count,
            forall|j: int|
                0 <= j < out@.len() ==> #[trigger] out@[j] == A::over_spec(powers@[j], total),
        decreases count - out@.len(),
    {
        out.push(A::over(powers[out.len()], total));
    }
    proof {
        assert(out@ =~= softmax::<A>(row@));
    }
    out
}

/// Row `i` of rows of `columns` entries.
pub open spec fn row_of<T>(x: Seq<T>, columns: int, i: int) -> Seq<T> {
    x.subrange(i * columns, i * columns + columns)
}

/// The softmax of each of `rows` rows.
pub open spec fn softmax_rows<A: Arithmetic>(x: Seq<A::Real>, rows: int, columns: int) -> Seq<
    A::Real,
> {
    table2(rows, columns, |i: int, j: int| softmax::<A>(row_of(x, columns, i))[j])
}

/// A block of `size` entries in place `i` of a row of blocks.
proof fn lemma_block(count: int, size: int, i: int)
    requires
        0 <= i < count,
        0 <= size,
    ensures
        0 <= i * size <= i * size + size <= count * size,
        (i + 1) * size == i * size + size,
{
    assert((i + 1) * size == i * size + size) by (nonlinear_arith);
    assert(0 <= i * size && (i + 1) * size <= count * size) by (nonlinear_arith)
        requires
            0 <= i < count,
            0 <= size,
    ;
}

fn softmax_each<A: Arithmetic>(x: &[A::Real], rows: usize, columns: usize) -> (out: Vec<A::Real>)
    requires
        lawful::<A>(),
        x@.len() == rows * columns,
    ensures
        out@ == softmax_rows::<A>(x@, rows as int, columns as int),
{
    assert(x@.len() == x.len());
    let mut out: Vec<A::Real> = Vec::new();
    let mut row: usize = 0;
    while row < rows
        invariant
            lawful::<A>(),
            x@.len() == rows * columns <= usize::MAX,
            row <= rows,
            out@.len() == row * columns,
            forall|p: int|
                0 <= p < out@.len() ==> #[trigger] out@[p] == softmax::<A>(
                    row_of(x@, columns as int, p / columns as int),
                )[p % columns as int],
        decreases rows - row,
    {
        proof {
            lemma_block(rows as int, columns as int, row as int);
        }
        let mut soft = softmax_of::<A>(slice_subrange(x, row * columns, row * columns + columns));
        let ghost before = out@;
        out.append(&mut soft);
        proof {
            assert forall|p: int| 0 <= p < out@.len() implies #[trigger] out@[p] == softmax::<A>(
                row_of(x@, columns as int, p / columns as int),
            )[p % columns as int] by {
                if p >= before.len() {
                    lemma_join2(
                        rows as int,
                        columns as int,
                        row as int,
                        p - row * columns,
                    );
                } else {
                    assert(before[p] == out@[p]);
                }
            }
        }
        row = row + 1;
    }
    proof {
        assert(out@ =~= softmax_rows::<A>(x@, rows as int, columns as int));
    }
    out
}

/// What one head gives: the scores of every query against every key, softmaxed
/// per query, and the values mixed by them.
pub open spec fn head_attention<A: Arithmetic>(
    q: Seq<A::Real>,
    k: Seq<A::Real>,
    v: Seq<A::Real>,
    queries: int,
    keys: int,
    dim: int,
) -> Seq<A::Real> {
    let scores = product_of::<A>(q, flipped(k, keys, dim), queries, dim, keys);
    product_of::<A>(softmax_rows::<A>(scores, queries, keys), v, queries, keys, dim)
}

fn filled<T: Copy>(count: usize, value: T) -> (out: Vec<T>)
    ensures
        out@.len() == count,
{
    let mut out: Vec<T> = Vec::with_capacity(count);
    while out.len() < count
        invariant
            out@.len() <= count,
        decreases count - out@.len(),
    {
        out.push(value);
    }
    out
}

fn attend_head<A: Arithmetic>(
    q: &[A::Real],
    k: &[A::Real],
    v: &[A::Real],
    queries: usize,
    keys: usize,
    dim: usize,
) -> (out: Vec<A::Real>)
    requires
        lawful::<A>(),
        q@.len() == queries * dim,
        k@.len() == keys * dim,
        v@.len() == keys * dim,
        queries * keys <= usize::MAX,
    ensures
        out@ == head_attention::<A>(
            q@,
            k@,
            v@,
            queries as int,
            keys as int,
            dim as int,
        ),
{
    assert(q@.len() == q.len());
    let keys_flipped = flip(k, keys, dim);
    proof {
        assert(keys * dim == dim * keys) by (nonlinear_arith);
        lemma_extent(queries as int, keys as int);
        lemma_extent(queries as int, dim as int);
    }
    let mut scores = filled(queries * keys, A::zero());
    matmul::<A>(q, keys_flipped.as_slice(), scores.as_mut_slice(), queries, dim, keys);
    let soft = softmax_each::<A>(scores.as_slice(), queries, keys);
    let mut out = filled(queries * dim, A::zero());
    matmul::<A>(soft.as_slice(), v, out.as_mut_slice(), queries, keys, dim);
    out
}

/// What all heads give, one after the other.
pub open spec fn heads_attention<A: Arithmetic>(
    q: Seq<A::Real>,
    k: Seq<A::Real>,
    v: Seq<A::Real>,
    heads: int,
    queries: int,
    keys: int,
    dim: int,
) -> Seq<A::Real> {
    table2(
        heads,
        queries * dim,
        |h: int, r: int|
            head_attention::<A>(
                row_of(q, queries * dim, h),
                row_of(k, keys * dim, h),
                row_of(v, keys * dim, h),
                queries,
                keys,
                dim,
            )[r],
    )
}

/// Runs every head. Each head's queries, keys and values are contiguous.
pub fn attend_heads<A: Arithmetic>(
    q: &[A::Real],
    k: &[A::Real],
    v: &[A::Real],
    heads: usize,
    queries: usize,
    keys: usize,
    dim: usize,
) -> (out: Vec<A::Real>)
    requires
        lawful::<A>(),
        q@.len() == heads * (queries * dim),
        k@.len() == heads * (keys * dim),
        v@.len() == heads * (keys * dim),
        heads > 0 ==> queries * keys <= usize::MAX,
    ensures
        out@ == heads_attention::<A>(
            q@,
            k@,
            v@,
            heads as int,
            queries as int,
            keys as int,
            dim as int,
        ),
{
    assert(q@.len() == q.len() && k@.len() == k.len());
    let ghost size = queries * dim;
    let ghost width = keys * dim;
    let mut out: Vec<A::Real> = Vec::new();
    let mut head: usize = 0;
    proof {
        lemma_extent(queries as int, dim as int);
        lemma_extent(keys as int, dim as int);
        assert(0 * size == 0);
    }
    while head < heads
        invariant
            lawful::<A>(),
            size == queries * dim,
            width == keys * dim,
            size >= 0,
            width >= 0,
            q@.len() == heads * size <= usize::MAX,
            k@.len() == heads * width <= usize::MAX,
            v@.len() == heads * width,
            heads > 0 ==> queries * keys <= usize::MAX,
            head <= heads,
            out@.len() == head * size,
            forall|p: int|
                0 <= p < out@.len() ==> #[trigger] out@[p] == head_attention::<A>(
                    row_of(q@, size, p / size),
                    row_of(k@, width, p / size),
                    row_of(v@, width, p / size),
                    queries as int,
                    keys as int,
                    dim as int,
                )[p % size],
        decreases heads - head,
    {
        proof {
            lemma_block(heads as int, size, head as int);
            lemma_block(heads as int, width, head as int);
        }
        let from = head * (queries * dim);
        let key_from = head * (keys * dim);
        let mut given = attend_head::<A>(
            slice_subrange(q, from, from + queries * dim),
            slice_subrange(k, key_from, key_from + keys * dim),
            slice_subrange(v, key_from, key_from + keys * dim),
            queries,
            keys,
            dim,
        );
        let ghost before = out@;
        proof {
            assert(given@.len() == size);
        }
        out.append(&mut given);
        proof {
            assert forall|p: int| 0 <= p < out@.len() implies #[trigger] out@[p]
                == head_attention::<A>(
                row_of(q@, size, p / size),
                row_of(k@, width, p / size),
                row_of(v@, width, p / size),
                queries as int,
                keys as int,
                dim as int,
            )[p % size] by {
                if p >= before.len() {
                    lemma_join2(heads as int, size, head as int, p - head * size);
                } else {
                    assert(before[p] == out@[p]);
                }
            }
        }
        head = head + 1;
    }
    proof {
        assert(out@ =~= heads_attention::<A>(
            q@,
            k@,
            v@,
            heads as int,
            queries as int,
            keys as int,
            dim as int,
        ));
    }
    out
}

/// `[B, T, C]` as `[B * H, T, C / H]`, head-major.
pub open spec fn heads_of<T>(x: Seq<T>, batch: int, time: int, dim: int, heads: int) -> Seq<T> {
    table4(
        batch,
        heads,
        time,
        dim / heads,
        |b: int, h: int, t: int, d: int| at3(x, time, dim, b, t, h * (dim / heads) + d),
    )
}

/// `[B * H, T, D]` as `[B, T, H * D]`.
pub open spec fn merged_heads<T>(x: Seq<T>, batch: int, heads: int, time: int, dim: int) -> Seq<
    T,
> {
    table3(
        batch,
        time,
        heads * dim,
        |b: int, t: int, c: int| at4(x, heads, time, dim, b, c / dim, t, c % dim),
    )
}

/// `[B, T, H * D]` and `[B, H, T, D]` have as many entries.
proof fn lemma_head_sizes(batch: int, time: int, heads: int, dim: int)
    ensures
        batch * heads * time * dim == batch * time * (heads * dim),
{
    assert(batch * heads * time * dim == batch * time * (heads * dim)) by (nonlinear_arith);
}

/// Heads of equal width fit beside each other.
proof fn lemma_head_width(dim: int, heads: int)
    requires
        dim >= 0,
        heads > 0,
    ensures
        0 <= heads * (dim / heads) <= dim,
        0 <= dim / heads,
        dim % heads == 0 ==> heads * (dim / heads) == dim,
{
    vstd::arithmetic::div_mod::lemma_fundamental_div_mod(dim, heads);
    vstd::arithmetic::div_mod::lemma_mod_bound(dim, heads);
    vstd::arithmetic::div_mod::lemma_div_pos_is_pos(dim, heads);
    lemma_extent(heads, dim / heads);
}

/// `[B, T, C]` -> `[B * H, T, C / H]`, head-major and contiguous.
pub fn to_heads<T: Copy>(x: &[T], batch: usize, time: usize, dim: usize, heads: usize) -> (out: Vec<
    T,
>)
    requires
        heads > 0,
        x@.len() == batch * time * dim,
        batch * time <= usize::MAX,
        batch * heads <= usize::MAX,
        batch * heads * time <= usize::MAX,
    ensures
        out@ == heads_of(x@, batch as int, time as int, dim as int, heads as int),
{
    assert(x@.len() == x.len());
    let width = dim / heads;
    proof {
        lemma_head_width(dim as int, heads as int);
        lemma_head_sizes(batch as int, time as int, heads as int, width as int);
        lemma_extent(batch as int, heads as int);
        lemma_extent(batch * heads, time as int);
        lemma_extent(batch as int, time as int);
        assert(batch * time * (heads * width) <= batch * time * dim) by (nonlinear_arith)
            requires
                0 <= batch * time,
                heads * width <= dim,
        ;
        lemma_extent(batch * heads * time, width as int);
    }
    let count = batch * heads * time * width;
    let mut out: Vec<T> = Vec::new();
    while out.len() < count
        invariant
            x@.len() == batch * time * dim <= usize::MAX,
            width == dim / heads,
            heads * width <= dim,
            batch * time <= usize::MAX,
            count == batch * heads * time * width,
            out@.len() <= count,
            forall|p: int|
                0 <= p < out@.len() ==> #[trigger] out@[p] == at3(
                    x@,
                    time as int,
                    dim as int,
                    p / width as int / time as int / heads as int,
                    p / width as int % time as int,
                    (p / width as int / time as int % heads as int) * width + p % width as int,
                ),
        decreases count - out@.len(),
    {
        let position = out.len();
        proof {
            lemma_split4(
                batch as int,
                heads as int,
                time as int,
                width as int,
                position as int,
            );
        }
        let d = position % width;
        let t = position / width % time;
        let h = position / width / time % heads;
        let b = position / width / time / heads;
        proof {
            lemma_join2(heads as int, width as int, h as int, d as int);
            lemma_join3(
                batch as int,
                time as int,
                dim as int,
                b as int,
                t as int,
                h * width + d,
            );
        }
        out.push(x[(b * time + t) * dim + (h * width + d)]);
    }
    proof {
        assert(out@ =~= heads_of(x@, batch as int, time as int, dim as int, heads as int));
    }
    out
}

/// `[B * H, T, D]` -> `[B, T, C]`.
pub fn from_heads<T: Copy>(x: &[T], batch: usize, heads: usize, time: usize, dim: usize) -> (out:
    Vec<T>)
    requires
        x@.len() == batch * heads * time * dim,
        heads * dim <= usize::MAX,
        batch * time <= usize::MAX,
        batch * heads <= usize::MAX,
        batch * heads * time <= usize::MAX,
    ensures
        out@ == merged_heads(x@, batch as int, heads as int, time as int, dim as int),
{
    assert(x@.len() == x.len());
    proof {
        lemma_head_sizes(batch as int, time as int, heads as int, dim as int);
        lemma_extent(batch as int, time as int);
        lemma_extent(heads as int, dim as int);
    }
    let width = heads * dim;
    let count = batch * time * width;
    let mut out: Vec<T> = Vec::new();
    while out.len() < count
        invariant
            x@.len() == batch * heads * time * dim <= usize::MAX,
            width == heads * dim,
            batch * heads <= usize::MAX,
            batch * heads * time <= usize::MAX,
            count == batch * time * width,
            out@.len() <= count,
            forall|p: int|
                0 <= p < out@.len() ==> #[trigger] out@[p] == at4(
                    x@,
                    heads as int,
                    time as int,
                    dim as int,
                    p / width as int / time as int,
                    p % width as int / dim as int,
                    p / width as int % time as int,
                    p % width as int % dim as int,
                ),
        decreases count - out@.len(),
    {
        let position = out.len();
        proof {
            lemma_split3(batch as int, time as int, width as int, position as int);
        }
        let c = position % width;
        let t = position / width % time;
        let b = position / width / time;
        proof {
            lemma_split2(heads as int, dim as int, c as int);
            lemma_join4(
                batch as int,
                heads as int,
                time as int,
                dim as int,
                b as int,
                c as int / dim as int,
                t as int,
                c as int % dim as int,
            );
        }
        out.push(x[((b * heads + c / dim) * time + t) * dim + c % dim]);
    }
    proof {
        assert(out@ =~= merged_heads(x@, batch as int, heads as int, time as int, dim as int));
    }
    out
}

/// Splitting is head-major: the entry of feature `d` of head `h` at time `t`
/// lies behind those of every earlier head, time and feature.
pub proof fn law_heads_are_contiguous<T>(
    x: Seq<T>,
    batch: int,
    time: int,
    dim: int,
    heads: int,
    b: int,
    h: int,
    t: int,
    d: int,
)
    requires
        dim >= 0,
        heads > 0,
        0 <= b < batch,
        0 <= h < heads,
        0 <= t < time,
        0 <= d < dim / heads,
    ensures
        heads_of(x, batch, time, dim, heads)[((b * heads + h) * time + t) * (dim / heads) + d]
            == x[(b * time + t) * dim + (h * (dim / heads) + d)],
{
    lemma_join4(batch, heads, time, dim / heads, b, h, t, d);
}

/// Merging the heads undoes splitting into them.
pub proof fn law_merging_heads_undoes_splitting<T>(
    x: Seq<T>,
    batch: int,
    time: int,
    dim: int,
    heads: int,
)
    requires
        batch >= 0,
        time >= 0,
        dim >= 0,
        heads > 0,
        dim % heads == 0,
        x.len() == batch * time * dim,
    ensures
        merged_heads(
            heads_of(x, batch, time, dim, heads),
            batch,
            heads,
            time,
            dim / heads,
        ) == x,
{
    let width = dim / heads;
    lemma_head_width(dim, heads);
    let split = heads_of(x, batch, time, dim, heads);
    let back = merged_heads(split, batch, heads, time, width);
    assert forall|p: int| 0 <= p < x.len() implies #[trigger] back[p] == x[p] by {
        lemma_split3(batch, time, dim, p);
        let (b, t, c) = (p / dim / time, p / dim % time, p % dim);
        lemma_split2(heads, width, c);
        lemma_join4(batch, heads, time, width, b, c / width, t, c % width);
    }
    assert(back =~= x);
}

} // verus!
