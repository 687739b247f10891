//! The matrix product that the attention is built on. Linear layers and
//! convolutions sum in the same order, entry by entry.
//!
//! Single-threaded by design: a small function gets one virtual CPU, so
//! threading would only pay on a larger one. The thread setting is reserved
//! for that.

use vstd::prelude::*;

use crate::arithmetic::{lawful, Arithmetic};
use crate::index::{at2, lemma_join2, lemma_split2, table2};
use crate::text::{count_in, parse_count};

verus! {

/// The thread count that a setting asks for: at least one, and one where the
/// setting is not there or is no count.
pub open spec fn threads_for(setting: Option<Seq<char>>) -> usize {
    match setting {
        Some(text) => match count_in(text) {
            Some(count) => if count >= 1 {
                count
            } else {
                1
            },
            None => 1,
        },
        None => 1,
    }
}

/// How many threads the kernels would use, given the text of the setting if
/// it is there. One by default.
pub fn thread_count(setting: Option<&str>) -> (threads: usize)
    ensures
        threads == threads_for(
            match setting {
                Some(text) => Some(text@),
                None => None,
            },
        ),
        threads >= 1,
{
    match setting {
        Some(text) => match parse_count(text) {
            Some(count) => if count >= 1 {
                count
            } else {
                1
            },
            None => 1,
        },
        None => 1,
    }
}

/// The sum over the first `terms` inner positions of row `i` of `a` times
/// column `j` of `b`, accumulated from zero in order.
pub open spec fn row_times_column<A: Arithmetic>(
    a: Seq<A::Real>,
    b: Seq<A::Real>,
    k: int,
    n: int,
    i: int,
    j: int,
    terms: int,
) -> A::Real
    decreases terms,
{
    if terms <= 0 {
        A::zero_spec()
    } else {
        A::plus_spec(
            row_times_column::<A>(a, b, k, n, i, j, terms - 1),
            A::times_spec(at2(a, k, i, terms - 1), at2(b, n, terms - 1, j)),
        )
    }
}

/// The product of `a`, `[m, k]`, and `b`, `[k, n]`.
pub open spec fn product_of<A: Arithmetic>(
    a: Seq<A::Real>,
    b: Seq<A::Real>,
    m: int,
    k: int,
    n: int,
) -> Seq<A::Real> {
    table2(m, n, |i: int, j: int| row_times_column::<A>(a, b, k, n, i, j, k))
}

/// `out = a @ b`, with `a` `[m, k]`, `b` `[k, n]`, `out` `[m, n]`.
pub fn matmul<A: Arithmetic>(
    a: &[A::Real],
    b: &[A::Real],
    out: &mut [A::Real],
    m: usize,
    k: usize,
    n: usize,
)
    requires
        lawful::<A>(),
        a@.len() == m * k,
        b@.len() == k * n,
        old(out)@.len() == m * n,
    ensures
        final(out)@ == product_of::<A>(a@, b@, m as int, k as int, n as int),
{
    let count = out.len();
    proof {
        assert(a@.len() == a.len() && b@.len() == b.len());
    }
    let mut position: usize = 0;
    while position < count
        invariant
            lawful::<A>(),
            a@.len() == m * k <= usize::MAX,
            b@.len() == k * n <= usize::MAX,
            count == m * n,
            out@.len() == count,
            position <= count,
            forall|p: int|
                0 <= p < position ==> #[trigger] out@[p] == row_times_column::<A>(
                    a@,
                    b@,
                    k as int,
                    n as int,
                    p / n as int,
                    p % n as int,
                    k as int,
                ),
        decreases count - position,
    {
        proof {
            lemma_split2(m as int, n as int, position as int);
        }
        let row = position / n;
        let column = position % n;
        let mut sum = A::zero();
        let mut inner: usize = 0;
        while inner < k
            invariant
                lawful::<A>(),
                a@.len() == m * k <= usize::MAX,
                b@.len() == k * n <= usize::MAX,
                row < m,
                column < n,
                inner <= k,
                sum == row_times_column::<A>(
                    a@,
                    b@,
                    k as int,
                    n as int,
                    row as int,
                    column as int,
                    inner as int,
                ),
            decreases k - inner,
        {
            proof {
                lemma_join2(m as int, k as int, row as int, inner as int);
                lemma_join2(k as int, n as int, inner as int, column as int);
            }
            sum = A::plus(sum, A::times(a[row * k + inner], b[inner * n + column]));
            inner = inner + 1;
        }
        out[position] = sum;
        position = position + 1;
    }
    proof {
        assert(out@ =~= product_of::<A>(a@, b@, m as int, k as int, n as int));
    }
}

/// `[rows, columns]` as `[columns, rows]`.
pub open spec fn flipped<T>(x: Seq<T>, rows: int, columns: int) -> Seq<T> {
    table2(columns, rows, |j: int, i: int| at2(x, columns, i, j))
}

/// `[rows, columns]` as `[columns, rows]`.
pub fn flip<T: Copy>(x: &[T], rows: usize, columns: usize) -> (out: Vec<T>)
    requires
        x@.len() == rows * columns,
    ensures
        out@ == flipped(x@, rows as int, columns as int),
{
    assert(x@.len() == x.len());
    proof {
        assert(columns * rows == rows * columns) by (nonlinear_arith);
    }
    let count = columns * rows;
    let mut out: Vec<T> = Vec::new();
    while out.len() < count
        invariant
            x@.len() == rows * columns <= usize::MAX,
            count == columns * rows,
            out@.len() <= count,
            forall|p: int|
                0 <= p < out@.len() ==> #[trigger] out@[p] == at2(
                    x@,
                    columns as int,
                    p % rows as int,
                    p / rows as int,
                ),
        decreases count - out@.len(),
    {
        let position = out.len();
        proof {
            lemma_split2(columns as int, rows as int, position as int);
            lemma_join2(
                rows as int,
                columns as int,
                position as int % rows as int,
                position as int / rows as int,
            );
        }
        out.push(x[position % rows * columns + position / rows]);
    }
    proof {
        assert(out@ =~= flipped(x@, rows as int, columns as int));
    }
    out
}

} // verus!
