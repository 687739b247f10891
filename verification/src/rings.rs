//! Sums in an arithmetic that is a commutative ring.

use vstd::prelude::*;

use crate::arithmetic::Arithmetic;
use crate::index::{lemma_extent, lemma_join2};

verus! {

/// Whether sums and products of reals are those of a commutative ring.
#[verifier::opaque]
pub open spec fn ring<A: Arithmetic>() -> bool {
    &&& forall|a: A::Real, b: A::Real| #[trigger] A::plus_spec(a, b) == A::plus_spec(b, a)
    &&& forall|a: A::Real, b: A::Real, c: A::Real| #[trigger]
        A::plus_spec(A::plus_spec(a, b), c) == A::plus_spec(a, A::plus_spec(b, c))
    &&& forall|a: A::Real| #[trigger] A::plus_spec(a, A::zero_spec()) == a
    &&& forall|a: A::Real, b: A::Real| #[trigger] A::times_spec(a, b) == A::times_spec(b, a)
    &&& forall|a: A::Real, b: A::Real, c: A::Real| #[trigger]
        A::times_spec(A::times_spec(a, b), c) == A::times_spec(a, A::times_spec(b, c))
    &&& forall|a: A::Real, b: A::Real, c: A::Real| #[trigger]
        A::times_spec(A::plus_spec(a, b), c) == A::plus_spec(
            A::times_spec(a, c),
            A::times_spec(b, c),
        )
    &&& forall|a: A::Real| #[trigger] A::times_spec(A::zero_spec(), a) == A::zero_spec()
}

pub proof fn lemma_zero<A: Arithmetic>(a: A::Real)
    requires
        ring::<A>(),
    ensures
        A::plus_spec(a, A::zero_spec()) == a,
        A::times_spec(A::zero_spec(), a) == A::zero_spec(),
        A::times_spec(a, A::zero_spec()) == A::zero_spec(),
{
    reveal(ring);
    assert(A::times_spec(a, A::zero_spec()) == A::times_spec(A::zero_spec(), a));
}

pub proof fn lemma_commute<A: Arithmetic>(a: A::Real, b: A::Real)
    requires
        ring::<A>(),
    ensures
        A::plus_spec(a, b) == A::plus_spec(b, a),
        A::times_spec(a, b) == A::times_spec(b, a),
{
    reveal(ring);
}

pub proof fn lemma_regroup<A: Arithmetic>(a: A::Real, b: A::Real, c: A::Real)
    requires
        ring::<A>(),
    ensures
        A::plus_spec(A::plus_spec(a, b), c) == A::plus_spec(a, A::plus_spec(b, c)),
        A::times_spec(A::times_spec(a, b), c) == A::times_spec(a, A::times_spec(b, c)),
{
    reveal(ring);
}

pub proof fn lemma_distribute<A: Arithmetic>(a: A::Real, b: A::Real, c: A::Real)
    requires
        ring::<A>(),
    ensures
        A::times_spec(A::plus_spec(a, b), c) == A::plus_spec(
            A::times_spec(a, c),
            A::times_spec(b, c),
        ),
{
    reveal(ring);
}

/// `(a + b) + (c + d) == (a + c) + (b + d)`.
proof fn lemma_cross<A: Arithmetic>(a: A::Real, b: A::Real, c: A::Real, d: A::Real)
    requires
        ring::<A>(),
    ensures
        A::plus_spec(A::plus_spec(a, b), A::plus_spec(c, d)) == A::plus_spec(
            A::plus_spec(a, c),
            A::plus_spec(b, d),
        ),
{
    lemma_regroup::<A>(a, b, A::plus_spec(c, d));
    lemma_regroup::<A>(b, c, d);
    lemma_commute::<A>(b, c);
    lemma_regroup::<A>(c, b, d);
    lemma_regroup::<A>(a, c, A::plus_spec(b, d));
}

/// The sum of `f(i)` for `i` below `n`, from zero in order.
pub open spec fn total<A: Arithmetic>(n: int, f: spec_fn(int) -> A::Real) -> A::Real
    decreases n,
{
    if n <= 0 {
        A::zero_spec()
    } else {
        A::plus_spec(total::<A>(n - 1, f), f(n - 1))
    }
}

pub proof fn lemma_total_alike<A: Arithmetic>(
    n: int,
    f: spec_fn(int) -> A::Real,
    g: spec_fn(int) -> A::Real,
)
    requires
        forall|i: int| 0 <= i < n ==> #[trigger] f(i) == g(i),
    ensures
        total::<A>(n, f) == total::<A>(n, g),
    decreases n,
{
    if n > 0 {
        lemma_total_alike::<A>(n - 1, f, g);
        assert(f(n - 1) == g(n - 1));
    }
}

pub proof fn lemma_total_zero<A: Arithmetic>(n: int, f: spec_fn(int) -> A::Real)
    requires
        ring::<A>(),
        forall|i: int| 0 <= i < n ==> #[trigger] f(i) == A::zero_spec(),
    ensures
        total::<A>(n, f) == A::zero_spec(),
    decreases n,
{
    if n > 0 {
        lemma_total_zero::<A>(n - 1, f);
        assert(f(n - 1) == A::zero_spec());
        lemma_zero::<A>(A::zero_spec());
    }
}

pub proof fn lemma_total_plus<A: Arithmetic>(
    n: int,
    f: spec_fn(int) -> A::Real,
    g: spec_fn(int) -> A::Real,
)
    requires
        ring::<A>(),
    ensures
        total::<A>(n, |i: int| A::plus_spec(f(i), g(i))) == A::plus_spec(
            total::<A>(n, f),
            total::<A>(n, g),
        ),
    decreases n,
{
    let both = |i: int| A::plus_spec(f(i), g(i));
    if n > 0 {
        lemma_total_plus::<A>(n - 1, f, g);
        lemma_total_alike::<A>(n - 1, both, |i: int| A::plus_spec(f(i), g(i)));
        lemma_cross::<A>(
            total::<A>(n - 1, f),
            total::<A>(n - 1, g),
            f(n - 1),
            g(n - 1),
        );
    } else {
        lemma_zero::<A>(A::zero_spec());
    }
    lemma_total_alike::<A>(n, both, |i: int| A::plus_spec(f(i), g(i)));
}

/// A factor goes into a sum.
pub proof fn lemma_total_times<A: Arithmetic>(n: int, f: spec_fn(int) -> A::Real, z: A::Real)
    requires
        ring::<A>(),
    ensures
        A::times_spec(total::<A>(n, f), z) == total::<A>(n, |i: int| A::times_spec(f(i), z)),
    decreases n,
{
    let g = |i: int| A::times_spec(f(i), z);
    if n > 0 {
        lemma_total_times::<A>(n - 1, f, z);
        lemma_total_alike::<A>(n - 1, g, |i: int| A::times_spec(f(i), z));
        lemma_distribute::<A>(total::<A>(n - 1, f), f(n - 1), z);
    } else {
        lemma_zero::<A>(z);
    }
    lemma_total_alike::<A>(n, g, |i: int| A::times_spec(f(i), z));
}

/// Two sums may be taken in either order.
pub proof fn lemma_total_swap<A: Arithmetic>(n: int, m: int, f: spec_fn(int, int) -> A::Real)
    requires
        ring::<A>(),
        0 <= n,
        0 <= m,
    ensures
        total::<A>(n, |i: int| total::<A>(m, |j: int| f(i, j))) == total::<A>(
            m,
            |j: int| total::<A>(n, |i: int| f(i, j)),
        ),
    decreases n,
{
    let rows = |i: int| total::<A>(m, |j: int| f(i, j));
    let columns = |j: int| total::<A>(n, |i: int| f(i, j));
    if n == 0 {
        lemma_total_zero::<A>(m, columns);
    } else {
        lemma_total_swap::<A>(n - 1, m, f);
        let shorter = |j: int| total::<A>(n - 1, |i: int| f(i, j));
        let last = |j: int| f(n - 1, j);
        lemma_total_plus::<A>(m, shorter, last);
        assert forall|j: int| 0 <= j < m implies #[trigger] columns(j) == A::plus_spec(
            shorter(j),
            last(j),
        ) by {
            lemma_total_alike::<A>(n - 1, |i: int| f(i, j), |i: int| f(i, j));
        }
        lemma_total_alike::<A>(m, columns, |j: int| A::plus_spec(shorter(j), last(j)));
        lemma_total_alike::<A>(
            n - 1,
            rows,
            |i: int| total::<A>(m, |j: int| f(i, j)),
        );
        lemma_total_alike::<A>(
            m,
            shorter,
            |j: int| total::<A>(n - 1, |i: int| f(i, j)),
        );
        lemma_total_alike::<A>(m, last, |j: int| f(n - 1, j));
    }
    lemma_total_alike::<A>(n, rows, |i: int| total::<A>(m, |j: int| f(i, j)));
    lemma_total_alike::<A>(m, columns, |j: int| total::<A>(n, |i: int| f(i, j)));
}

/// A sum goes on behind `n` terms.
pub proof fn lemma_total_split<A: Arithmetic>(n: int, m: int, f: spec_fn(int) -> A::Real)
    requires
        ring::<A>(),
        0 <= n,
        0 <= m,
    ensures
        total::<A>(n + m, f) == A::plus_spec(total::<A>(n, f), total::<A>(m, |j: int| f(n + j))),
    decreases m,
{
    let tail = |j: int| f(n + j);
    if m == 0 {
        lemma_zero::<A>(total::<A>(n, f));
    } else {
        lemma_total_split::<A>(n, m - 1, f);
        lemma_total_alike::<A>(m - 1, tail, |j: int| f(n + j));
        lemma_regroup::<A>(total::<A>(n, f), total::<A>(m - 1, tail), f(n + m - 1));
    }
    lemma_total_alike::<A>(m, tail, |j: int| f(n + j));
}

/// A sum over `n` rows of `m` is a sum of sums.
pub proof fn lemma_total_rows<A: Arithmetic>(n: int, m: int, f: spec_fn(int, int) -> A::Real)
    requires
        ring::<A>(),
        0 <= n,
        0 <= m,
    ensures
        total::<A>(n * m, |p: int| f(p / m, p % m)) == total::<A>(
            n,
            |i: int| total::<A>(m, |j: int| f(i, j)),
        ),
    decreases n,
{
    let flat = |p: int| f(p / m, p % m);
    let rows = |i: int| total::<A>(m, |j: int| f(i, j));
    if n == 0 {
        assert(0 * m == 0);
    } else {
        lemma_total_rows::<A>(n - 1, m, f);
        lemma_extent(n - 1, m);
        assert((n - 1) * m + m == n * m) by (nonlinear_arith);
        lemma_total_split::<A>((n - 1) * m, m, flat);
        let tail = |j: int| flat((n - 1) * m + j);
        assert forall|j: int| 0 <= j < m implies #[trigger] tail(j) == f(n - 1, j) by {
            lemma_join2(n, m, n - 1, j);
        }
        lemma_total_alike::<A>(m, tail, |j: int| f(n - 1, j));
        lemma_total_alike::<A>(m, tail, |j: int| flat((n - 1) * m + j));
        lemma_total_alike::<A>((n - 1) * m, flat, |p: int| f(p / m, p % m));
        lemma_total_alike::<A>(
            n - 1,
            rows,
            |i: int| total::<A>(m, |j: int| f(i, j)),
        );
    }
    lemma_total_alike::<A>(n * m, flat, |p: int| f(p / m, p % m));
    lemma_total_alike::<A>(n, rows, |i: int| total::<A>(m, |j: int| f(i, j)));
}

/// Only the terms of a window count.
pub proof fn lemma_total_window<A: Arithmetic>(
    n: int,
    from: int,
    width: int,
    f: spec_fn(int) -> A::Real,
)
    requires
        ring::<A>(),
        0 <= from,
        0 <= width,
        from + width <= n,
        forall|r: int|
            0 <= r < n && !(from <= r < from + width) ==> #[trigger] f(r) == A::zero_spec(),
    ensures
        total::<A>(n, f) == total::<A>(width, |k: int| f(from + k)),
{
    let inside = |k: int| f(from + k);
    let behind = |k: int| f(from + width + k);
    lemma_total_split::<A>(from + width, n - from - width, f);
    lemma_total_split::<A>(from, width, f);
    lemma_total_zero::<A>(from, f);
    assert forall|k: int| 0 <= k < n - from - width implies #[trigger] behind(k)
        == A::zero_spec() by {
        assert(f(from + width + k) == A::zero_spec());
    }
    lemma_total_zero::<A>(n - from - width, behind);
    lemma_total_alike::<A>(
        n - from - width,
        behind,
        |j: int| f(from + width + j),
    );
    lemma_total_alike::<A>(width, inside, |j: int| f(from + j));
    lemma_zero::<A>(total::<A>(from + width, f));
    lemma_commute::<A>(A::zero_spec(), total::<A>(width, inside));
    lemma_zero::<A>(total::<A>(width, inside));
    lemma_total_alike::<A>(width, inside, |k: int| f(from + k));
}

} // verus!
