//! Row-major addressing of two, three and four axes.
//!
//! `at*` reads a flat sequence at a tuple of coordinates, `table*` builds the
//! flat sequence whose entry at each tuple of coordinates is given by a
//! function, and the lemmas relate flat positions to coordinates.

use vstd::arithmetic::div_mod::{
    lemma_fundamental_div_mod, lemma_fundamental_div_mod_converse, lemma_mod_bound,
};
use vstd::prelude::*;

verus! {

/// The entry at row `i`, column `j` of rows of `n1` entries.
pub open spec fn at2<T>(data: Seq<T>, n1: int, i: int, j: int) -> T {
    data[i * n1 + j]
}

/// The entry at `(i, j, k)` of a block whose last two extents are `n1, n2`.
pub open spec fn at3<T>(data: Seq<T>, n1: int, n2: int, i: int, j: int, k: int) -> T {
    data[(i * n1 + j) * n2 + k]
}

/// The entry at `(i, j, k, l)` of a block whose last three extents are
/// `n1, n2, n3`.
pub open spec fn at4<T>(
    data: Seq<T>,
    n1: int,
    n2: int,
    n3: int,
    i: int,
    j: int,
    k: int,
    l: int,
) -> T {
    data[((i * n1 + j) * n2 + k) * n3 + l]
}

/// The `n0 * n1` entries `f(i, j)`, row by row.
pub open spec fn table2<T>(n0: int, n1: int, f: spec_fn(int, int) -> T) -> Seq<T> {
    Seq::new((n0 * n1) as nat, |p: int| f(p / n1, p % n1))
}

/// The `n0 * n1 * n2` entries `f(i, j, k)`, the last axis contiguous.
pub open spec fn table3<T>(n0: int, n1: int, n2: int, f: spec_fn(int, int, int) -> T) -> Seq<T> {
    Seq::new((n0 * n1 * n2) as nat, |p: int| f(p / n2 / n1, p / n2 % n1, p % n2))
}

/// The `n0 * n1 * n2 * n3` entries `f(i, j, k, l)`, the last axis contiguous.
pub open spec fn table4<T>(
    n0: int,
    n1: int,
    n2: int,
    n3: int,
    f: spec_fn(int, int, int, int) -> T,
) -> Seq<T> {
    Seq::new(
        (n0 * n1 * n2 * n3) as nat,
        |p: int| f(p / n3 / n2 / n1, p / n3 / n2 % n1, p / n3 % n2, p % n3),
    )
}

/// A product of extents is not negative.
pub proof fn lemma_extent(a: int, b: int)
    requires
        a >= 0,
        b >= 0,
    ensures
        a * b >= 0,
{
    assert(a * b >= 0) by (nonlinear_arith)
        requires
            a >= 0,
            b >= 0,
    ;
}

/// The coordinates of a flat position in `n0` rows of `n1`.
pub proof fn lemma_split2(n0: int, n1: int, p: int)
    requires
        n0 >= 0,
        n1 >= 0,
        0 <= p < n0 * n1,
    ensures
        n0 > 0,
        n1 > 0,
        0 <= p / n1 < n0,
        0 <= p % n1 < n1,
        (p / n1) * n1 + p % n1 == p,
{
    assert(n0 > 0 && n1 > 0) by (nonlinear_arith)
        requires
            n0 >= 0,
            n1 >= 0,
            0 < n0 * n1,
    ;
    lemma_fundamental_div_mod(p, n1);
    lemma_mod_bound(p, n1);
    let q = p / n1;
    assert(q * n1 == n1 * q) by (nonlinear_arith);
    assert(0 <= q < n0) by (nonlinear_arith)
        requires
            n1 > 0,
            0 <= p < n0 * n1,
            p == n1 * q + p % n1,
            0 <= p % n1 < n1,
    ;
}

/// The flat position of a pair of coordinates.
pub proof fn lemma_join2(n0: int, n1: int, i: int, j: int)
    requires
        0 <= i < n0,
        0 <= j < n1,
    ensures
        0 <= i * n1 <= i * n1 + j < n0 * n1,
        (i * n1 + j) / n1 == i,
        (i * n1 + j) % n1 == j,
{
    assert(0 <= i * n1 && i * n1 + j < n0 * n1) by (nonlinear_arith)
        requires
            0 <= i < n0,
            0 <= j < n1,
    ;
    lemma_fundamental_div_mod_converse(i * n1 + j, n1, i, j);
}

/// The coordinates of a flat position in `n0 * n1 * n2` entries.
pub proof fn lemma_split3(n0: int, n1: int, n2: int, p: int)
    requires
        n0 >= 0,
        n1 >= 0,
        n2 >= 0,
        0 <= p < n0 * n1 * n2,
    ensures
        n0 > 0,
        n1 > 0,
        n2 > 0,
        0 <= p / n2 < n0 * n1,
        0 <= p / n2 / n1 < n0,
        0 <= p / n2 % n1 < n1,
        0 <= p % n2 < n2,
        ((p / n2 / n1) * n1 + p / n2 % n1) * n2 + p % n2 == p,
{
    lemma_extent(n0, n1);
    lemma_split2(n0 * n1, n2, p);
    lemma_split2(n0, n1, p / n2);
}

/// The flat position of three coordinates.
pub proof fn lemma_join3(n0: int, n1: int, n2: int, i: int, j: int, k: int)
    requires
        0 <= i < n0,
        0 <= j < n1,
        0 <= k < n2,
    ensures
        0 <= i * n1 <= i * n1 + j < n0 * n1,
        0 <= (i * n1 + j) * n2 <= (i * n1 + j) * n2 + k < n0 * n1 * n2,
        ((i * n1 + j) * n2 + k) / n2 / n1 == i,
        ((i * n1 + j) * n2 + k) / n2 % n1 == j,
        ((i * n1 + j) * n2 + k) % n2 == k,
{
    lemma_join2(n0, n1, i, j);
    lemma_join2(n0 * n1, n2, i * n1 + j, k);
}

/// The coordinates of a flat position in `n0 * n1 * n2 * n3` entries.
pub proof fn lemma_split4(n0: int, n1: int, n2: int, n3: int, p: int)
    requires
        n0 >= 0,
        n1 >= 0,
        n2 >= 0,
        n3 >= 0,
        0 <= p < n0 * n1 * n2 * n3,
    ensures
        n0 > 0,
        n1 > 0,
        n2 > 0,
        n3 > 0,
        0 <= p / n3 < n0 * n1 * n2,
        0 <= p / n3 / n2 < n0 * n1,
        0 <= p / n3 / n2 / n1 < n0,
        0 <= p / n3 / n2 % n1 < n1,
        0 <= p / n3 % n2 < n2,
        0 <= p % n3 < n3,
        (((p / n3 / n2 / n1) * n1 + p / n3 / n2 % n1) * n2 + p / n3 % n2) * n3 + p % n3 == p,
{
    lemma_extent(n0, n1);
    lemma_extent(n0 * n1, n2);
    lemma_split2(n0 * n1 * n2, n3, p);
    lemma_split3(n0, n1, n2, p / n3);
}

/// The flat position of four coordinates.
pub proof fn lemma_join4(n0: int, n1: int, n2: int, n3: int, i: int, j: int, k: int, l: int)
    requires
        0 <= i < n0,
        0 <= j < n1,
        0 <= k < n2,
        0 <= l < n3,
    ensures
        0 <= i * n1 <= i * n1 + j < n0 * n1,
        0 <= (i * n1 + j) * n2 <= (i * n1 + j) * n2 + k < n0 * n1 * n2,
        0 <= ((i * n1 + j) * n2 + k) * n3 <= ((i * n1 + j) * n2 + k) * n3 + l < n0 * n1 * n2 * n3,
        (((i * n1 + j) * n2 + k) * n3 + l) / n3 / n2 / n1 == i,
        (((i * n1 + j) * n2 + k) * n3 + l) / n3 / n2 % n1 == j,
        (((i * n1 + j) * n2 + k) * n3 + l) / n3 % n2 == k,
        (((i * n1 + j) * n2 + k) * n3 + l) % n3 == l,
{
    lemma_join3(n0, n1, n2, i, j, k);
    lemma_join2(n0 * n1 * n2, n3, (i * n1 + j) * n2 + k, l);
}

} // verus!
