//! A plain row-major tensor.
//!
//! Deliberately not a general array library: the shapes are fixed by the
//! model, and explicit shapes keep each routine readable on its own.

use vstd::arithmetic::mul::lemma_mul_is_associative;
use vstd::prelude::*;

verus! {

/// The number of entries of a tensor of this shape: the product of its
/// extents.
pub open spec fn volume(shape: Seq<usize>) -> nat
    decreases shape.len(),
{
    if shape.len() == 0 {
        1
    } else {
        volume(shape.drop_last()) * (shape.last() as nat)
    }
}

/// The product of the extents of a shape, an extent of zero counted as one.
///
/// It bounds the product of any of the extents. A shape is addressable when
/// its span fits in `usize`.
pub open spec fn span(shape: Seq<usize>) -> nat
    decreases shape.len(),
{
    if shape.len() == 0 {
        1
    } else {
        span(shape.drop_last()) * at_least_one(shape.last())
    }
}

/// An extent, zero counted as one.
pub open spec fn at_least_one(extent: usize) -> nat {
    if extent == 0 {
        1
    } else {
        extent as nat
    }
}

/// Whether the product of any of the extents of a shape fits in `usize`.
pub open spec fn addressable(shape: Seq<usize>) -> bool {
    span(shape) <= usize::MAX
}

/// The row-major position of an index: the last axis is contiguous.
pub open spec fn position(shape: Seq<usize>, index: Seq<usize>) -> nat
    decreases shape.len(),
{
    if shape.len() == 0 {
        0
    } else {
        position(shape.drop_last(), index.drop_last()) * (shape.last() as nat)
            + index.last() as nat
    }
}

/// Whether an index has one coordinate per axis, each below the axis' extent.
pub open spec fn in_range(shape: Seq<usize>, index: Seq<usize>) -> bool {
    &&& index.len() == shape.len()
    &&& forall|axis: int| 0 <= axis < shape.len() ==> index[axis] < shape[axis]
}

/// What a tensor holds: its shape and its entries in row-major order.
#[verifier::ext_equal]
pub struct Grid<T> {
    pub shape: Seq<usize>,
    pub data: Seq<T>,
}

impl<T> Grid<T> {
    /// As many entries as the shape asks for, all of them addressable.
    pub open spec fn wf(self) -> bool {
        &&& self.data.len() == volume(self.shape)
        &&& addressable(self.shape)
    }

    /// The same entries under another shape.
    pub open spec fn reshaped(self, shape: Seq<usize>) -> Grid<T> {
        Grid { shape, data: self.data }
    }
}

/// Extents and entries, in row-major order.
#[derive(Debug, PartialEq)]
pub struct Tensor<T> {
    pub shape: Vec<usize>,
    pub data: Vec<T>,
}

impl<T> View for Tensor<T> {
    type V = Grid<T>;

    open spec fn view(&self) -> Grid<T> {
        Grid { shape: self.shape@, data: self.data@ }
    }
}

impl<T: Copy> Clone for Tensor<T> {
    fn clone(&self) -> (copy: Self)
        ensures
            copy@ == self@,
    {
        Tensor {
            shape: vstd::slice::slice_to_vec(self.shape.as_slice()),
            data: vstd::slice::slice_to_vec(self.data.as_slice()),
        }
    }
}

impl<T: Copy> Tensor<T> {
    /// As many entries as the shape asks for, all of them addressable.
    pub open spec fn wf(self) -> bool {
        self@.wf()
    }

    /// A tensor of these entries.
    pub fn new(shape: Vec<usize>, data: Vec<T>) -> (tensor: Self)
        requires
            volume(shape@) == data@.len(),
        ensures
            tensor@ == (Grid { shape: shape@, data: data@ }),
            addressable(shape@) ==> tensor.wf(),
    {
        Tensor { shape, data }
    }

    /// A tensor whose every entry is `zero`.
    pub fn zeros(shape: Vec<usize>, zero: T) -> (tensor: Self)
        requires
            addressable(shape@),
        ensures
            tensor@.shape == shape@,
            tensor@.data == Seq::new(volume(shape@), |p: int| zero),
            tensor.wf(),
    {
        let count = product(shape.as_slice(), 0);
        proof {
            assert(shape@.skip(0) =~= shape@);
        }
        let mut data: Vec<T> = Vec::with_capacity(count);
        let mut filled: usize = 0;
        while filled < count
            invariant
                filled <= count,
                data@ == Seq::new(filled as nat, |p: int| zero),
            decreases count - filled,
        {
            data.push(zero);
            filled = filled + 1;
        }
        Tensor { shape, data }
    }

    /// The number of entries.
    pub fn numel(&self) -> (count: usize)
        ensures
            count == self@.data.len(),
    {
        self.data.len()
    }

    /// The number of axes.
    pub fn rank(&self) -> (count: usize)
        ensures
            count == self@.shape.len(),
    {
        self.shape.len()
    }

    /// The extent of an axis.
    pub fn dim(&self, axis: usize) -> (extent: usize)
        requires
            axis < self@.shape.len(),
        ensures
            extent == self@.shape[axis as int],
    {
        self.shape[axis]
    }

    /// Row-major flat index. The last axis is contiguous.
    pub fn flat(&self, index: &[usize]) -> (offset: usize)
        requires
            self.wf(),
            in_range(self@.shape, index@),
        ensures
            offset == position(self@.shape, index@),
            offset < self@.data.len(),
    {
        let mut offset: usize = 0;
        let mut axis: usize = 0;
        while axis < self.shape.len()
            invariant
                axis <= self.shape@.len(),
                self.wf(),
                in_range(self@.shape, index@),
                offset == position(self@.shape.take(axis as int), index@.take(axis as int)),
                axis > 0 ==> offset < volume(self@.shape.take(axis as int)),
                axis == 0 ==> offset == 0,
            decreases self.shape@.len() - axis,
        {
            proof {
                let shape = self@.shape;
                let next = axis + 1;
                lemma_take_next(shape, axis as int);
                assert(index@.take(next as int).drop_last() =~= index@.take(axis as int));
                assert(index@.take(next as int).last() == index@[axis as int]);
                lemma_volume_bound(shape.take(next as int));
                lemma_span_take(shape, next as int);
                lemma_volume_zero();
                assert(shape.take(0) =~= Seq::<usize>::empty());
                let n0 = volume(shape.take(axis as int)) as int;
                let n1 = shape[axis as int] as int;
                crate::index::lemma_join2(n0, n1, offset as int, index@[axis as int] as int);
            }
            offset = offset * self.shape[axis] + index[axis];
            axis = axis + 1;
        }
        proof {
            assert(self@.shape.take(axis as int) =~= self@.shape);
            assert(index@.take(axis as int) =~= index@);
            assert(self@.shape.len() == 0 ==> volume(self@.shape) == 1);
        }
        offset
    }

    /// The entry at an index.
    pub fn at(&self, index: &[usize]) -> (value: T)
        requires
            self.wf(),
            in_range(self@.shape, index@),
        ensures
            value == self@.data[position(self@.shape, index@) as int],
    {
        self.data[self.flat(index)]
    }

    /// Replaces the entry at an index.
    pub fn set(&mut self, index: &[usize], value: T)
        requires
            old(self).wf(),
            in_range(old(self)@.shape, index@),
        ensures
            final(self)@.shape == old(self)@.shape,
            final(self)@.data == old(self)@.data.update(
                position(old(self)@.shape, index@) as int,
                value,
            ),
            final(self).wf(),
    {
        let flat = self.flat(index);
        self.data.set(flat, value);
    }
}

/// The product of the extents of a shape from an axis on.
pub fn product(shape: &[usize], from: usize) -> (count: usize)
    requires
        from <= shape@.len(),
        addressable(shape@),
    ensures
        count == volume(shape@.skip(from as int)),
        count <= span(shape@),
{
    let mut count: usize = 1;
    let mut axis: usize = from;
    let ghost tail = shape@.skip(from as int);
    proof {
        lemma_volume_zero();
        assert(tail.take(0) =~= Seq::<usize>::empty());
        lemma_span_split(shape@, from as int);
        lemma_span_positive(shape@.take(from as int));
        assert(span(tail) <= span(shape@)) by (nonlinear_arith)
            requires
                span(shape@) == span(shape@.take(from as int)) * span(tail),
                span(shape@.take(from as int)) >= 1,
        ;
    }
    while axis < shape.len()
        invariant
            from <= axis <= shape@.len(),
            tail == shape@.skip(from as int),
            span(tail) <= usize::MAX,
            count == volume(tail.take(axis - from)),
        decreases shape@.len() - axis,
    {
        proof {
            lemma_take_next(tail, axis - from);
            lemma_volume_bound(tail.take(axis - from + 1));
            lemma_span_take(tail, axis - from + 1);
        }
        count = count * shape[axis];
        axis = axis + 1;
    }
    proof {
        assert(tail.take(axis - from) =~= tail);
        lemma_volume_bound(tail);
    }
    count
}

/// Whether the product of any of the extents of a shape fits in `usize`.
pub fn is_addressable(shape: &[usize]) -> (fits: bool)
    ensures
        fits == addressable(shape@),
{
    let mut count: usize = 1;
    let mut axis: usize = 0;
    proof {
        lemma_volume_zero();
        assert(shape@.take(0) =~= Seq::<usize>::empty());
    }
    while axis < shape.len()
        invariant
            axis <= shape@.len(),
            count == span(shape@.take(axis as int)),
        decreases shape@.len() - axis,
    {
        proof {
            lemma_take_next(shape@, axis as int);
            lemma_span_take(shape@, axis + 1);
        }
        if shape[axis] > 0 {
            match count.checked_mul(shape[axis]) {
                Some(product) => {
                    count = product;
                },
                None => return false,
            }
        }
        axis = axis + 1;
    }
    proof {
        assert(shape@.take(axis as int) =~= shape@);
    }
    true
}

/// Whether a tensor of this shape has any entry.
pub fn has_entries(shape: &[usize]) -> (some: bool)
    ensures
        some == (volume(shape@) > 0),
{
    let mut some = true;
    let mut axis: usize = 0;
    proof {
        lemma_volume_zero();
        assert(shape@.take(0) =~= Seq::<usize>::empty());
    }
    while axis < shape.len()
        invariant
            axis <= shape@.len(),
            some == (volume(shape@.take(axis as int)) > 0),
        decreases shape@.len() - axis,
    {
        proof {
            lemma_take_next(shape@, axis as int);
            let a = volume(shape@.take(axis as int));
            let b = shape@[axis as int] as nat;
            assert(a * b > 0 <==> a > 0 && b > 0) by (nonlinear_arith);
        }
        some = some && shape[axis] > 0;
        axis = axis + 1;
    }
    proof {
        assert(shape@.take(axis as int) =~= shape@);
    }
    some
}

/// Whether two shapes are the same.
pub fn same_shape(a: &[usize], b: &[usize]) -> (same: bool)
    ensures
        same == (a@ == b@),
{
    if a.len() != b.len() {
        return false;
    }
    let mut axis: usize = 0;
    while axis < a.len()
        invariant
            a@.len() == b@.len(),
            axis <= a@.len(),
            forall|i: int| 0 <= i < axis ==> a@[i] == b@[i],
        decreases a@.len() - axis,
    {
        if a[axis] != b[axis] {
            return false;
        }
        axis = axis + 1;
    }
    proof {
        assert(a@ =~= b@);
    }
    true
}

/// The product of two counts, where it fits.
pub fn product2(a: usize, b: usize) -> (count: Option<usize>)
    ensures
        match count {
            Some(count) => count == a * b,
            None => a * b > usize::MAX,
        },
{
    a.checked_mul(b)
}

/// The product of three counts, where it fits.
pub fn product3(a: usize, b: usize, c: usize) -> (count: Option<usize>)
    ensures
        match count {
            Some(count) => count == a * b * c,
            None => a * b * c > usize::MAX,
        },
{
    if a == 0 || b == 0 || c == 0 {
        proof {
            assert(a * b * c == 0) by (nonlinear_arith)
                requires
                    a == 0 || b == 0 || c == 0,
            ;
        }
        return Some(0);
    }
    proof {
        assert(a * b <= a * b * c) by (nonlinear_arith)
            requires
                a >= 0,
                b >= 0,
                c >= 1,
        ;
    }
    match a.checked_mul(b) {
        Some(product) => product.checked_mul(c),
        None => None,
    }
}

proof fn lemma_volume_zero()
    ensures
        volume(Seq::<usize>::empty()) == 1,
        span(Seq::<usize>::empty()) == 1,
{
}

proof fn lemma_take_next(shape: Seq<usize>, axis: int)
    requires
        0 <= axis < shape.len(),
    ensures
        volume(shape.take(axis + 1)) == volume(shape.take(axis)) * (shape[axis] as nat),
        span(shape.take(axis + 1)) == span(shape.take(axis)) * at_least_one(shape[axis]),
        shape.take(axis + 1).drop_last() == shape.take(axis),
        shape.take(axis + 1).last() == shape[axis],
{
    assert(shape.take(axis + 1).drop_last() =~= shape.take(axis));
}

proof fn lemma_span_positive(shape: Seq<usize>)
    ensures
        span(shape) >= 1,
    decreases shape.len(),
{
    if shape.len() > 0 {
        lemma_span_positive(shape.drop_last());
        let a = span(shape.drop_last());
        let b = at_least_one(shape.last());
        assert(a * b >= 1) by (nonlinear_arith)
            requires
                a >= 1,
                b >= 1,
        ;
    }
}

/// The volume of a shape is at most its span.
pub proof fn lemma_volume_bound(shape: Seq<usize>)
    ensures
        volume(shape) <= span(shape),
    decreases shape.len(),
{
    if shape.len() > 0 {
        lemma_volume_bound(shape.drop_last());
        lemma_span_positive(shape.drop_last());
        let a = volume(shape.drop_last());
        let b = span(shape.drop_last());
        let c = shape.last() as nat;
        let d = at_least_one(shape.last());
        assert(a * c <= b * d) by (nonlinear_arith)
            requires
                a <= b,
                c <= d,
        ;
    }
}

/// The span of the leading axes is at most the span of the shape.
pub proof fn lemma_span_take(shape: Seq<usize>, count: int)
    requires
        0 <= count <= shape.len(),
    ensures
        span(shape.take(count)) <= span(shape),
    decreases shape.len() - count,
{
    if count == shape.len() {
        assert(shape.take(count) =~= shape);
    } else {
        lemma_span_take(shape, count + 1);
        lemma_take_next(shape, count);
        let a = span(shape.take(count));
        let b = at_least_one(shape[count]);
        assert(a <= a * b) by (nonlinear_arith)
            requires
                b >= 1,
        ;
    }
}

/// The span is the span of the leading axes times that of the rest.
pub proof fn lemma_span_split(shape: Seq<usize>, count: int)
    requires
        0 <= count <= shape.len(),
    ensures
        span(shape) == span(shape.take(count)) * span(shape.skip(count)),
    decreases shape.len() - count,
{
    if count == shape.len() {
        assert(shape.take(count) =~= shape);
        assert(shape.skip(count) =~= Seq::<usize>::empty());
        lemma_volume_zero();
    } else {
        assert(shape.drop_last().take(count) =~= shape.take(count));
        assert(shape.drop_last().skip(count) =~= shape.skip(count).drop_last());
        lemma_span_split(shape.drop_last(), count);
        assert(shape.skip(count).last() == shape.last());
        lemma_mul_is_associative(
            span(shape.take(count)) as int,
            span(shape.skip(count).drop_last()) as int,
            at_least_one(shape.last()) as int,
        );
    }
}

/// The volume is the volume of the leading axes times that of the rest.
pub proof fn lemma_volume_split(shape: Seq<usize>, count: int)
    requires
        0 <= count <= shape.len(),
    ensures
        volume(shape) == volume(shape.take(count)) * volume(shape.skip(count)),
    decreases shape.len() - count,
{
    if count == shape.len() {
        assert(shape.take(count) =~= shape);
        assert(shape.skip(count) =~= Seq::<usize>::empty());
        lemma_volume_zero();
    } else {
        assert(shape.drop_last().take(count) =~= shape.take(count));
        assert(shape.drop_last().skip(count) =~= shape.skip(count).drop_last());
        lemma_volume_split(shape.drop_last(), count);
        assert(shape.skip(count).last() == shape.last());
        lemma_mul_is_associative(
            volume(shape.take(count)) as int,
            volume(shape.skip(count).drop_last()) as int,
            shape.last() as int,
        );
    }
}

/// Two axes: the volume is their product, and so is the span, up to zeros.
pub proof fn lemma_rank2(shape: Seq<usize>)
    requires
        shape.len() == 2,
    ensures
        volume(shape) == shape[0] * shape[1],
        span(shape) == at_least_one(shape[0]) * at_least_one(shape[1]),
{
    reveal_with_fuel(volume, 3);
    reveal_with_fuel(span, 3);
}

/// Three axes: the volume and the span as products.
pub proof fn lemma_rank3(shape: Seq<usize>)
    requires
        shape.len() == 3,
    ensures
        volume(shape) == shape[0] * shape[1] * shape[2],
        span(shape) == at_least_one(shape[0]) * at_least_one(shape[1]) * at_least_one(shape[2]),
        shape[0] * shape[1] <= span(shape),
        shape[0] * shape[2] <= span(shape),
        shape[1] * shape[2] <= span(shape),
        shape[0] * shape[1] * shape[2] <= span(shape),
{
    reveal_with_fuel(volume, 4);
    reveal_with_fuel(span, 4);
    let (a, b, c) = (shape[0] as int, shape[1] as int, shape[2] as int);
    let (u, v, w) = (
        at_least_one(shape[0]) as int,
        at_least_one(shape[1]) as int,
        at_least_one(shape[2]) as int,
    );
    assert(volume(shape) == a * b * c);
    assert(span(shape) == u * v * w);
    lemma_products3(a, b, c, u, v, w);
}

proof fn lemma_products3(a: int, b: int, c: int, u: int, v: int, w: int)
    requires
        0 <= a <= u,
        0 <= b <= v,
        0 <= c <= w,
        1 <= u,
        1 <= v,
        1 <= w,
    ensures
        a * b <= u * v * w,
        a * c <= u * v * w,
        b * c <= u * v * w,
        a * b * c <= u * v * w,
        0 <= a * b,
        0 <= a * b * c,
{
    assert(0 <= a * b <= u * v) by (nonlinear_arith)
        requires
            0 <= a <= u,
            0 <= b <= v,
    ;
    assert(0 <= a * c <= u * w) by (nonlinear_arith)
        requires
            0 <= a <= u,
            0 <= c <= w,
    ;
    assert(0 <= b * c <= v * w) by (nonlinear_arith)
        requires
            0 <= b <= v,
            0 <= c <= w,
    ;
    assert(u * v <= u * v * w) by (nonlinear_arith)
        requires
            0 <= u * v,
            1 <= w,
    ;
    assert(u * w <= u * v * w) by (nonlinear_arith)
        requires
            0 <= u * w,
            1 <= v,
    ;
    assert(v * w <= u * v * w) by (nonlinear_arith)
        requires
            0 <= v * w,
            1 <= u,
    ;
    assert(0 <= a * b * c <= u * v * w) by (nonlinear_arith)
        requires
            0 <= a * b <= u * v,
            0 <= c <= w,
    ;
}

/// Four axes: the volume and the span as products.
pub proof fn lemma_rank4(shape: Seq<usize>)
    requires
        shape.len() == 4,
    ensures
        volume(shape) == shape[0] * shape[1] * shape[2] * shape[3],
        span(shape) == at_least_one(shape[0]) * at_least_one(shape[1]) * at_least_one(shape[2])
            * at_least_one(shape[3]),
        shape[0] * shape[1] <= span(shape),
        shape[0] * shape[2] <= span(shape),
        shape[1] * shape[2] <= span(shape),
        shape[2] * shape[3] <= span(shape),
        shape[0] * shape[1] * shape[2] <= span(shape),
        shape[0] * shape[1] * shape[2] * shape[3] <= span(shape),
{
    reveal_with_fuel(volume, 5);
    reveal_with_fuel(span, 5);
    let (a, b, c, d) = (shape[0] as int, shape[1] as int, shape[2] as int, shape[3] as int);
    let (u, v, w, x) = (
        at_least_one(shape[0]) as int,
        at_least_one(shape[1]) as int,
        at_least_one(shape[2]) as int,
        at_least_one(shape[3]) as int,
    );
    assert(volume(shape) == a * b * c * d);
    assert(span(shape) == u * v * w * x);
    lemma_products3(a, b, c, u, v, w);
    assert(0 <= c * d <= w * x) by (nonlinear_arith)
        requires
            0 <= c <= w,
            0 <= d <= x,
    ;
    assert(u * v * w <= u * v * w * x && u * v * w * x == (u * v) * (w * x)) by (nonlinear_arith)
        requires
            0 <= u * v * w,
            1 <= x,
    ;
    assert(1 <= u * v) by (nonlinear_arith)
        requires
            1 <= u,
            1 <= v,
    ;
    assert(w * x <= (u * v) * (w * x)) by (nonlinear_arith)
        requires
            1 <= u * v,
            0 <= w * x,
    ;
    assert(a * b * c * d <= u * v * w * x) by (nonlinear_arith)
        requires
            0 <= a * b * c <= u * v * w,
            0 <= d <= x,
    ;
}

/// The first two axes apart from the rest.
pub proof fn lemma_front2(shape: Seq<usize>)
    requires
        shape.len() >= 2,
    ensures
        volume(shape) == shape[0] * shape[1] * volume(shape.skip(2)),
        span(shape) == at_least_one(shape[0]) * at_least_one(shape[1]) * span(shape.skip(2)),
        volume(shape.skip(2)) <= span(shape.skip(2)),
        span(shape.skip(2)) >= 1,
        shape[0] * shape[1] <= span(shape),
        shape[1] * volume(shape.skip(2)) <= span(shape),
        shape[0] * shape[1] * volume(shape.skip(2)) <= span(shape),
{
    lemma_volume_split(shape, 2);
    lemma_span_split(shape, 2);
    lemma_rank2(shape.take(2));
    lemma_volume_bound(shape.skip(2));
    lemma_span_positive(shape.skip(2));
    lemma_products3(
        shape[0] as int,
        shape[1] as int,
        volume(shape.skip(2)) as int,
        at_least_one(shape[0]) as int,
        at_least_one(shape[1]) as int,
        span(shape.skip(2)) as int,
    );
}

/// The last axis apart from the rest.
pub proof fn lemma_back1(shape: Seq<usize>)
    requires
        shape.len() >= 1,
    ensures
        volume(shape) == volume(shape.drop_last()) * (shape.last() as nat),
        span(shape) == span(shape.drop_last()) * at_least_one(shape.last()),
        volume(shape.drop_last()) <= span(shape.drop_last()) <= span(shape),
        span(shape.drop_last()) >= 1,
{
    lemma_volume_bound(shape.drop_last());
    lemma_span_positive(shape.drop_last());
    let a = span(shape.drop_last());
    let b = at_least_one(shape.last());
    assert(a <= a * b) by (nonlinear_arith)
        requires
            b >= 1,
    ;
}

/// Distinct indices lie at distinct positions, all of them among the entries.
pub proof fn law_positions_are_distinct(shape: Seq<usize>, a: Seq<usize>, b: Seq<usize>)
    requires
        in_range(shape, a),
        in_range(shape, b),
    ensures
        position(shape, a) < volume(shape),
        position(shape, b) < volume(shape),
        position(shape, a) == position(shape, b) <==> a == b,
    decreases shape.len(),
{
    if shape.len() == 0 {
        assert(a =~= b);
    } else {
        let front = shape.drop_last();
        assert(in_range(front, a.drop_last())) by {
            assert forall|axis: int| 0 <= axis < front.len() implies a.drop_last()[axis]
                < front[axis] by {
                assert(a[axis] < shape[axis]);
            }
        }
        assert(in_range(front, b.drop_last())) by {
            assert forall|axis: int| 0 <= axis < front.len() implies b.drop_last()[axis]
                < front[axis] by {
                assert(b[axis] < shape[axis]);
            }
        }
        law_positions_are_distinct(front, a.drop_last(), b.drop_last());
        let n0 = volume(front) as int;
        let n1 = shape.last() as int;
        assert(a.last() < n1 && b.last() < n1);
        crate::index::lemma_join2(n0, n1, position(front, a.drop_last()) as int, a.last() as int);
        crate::index::lemma_join2(n0, n1, position(front, b.drop_last()) as int, b.last() as int);
        if position(shape, a) == position(shape, b) {
            assert(a =~= a.drop_last().push(a.last()));
            assert(b =~= b.drop_last().push(b.last()));
        }
    }
}

/// What was set is read back, and every other entry is as it was.
pub proof fn law_setting_changes_one_entry<T>(
    before: Grid<T>,
    index: Seq<usize>,
    value: T,
    other: Seq<usize>,
)
    requires
        before.wf(),
        in_range(before.shape, index),
        in_range(before.shape, other),
    ensures
        before.data.update(position(before.shape, index) as int, value)[position(
            before.shape,
            other,
        ) as int] == if other == index {
            value
        } else {
            before.data[position(before.shape, other) as int]
        },
{
    law_positions_are_distinct(before.shape, index, other);
}

} // verus!
