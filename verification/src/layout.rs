//! Moving entries between layouts.
//!
//! Nothing here computes: every entry of a result is an entry of the input, or
//! a zero that pads it.

use vstd::prelude::*;

use crate::index::{
    at3, at4, lemma_extent, lemma_join2, lemma_join3, lemma_join4, lemma_split3, lemma_split4,
    table3, table4,
};
use crate::tensor::{
    addressable, at_least_one, is_addressable, lemma_rank3, lemma_rank4, span, Grid, Tensor,
};

verus! {

/// `[B, X, Y, T]` as `[B, Y, X, T]`.
pub open spec fn permuted<T>(x: Grid<T>) -> Grid<T> {
    let (m, n, t) = (x.shape[1] as int, x.shape[2] as int, x.shape[3] as int);
    Grid {
        shape: seq![x.shape[0], x.shape[2], x.shape[1], x.shape[3]],
        data: table4(
            x.shape[0] as int,
            n,
            m,
            t,
            |b: int, j: int, i: int, k: int| at4(x.data, m, n, t, b, i, j, k),
        ),
    }
}

/// Swaps the second and the third axis of four.
pub fn permute_0213<T: Copy>(x: &Tensor<T>) -> (out: Tensor<T>)
    requires
        x.wf(),
        x@.shape.len() == 4,
    ensures
        out@ == permuted(x@),
        out.wf(),
{
    let batch = x.shape[0];
    let m = x.shape[1];
    let n = x.shape[2];
    let t = x.shape[3];
    proof {
        lemma_rank4(x@.shape);
        lemma_permuted_shape(x@.shape);
        lemma_rank4(permuted(x@).shape);
        lemma_extent(batch as int, n as int);
        lemma_extent(batch * n, m as int);
    }
    let count = batch * n * m * t;
    let mut data: Vec<T> = Vec::new();
    while data.len() < count
        invariant
            x@.data.len() == batch * m * n * t <= usize::MAX,
            batch * m <= usize::MAX,
            batch * m * n <= usize::MAX,
            count == batch * n * m * t,
            data@.len() <= count,
            forall|p: int|
                0 <= p < data@.len() ==> #[trigger] data@[p] == at4(
                    x@.data,
                    m as int,
                    n as int,
                    t as int,
                    p / t as int / m as int / n as int,
                    p / t as int % m as int,
                    p / t as int / m as int % n as int,
                    p % t as int,
                ),
        decreases count - data@.len(),
    {
        let position = data.len();
        proof {
            lemma_split4(batch as int, n as int, m as int, t as int, position as int);
        }
        let b = position / t / m / n;
        let j = position / t / m % n;
        let i = position / t % m;
        let k = position % t;
        proof {
            lemma_join4(
                batch as int,
                m as int,
                n as int,
                t as int,
                b as int,
                i as int,
                j as int,
                k as int,
            );
        }
        data.push(x.data[((b * m + i) * n + j) * t + k]);
    }
    proof {
        assert(data@ =~= permuted(x@).data);
    }
    let out = Tensor { shape: vec![batch, n, m, t], data };
    proof {
        assert(out@.shape =~= permuted(x@).shape);
    }
    out
}

/// Swapping axes changes neither span nor volume.
proof fn lemma_permuted_shape(shape: Seq<usize>)
    requires
        shape.len() == 4,
    ensures
        span(seq![shape[0], shape[2], shape[1], shape[3]]) == span(shape),
{
    let other = seq![shape[0], shape[2], shape[1], shape[3]];
    lemma_rank4(shape);
    lemma_rank4(other);
    let (a, b, c, d) = (
        at_least_one(shape[0]),
        at_least_one(shape[1]),
        at_least_one(shape[2]),
        at_least_one(shape[3]),
    );
    assert(a * b * c == a * c * b) by (nonlinear_arith);
}

/// Swapping the axes back gives the tensor back.
pub proof fn law_permuting_twice_changes_nothing<T>(x: Grid<T>)
    requires
        x.wf(),
        x.shape.len() == 4,
    ensures
        permuted(permuted(x)) == x,
{
    let (m, n, t) = (x.shape[1] as int, x.shape[2] as int, x.shape[3] as int);
    let batch = x.shape[0] as int;
    let once = permuted(x);
    let twice = permuted(once);
    lemma_rank4(x.shape);
    assert forall|p: int| 0 <= p < x.data.len() implies #[trigger] twice.data[p] == x.data[p] by {
        lemma_split4(batch, m, n, t, p);
        let (b, i, j, k) = (p / t / n / m, p / t / n % m, p / t % n, p % t);
        lemma_join4(batch, n, m, t, b, j, i, k);
    }
    assert(twice.shape =~= x.shape);
    assert(twice.data =~= x.data);
}

/// `[B, C, T]` with `right` entries of `zero` after each row.
pub open spec fn padded_right<T>(x: Grid<T>, right: usize, zero: T) -> Grid<T> {
    let (c, t) = (x.shape[1] as int, x.shape[2] as int);
    Grid {
        shape: seq![x.shape[0], x.shape[1], (x.shape[2] + right) as usize],
        data: table3(
            x.shape[0] as int,
            c,
            t + right,
            |b: int, i: int, k: int|
                if k < t {
                    at3(x.data, c, t, b, i, k)
                } else {
                    zero
                },
        ),
    }
}

/// Pads the time axis of `[B, C, T]` on the right.
pub fn pad_time<T: Copy>(x: &Tensor<T>, right: usize, zero: T) -> (out: Tensor<T>)
    requires
        x.wf(),
        x@.shape.len() == 3,
        x@.shape[2] + right <= usize::MAX,
        addressable(padded_right(x@, right, zero).shape),
    ensures
        out@ == padded_right(x@, right, zero),
        out.wf(),
{
    let batch = x.shape[0];
    let c = x.shape[1];
    let t = x.shape[2];
    let width = t + right;
    proof {
        lemma_rank3(x@.shape);
        lemma_rank3(padded_right(x@, right, zero).shape);
        lemma_extent(batch as int, c as int);
    }
    let count = batch * c * width;
    let mut data: Vec<T> = Vec::new();
    while data.len() < count
        invariant
            x@.data.len() == batch * c * t <= usize::MAX,
            batch * c <= usize::MAX,
            width == t + right,
            count == batch * c * width,
            data@.len() <= count,
            forall|p: int|
                0 <= p < data@.len() ==> #[trigger] data@[p] == if (p % width as int) < t {
                    at3(
                        x@.data,
                        c as int,
                        t as int,
                        p / width as int / c as int,
                        p / width as int % c as int,
                        p % width as int,
                    )
                } else {
                    zero
                },
        decreases count - data@.len(),
    {
        let position = data.len();
        proof {
            lemma_split3(batch as int, c as int, width as int, position as int);
        }
        let b = position / width / c;
        let i = position / width % c;
        let k = position % width;
        if k < t {
            proof {
                lemma_join3(batch as int, c as int, t as int, b as int, i as int, k as int);
            }
            data.push(x.data[(b * c + i) * t + k]);
        } else {
            data.push(zero);
        }
    }
    proof {
        assert(data@ =~= padded_right(x@, right, zero).data);
    }
    let out = Tensor { shape: vec![batch, c, width], data };
    proof {
        assert(out@.shape =~= padded_right(x@, right, zero).shape);
    }
    out
}

/// `[B, C, T]` with `length` entries of each row from `pad` on.
pub open spec fn cropped_time<T>(x: Grid<T>, pad: usize, length: usize) -> Grid<T> {
    let (c, t) = (x.shape[1] as int, x.shape[2] as int);
    Grid {
        shape: seq![x.shape[0], x.shape[1], length],
        data: table3(
            x.shape[0] as int,
            c,
            length as int,
            |b: int, i: int, k: int| at3(x.data, c, t, b, i, k + pad),
        ),
    }
}

/// Whether rows of this shape can be cropped so.
pub open spec fn crops_time(shape: Seq<usize>, pad: usize, length: usize) -> bool {
    &&& shape.len() == 3
    &&& shape[0] > 0 && shape[1] > 0 ==> pad + length <= shape[2]
    &&& addressable(seq![shape[0], shape[1], length])
}

/// Whether rows of this shape can be cropped so.
pub fn can_crop_time(shape: &[usize], pad: usize, length: usize) -> (can: bool)
    ensures
        can == crops_time(shape@, pad, length),
{
    if shape.len() != 3 {
        return false;
    }
    if shape[0] > 0 && shape[1] > 0 && (pad > shape[2] || length > shape[2] - pad) {
        return false;
    }
    let out = vec![shape[0], shape[1], length];
    proof {
        assert(out@ =~= seq![shape@[0], shape@[1], length]);
    }
    is_addressable(out.as_slice())
}

/// Keeps `length` entries of each row of `[B, C, T]`, from `pad` on.
pub fn crop_time<T: Copy>(x: &Tensor<T>, pad: usize, length: usize) -> (out: Tensor<T>)
    requires
        x.wf(),
        crops_time(x@.shape, pad, length),
    ensures
        out@ == cropped_time(x@, pad, length),
        out.wf(),
{
    let batch = x.shape[0];
    let c = x.shape[1];
    let t = x.shape[2];
    proof {
        lemma_rank3(x@.shape);
        lemma_rank3(cropped_time(x@, pad, length).shape);
        lemma_extent(batch as int, c as int);
    }
    let count = batch * c * length;
    let mut data: Vec<T> = Vec::new();
    while data.len() < count
        invariant
            x@.data.len() == batch * c * t <= usize::MAX,
            batch * c <= usize::MAX,
            batch > 0 && c > 0 ==> pad + length <= t,
            count == batch * c * length,
            data@.len() <= count,
            forall|p: int|
                0 <= p < data@.len() ==> #[trigger] data@[p] == at3(
                    x@.data,
                    c as int,
                    t as int,
                    p / length as int / c as int,
                    p / length as int % c as int,
                    p % length as int + pad,
                ),
        decreases count - data@.len(),
    {
        let position = data.len();
        proof {
            lemma_split3(batch as int, c as int, length as int, position as int);
        }
        let b = position / length / c;
        let i = position / length % c;
        let k = position % length;
        proof {
            lemma_join3(batch as int, c as int, t as int, b as int, i as int, k + pad);
        }
        data.push(x.data[(b * c + i) * t + (k + pad)]);
    }
    proof {
        assert(data@ =~= cropped_time(x@, pad, length).data);
    }
    let out = Tensor { shape: vec![batch, c, length], data };
    proof {
        assert(out@.shape =~= cropped_time(x@, pad, length).shape);
    }
    out
}

/// What padding on the right adds, cropping takes away.
pub proof fn law_cropping_undoes_padding<T>(x: Grid<T>, right: usize, zero: T)
    requires
        x.wf(),
        x.shape.len() == 3,
        x.shape[2] + right <= usize::MAX,
        addressable(padded_right(x, right, zero).shape),
    ensures
        cropped_time(padded_right(x, right, zero), 0, x.shape[2]) == x,
{
    let (batch, c, t) = (x.shape[0] as int, x.shape[1] as int, x.shape[2] as int);
    let longer = padded_right(x, right, zero);
    let back = cropped_time(longer, 0, x.shape[2]);
    lemma_rank3(x.shape);
    assert forall|p: int| 0 <= p < x.data.len() implies #[trigger] back.data[p] == x.data[p] by {
        lemma_split3(batch, c, t, p);
        lemma_join3(batch, c, t + right, p / t / c, p / t % c, p % t);
    }
    assert(back.shape =~= x.shape);
    assert(back.data =~= x.data);
}

/// `[B, C, H, W]` without the first and the last `pad` rows of each plane.
pub open spec fn cropped_frequency<T>(x: Grid<T>, pad: usize) -> Grid<T> {
    let (c, h, w) = (x.shape[1] as int, x.shape[2] as int, x.shape[3] as int);
    Grid {
        shape: seq![x.shape[0], x.shape[1], (h - 2 * pad) as usize, x.shape[3]],
        data: table4(
            x.shape[0] as int,
            c,
            h - 2 * pad,
            w,
            |b: int, i: int, j: int, k: int| at4(x.data, c, h, w, b, i, j + pad, k),
        ),
    }
}

/// Crops both ends of the third axis of `[B, C, H, W]`.
pub fn crop_frequency<T: Copy>(x: &Tensor<T>, pad: usize) -> (out: Tensor<T>)
    requires
        x.wf(),
        x@.shape.len() == 4,
        2 * pad <= x@.shape[2],
    ensures
        out@ == cropped_frequency(x@, pad),
        out.wf(),
{
    let batch = x.shape[0];
    let c = x.shape[1];
    let h = x.shape[2];
    let w = x.shape[3];
    let rows = h - 2 * pad;
    proof {
        let result = cropped_frequency(x@, pad);
        lemma_rank4(x@.shape);
        lemma_rank4(result.shape);
        lemma_shorter(
            at_least_one(x@.shape[0]) * at_least_one(x@.shape[1]),
            at_least_one(result.shape[2]),
            at_least_one(x@.shape[2]),
            at_least_one(x@.shape[3]),
        );
        lemma_extent(batch as int, c as int);
        lemma_extent(batch * c, rows as int);
    }
    let count = batch * c * rows * w;
    let mut data: Vec<T> = Vec::new();
    while data.len() < count
        invariant
            x@.data.len() == batch * c * h * w <= usize::MAX,
            batch * c <= usize::MAX,
            batch * c * h <= usize::MAX,
            rows == h - 2 * pad,
            count == batch * c * rows * w,
            data@.len() <= count,
            forall|p: int|
                0 <= p < data@.len() ==> #[trigger] data@[p] == at4(
                    x@.data,
                    c as int,
                    h as int,
                    w as int,
                    p / w as int / rows as int / c as int,
                    p / w as int / rows as int % c as int,
                    p / w as int % rows as int + pad,
                    p % w as int,
                ),
        decreases count - data@.len(),
    {
        let position = data.len();
        proof {
            lemma_split4(batch as int, c as int, rows as int, w as int, position as int);
        }
        let b = position / w / rows / c;
        let i = position / w / rows % c;
        let j = position / w % rows;
        let k = position % w;
        proof {
            lemma_join4(
                batch as int,
                c as int,
                h as int,
                w as int,
                b as int,
                i as int,
                j + pad,
                k as int,
            );
        }
        data.push(x.data[((b * c + i) * h + (j + pad)) * w + k]);
    }
    proof {
        assert(data@ =~= cropped_frequency(x@, pad).data);
    }
    let out = Tensor { shape: vec![batch, c, rows, w], data };
    proof {
        assert(out@.shape =~= cropped_frequency(x@, pad).shape);
    }
    out
}

proof fn lemma_shorter(front: nat, short: nat, long: nat, back: nat)
    requires
        short <= long,
    ensures
        front * short * back <= front * long * back,
{
    assert(front * short <= front * long) by (nonlinear_arith)
        requires
            short <= long,
    ;
    assert(front * short * back <= front * long * back) by (nonlinear_arith)
        requires
            front * short <= front * long,
    ;
}

/// `[B, C, Fr, T]` as `[B, T * Fr, C]`: token `t * Fr + fr`.
pub open spec fn arranged_freq<T>(x: Grid<T>) -> Grid<T> {
    let (c, f, t) = (x.shape[1] as int, x.shape[2] as int, x.shape[3] as int);
    Grid {
        shape: seq![x.shape[0], (t * f) as usize, x.shape[1]],
        data: table3(
            x.shape[0] as int,
            t * f,
            c,
            |b: int, token: int, i: int| at4(x.data, c, f, t, b, i, token % f, token / f),
        ),
    }
}

/// `[B, C, Fr, T] -> [B, T * Fr, C]`, token index `t * Fr + fr`.
pub fn arrange_freq<T: Copy>(x: &Tensor<T>) -> (out: Tensor<T>)
    requires
        x.wf(),
        x@.shape.len() == 4,
    ensures
        out@ == arranged_freq(x@),
        out.wf(),
{
    let batch = x.shape[0];
    let c = x.shape[1];
    let f = x.shape[2];
    let t = x.shape[3];
    proof {
        lemma_rank4(x@.shape);
        lemma_arranged_shape(x@.shape);
        lemma_rank3(arranged_freq(x@).shape);
        lemma_extent(t as int, f as int);
        assert(t * f == f * t) by (nonlinear_arith);
    }
    let tokens = t * f;
    proof {
        lemma_extent(batch as int, tokens as int);
    }
    let count = batch * tokens * c;
    let mut data: Vec<T> = Vec::new();
    while data.len() < count
        invariant
            x@.data.len() == batch * c * f * t <= usize::MAX,
            batch * c <= usize::MAX,
            batch * c * f <= usize::MAX,
            tokens == t * f,
            count == batch * tokens * c,
            data@.len() <= count,
            forall|p: int|
                0 <= p < data@.len() ==> #[trigger] data@[p] == at4(
                    x@.data,
                    c as int,
                    f as int,
                    t as int,
                    p / c as int / tokens as int,
                    p % c as int,
                    (p / c as int % tokens as int) % f as int,
                    (p / c as int % tokens as int) / f as int,
                ),
        decreases count - data@.len(),
    {
        let position = data.len();
        proof {
            lemma_split3(batch as int, tokens as int, c as int, position as int);
        }
        let b = position / c / tokens;
        let token = position / c % tokens;
        let i = position % c;
        proof {
            crate::index::lemma_split2(t as int, f as int, token as int);
            lemma_join4(
                batch as int,
                c as int,
                f as int,
                t as int,
                b as int,
                i as int,
                token as int % f as int,
                token as int / f as int,
            );
        }
        data.push(x.data[((b * c + i) * f + token % f) * t + token / f]);
    }
    proof {
        assert(data@ =~= arranged_freq(x@).data);
    }
    let out = Tensor { shape: vec![batch, tokens, c], data };
    proof {
        assert(out@.shape =~= arranged_freq(x@).shape);
    }
    out
}

/// Merging two axes keeps a shape addressable.
pub proof fn lemma_arranged_shape(shape: Seq<usize>)
    requires
        shape.len() == 4,
        addressable(shape),
    ensures
        shape[3] * shape[2] <= usize::MAX,
        span(seq![shape[0], (shape[3] * shape[2]) as usize, shape[1]]) <= span(shape),
{
    lemma_rank4(shape);
    let (a, b, c, d) = (
        at_least_one(shape[0]),
        at_least_one(shape[1]),
        at_least_one(shape[2]),
        at_least_one(shape[3]),
    );
    let merged = shape[3] * shape[2];
    assert(merged == shape[2] * shape[3]) by (nonlinear_arith)
        requires
            merged == shape[3] * shape[2],
    ;
    let other = seq![shape[0], merged as usize, shape[1]];
    lemma_rank3(other);
    let e = at_least_one(merged as usize);
    assert(e <= d * c) by (nonlinear_arith)
        requires
            merged == shape[3] * shape[2],
            shape[3] <= d,
            shape[2] <= c,
            d >= 1,
            c >= 1,
            e == if merged == 0 {
                1int
            } else {
                merged
            },
    ;
    assert(a * e * b <= a * b * c * d) by (nonlinear_arith)
        requires
            e <= d * c,
            0 <= a,
            0 <= b,
    ;
}

/// `[B, T * Fr, C]` as `[B, C, Fr, T]`.
pub open spec fn unarranged_freq<T>(
    tokens: Seq<T>,
    batch: usize,
    channels: usize,
    frequency: usize,
    time: usize,
) -> Grid<T> {
    let (c, f, t) = (channels as int, frequency as int, time as int);
    Grid {
        shape: seq![batch, channels, frequency, time],
        data: table4(
            batch as int,
            c,
            f,
            t,
            |b: int, i: int, j: int, k: int| at3(tokens, t * f, c, b, k * f + j, i),
        ),
    }
}

/// `[B, T * Fr, C] -> [B, C, Fr, T]`.
pub fn unarrange_freq<T: Copy>(
    tokens: &Tensor<T>,
    batch: usize,
    channels: usize,
    frequency: usize,
    time: usize,
) -> (out: Tensor<T>)
    requires
        addressable(seq![batch, channels, frequency, time]),
        batch * (time * frequency) * channels <= tokens@.data.len(),
    ensures
        out@ == unarranged_freq(tokens@.data, batch, channels, frequency, time),
        out.wf(),
{
    proof {
        let result = unarranged_freq(tokens@.data, batch, channels, frequency, time);
        lemma_rank4(result.shape);
        lemma_extent(batch as int, channels as int);
        lemma_extent(batch * channels, frequency as int);
        assert(tokens.data@.len() == tokens.data.len());
    }
    let count = batch * channels * frequency * time;
    let mut data: Vec<T> = Vec::new();
    while data.len() < count
        invariant
            batch * (time * frequency) * channels <= tokens@.data.len() <= usize::MAX,
            count == batch * channels * frequency * time,
            data@.len() <= count,
            forall|p: int|
                0 <= p < data@.len() ==> #[trigger] data@[p] == at3(
                    tokens@.data,
                    time * frequency,
                    channels as int,
                    p / time as int / frequency as int / channels as int,
                    (p % time as int) * frequency + (p / time as int % frequency as int),
                    p / time as int / frequency as int % channels as int,
                ),
        decreases count - data@.len(),
    {
        let position = data.len();
        proof {
            lemma_split4(
                batch as int,
                channels as int,
                frequency as int,
                time as int,
                position as int,
            );
        }
        let b = position / time / frequency / channels;
        let i = position / time / frequency % channels;
        let j = position / time % frequency;
        let k = position % time;
        proof {
            let all = time * frequency;
            lemma_join2(time as int, frequency as int, k as int, j as int);
            lemma_join3(batch as int, all, channels as int, b as int, k * frequency + j, i as int);
            assert(batch * all <= batch * all * channels) by (nonlinear_arith)
                requires
                    channels >= 1,
                    batch * all >= 0,
            ;
            assert(all <= batch * all) by (nonlinear_arith)
                requires
                    batch >= 1,
                    all >= 0,
            ;
        }
        data.push(tokens.data[(b * (time * frequency) + (k * frequency + j)) * channels + i]);
    }
    proof {
        assert(data@ =~= unarranged_freq(tokens@.data, batch, channels, frequency, time).data);
    }
    let out = Tensor { shape: vec![batch, channels, frequency, time], data };
    proof {
        assert(
            out@.shape =~= unarranged_freq(tokens@.data, batch, channels, frequency, time).shape
        );
    }
    out
}

/// Arranging tokens back gives the tensor back.
pub proof fn law_unarranging_frequency_undoes_arranging<T>(x: Grid<T>)
    requires
        x.wf(),
        x.shape.len() == 4,
    ensures
        unarranged_freq(
            arranged_freq(x).data,
            x.shape[0],
            x.shape[1],
            x.shape[2],
            x.shape[3],
        ) == x,
{
    let (c, f, t) = (x.shape[1] as int, x.shape[2] as int, x.shape[3] as int);
    let batch = x.shape[0] as int;
    let back = unarranged_freq(
        arranged_freq(x).data,
        x.shape[0],
        x.shape[1],
        x.shape[2],
        x.shape[3],
    );
    lemma_rank4(x.shape);
    assert forall|p: int| 0 <= p < x.data.len() implies #[trigger] back.data[p] == x.data[p] by {
        lemma_split4(batch, c, f, t, p);
        let (b, i, j, k) = (p / t / f / c, p / t / f % c, p / t % f, p % t);
        lemma_join2(t, f, k, j);
        lemma_join3(batch, t * f, c, b, k * f + j, i);
    }
    assert(back.shape =~= x.shape);
    assert(back.data =~= x.data);
}

/// `[B, C, T]` as `[B, T, C]`.
pub open spec fn arranged_time<T>(x: Grid<T>) -> Grid<T> {
    let (c, t) = (x.shape[1] as int, x.shape[2] as int);
    Grid {
        shape: seq![x.shape[0], x.shape[2], x.shape[1]],
        data: table3(
            x.shape[0] as int,
            t,
            c,
            |b: int, k: int, i: int| at3(x.data, c, t, b, i, k),
        ),
    }
}

/// `[B, C, T] -> [B, T, C]`.
pub fn arrange_time<T: Copy>(x: &Tensor<T>) -> (out: Tensor<T>)
    requires
        x.wf(),
        x@.shape.len() == 3,
    ensures
        out@ == arranged_time(x@),
        out.wf(),
{
    let batch = x.shape[0];
    let c = x.shape[1];
    let t = x.shape[2];
    proof {
        let result = arranged_time(x@);
        lemma_rank3(x@.shape);
        lemma_rank3(result.shape);
        let (u, v, w) = (
            at_least_one(x@.shape[0]),
            at_least_one(x@.shape[1]),
            at_least_one(x@.shape[2]),
        );
        assert(u * w * v == u * v * w) by (nonlinear_arith);
        lemma_extent(batch as int, t as int);
    }
    let count = batch * t * c;
    let mut data: Vec<T> = Vec::new();
    while data.len() < count
        invariant
            x@.data.len() == batch * c * t <= usize::MAX,
            batch * c <= usize::MAX,
            count == batch * t * c,
            data@.len() <= count,
            forall|p: int|
                0 <= p < data@.len() ==> #[trigger] data@[p] == at3(
                    x@.data,
                    c as int,
                    t as int,
                    p / c as int / t as int,
                    p % c as int,
                    p / c as int % t as int,
                ),
        decreases count - data@.len(),
    {
        let position = data.len();
        proof {
            lemma_split3(batch as int, t as int, c as int, position as int);
        }
        let b = position / c / t;
        let k = position / c % t;
        let i = position % c;
        proof {
            lemma_join3(batch as int, c as int, t as int, b as int, i as int, k as int);
        }
        data.push(x.data[(b * c + i) * t + k]);
    }
    proof {
        assert(data@ =~= arranged_time(x@).data);
    }
    let out = Tensor { shape: vec![batch, t, c], data };
    proof {
        assert(out@.shape =~= arranged_time(x@).shape);
    }
    out
}

/// `[B, T, C]` as `[B, C, T]`.
pub open spec fn unarranged_time<T>(
    tokens: Seq<T>,
    batch: usize,
    channels: usize,
    time: usize,
) -> Grid<T> {
    let (c, t) = (channels as int, time as int);
    Grid {
        shape: seq![batch, channels, time],
        data: table3(
            batch as int,
            c,
            t,
            |b: int, i: int, k: int| at3(tokens, t, c, b, k, i),
        ),
    }
}

/// `[B, T, C] -> [B, C, T]`.
pub fn unarrange_time<T: Copy>(
    tokens: &Tensor<T>,
    batch: usize,
    channels: usize,
    time: usize,
) -> (out: Tensor<T>)
    requires
        addressable(seq![batch, channels, time]),
        batch * time * channels <= tokens@.data.len(),
    ensures
        out@ == unarranged_time(tokens@.data, batch, channels, time),
        out.wf(),
{
    proof {
        let result = unarranged_time(tokens@.data, batch, channels, time);
        lemma_rank3(result.shape);
        lemma_extent(batch as int, channels as int);
        assert(tokens.data@.len() == tokens.data.len());
    }
    let count = batch * channels * time;
    let mut data: Vec<T> = Vec::new();
    while data.len() < count
        invariant
            batch * time * channels <= tokens@.data.len() <= usize::MAX,
            count == batch * channels * time,
            data@.len() <= count,
            forall|p: int|
                0 <= p < data@.len() ==> #[trigger] data@[p] == at3(
                    tokens@.data,
                    time as int,
                    channels as int,
                    p / time as int / channels as int,
                    p % time as int,
                    p / time as int % channels as int,
                ),
        decreases count - data@.len(),
    {
        let position = data.len();
        proof {
            lemma_split3(batch as int, channels as int, time as int, position as int);
        }
        let b = position / time / channels;
        let i = position / time % channels;
        let k = position % time;
        proof {
            lemma_join3(batch as int, time as int, channels as int, b as int, k as int, i as int);
            assert(batch * time <= batch * time * channels) by (nonlinear_arith)
                requires
                    channels >= 1,
                    batch * time >= 0,
            ;
        }
        data.push(tokens.data[(b * time + k) * channels + i]);
    }
    proof {
        assert(data@ =~= unarranged_time(tokens@.data, batch, channels, time).data);
    }
    let out = Tensor { shape: vec![batch, channels, time], data };
    proof {
        assert(out@.shape =~= unarranged_time(tokens@.data, batch, channels, time).shape);
    }
    out
}

/// Arranging tokens back gives the tensor back.
pub proof fn law_unarranging_time_undoes_arranging<T>(x: Grid<T>)
    requires
        x.wf(),
        x.shape.len() == 3,
    ensures
        unarranged_time(arranged_time(x).data, x.shape[0], x.shape[1], x.shape[2]) == x,
{
    let (batch, c, t) = (x.shape[0] as int, x.shape[1] as int, x.shape[2] as int);
    let back = unarranged_time(arranged_time(x).data, x.shape[0], x.shape[1], x.shape[2]);
    lemma_rank3(x.shape);
    assert forall|p: int| 0 <= p < x.data.len() implies #[trigger] back.data[p] == x.data[p] by {
        lemma_split3(batch, c, t, p);
        lemma_join3(batch, t, c, p / t / c, p % t, p / t % c);
    }
    assert(back.shape =~= x.shape);
    assert(back.data =~= x.data);
}

} // verus!
