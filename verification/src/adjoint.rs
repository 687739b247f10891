//! A transposed convolution is the adjoint of the convolution with the same
//! weight.

use vstd::prelude::*;

use crate::arithmetic::Arithmetic;
use crate::conv::{convolution, convolved, patch, patch_sum, reach, Window};
use crate::conv_transpose::{
    channel_sum, contribution, gathered, reached, reaches, transposed, transposition, Spread,
};
use crate::index::{
    at4, lemma_extent, lemma_join3, lemma_join4, lemma_split2, lemma_split3,
};
use crate::rings::{
    lemma_commute, lemma_regroup, lemma_total_alike, lemma_total_rows, lemma_total_swap,
    lemma_total_times, lemma_total_window, lemma_total_zero, lemma_zero, ring, total,
};
use crate::tensor::{lemma_rank4, Grid};

verus! {

/// The sum of the products of entries at the same position.
pub open spec fn dot<A: Arithmetic>(a: Seq<A::Real>, b: Seq<A::Real>) -> A::Real {
    total::<A>(a.len() as int, |p: int| A::times_spec(a[p], b[p]))
}

/// `n` zeros.
pub open spec fn zeros<A: Arithmetic>(n: nat) -> Seq<A::Real> {
    Seq::new(n, |i: int| A::zero_spec())
}

/// An input, an output, and the weight between them.
pub struct Duo<A: Arithmetic> {
    pub x: Grid<A::Real>,
    pub y: Grid<A::Real>,
    pub weight: Seq<A::Real>,
    pub kernel: (usize, usize),
    pub stride: (usize, usize),
}

impl<A: Arithmetic> Duo<A> {
    /// The kernel of the convolution: no margin, taps side by side.
    pub open spec fn window(self) -> Window {
        Window { kernel: self.kernel, stride: self.stride, pad: (0, 0), dilation: (1, 1) }
    }

    /// The kernel of the transposed convolution.
    pub open spec fn spread(self) -> Spread {
        Spread { kernel: self.kernel, stride: self.stride }
    }

    /// Input channels.
    pub open spec fn c(self) -> int {
        self.x.shape[1] as int
    }

    /// Input height.
    pub open spec fn h(self) -> int {
        self.x.shape[2] as int
    }

    /// Input width.
    pub open spec fn w(self) -> int {
        self.x.shape[3] as int
    }

    /// Output channels.
    pub open spec fn o(self) -> int {
        self.y.shape[1] as int
    }

    /// Output height.
    pub open spec fn oh(self) -> int {
        self.y.shape[2] as int
    }

    /// Output width.
    pub open spec fn ow(self) -> int {
        self.y.shape[3] as int
    }

    /// Taps of one output.
    pub open spec fn taps(self) -> int {
        self.window().columns(self.x.shape[1])
    }

    /// Whether the kernel's steps fill the input, and the output is of the
    /// convolution's shape.
    pub open spec fn wf(self) -> bool {
        &&& self.x.shape.len() == 4
        &&& self.y.shape.len() == 4
        &&& self.x.wf()
        &&& self.y.wf()
        &&& self.x.shape[0] == self.y.shape[0]
        &&& self.stride.0 >= 1
        &&& self.stride.1 >= 1
        &&& self.kernel.0 <= self.h()
        &&& self.kernel.1 <= self.w()
        &&& (self.h() - self.kernel.0) % self.stride.0 as int == 0
        &&& (self.w() - self.kernel.1) % self.stride.1 as int == 0
        &&& self.oh() == self.window().height(self.x.shape[2])
        &&& self.ow() == self.window().width(self.x.shape[3])
        &&& self.weight.len() == self.o() * self.taps()
    }

    /// An input entry times an output entry times the weight between them, if
    /// the output position reaches the input position.
    spec fn link(self, b: int, o: int, i: int, j: int, c: int, r: int, q: int) -> A::Real {
        if reached(self.spread(), i, j, r, q) {
            A::times_spec(
                at4(self.x.data, self.c(), self.h(), self.w(), b, c, r, q),
                A::times_spec(
                    at4(self.y.data, self.o(), self.oh(), self.ow(), b, o, i, j),
                    self.weight[o * self.taps() + ((c * self.kernel.0 + (r - i * self.stride.0))
                        * self.kernel.1 + (q - j * self.stride.1))],
                ),
            )
        } else {
            A::zero_spec()
        }
    }

    /// One product of the convolution's patch, times the output entry.
    spec fn tapped(self, b: int, o: int, i: int, j: int, tap: int) -> A::Real {
        A::times_spec(
            A::times_spec(
                patch::<A>(self.x, self.window(), b, i, j, tap),
                self.weight[o * self.taps() + tap],
            ),
            at4(self.y.data, self.o(), self.oh(), self.ow(), b, o, i, j),
        )
    }
}

/// The steps of a kernel without a margin.
proof fn lemma_steps_fill(extent: int, kernel: int, stride: int, count: int)
    requires
        0 <= kernel <= extent,
        stride >= 1,
        (extent - kernel) % stride == 0,
        count == crate::conv::steps(extent, kernel, stride, 0, 1),
    ensures
        count >= 1,
        (count - 1) * stride + kernel == extent,
        forall|i: int| 0 <= i < count ==> 0 <= #[trigger] (i * stride) && i * stride + kernel
            <= extent,
{
    assert(reach(kernel, 1) == kernel);
    let room = extent - kernel;
    vstd::arithmetic::div_mod::lemma_fundamental_div_mod(room, stride);
    vstd::arithmetic::div_mod::lemma_div_pos_is_pos(room, stride);
    assert((count - 1) * stride == stride * (room / stride)) by (nonlinear_arith)
        requires
            count - 1 == room / stride,
    ;
    assert forall|i: int| 0 <= i < count implies 0 <= #[trigger] (i * stride) && i * stride + kernel
        <= extent by {
        assert(0 <= i * stride <= (count - 1) * stride) by (nonlinear_arith)
            requires
                0 <= i <= count - 1,
                stride >= 1,
        ;
    }
}

proof fn lemma_patch_total<A: Arithmetic>(
    d: Duo<A>,
    b: int,
    o: int,
    i: int,
    j: int,
    taps: int,
)
    ensures
        patch_sum::<A>(d.x, d.weight, d.window(), b, o, i, j, taps) == total::<A>(
            taps,
            |tap: int|
                A::times_spec(
                    patch::<A>(d.x, d.window(), b, i, j, tap),
                    d.weight[o * d.taps() + tap],
                ),
        ),
    decreases taps,
{
    if taps > 0 {
        lemma_patch_total::<A>(d, b, o, i, j, taps - 1);
    }
}

/// One output of the convolution times its partner, as a sum over taps.
proof fn lemma_convolved_side<A: Arithmetic>(d: Duo<A>, b: int, o: int, i: int, j: int)
    requires
        ring::<A>(),
        0 <= o < d.o(),
    ensures
        A::times_spec(
            convolved::<A>(
                d.x,
                d.weight,
                zeros::<A>(d.o() as nat),
                d.window(),
                b,
                o,
                i,
                j,
            ),
            at4(d.y.data, d.o(), d.oh(), d.ow(), b, o, i, j),
        ) == total::<A>(d.taps(), |tap: int| d.tapped(b, o, i, j, tap)),
{
    let taps = d.taps();
    let terms = |tap: int|
        A::times_spec(
            patch::<A>(d.x, d.window(), b, i, j, tap),
            d.weight[o * d.taps() + tap],
        );
    lemma_patch_total::<A>(d, b, o, i, j, taps);
    let sum = patch_sum::<A>(d.x, d.weight, d.window(), b, o, i, j, taps);
    lemma_zero::<A>(sum);
    let partner = at4(d.y.data, d.o(), d.oh(), d.ow(), b, o, i, j);
    lemma_total_times::<A>(taps, terms, partner);
    lemma_total_alike::<A>(
        taps,
        |tap: int| A::times_spec(terms(tap), partner),
        |tap: int| d.tapped(b, o, i, j, tap),
    );
}

/// What the channels of a position give, as a sum.
proof fn lemma_channel_total<A: Arithmetic>(
    d: Duo<A>,
    b: int,
    i: int,
    j: int,
    slot: int,
    channels: int,
)
    ensures
        channel_sum::<A>(d.y, d.weight, d.taps(), b, i, j, slot, channels) == total::<A>(
            channels,
            |o: int|
                A::times_spec(
                    at4(d.y.data, d.o(), d.oh(), d.ow(), b, o, i, j),
                    d.weight[o * d.taps() + slot],
                ),
        ),
    decreases channels,
{
    if channels > 0 {
        lemma_channel_total::<A>(d, b, i, j, slot, channels - 1);
    }
}

/// What position `place` of the output gives to an input entry, times it.
spec fn given<A: Arithmetic>(d: Duo<A>, b: int, c: int, r: int, q: int, place: int) -> A::Real {
    total::<A>(
        d.o(),
        |o: int| d.link(b, o, place / d.ow(), place % d.ow(), c, r, q),
    )
}

proof fn lemma_given<A: Arithmetic>(d: Duo<A>, b: int, c: int, r: int, q: int, place: int)
    requires
        ring::<A>(),
        d.wf(),
        reached(d.spread(), place / d.ow(), place % d.ow(), r, q),
    ensures
        A::times_spec(
            at4(d.x.data, d.c(), d.h(), d.w(), b, c, r, q),
            contribution::<A>(
                d.y,
                d.weight,
                d.x.shape[1],
                d.spread(),
                b,
                c,
                r,
                q,
                place / d.ow(),
                place % d.ow(),
            ),
        ) == given::<A>(d, b, c, r, q, place),
{
    let (i, j) = (place / d.ow(), place % d.ow());
    let slot = (c * d.kernel.0 + (r - i * d.stride.0)) * d.kernel.1 + (q - j * d.stride.1);
    let entry = at4(d.x.data, d.c(), d.h(), d.w(), b, c, r, q);
    lemma_channel_total::<A>(d, b, i, j, slot, d.o());
    let terms = |o: int|
        A::times_spec(
            at4(d.y.data, d.o(), d.oh(), d.ow(), b, o, i, j),
            d.weight[o * d.taps() + slot],
        );
    let sum = total::<A>(d.o(), terms);
    lemma_commute::<A>(entry, sum);
    lemma_total_times::<A>(d.o(), terms, entry);
    assert forall|o: int| 0 <= o < d.o() implies #[trigger] A::times_spec(terms(o), entry)
        == d.link(b, o, i, j, c, r, q) by {
        lemma_commute::<A>(terms(o), entry);
    }
    let left = |o: int| A::times_spec(terms(o), entry);
    let right = |o: int| d.link(b, o, place / d.ow(), place % d.ow(), c, r, q);
    assert forall|o: int| 0 <= o < d.o() implies #[trigger] left(o) == right(o) by {
        assert(A::times_spec(terms(o), entry) == d.link(b, o, i, j, c, r, q));
    }
    lemma_total_alike::<A>(d.o(), left, |o: int| A::times_spec(terms(o), entry));
    lemma_total_alike::<A>(d.o(), left, right);
}

/// What reaches an input entry, times it, as a sum over output positions.
proof fn lemma_gathered_total<A: Arithmetic>(
    d: Duo<A>,
    b: int,
    c: int,
    r: int,
    q: int,
    places: int,
)
    requires
        ring::<A>(),
        d.wf(),
        0 <= places,
    ensures
        A::times_spec(
            at4(d.x.data, d.c(), d.h(), d.w(), b, c, r, q),
            gathered::<A>(d.y, d.weight, d.x.shape[1], d.spread(), b, c, r, q, places),
        ) == total::<A>(places, |place: int| given::<A>(d, b, c, r, q, place)),
    decreases places,
{
    let entry = at4(d.x.data, d.c(), d.h(), d.w(), b, c, r, q);
    let terms = |place: int| given::<A>(d, b, c, r, q, place);
    if places == 0 {
        lemma_zero::<A>(entry);
    } else {
        lemma_gathered_total::<A>(d, b, c, r, q, places - 1);
        lemma_total_alike::<A>(
            places - 1,
            terms,
            |place: int| given::<A>(d, b, c, r, q, place),
        );
        let place = places - 1;
        let (i, j) = (place / d.ow(), place % d.ow());
        let before = gathered::<A>(
            d.y,
            d.weight,
            d.x.shape[1],
            d.spread(),
            b,
            c,
            r,
            q,
            places - 1,
        );
        if reached(d.spread(), i, j, r, q) {
            lemma_given::<A>(d, b, c, r, q, place);
            let gift = contribution::<A>(
                d.y,
                d.weight,
                d.x.shape[1],
                d.spread(),
                b,
                c,
                r,
                q,
                i,
                j,
            );
            lemma_commute::<A>(entry, A::plus_spec(before, gift));
            crate::rings::lemma_distribute::<A>(before, gift, entry);
            lemma_commute::<A>(entry, before);
            lemma_commute::<A>(entry, gift);
        } else {
            lemma_total_zero::<A>(d.o(), |o: int| d.link(b, o, i, j, c, r, q));
            lemma_total_alike::<A>(
                d.o(),
                |o: int| d.link(b, o, i, j, c, r, q),
                |o: int| d.link(b, o, place / d.ow(), place % d.ow(), c, r, q),
            );
            lemma_zero::<A>(total::<A>(places - 1, terms));
        }
    }
    lemma_total_alike::<A>(places, terms, |place: int| given::<A>(d, b, c, r, q, place));
}

/// The link of output `v`, counted over channels and positions, and input `u`.
spec fn linked<A: Arithmetic>(d: Duo<A>, b: int, u: int, v: int) -> A::Real {
    let places = d.oh() * d.ow();
    d.link(
        b,
        v / places,
        v % places / d.ow(),
        v % places % d.ow(),
        u / d.w() / d.h(),
        u / d.w() % d.h(),
        u % d.w(),
    )
}

/// One input entry times what the transposed convolution gives there, as a sum
/// over the outputs.
proof fn lemma_transposed_side<A: Arithmetic>(d: Duo<A>, b: int, u: int)
    requires
        ring::<A>(),
        d.wf(),
        0 <= u / d.w() / d.h() < d.c(),
    ensures
        A::times_spec(
            at4(
                d.x.data,
                d.c(),
                d.h(),
                d.w(),
                b,
                u / d.w() / d.h(),
                u / d.w() % d.h(),
                u % d.w(),
            ),
            transposed::<A>(
                d.y,
                d.weight,
                zeros::<A>(d.c() as nat),
                d.x.shape[1],
                d.spread(),
                b,
                u / d.w() / d.h(),
                u / d.w() % d.h(),
                u % d.w(),
            ),
        ) == total::<A>(d.o() * (d.oh() * d.ow()), |v: int| linked::<A>(d, b, u, v)),
{
    let (c, r, q) = (u / d.w() / d.h(), u / d.w() % d.h(), u % d.w());
    let places = d.oh() * d.ow();
    lemma_extent(d.oh(), d.ow());
    let sum = gathered::<A>(d.y, d.weight, d.x.shape[1], d.spread(), b, c, r, q, places);
    lemma_zero::<A>(sum);
    lemma_gathered_total::<A>(d, b, c, r, q, places);
    let outs = d.o();
    let f = |place: int, o: int| d.link(b, o, place / d.ow(), place % d.ow(), c, r, q);
    let g = |o: int, place: int| f(place, o);
    let gifts = |place: int| given::<A>(d, b, c, r, q, place);
    let by_place = |place: int| total::<A>(outs, |o: int| f(place, o));
    let by_out = |o: int| total::<A>(places, |place: int| f(place, o));
    let by_out_again = |o: int| total::<A>(places, |place: int| g(o, place));
    assert forall|place: int| 0 <= place < places implies #[trigger] gifts(place)
        == by_place(place) by {
        lemma_total_alike::<A>(
            outs,
            |o: int| d.link(b, o, place / d.ow(), place % d.ow(), c, r, q),
            |o: int| f(place, o),
        );
    }
    lemma_total_alike::<A>(places, gifts, by_place);
    lemma_total_alike::<A>(places, gifts, |place: int| given::<A>(d, b, c, r, q, place));
    lemma_total_swap::<A>(places, outs, f);
    lemma_total_alike::<A>(places, by_place, |i: int| total::<A>(outs, |j: int| f(i, j)));
    lemma_total_alike::<A>(outs, by_out, |j: int| total::<A>(places, |i: int| f(i, j)));
    assert forall|o: int| 0 <= o < outs implies #[trigger] by_out(o) == by_out_again(o) by {
        lemma_total_alike::<A>(places, |place: int| f(place, o), |place: int| g(o, place));
    }
    lemma_total_alike::<A>(outs, by_out, by_out_again);
    lemma_total_rows::<A>(outs, places, g);
    lemma_total_alike::<A>(outs, by_out_again, |i: int| total::<A>(places, |j: int| g(i, j)));
    lemma_total_alike::<A>(
        outs * places,
        |v: int| g(v / places, v % places),
        |v: int| linked::<A>(d, b, u, v),
    );
}

/// The taps of a patch, one by one: where tap `tap` of output `(i, j)` reads.
proof fn lemma_tapped<A: Arithmetic>(
    d: Duo<A>,
    b: int,
    o: int,
    i: int,
    j: int,
    c: int,
    th: int,
    tw: int,
)
    requires
        ring::<A>(),
        d.wf(),
        0 <= i < d.oh(),
        0 <= j < d.ow(),
        0 <= c < d.c(),
        0 <= th < d.kernel.0,
        0 <= tw < d.kernel.1,
    ensures
        d.link(b, o, i, j, c, i * d.stride.0 + th, j * d.stride.1 + tw) == d.tapped(
            b,
            o,
            i,
            j,
            (c * d.kernel.0 + th) * d.kernel.1 + tw,
        ),
{
    let (kh, kw) = (d.kernel.0 as int, d.kernel.1 as int);
    let (r, q) = (i * d.stride.0 + th, j * d.stride.1 + tw);
    let tap = (c * kh + th) * kw + tw;
    lemma_steps_fill(d.h(), kh, d.stride.0 as int, d.oh());
    lemma_steps_fill(d.w(), kw, d.stride.1 as int, d.ow());
    assert(0 <= i * d.stride.0 && i * d.stride.0 + kh <= d.h());
    assert(0 <= j * d.stride.1 && j * d.stride.1 + kw <= d.w());
    lemma_join3(d.c(), kh, kw, c, th, tw);
    assert(th * 1 == th && tw * 1 == tw);
    let entry = at4(d.x.data, d.c(), d.h(), d.w(), b, c, r, q);
    assert(patch::<A>(d.x, d.window(), b, i, j, tap) == entry);
    let partner = at4(d.y.data, d.o(), d.oh(), d.ow(), b, o, i, j);
    let weight = d.weight[o * d.taps() + tap];
    lemma_regroup::<A>(entry, weight, partner);
    lemma_commute::<A>(weight, partner);
    assert(reached(d.spread(), i, j, r, q));
}

/// The inputs that an output reaches are those under its taps.
proof fn lemma_reached_are_tapped<A: Arithmetic>(d: Duo<A>, b: int, o: int, i: int, j: int)
    requires
        ring::<A>(),
        d.wf(),
        0 <= i < d.oh(),
        0 <= j < d.ow(),
    ensures
        total::<A>(
            d.c() * d.h() * d.w(),
            |u: int|
                d.link(b, o, i, j, u / d.w() / d.h(), u / d.w() % d.h(), u % d.w()),
        ) == total::<A>(d.taps(), |tap: int| d.tapped(b, o, i, j, tap)),
{
    let (c_count, h, w) = (d.c(), d.h(), d.w());
    let (kh, kw) = (d.kernel.0 as int, d.kernel.1 as int);
    let (top, left) = (i * d.stride.0, j * d.stride.1);
    lemma_steps_fill(h, kh, d.stride.0 as int, d.oh());
    lemma_steps_fill(w, kw, d.stride.1 as int, d.ow());
    assert(0 <= top && top + kh <= h && 0 <= left && left + kw <= w);
    lemma_extent(c_count, h);
    lemma_extent(c_count, kh);
    // Channel by channel, row by row.
    let in_row = |cr: int, q: int| d.link(b, o, i, j, cr / h, cr % h, q);
    let rows = |c: int, r: int| total::<A>(w, |q: int| d.link(b, o, i, j, c, r, q));
    lemma_total_rows::<A>(c_count * h, w, in_row);
    let flat_rows = |cr: int| total::<A>(w, |q: int| in_row(cr, q));
    let flat_rows_again = |cr: int| rows(cr / h, cr % h);
    assert forall|cr: int| 0 <= cr < c_count * h implies #[trigger] flat_rows(cr)
        == flat_rows_again(cr) by {
        lemma_total_alike::<A>(
            w,
            |q: int| in_row(cr, q),
            |q: int| d.link(b, o, i, j, cr / h, cr % h, q),
        );
    }
    lemma_total_alike::<A>(c_count * h, flat_rows, flat_rows_again);
    lemma_total_alike::<A>(
        c_count * h,
        flat_rows,
        |cr: int| total::<A>(w, |q: int| in_row(cr, q)),
    );
    lemma_total_rows::<A>(c_count, h, rows);
    lemma_total_alike::<A>(
        c_count * h,
        flat_rows_again,
        |cr: int| rows(cr / h, cr % h),
    );
    let planes = |c: int| total::<A>(h, |r: int| rows(c, r));
    lemma_total_alike::<A>(c_count, planes, |c: int| total::<A>(h, |r: int| rows(c, r)));
    lemma_total_alike::<A>(
        c_count * h * w,
        |u: int| in_row(u / w, u % w),
        |u: int| d.link(b, o, i, j, u / w / h, u / w % h, u % w),
    );
    // The taps, channel by channel, row by row.
    let in_tap_row = |ct: int, tw: int| d.tapped(b, o, i, j, ct * kw + tw);
    let tap_rows = |c: int, th: int|
        total::<A>(kw, |tw: int| d.tapped(b, o, i, j, (c * kh + th) * kw + tw));
    lemma_total_rows::<A>(c_count * kh, kw, in_tap_row);
    let flat_tap_rows = |ct: int| total::<A>(kw, |tw: int| in_tap_row(ct, tw));
    let flat_tap_rows_again = |ct: int| tap_rows(ct / kh, ct % kh);
    assert forall|ct: int| 0 <= ct < c_count * kh implies #[trigger] flat_tap_rows(ct)
        == flat_tap_rows_again(ct) by {
        lemma_split2(c_count, kh, ct);
        lemma_total_alike::<A>(
            kw,
            |tw: int| in_tap_row(ct, tw),
            |tw: int| d.tapped(b, o, i, j, (ct / kh * kh + ct % kh) * kw + tw),
        );
    }
    lemma_total_alike::<A>(c_count * kh, flat_tap_rows, flat_tap_rows_again);
    lemma_total_alike::<A>(
        c_count * kh,
        flat_tap_rows,
        |ct: int| total::<A>(kw, |tw: int| in_tap_row(ct, tw)),
    );
    lemma_total_rows::<A>(c_count, kh, tap_rows);
    lemma_total_alike::<A>(
        c_count * kh,
        flat_tap_rows_again,
        |ct: int| tap_rows(ct / kh, ct % kh),
    );
    let tap_planes = |c: int| total::<A>(kh, |th: int| tap_rows(c, th));
    lemma_total_alike::<A>(
        c_count,
        tap_planes,
        |c: int| total::<A>(kh, |th: int| tap_rows(c, th)),
    );
    let flat_taps = |tap: int| in_tap_row(tap / kw, tap % kw);
    assert forall|tap: int| 0 <= tap < c_count * kh * kw implies #[trigger] flat_taps(tap)
        == d.tapped(b, o, i, j, tap) by {
        lemma_split2(c_count * kh, kw, tap);
    }
    lemma_total_alike::<A>(
        c_count * kh * kw,
        flat_taps,
        |tap: int| d.tapped(b, o, i, j, tap),
    );
    lemma_total_alike::<A>(
        c_count * kh * kw,
        flat_taps,
        |tap: int| in_tap_row(tap / kw, tap % kw),
    );
    // Each plane is its window.
    assert forall|c: int| 0 <= c < c_count implies #[trigger] planes(c) == tap_planes(c) by {
        lemma_plane::<A>(d, b, o, i, j, c);
        lemma_total_alike::<A>(
            h,
            |r: int| rows(c, r),
            |r: int| total::<A>(w, |q: int| d.link(b, o, i, j, c, r, q)),
        );
        lemma_total_alike::<A>(
            kh,
            |th: int| tap_rows(c, th),
            |th: int|
                total::<A>(kw, |tw: int| d.tapped(b, o, i, j, (c * kh + th) * kw + tw)),
        );
    }
    lemma_total_alike::<A>(c_count, planes, tap_planes);
}

/// One plane of the input: what an output reaches is its window.
proof fn lemma_plane<A: Arithmetic>(d: Duo<A>, b: int, o: int, i: int, j: int, c: int)
    requires
        ring::<A>(),
        d.wf(),
        0 <= i < d.oh(),
        0 <= j < d.ow(),
        0 <= c < d.c(),
    ensures
        total::<A>(
            d.h(),
            |r: int| total::<A>(d.w(), |q: int| d.link(b, o, i, j, c, r, q)),
        ) == total::<A>(
            d.kernel.0 as int,
            |th: int|
                total::<A>(
                    d.kernel.1 as int,
                    |tw: int|
                        d.tapped(b, o, i, j, (c * d.kernel.0 + th) * d.kernel.1 + tw),
                ),
        ),
{
    let (h, w) = (d.h(), d.w());
    let (kh, kw) = (d.kernel.0 as int, d.kernel.1 as int);
    let (top, left) = (i * d.stride.0, j * d.stride.1);
    lemma_steps_fill(h, kh, d.stride.0 as int, d.oh());
    lemma_steps_fill(w, kw, d.stride.1 as int, d.ow());
    assert(0 <= top && top + kh <= h && 0 <= left && left + kw <= w);
    let row = |r: int| total::<A>(w, |q: int| d.link(b, o, i, j, c, r, q));
    assert forall|r: int| 0 <= r < h && !(top <= r < top + kh) implies #[trigger] row(r)
        == A::zero_spec() by {
        let entry = |q: int| d.link(b, o, i, j, c, r, q);
        lemma_total_zero::<A>(w, entry);
        lemma_total_alike::<A>(w, entry, |q: int| d.link(b, o, i, j, c, r, q));
    }
    lemma_total_window::<A>(h, top, kh, row);
    let kept = |th: int| row(top + th);
    let wanted = |th: int|
        total::<A>(kw, |tw: int| d.tapped(b, o, i, j, (c * d.kernel.0 + th) * d.kernel.1 + tw));
    assert forall|th: int| 0 <= th < kh implies #[trigger] kept(th) == wanted(th) by {
        let r = top + th;
        let entry = |q: int| d.link(b, o, i, j, c, r, q);
        lemma_total_alike::<A>(w, entry, |q: int| d.link(b, o, i, j, c, r, q));
        assert forall|q: int| 0 <= q < w && !(left <= q < left + kw) implies #[trigger] entry(q)
            == A::zero_spec() by {}
        lemma_total_window::<A>(w, left, kw, entry);
        let inside = |tw: int| entry(left + tw);
        let taps = |tw: int|
            d.tapped(b, o, i, j, (c * d.kernel.0 + th) * d.kernel.1 + tw);
        assert forall|tw: int| 0 <= tw < kw implies #[trigger] inside(tw) == taps(tw) by {
            lemma_tapped::<A>(d, b, o, i, j, c, th, tw);
        }
        lemma_total_alike::<A>(kw, inside, taps);
        lemma_total_alike::<A>(kw, inside, |k: int| entry(left + k));
        lemma_total_alike::<A>(
            kw,
            taps,
            |tw: int| d.tapped(b, o, i, j, (c * d.kernel.0 + th) * d.kernel.1 + tw),
        );
    }
    lemma_total_alike::<A>(kh, kept, wanted);
    lemma_total_alike::<A>(kh, kept, |k: int| row(top + k));
    lemma_total_alike::<A>(
        kh,
        wanted,
        |th: int|
            total::<A>(
                kw,
                |tw: int| d.tapped(b, o, i, j, (c * d.kernel.0 + th) * d.kernel.1 + tw),
            ),
    );
    lemma_total_alike::<A>(
        h,
        row,
        |r: int| total::<A>(w, |q: int| d.link(b, o, i, j, c, r, q)),
    );
}

/// The convolution of the input.
pub open spec fn forwards<A: Arithmetic>(d: Duo<A>) -> Grid<A::Real> {
    convolution::<A>(d.x, d.weight, zeros::<A>(d.o() as nat), d.y.shape[1], d.window())
}

/// The transposed convolution of the output.
pub open spec fn backwards<A: Arithmetic>(d: Duo<A>) -> Grid<A::Real> {
    transposition::<A>(d.y, d.weight, zeros::<A>(d.c() as nat), d.x.shape[1], d.spread())
}

/// Where the entries of a sample lie, on either side.
proof fn lemma_entry(n: int, n1: int, n2: int, n3: int, b: int, v: int)
    requires
        0 <= b < n,
        0 <= n1,
        0 <= n2,
        0 <= n3,
        0 <= v < n1 * (n2 * n3),
    ensures
        0 <= v / (n2 * n3) < n1,
        0 <= v % (n2 * n3) / n3 < n2,
        0 <= v % (n2 * n3) % n3 < n3,
        ((b * n1 + v / (n2 * n3)) * n2 + v % (n2 * n3) / n3) * n3 + v % (n2 * n3) % n3 == b * (n1
            * (n2 * n3)) + v,
{
    let size = n2 * n3;
    lemma_extent(n2, n3);
    lemma_split2(n1, size, v);
    lemma_split2(n2, n3, v % size);
    let (o, i, j) = (v / size, v % size / n3, v % size % n3);
    let row = b * n1 + o;
    assert((row * n2 + i) * n3 + j == row * (n2 * n3) + (i * n3 + j)) by (nonlinear_arith);
    assert((b * n1 + o) * size == b * (n1 * size) + o * size) by (nonlinear_arith);
}

proof fn lemma_output_side<A: Arithmetic>(d: Duo<A>, b: int, v: int)
    requires
        ring::<A>(),
        d.wf(),
        0 <= b < d.x.shape[0],
        0 <= v < d.o() * (d.oh() * d.ow()),
    ensures
        ({
            let all = d.o() * (d.oh() * d.ow());
            A::times_spec(forwards::<A>(d).data[b * all + v], d.y.data[b * all + v])
        }) == total::<A>(d.c() * d.h() * d.w(), |u: int| linked::<A>(d, b, u, v)),
{
    let n = d.x.shape[0] as int;
    let places = d.oh() * d.ow();
    let all = d.o() * places;
    lemma_entry(n, d.o(), d.oh(), d.ow(), b, v);
    let (o, i, j) = (v / places, v % places / d.ow(), v % places % d.ow());
    lemma_join4(n, d.o(), d.oh(), d.ow(), b, o, i, j);
    assert(forwards::<A>(d).data[b * all + v] == convolved::<A>(
        d.x,
        d.weight,
        zeros::<A>(d.o() as nat),
        d.window(),
        b,
        o,
        i,
        j,
    ));
    lemma_convolved_side::<A>(d, b, o, i, j);
    lemma_reached_are_tapped::<A>(d, b, o, i, j);
    lemma_total_alike::<A>(
        d.c() * d.h() * d.w(),
        |u: int| d.link(b, o, i, j, u / d.w() / d.h(), u / d.w() % d.h(), u % d.w()),
        |u: int| linked::<A>(d, b, u, v),
    );
}

proof fn lemma_input_side<A: Arithmetic>(d: Duo<A>, b: int, u: int)
    requires
        ring::<A>(),
        d.wf(),
        0 <= b < d.x.shape[0],
        0 <= u < d.c() * d.h() * d.w(),
        d.spread().height(d.y.shape[2]) == d.h(),
        d.spread().width(d.y.shape[3]) == d.w(),
    ensures
        ({
            let all = d.c() * d.h() * d.w();
            A::times_spec(d.x.data[b * all + u], backwards::<A>(d).data[b * all + u])
        }) == total::<A>(d.o() * (d.oh() * d.ow()), |v: int| linked::<A>(d, b, u, v)),
{
    let n = d.x.shape[0] as int;
    let all = d.c() * d.h() * d.w();
    lemma_split3(d.c(), d.h(), d.w(), u);
    let (c, r, q) = (u / d.w() / d.h(), u / d.w() % d.h(), u % d.w());
    lemma_join4(n, d.c(), d.h(), d.w(), b, c, r, q);
    let (nc, nh, nw) = (d.c(), d.h(), d.w());
    assert(((b * nc + c) * nh + r) * nw + q == b * (nc * nh * nw) + ((c * nh + r) * nw + q))
        by (nonlinear_arith);
    assert(backwards::<A>(d).data[b * all + u] == transposed::<A>(
        d.y,
        d.weight,
        zeros::<A>(d.c() as nat),
        d.x.shape[1],
        d.spread(),
        b,
        c,
        r,
        q,
    ));
    lemma_transposed_side::<A>(d, b, u);
}

proof fn lemma_sample_adjoint<A: Arithmetic>(d: Duo<A>, b: int)
    requires
        ring::<A>(),
        d.wf(),
        0 <= b < d.x.shape[0],
        d.spread().height(d.y.shape[2]) == d.h(),
        d.spread().width(d.y.shape[3]) == d.w(),
    ensures
        ({
            let outs = d.o() * (d.oh() * d.ow());
            let ins = d.c() * d.h() * d.w();
            total::<A>(
                outs,
                |v: int|
                    A::times_spec(
                        forwards::<A>(d).data[b * outs + v],
                        d.y.data[b * outs + v],
                    ),
            ) == total::<A>(
                ins,
                |u: int|
                    A::times_spec(
                        d.x.data[b * ins + u],
                        backwards::<A>(d).data[b * ins + u],
                    ),
            )
        }),
{
    let outs = d.o() * (d.oh() * d.ow());
    let ins = d.c() * d.h() * d.w();
    lemma_extent(d.oh(), d.ow());
    lemma_extent(d.o(), d.oh() * d.ow());
    lemma_extent(d.c(), d.h());
    lemma_extent(d.c() * d.h(), d.w());
    let f = |v: int, u: int| linked::<A>(d, b, u, v);
    let left = |v: int|
        A::times_spec(forwards::<A>(d).data[b * outs + v], d.y.data[b * outs + v]);
    let left_sums = |v: int| total::<A>(ins, |u: int| f(v, u));
    assert forall|v: int| 0 <= v < outs implies #[trigger] left(v) == left_sums(v) by {
        lemma_output_side::<A>(d, b, v);
        lemma_total_alike::<A>(ins, |u: int| linked::<A>(d, b, u, v), |u: int| f(v, u));
    }
    lemma_total_alike::<A>(outs, left, left_sums);
    let right = |u: int|
        A::times_spec(d.x.data[b * ins + u], backwards::<A>(d).data[b * ins + u]);
    let right_sums = |u: int| total::<A>(outs, |v: int| f(v, u));
    assert forall|u: int| 0 <= u < ins implies #[trigger] right(u) == right_sums(u) by {
        lemma_input_side::<A>(d, b, u);
        lemma_total_alike::<A>(outs, |v: int| linked::<A>(d, b, u, v), |v: int| f(v, u));
    }
    lemma_total_alike::<A>(ins, right, right_sums);
    lemma_total_swap::<A>(outs, ins, f);
    lemma_total_alike::<A>(outs, left_sums, |i: int| total::<A>(ins, |j: int| f(i, j)));
    lemma_total_alike::<A>(ins, right_sums, |j: int| total::<A>(outs, |i: int| f(i, j)));
    lemma_total_alike::<A>(
        outs,
        left,
        |v: int| A::times_spec(forwards::<A>(d).data[b * outs + v], d.y.data[b * outs + v]),
    );
    lemma_total_alike::<A>(
        ins,
        right,
        |u: int| A::times_spec(d.x.data[b * ins + u], backwards::<A>(d).data[b * ins + u]),
    );
}

/// A dot product over a batch, sample by sample.
proof fn lemma_dot_samples<A: Arithmetic>(a: Seq<A::Real>, b: Seq<A::Real>, n: int, size: int)
    requires
        ring::<A>(),
        0 <= n,
        0 <= size,
        a.len() == n * size,
    ensures
        dot::<A>(a, b) == total::<A>(
            n,
            |s: int|
                total::<A>(size, |v: int| A::times_spec(a[s * size + v], b[s * size + v])),
        ),
{
    let f = |s: int, v: int| A::times_spec(a[s * size + v], b[s * size + v]);
    lemma_total_rows::<A>(n, size, f);
    let flat = |p: int| f(p / size, p % size);
    let products = |p: int| A::times_spec(a[p], b[p]);
    assert forall|p: int| 0 <= p < n * size implies #[trigger] flat(p) == products(p) by {
        lemma_split2(n, size, p);
    }
    lemma_total_alike::<A>(n * size, flat, products);
    lemma_total_alike::<A>(n * size, flat, |p: int| f(p / size, p % size));
    lemma_total_alike::<A>(n * size, products, |p: int| A::times_spec(a[p], b[p]));
    let rows = |s: int| total::<A>(size, |v: int| f(s, v));
    let wanted = |s: int|
        total::<A>(size, |v: int| A::times_spec(a[s * size + v], b[s * size + v]));
    assert forall|s: int| 0 <= s < n implies #[trigger] rows(s) == wanted(s) by {
        lemma_total_alike::<A>(
            size,
            |v: int| f(s, v),
            |v: int| A::times_spec(a[s * size + v], b[s * size + v]),
        );
    }
    lemma_total_alike::<A>(n, rows, wanted);
    lemma_total_alike::<A>(n, rows, |i: int| total::<A>(size, |j: int| f(i, j)));
    lemma_total_alike::<A>(
        n,
        wanted,
        |s: int| total::<A>(size, |v: int| A::times_spec(a[s * size + v], b[s * size + v])),
    );
}

/// A transposed convolution is the adjoint of the convolution with the same
/// weight: it gives the shape of the convolution's input, and the product of
/// the convolution with any output is the product of the input with the
/// transposed convolution of that output, in an arithmetic that is a ring.
pub proof fn law_transposition_is_the_adjoint_of_convolution<A: Arithmetic>(d: Duo<A>)
    requires
        ring::<A>(),
        d.wf(),
    ensures
        forwards::<A>(d).shape == d.y.shape,
        backwards::<A>(d).shape == d.x.shape,
        dot::<A>(forwards::<A>(d).data, d.y.data) == dot::<A>(d.x.data, backwards::<A>(d).data),
{
    let n = d.x.shape[0] as int;
    let outs = d.o() * (d.oh() * d.ow());
    let ins = d.c() * d.h() * d.w();
    lemma_steps_fill(d.h(), d.kernel.0 as int, d.stride.0 as int, d.oh());
    lemma_steps_fill(d.w(), d.kernel.1 as int, d.stride.1 as int, d.ow());
    lemma_rank4(d.x.shape);
    lemma_rank4(d.y.shape);
    lemma_extent(d.oh(), d.ow());
    lemma_extent(d.o(), d.oh() * d.ow());
    lemma_extent(d.c(), d.h());
    lemma_extent(d.c() * d.h(), d.w());
    let (o, oh, ow) = (d.o(), d.oh(), d.ow());
    let (c, h, w) = (d.c(), d.h(), d.w());
    assert(n * o * oh * ow == n * (o * (oh * ow))) by (nonlinear_arith);
    assert(n * c * h * w == n * (c * h * w)) by (nonlinear_arith);
    lemma_extent(n, outs);
    assert(forwards::<A>(d).shape =~= d.y.shape);
    assert(backwards::<A>(d).shape =~= d.x.shape);
    lemma_dot_samples::<A>(forwards::<A>(d).data, d.y.data, n, outs);
    lemma_dot_samples::<A>(d.x.data, backwards::<A>(d).data, n, ins);
    let left = |s: int|
        total::<A>(
            outs,
            |v: int|
                A::times_spec(
                    forwards::<A>(d).data[s * outs + v],
                    d.y.data[s * outs + v],
                ),
        );
    let right = |s: int|
        total::<A>(
            ins,
            |u: int|
                A::times_spec(d.x.data[s * ins + u], backwards::<A>(d).data[s * ins + u]),
        );
    assert forall|s: int| 0 <= s < n implies #[trigger] left(s) == right(s) by {
        lemma_sample_adjoint::<A>(d, s);
    }
    lemma_total_alike::<A>(n, left, right);
    lemma_total_alike::<A>(
        n,
        left,
        |s: int|
            total::<A>(
                outs,
                |v: int|
                    A::times_spec(
                        forwards::<A>(d).data[s * outs + v],
                        d.y.data[s * outs + v],
                    ),
            ),
    );
    lemma_total_alike::<A>(
        n,
        right,
        |s: int|
            total::<A>(
                ins,
                |v: int|
                    A::times_spec(
                        d.x.data[s * ins + v],
                        backwards::<A>(d).data[s * ins + v],
                    ),
            ),
    );
}

} // verus!
