//! Cutting and sewing undo each other where nothing is rounded.

use vstd::prelude::*;

use crate::arithmetic::Arithmetic;
use crate::demucs::{
    covered, law_ramp_is_a_triangle, law_starts_cover_the_track, normalised_triangle, peak, ramp,
    triangle,
};
use crate::fields::{
    exact, field, lemma_count, lemma_exact_is_field, lemma_field_is_ring, lemma_multiply_back,
    lemma_neutral, lemma_positive,
};
use crate::order::{
    adding_weight, exact_at, law_a_frame_sums_what_touches_it, lemma_constant_sum, partial_weight,
    touches, touching,
};
use crate::rings::{lemma_commute, lemma_distribute, lemma_regroup};
use crate::seam::{lemma_lengths, lemma_mix_reaches, mixed, sample, samples, Part};
use crate::separate::{
    cut, law_stems_are_as_long_as_the_track, Separation, SEGMENT, STRIDE,
};

verus! {

/// The weights that fall on a frame are the sum of reals, and positive.
proof fn lemma_partial_weight<A: Arithmetic>(
    parts: Seq<Part<A::Real>>,
    frame: int,
    count: int,
) -> (sum: A::Real)
    requires
        exact::<A>(),
        0 <= count <= parts.len(),
        forall|i: int|
            0 <= i < parts.len() ==> A::exceeds_spec(
                (#[trigger] parts[i]).window[frame - parts[i].offset],
                A::zero_spec(),
            ),
    ensures
        partial_weight::<A>(parts, frame, count) == A::widen_spec(sum),
        count == 0 ==> sum == A::zero_spec(),
        count > 0 ==> A::exceeds_spec(sum, A::zero_spec()),
    decreases count,
{
    let zero = A::wide_zero_spec();
    let weight = adding_weight::<A>(frame);
    if count == 0 {
        assert(parts.take(0).fold_left(zero, weight) == zero);
        reveal(exact);
        A::zero_spec()
    } else {
        let before = lemma_partial_weight::<A>(parts, frame, count - 1);
        let first = parts.take(count);
        assert(first.drop_last() =~= parts.take(count - 1));
        assert(first.last() == parts[count - 1]);
        let last = parts[count - 1].window[frame - parts[count - 1].offset];
        assert(A::exceeds_spec(last, A::zero_spec()));
        let sum = A::plus_spec(before, last);
        assert(first.fold_left(zero, weight) == weight(
            first.drop_last().fold_left(zero, weight),
            first.last(),
        ));
        lemma_exact_is_field::<A>();
        lemma_field_is_ring::<A>();
        assert(A::wide_plus_spec(A::widen_spec(before), A::widen_spec(last)) == A::widen_spec(
            sum,
        )) by {
            reveal(exact);
        }
        if count == 1 {
            lemma_neutral::<A>(last);
        } else {
            reveal(field);
        }
        sum
    }
}

/// Without rounding, every value is exact for positive weights.
proof fn lemma_exact_at<A: Arithmetic>(parts: Seq<Part<A::Real>>, frame: int, value: A::Real)
    requires
        exact::<A>(),
        parts.len() > 0,
        forall|i: int|
            0 <= i < parts.len() ==> A::exceeds_spec(
                (#[trigger] parts[i]).window[frame - parts[i].offset],
                A::zero_spec(),
            ),
    ensures
        exact_at::<A>(parts, frame, value),
        A::wide_exceeds_spec(
            partial_weight::<A>(parts, frame, parts.len() as int),
            A::wide_zero_spec(),
        ),
{
    lemma_exact_is_field::<A>();
    lemma_field_is_ring::<A>();
    let factor = A::widen_spec(value);
    assert forall|n: int| 1 <= n <= parts.len() implies A::wide_times_spec(
        factor,
        #[trigger] partial_weight::<A>(parts, frame, n),
    ) == A::wide_plus_spec(
        if n == 1 {
            A::wide_zero_spec()
        } else {
            A::wide_times_spec(factor, partial_weight::<A>(parts, frame, n - 1))
        },
        A::wide_times_spec(
            factor,
            A::widen_spec(parts[n - 1].window[frame - parts[n - 1].offset]),
        ),
    ) by {
        let before = lemma_partial_weight::<A>(parts, frame, n - 1);
        let after = lemma_partial_weight::<A>(parts, frame, n);
        let last = parts[n - 1].window[frame - parts[n - 1].offset];
        let first = parts.take(n);
        assert(first.drop_last() =~= parts.take(n - 1));
        assert(first.last() == parts[n - 1]);
        let weight = adding_weight::<A>(frame);
        let zero = A::wide_zero_spec();
        assert(first.fold_left(zero, weight) == weight(
            first.drop_last().fold_left(zero, weight),
            first.last(),
        ));
        lemma_commute::<A>(value, A::plus_spec(before, last));
        lemma_distribute::<A>(before, last, value);
        lemma_commute::<A>(value, before);
        lemma_commute::<A>(value, last);
        let product = A::times_spec(value, last);
        lemma_neutral::<A>(product);
        crate::rings::lemma_zero::<A>(value);
        reveal(exact);
        assert(A::wide_plus_spec(A::widen_spec(before), A::widen_spec(last)) == A::widen_spec(
            A::plus_spec(before, last),
        ));
        assert(A::wide_times_spec(factor, A::widen_spec(A::plus_spec(before, last)))
            == A::widen_spec(A::times_spec(value, A::plus_spec(before, last))));
        assert(A::wide_times_spec(factor, A::widen_spec(before)) == A::widen_spec(
            A::times_spec(value, before),
        ));
        assert(A::wide_times_spec(factor, A::widen_spec(last)) == A::widen_spec(product));
        assert(A::wide_plus_spec(
            A::widen_spec(A::times_spec(value, before)),
            A::widen_spec(product),
        ) == A::widen_spec(A::plus_spec(A::times_spec(value, before), product)));
    }
    let sum = lemma_partial_weight::<A>(parts, frame, parts.len() as int);
    lemma_positive::<A>(sum);
    let quotient = A::over_spec(A::times_spec(value, sum), sum);
    lemma_multiply_back::<A>(A::times_spec(value, sum), sum);
    crate::fields::lemma_cancel::<A>(quotient, value, sum);
    reveal(exact);
    assert(A::wide_times_spec(factor, A::widen_spec(sum)) == A::widen_spec(
        A::times_spec(value, sum),
    ));
    assert(A::wide_over_spec(A::widen_spec(A::times_spec(value, sum)), A::widen_spec(sum))
        == A::widen_spec(quotient));
    assert(A::narrow_spec(A::widen_spec(quotient)) == quotient);
}

/// What touches a frame are parts, and touch it.
proof fn lemma_touching_parts<R>(parts: Seq<Part<R>>, frame: int, i: int)
    requires
        0 <= i < touching(parts, frame).len(),
    ensures
        parts.contains(touching(parts, frame)[i]),
        touches(touching(parts, frame)[i], frame),
    decreases parts.len(),
{
    let earlier = parts.drop_last();
    let before = touching(earlier, frame);
    if i < before.len() {
        lemma_touching_parts(earlier, frame, i);
        assert(touching(parts, frame)[i] == before[i]);
        let j = choose|j: int| 0 <= j < earlier.len() && earlier[j] == before[i];
        assert(parts[j] == before[i]);
    } else {
        assert(parts[parts.len() - 1] == parts.last());
    }
}

/// A part that touches a frame is among those that do.
proof fn lemma_is_touching<R>(parts: Seq<Part<R>>, frame: int, i: int)
    requires
        0 <= i < parts.len(),
        touches(parts[i], frame),
    ensures
        touching(parts, frame).len() > 0,
    decreases parts.len(),
{
    if i < parts.len() - 1 {
        lemma_is_touching(parts.drop_last(), frame, i);
    }
}

/// Whether every part carries a signal's samples at its own frames, under
/// positive weights.
pub open spec fn carry<A: Arithmetic>(
    parts: Seq<Part<A::Real>>,
    signal: spec_fn(int) -> A::Real,
) -> bool {
    forall|k: int, j: int|
        0 <= k < parts.len() && 0 <= j < parts[k].segment.len()
            ==> #[trigger] parts[k].segment[j] == signal(parts[k].offset + j)
            && A::exceeds_spec(parts[k].window[j], A::zero_spec())
}

/// What was cut from one signal is sewn back to it: where every part carries
/// the signal's samples at its own frames, and its weights are positive, the
/// seam gives the signal's sample at every frame that a part touches.
pub proof fn law_the_seam_gives_back_a_signal<A: Arithmetic>(
    parts: Seq<Part<A::Real>>,
    signal: spec_fn(int) -> A::Real,
    frame: int,
    i: int,
)
    requires
        exact::<A>(),
        carry::<A>(parts, signal),
        0 <= i < parts.len(),
        parts[i].offset <= frame < parts[i].offset + parts[i].segment.len(),
    ensures
        frame < mixed::<A>(parts).values.len(),
        sample::<A>(mixed::<A>(parts), frame) == signal(frame),
{
    lemma_mix_reaches::<A>(parts, i);
    lemma_lengths::<A>(parts);
    lemma_is_touching(parts, frame, i);
    let all = touching(parts, frame);
    law_a_frame_sums_what_touches_it::<A>(parts, frame);
    assert forall|k: int| 0 <= k < all.len() implies (#[trigger] all[k]).segment[frame
        - all[k].offset] == signal(frame) && A::exceeds_spec(
        all[k].window[frame - all[k].offset],
        A::zero_spec(),
    ) by {
        lemma_touching_parts(parts, frame, k);
        let j = choose|j: int| 0 <= j < parts.len() && parts[j] == all[k];
        assert(parts[j].segment[frame - parts[j].offset] == signal(
            parts[j].offset + (frame - parts[j].offset),
        ));
    }
    lemma_exact_at::<A>(all, frame, signal(frame));
    lemma_constant_sum::<A>(all, frame, signal(frame), all.len() as int);
    assert(all.take(all.len() as int) =~= all);
}

/// The weights of the seam are positive.
proof fn lemma_positive_window<A: Arithmetic>(n: nat, i: int)
    requires
        field::<A>(),
        n <= usize::MAX,
        0 <= i < n,
    ensures
        A::exceeds_spec(normalised_triangle::<A>(n)[i], A::zero_spec()),
{
    law_ramp_is_a_triangle(n, i);
    lemma_count::<A>(ramp(n, i));
    let maximum = peak::<A>(triangle::<A>(n));
    if A::exceeds_spec(maximum, A::zero_spec()) {
        reveal(field);
        assert(A::exceeds_spec(A::over_spec(A::one_spec(), maximum), A::zero_spec()));
    }
}

/// The seam weighs a segment by a triangle: two weights are to each other as
/// the distances of their frames from the nearer end of the segment.
pub proof fn law_the_seam_weighs_by_a_triangle<A: Arithmetic>(
    separation: Separation<A>,
    i: int,
    j: int,
)
    requires
        field::<A>(),
        separation.wf(),
        0 <= i < SEGMENT,
        0 <= j < SEGMENT,
    ensures
        separation.window@.len() == SEGMENT,
        A::exceeds_spec(separation.window@[i], A::zero_spec()),
        ({
            let near = |k: int|
                if k + 1 < SEGMENT - k {
                    (k + 1) as usize
                } else {
                    (SEGMENT - k) as usize
                };
            A::times_spec(separation.window@[i], A::from_count_spec(near(j)))
                == A::times_spec(separation.window@[j], A::from_count_spec(near(i)))
        }),
{
    lemma_field_is_ring::<A>();
    let n = SEGMENT as nat;
    lemma_positive_window::<A>(n, i);
    let (a, b) = (A::from_count_spec(ramp(n, i)), A::from_count_spec(ramp(n, j)));
    let maximum = peak::<A>(triangle::<A>(n));
    let scale = A::over_spec(A::one_spec(), maximum);
    lemma_commute::<A>(a, b);
    lemma_regroup::<A>(a, scale, b);
    lemma_commute::<A>(scale, b);
    lemma_regroup::<A>(a, b, scale);
    lemma_regroup::<A>(b, scale, a);
    lemma_commute::<A>(scale, a);
    lemma_regroup::<A>(b, a, scale);
}

/// Separating is sewing back: where every segment of a stem's channel is the
/// cut of one signal, the stem's channel is that signal, as long as the track.
pub proof fn law_a_stem_cut_from_a_signal_is_that_signal<A: Arithmetic>(
    separation: Separation<A>,
    signal: Seq<A::Real>,
    row: int,
)
    requires
        exact::<A>(),
        separation.wf(),
        separation.done == separation.offsets@.len(),
        0 <= row < 8,
        signal.len() == separation.total,
        forall|i: int|
            0 <= i < separation.done ==> #[trigger] separation.history@[row][i] == cut::<A>(
                signal,
                separation.total as int,
                separation.offsets@[i] as int,
            ),
    ensures
        separation.stem(row) == signal,
{
    lemma_exact_is_field::<A>();
    law_stems_are_as_long_as_the_track::<A>(separation, row);
    law_starts_cover_the_track(separation.total as nat, SEGMENT as nat, STRIDE as nat);
    assert(separation.history@[row].len() == separation.done);
    let parts = separation.parts(row);
    let total = separation.total as int;
    let whole = |f: int|
        if f < total {
            signal[f]
        } else {
            A::zero_spec()
        };
    assert forall|k: int, j: int| 0 <= k < parts.len() && 0 <= j < parts[k].segment.len() implies
        #[trigger] parts[k].segment[j] == whole(parts[k].offset + j) && A::exceeds_spec(
        parts[k].window[j],
        A::zero_spec(),
    ) by {
        assert(separation.history@[row][k] == cut::<A>(
            signal,
            total,
            separation.offsets@[k] as int,
        ));
        lemma_positive_window::<A>(SEGMENT as nat, j);
    }
    assert(carry::<A>(parts, whole));
    let stem = separation.stem(row);
    assert forall|frame: int| 0 <= frame < total implies #[trigger] stem[frame]
        == signal[frame] by {
        assert(covered(separation.offsets@, SEGMENT as nat, frame as nat));
        let i = choose|i: int|
            0 <= i < separation.offsets@.len() && #[trigger] separation.offsets@[i] <= frame
                < separation.offsets@[i] + SEGMENT;
        assert(separation.history@[row][i] == cut::<A>(
            signal,
            total,
            separation.offsets@[i] as int,
        ));
        law_the_seam_gives_back_a_signal::<A>(parts, whole, frame, i);
    }
    assert(stem =~= signal);
}

/// Finishing hands the stems out in order: where the segments of row
/// `2 * stem + channel` are the cuts of a signal, that channel of that stem is
/// the signal.
pub proof fn law_finished_stems_come_in_order<A: Arithmetic>(
    separation: Separation<A>,
    stems: Vec<[Vec<A::Real>; 2]>,
    signal: Seq<A::Real>,
    stem: int,
    channel: int,
)
    requires
        exact::<A>(),
        separation.wf(),
        separation.done == separation.offsets@.len(),
        call_ensures(Separation::<A>::finish, (separation,), stems),
        0 <= stem < 4,
        0 <= channel < 2,
        signal.len() == separation.total,
        forall|i: int|
            0 <= i < separation.done ==> #[trigger] separation.history@[2 * stem + channel][i]
                == cut::<A>(
                signal,
                separation.total as int,
                separation.offsets@[i] as int,
            ),
    ensures
        stems@.len() == 4,
        stems@[stem]@[channel]@ == signal,
{
    law_a_stem_cut_from_a_signal_is_that_signal::<A>(separation, signal, 2 * stem + channel);
    assert(stems@[stem]@[channel]@ == separation.stem(stem * 2 + channel));
}

} // verus!
