//! What the parts that fall on a frame make of it, and the order in which they
//! arrive at the seam.

use vstd::prelude::*;
use vstd::seq_lib::{commutative_foldl, lemma_fold_left_permutation};

use crate::arithmetic::Arithmetic;
use crate::seam::{
    added, constant, lemma_lengths, lemma_mix_ends, lemma_mix_reaches, mixed, sample, samples, Part,
};

verus! {

/// Whether a part has a sample at a frame.
pub open spec fn touches<R>(part: Part<R>, frame: int) -> bool {
    part.offset <= frame < part.end()
}

/// The parts that have a sample at a frame, in order.
pub open spec fn touching<R>(parts: Seq<Part<R>>, frame: int) -> Seq<Part<R>>
    decreases parts.len(),
{
    if parts.len() == 0 {
        Seq::empty()
    } else {
        let earlier = touching(parts.drop_last(), frame);
        if touches(parts.last(), frame) {
            earlier.push(parts.last())
        } else {
            earlier
        }
    }
}

/// Adding a part's weighted sample at a frame to a sum.
pub open spec fn adding_value<A: Arithmetic>(frame: int) -> spec_fn(
    A::Wide,
    Part<A::Real>,
) -> A::Wide {
    |sum: A::Wide, part: Part<A::Real>|
        A::wide_plus_spec(
            sum,
            A::wide_times_spec(
                A::widen_spec(part.segment[frame - part.offset]),
                A::widen_spec(part.window[frame - part.offset]),
            ),
        )
}

/// Adding a part's weight at a frame to a sum.
pub open spec fn adding_weight<A: Arithmetic>(frame: int) -> spec_fn(
    A::Wide,
    Part<A::Real>,
) -> A::Wide {
    |sum: A::Wide, part: Part<A::Real>|
        A::wide_plus_spec(sum, A::widen_spec(part.window[frame - part.offset]))
}

/// What a mix holds at a frame is summed from zero over the parts that touch
/// it, in order, and nothing else.
pub proof fn law_a_frame_sums_what_touches_it<A: Arithmetic>(
    parts: Seq<Part<A::Real>>,
    frame: int,
)
    requires
        0 <= frame < mixed::<A>(parts).values.len(),
    ensures
        mixed::<A>(parts).values[frame] == touching(parts, frame).fold_left(
            A::wide_zero_spec(),
            adding_value::<A>(frame),
        ),
        mixed::<A>(parts).weights[frame] == touching(parts, frame).fold_left(
            A::wide_zero_spec(),
            adding_weight::<A>(frame),
        ),
    decreases parts.len(),
{
    if parts.len() > 0 {
        let earlier = parts.drop_last();
        lemma_lengths::<A>(earlier);
        let before = touching(earlier, frame);
        if frame < mixed::<A>(earlier).values.len() {
            law_a_frame_sums_what_touches_it::<A>(earlier, frame);
        } else {
            lemma_untouched::<A>(earlier, frame);
            assert(before.fold_left(A::wide_zero_spec(), adding_value::<A>(frame))
                == A::wide_zero_spec());
            assert(before.fold_left(A::wide_zero_spec(), adding_weight::<A>(frame))
                == A::wide_zero_spec());
        }
        let last = parts.last();
        let zero = A::wide_zero_spec();
        let value = adding_value::<A>(frame);
        let weight = adding_weight::<A>(frame);
        let whole = mixed::<A>(parts);
        assert(whole == added::<A>(mixed::<A>(earlier), last));
        if touches(last, frame) {
            assert(before.push(last).drop_last() =~= before);
            assert(before.push(last).last() == last);
            assert(before.push(last).fold_left(zero, value) == value(
                before.fold_left(zero, value),
                last,
            ));
            assert(before.push(last).fold_left(zero, weight) == weight(
                before.fold_left(zero, weight),
                last,
            ));
        }
    }
}

/// Past the end of a mix, nothing touches.
proof fn lemma_untouched<A: Arithmetic>(parts: Seq<Part<A::Real>>, frame: int)
    requires
        frame >= mixed::<A>(parts).values.len(),
    ensures
        touching(parts, frame) == Seq::<Part<A::Real>>::empty(),
    decreases parts.len(),
{
    if parts.len() > 0 {
        lemma_untouched::<A>(parts.drop_last(), frame);
    }
}

/// How often a part touches a frame does not depend on the order.
proof fn lemma_touching_count<R>(parts: Seq<Part<R>>, frame: int, part: Part<R>)
    ensures
        touching(parts, frame).to_multiset().count(part) == if touches(part, frame) {
            parts.to_multiset().count(part)
        } else {
            0
        },
    decreases parts.len(),
{
    if parts.len() == 0 {
        parts.to_multiset_ensures();
        assert(!parts.contains(part));
        assert(touching(parts, frame) =~= parts);
    } else {
        let earlier = parts.drop_last();
        lemma_touching_count(earlier, frame, part);
        assert(earlier.push(parts.last()) =~= parts);
        earlier.to_multiset_ensures();
        touching(earlier, frame).to_multiset_ensures();
    }
}

proof fn lemma_touching_alike<R>(a: Seq<Part<R>>, b: Seq<Part<R>>, frame: int)
    requires
        a.to_multiset() == b.to_multiset(),
    ensures
        touching(a, frame).to_multiset() == touching(b, frame).to_multiset(),
{
    assert forall|part: Part<R>|
        touching(a, frame).to_multiset().count(part) == touching(b, frame).to_multiset().count(
            part,
        ) by {
        lemma_touching_count(a, frame, part);
        lemma_touching_count(b, frame, part);
    }
    assert(touching(a, frame).to_multiset() =~= touching(b, frame).to_multiset());
}

proof fn lemma_no_shorter<A: Arithmetic>(a: Seq<Part<A::Real>>, b: Seq<Part<A::Real>>)
    requires
        a.to_multiset() == b.to_multiset(),
    ensures
        mixed::<A>(a).values.len() <= mixed::<A>(b).values.len(),
{
    a.to_multiset_ensures();
    b.to_multiset_ensures();
    assert forall|i: int| 0 <= i < a.len() implies (#[trigger] a[i]).end() <= mixed::<A>(
        b,
    ).values.len() by {
        assert(a.contains(a[i]));
        assert(b.to_multiset().count(a[i]) > 0);
        let j = choose|j: int| 0 <= j < b.len() && b[j] == a[i];
        lemma_mix_reaches::<A>(b, j);
    }
    lemma_mix_ends::<A>(a, mixed::<A>(b).values.len());
}

/// Whether a sum of two does not depend on which comes first.
pub open spec fn pairs_commute<A: Arithmetic>() -> bool {
    let zero = A::wide_zero_spec();
    forall|x: A::Wide, y: A::Wide| #[trigger]
        A::wide_plus_spec(A::wide_plus_spec(zero, x), y) == A::wide_plus_spec(
            A::wide_plus_spec(zero, y),
            x,
        )
}

/// Whether the order of addends never matters.
pub open spec fn addends_commute<A: Arithmetic>() -> bool {
    forall|sum: A::Wide, x: A::Wide, y: A::Wide| #[trigger]
        A::wide_plus_spec(A::wide_plus_spec(sum, x), y) == A::wide_plus_spec(
            A::wide_plus_spec(sum, y),
            x,
        )
}

/// Two orders of at most two things are the same or the reverse.
proof fn lemma_two<T>(a: Seq<T>, b: Seq<T>)
    requires
        a.to_multiset() == b.to_multiset(),
        a.len() <= 2,
    ensures
        a.len() == b.len(),
        a == b || (a.len() == 2 && a[0] == b[1] && a[1] == b[0]),
{
    a.to_multiset_ensures();
    b.to_multiset_ensures();
    if a.len() == 1 {
        assert(a.contains(a[0]));
        assert(b.to_multiset().count(a[0]) > 0);
        assert(b.contains(a[0]));
        assert(a =~= b);
    } else if a.len() == 2 {
        assert(a.contains(a[0]));
        assert(b.to_multiset().count(a[0]) > 0);
        assert(b.contains(a[0]));
        let i = if b[0] == a[0] {
            0int
        } else {
            1int
        };
        assert(b[i] == a[0]);
        assert(a.remove(0) =~= seq![a[1]]);
        assert(b.remove(i) =~= seq![b[1 - i]]);
        assert(a.remove(0).to_multiset() == b.remove(i).to_multiset());
        seq![a[1]].to_multiset_ensures();
        seq![b[1 - i]].to_multiset_ensures();
        assert(seq![a[1]].contains(a[1])) by {
            assert(seq![a[1]][0] == a[1]);
        }
        assert(seq![b[1 - i]].to_multiset().count(a[1]) > 0);
        assert(seq![b[1 - i]].contains(a[1]));
        assert(b[1 - i] == a[1]);
        assert(i == 0 ==> a =~= b);
    } else {
        assert(a =~= b);
    }
}

/// Whether what falls on a frame sums up alike from either end.
pub open spec fn turns_around<A: Arithmetic>(touching: Seq<Part<A::Real>>, frame: int) -> bool {
    let zero = A::wide_zero_spec();
    let value = adding_value::<A>(frame);
    let weight = adding_weight::<A>(frame);
    &&& touching.reverse().fold_left(zero, value) == touching.fold_left(zero, value)
    &&& touching.reverse().fold_left(zero, weight) == touching.fold_left(zero, weight)
}

/// Where a sum of two does not depend on which comes first, two parts sum up
/// alike from either end.
proof fn lemma_pairs_turn<A: Arithmetic>(parts: Seq<Part<A::Real>>, frame: int)
    requires
        pairs_commute::<A>(),
        parts.len() <= 2,
    ensures
        turns_around::<A>(parts, frame),
{
    let back = parts.reverse();
    if parts.len() < 2 {
        assert(back =~= parts);
    } else {
        reveal_with_fuel(Seq::fold_left, 3);
        assert(parts.drop_last().drop_last() =~= Seq::empty());
        assert(back.drop_last().drop_last() =~= Seq::empty());
        assert(parts.drop_last().last() == parts[0] && back.drop_last().last() == back[0]);
    }
}

/// A mix ends where the part that ends last does.
pub proof fn law_a_mix_ends_with_its_last_part<A: Arithmetic>(parts: Seq<Part<A::Real>>)
    ensures
        forall|i: int|
            0 <= i < parts.len() ==> (#[trigger] parts[i]).end() <= mixed::<A>(parts).values.len(),
        parts.len() > 0 ==> exists|i: int|
            0 <= i < parts.len() && (#[trigger] parts[i]).end() == mixed::<A>(parts).values.len(),
        parts.len() == 0 ==> mixed::<A>(parts).values.len() == 0,
    decreases parts.len(),
{
    assert forall|i: int| 0 <= i < parts.len() implies (#[trigger] parts[i]).end() <= mixed::<A>(
        parts,
    ).values.len() by {
        lemma_mix_reaches::<A>(parts, i);
    }
    if parts.len() > 0 {
        let earlier = parts.drop_last();
        law_a_mix_ends_with_its_last_part::<A>(earlier);
        let count = mixed::<A>(parts).values.len();
        let last = parts.len() - 1;
        if parts[last].end() != count {
            let i = choose|i: int|
                0 <= i < earlier.len() && (#[trigger] earlier[i]).end() == mixed::<A>(
                    earlier,
                ).values.len();
            assert(parts[i].end() == count);
        }
    }
}

/// A frame on which no weight fell is silent.
pub proof fn law_frames_without_weight_are_silent<A: Arithmetic>(
    parts: Seq<Part<A::Real>>,
    frame: int,
)
    requires
        0 <= frame < mixed::<A>(parts).values.len(),
        !A::wide_exceeds_spec(
            touching(parts, frame).fold_left(A::wide_zero_spec(), adding_weight::<A>(frame)),
            A::wide_zero_spec(),
        ),
    ensures
        sample::<A>(mixed::<A>(parts), frame) == A::zero_spec(),
{
    law_a_frame_sums_what_touches_it::<A>(parts, frame);
}

/// The sum of the weights of the first `count` parts at a frame.
pub open spec fn partial_weight<A: Arithmetic>(
    parts: Seq<Part<A::Real>>,
    frame: int,
    count: int,
) -> A::Wide {
    parts.take(count).fold_left(A::wide_zero_spec(), adding_weight::<A>(frame))
}

/// Whether a factor is exact at a frame: its product with each sum of the
/// weights that fall there, as they come in, is the product with the sum
/// before it plus the product with the weight that was added, and the product
/// with all of them over all of them is the factor again.
pub open spec fn exact_at<A: Arithmetic>(
    touching: Seq<Part<A::Real>>,
    frame: int,
    value: A::Real,
) -> bool {
    let factor = A::widen_spec(value);
    let total = partial_weight::<A>(touching, frame, touching.len() as int);
    &&& forall|n: int|
        1 <= n <= touching.len() ==> A::wide_times_spec(
            factor,
            #[trigger] partial_weight::<A>(touching, frame, n),
        ) == A::wide_plus_spec(
            if n == 1 {
                A::wide_zero_spec()
            } else {
                A::wide_times_spec(factor, partial_weight::<A>(touching, frame, n - 1))
            },
            A::wide_times_spec(
                factor,
                A::widen_spec(touching[n - 1].window[frame - touching[n - 1].offset]),
            ),
        )
    &&& A::narrow_spec(A::wide_over_spec(A::wide_times_spec(factor, total), total)) == value
}

/// What touches a frame carries the constant there.
proof fn lemma_touching_constant<R>(parts: Seq<Part<R>>, value: R, frame: int)
    requires
        constant(parts, value),
    ensures
        forall|i: int|
            0 <= i < touching(parts, frame).len() ==> (#[trigger] touching(
                parts,
                frame,
            )[i]).segment[frame - touching(parts, frame)[i].offset] == value,
    decreases parts.len(),
{
    if parts.len() > 0 {
        let earlier = parts.drop_last();
        assert forall|i: int, j: int|
            0 <= i < earlier.len() && 0 <= j < earlier[i].segment.len() implies
            #[trigger] earlier[i].segment[j] == value by {
            assert(parts[i].segment[j] == value);
        }
        lemma_touching_constant(earlier, value, frame);
        let last = parts.last();
        let before = touching(earlier, frame);
        if touches(last, frame) {
            assert(parts[parts.len() - 1].segment[frame - last.offset] == value);
            assert(touching(parts, frame) == before.push(last));
        }
        assert forall|i: int| 0 <= i < touching(parts, frame).len() implies (#[trigger] touching(
            parts,
            frame,
        )[i]).segment[frame - touching(parts, frame)[i].offset] == value by {
            if i < before.len() {
                assert(touching(parts, frame)[i] == before[i]);
            }
        }
    }
}

pub proof fn lemma_constant_sum<A: Arithmetic>(
    touching: Seq<Part<A::Real>>,
    frame: int,
    value: A::Real,
    count: int,
)
    requires
        exact_at::<A>(touching, frame, value),
        forall|i: int|
            0 <= i < touching.len() ==> (#[trigger] touching[i]).segment[frame
                - touching[i].offset] == value,
        0 <= count <= touching.len(),
    ensures
        touching.take(count).fold_left(A::wide_zero_spec(), adding_value::<A>(frame)) == if count
            == 0 {
            A::wide_zero_spec()
        } else {
            A::wide_times_spec(
                A::widen_spec(value),
                partial_weight::<A>(touching, frame, count),
            )
        },
    decreases count,
{
    if count > 0 {
        lemma_constant_sum::<A>(touching, frame, value, count - 1);
        let first = touching.take(count);
        assert(first.drop_last() =~= touching.take(count - 1));
        assert(first.last() == touching[count - 1]);
        assert(touching[count - 1].segment[frame - touching[count - 1].offset] == value);
        let zero = A::wide_zero_spec();
        let added = adding_value::<A>(frame);
        assert(first.fold_left(zero, added) == added(
            first.drop_last().fold_left(zero, added),
            first.last(),
        ));
        assert(A::wide_times_spec(
            A::widen_spec(value),
            partial_weight::<A>(touching, frame, count),
        ) == A::wide_plus_spec(
            if count == 1 {
                A::wide_zero_spec()
            } else {
                A::wide_times_spec(
                    A::widen_spec(value),
                    partial_weight::<A>(touching, frame, count - 1),
                )
            },
            A::wide_times_spec(
                A::widen_spec(value),
                A::widen_spec(
                    touching[count - 1].window[frame - touching[count - 1].offset],
                ),
            ),
        ));
    }
}

/// A constant comes back at every frame on which a weight fell, seams
/// included: where every segment carries the same value, the normalisation
/// returns it, as long as the value is exact for the weights that fall there.
pub proof fn law_a_constant_comes_back<A: Arithmetic>(
    parts: Seq<Part<A::Real>>,
    value: A::Real,
    frame: int,
)
    requires
        constant(parts, value),
        0 <= frame < mixed::<A>(parts).values.len(),
        touching(parts, frame).len() > 0,
        exact_at::<A>(touching(parts, frame), frame, value),
        A::wide_exceeds_spec(mixed::<A>(parts).weights[frame], A::wide_zero_spec()),
    ensures
        sample::<A>(mixed::<A>(parts), frame) == value,
{
    let all = touching(parts, frame);
    law_a_frame_sums_what_touches_it::<A>(parts, frame);
    lemma_touching_constant(parts, value, frame);
    lemma_constant_sum::<A>(all, frame, value, all.len() as int);
    assert(all.take(all.len() as int) =~= all);
}

/// Segments arrive in any order: two orders of the same parts give mixes of one
/// length, and the same sample at every frame that at most two of them touch,
/// as long as those two sum up alike from either end, which they do where a sum
/// of two never depends on which comes first. Where the order of addends never
/// matters, the mixes are the same throughout.
pub proof fn law_segments_arrive_in_any_order<A: Arithmetic>(
    a: Seq<Part<A::Real>>,
    b: Seq<Part<A::Real>>,
)
    requires
        a.to_multiset() == b.to_multiset(),
    ensures
        mixed::<A>(a).values.len() == mixed::<A>(b).values.len(),
        forall|frame: int|
            0 <= frame < mixed::<A>(a).values.len() && touching(a, frame).len() <= 2
                && turns_around::<A>(touching(a, frame), frame) ==> #[trigger] sample::<A>(
                mixed::<A>(a),
                frame,
            ) == sample::<A>(mixed::<A>(b), frame),
        forall|frame: int|
            pairs_commute::<A>() && 0 <= frame < mixed::<A>(a).values.len() && touching(
                a,
                frame,
            ).len() <= 2 ==> #[trigger] sample::<A>(mixed::<A>(a), frame) == sample::<A>(
                mixed::<A>(b),
                frame,
            ),
        addends_commute::<A>() ==> mixed::<A>(a) == mixed::<A>(b),
{
    lemma_no_shorter::<A>(a, b);
    lemma_no_shorter::<A>(b, a);
    lemma_lengths::<A>(a);
    lemma_lengths::<A>(b);
    let one = mixed::<A>(a);
    let other = mixed::<A>(b);
    assert forall|frame: int|
        0 <= frame < one.values.len() && touching(a, frame).len() <= 2 && turns_around::<A>(
            touching(a, frame),
            frame,
        ) implies #[trigger] sample::<A>(one, frame) == sample::<A>(other, frame) by {
        law_a_frame_sums_what_touches_it::<A>(a, frame);
        law_a_frame_sums_what_touches_it::<A>(b, frame);
        lemma_touching_alike(a, b, frame);
        lemma_two(touching(a, frame), touching(b, frame));
        if touching(a, frame) != touching(b, frame) {
            assert(touching(b, frame) =~= touching(a, frame).reverse());
        }
    }
    assert forall|frame: int|
        pairs_commute::<A>() && 0 <= frame < one.values.len() && touching(a, frame).len()
            <= 2 implies #[trigger] sample::<A>(one, frame) == sample::<A>(other, frame) by {
        lemma_pairs_turn::<A>(touching(a, frame), frame);
    }
    if addends_commute::<A>() {
        assert forall|frame: int| 0 <= frame < one.values.len() implies #[trigger] one.values[frame]
            == other.values[frame] && one.weights[frame] == other.weights[frame] by {
            law_a_frame_sums_what_touches_it::<A>(a, frame);
            law_a_frame_sums_what_touches_it::<A>(b, frame);
            lemma_touching_alike(a, b, frame);
            assert(commutative_foldl(adding_value::<A>(frame)));
            assert(commutative_foldl(adding_weight::<A>(frame)));
            lemma_fold_left_permutation(
                touching(a, frame),
                touching(b, frame),
                adding_value::<A>(frame),
                A::wide_zero_spec(),
            );
            lemma_fold_left_permutation(
                touching(a, frame),
                touching(b, frame),
                adding_weight::<A>(frame),
                A::wide_zero_spec(),
            );
        }
        assert(one.values =~= other.values);
        assert forall|frame: int| 0 <= frame < one.weights.len() implies
            #[trigger] one.weights[frame] == other.weights[frame] by {
            assert(one.values[frame] == other.values[frame]);
        }
        assert(one.weights =~= other.weights);
    }
}

/// What a finished mix gives does not depend on the order in which its parts
/// arrived, where at most two overlap and sum up alike from either end.
pub proof fn law_finishing_does_not_depend_on_the_order<A: Arithmetic>(
    a: Seq<Part<A::Real>>,
    b: Seq<Part<A::Real>>,
)
    requires
        a.to_multiset() == b.to_multiset(),
        forall|frame: int|
            0 <= frame < mixed::<A>(a).values.len() ==> (#[trigger] touching(a, frame)).len() <= 2
                && turns_around::<A>(touching(a, frame), frame),
    ensures
        samples::<A>(mixed::<A>(a), 0, mixed::<A>(a).values.len()) == samples::<A>(
            mixed::<A>(b),
            0,
            mixed::<A>(b).values.len(),
        ),
{
    law_segments_arrive_in_any_order::<A>(a, b);
    let count = mixed::<A>(a).values.len();
    assert forall|frame: int| 0 <= frame < count implies #[trigger] sample::<A>(
        mixed::<A>(a),
        frame,
    ) == sample::<A>(mixed::<A>(b), frame) by {
        assert(touching(a, frame).len() <= 2);
    }
    assert(samples::<A>(mixed::<A>(a), 0, count) =~= samples::<A>(mixed::<A>(b), 0, count));
}

} // verus!
