//! The parts of the separation that are not the model: what a stem is, how a
//! track is cut into overlapping segments, and how those segments are sewn
//! back together.
//!
//! A cloud fan-out and a phone must use the *same* plan, or the two produce
//! different stems for the same record. One definition, many callers.
//!
//! Nothing here runs a model. The segment is the model's own inference unit,
//! so the plan is what makes the segments independent and parallelisable.

use vstd::prelude::*;

use crate::arithmetic::{lawful, Arithmetic};

verus! {

/// The part of a mix a stem is. Four, because the model separates four.
#[derive(Clone, Copy, Debug, PartialEq, Eq, Hash, Structural)]
pub enum StemKind {
    Drums,
    Bass,
    Other,
    Vocals,
}

impl StemKind {
    /// The four parts, in the order of the model's output groups.
    pub const ALL: [StemKind; 4] = [
        StemKind::Drums,
        StemKind::Bass,
        StemKind::Other,
        StemKind::Vocals,
    ];

    /// The name that a part is shown under.
    pub open spec fn title_spec(self) -> Seq<char> {
        match self {
            StemKind::Drums => "DRUMS"@,
            StemKind::Bass => "BASS"@,
            StemKind::Other => "OTHER"@,
            StemKind::Vocals => "VOCALS"@,
        }
    }

    /// The name that a part is shown under.
    pub fn title(self) -> (name: &'static str)
        ensures
            name@ == self.title_spec(),
    {
        match self {
            StemKind::Drums => "DRUMS",
            StemKind::Bass => "BASS",
            StemKind::Other => "OTHER",
            StemKind::Vocals => "VOCALS",
        }
    }

    /// Which of the model's four output groups a part comes back in.
    pub open spec fn model_index_spec(self) -> usize {
        match self {
            StemKind::Drums => 0,
            StemKind::Bass => 1,
            StemKind::Other => 2,
            StemKind::Vocals => 3,
        }
    }

    /// Which of the model's four output groups this part comes back in.
    pub fn model_index(self) -> (index: usize)
        ensures
            index == self.model_index_spec(),
            index < 4,
    {
        match self {
            StemKind::Drums => 0,
            StemKind::Bass => 1,
            StemKind::Other => 2,
            StemKind::Vocals => 3,
        }
    }
}

/// The parts stand in `ALL` in the order of their output groups, and no two
/// parts share a group.
pub proof fn law_stems_match_output_groups(a: StemKind, b: StemKind)
    ensures
        StemKind::ALL@[a.model_index_spec() as int] == a,
        a.model_index_spec() == b.model_index_spec() ==> a == b,
        StemKind::ALL@.len() == 4,
{
}

/// The sizes that the transform and the model agree on.
#[derive(Clone, Copy, Debug, PartialEq, Eq, Structural)]
pub struct Geometry {
    /// Frames per second.
    pub sample_rate: usize,
    /// Audio channels.
    pub channels: usize,
    /// Frames in one segment.
    pub segment: usize,
    /// Points of the Fourier transform.
    pub fft_size: usize,
    /// Frequency bins kept: the Nyquist bin is dropped.
    pub bins: usize,
    /// Spectral frames in one segment.
    pub frames: usize,
}

impl Geometry {
    /// The shipped sizes: 7.8 seconds of 44.1 kHz stereo.
    pub fn contract() -> (geometry: Geometry)
        ensures
            geometry == (Geometry {
                sample_rate: 44_100,
                channels: 2,
                segment: 343_980,
                fft_size: 4_096,
                bins: 2_048,
                frames: 336,
            }),
    {
        Geometry {
            sample_rate: 44_100,
            channels: 2,
            segment: 343_980,
            fft_size: 4_096,
            bins: 2_048,
            frames: 336,
        }
    }
}

/// The share of a segment that the next one repeats, as a fraction.
#[derive(Clone, Copy, Debug, PartialEq, Eq, Structural)]
pub struct Overlap {
    pub numerator: i32,
    pub denominator: u32,
}

/// How a track is cut into model segments.
///
/// The shipped plan is the contract geometry's 343,980-frame segment with 25%
/// overlap, so a segment owns 257,985 new frames.
#[derive(Clone, Copy, Debug, PartialEq, Eq, Structural)]
pub struct ChunkPlan {
    pub geometry: Geometry,
    pub overlap: Overlap,
}

/// `segment * (1 - overlap)` rounded to the nearest whole frame, halves up;
/// nothing where the overlap is a whole segment or more.
pub open spec fn advance(segment: nat, overlap: Overlap) -> nat {
    let kept = overlap.denominator - overlap.numerator;
    if kept <= 0 {
        0
    } else {
        let rounded = ((2 * segment * kept + overlap.denominator) / (2
            * overlap.denominator as int)) as nat;
        if rounded <= usize::MAX {
            rounded
        } else {
            usize::MAX as nat
        }
    }
}

/// The start frames for a track of `total` frames: every multiple of `stride`
/// from which a whole segment fits, then the last frame from which one fits.
/// A track no longer than a segment is one segment.
pub open spec fn starts(total: nat, segment: nat, stride: nat) -> Seq<usize> {
    if total <= segment {
        seq![0usize]
    } else {
        let last = (total - segment) as nat;
        let regular = Seq::new(last / stride + 1, |i: int| (i * stride) as usize);
        if last % stride == 0 {
            regular
        } else {
            regular.push(last as usize)
        }
    }
}

impl ChunkPlan {
    /// The shipped plan: the contract geometry and a quarter overlap.
    pub fn contract() -> (plan: ChunkPlan)
        ensures
            plan.wf(),
            plan.geometry.segment == 343_980,
            plan.geometry.sample_rate == 44_100,
            plan.geometry.channels == 2,
            plan.geometry.fft_size == 4_096,
            plan.geometry.bins == 2_048,
            plan.geometry.frames == 336,
            plan.overlap == (Overlap { numerator: 1, denominator: 4 }),
            advance(plan.geometry.segment as nat, plan.overlap) == 257_985,
    {
        ChunkPlan {
            geometry: Geometry::contract(),
            overlap: Overlap { numerator: 1, denominator: 4 },
        }
    }

    /// The overlap is a fraction.
    pub open spec fn wf(self) -> bool {
        self.overlap.denominator > 0
    }

    /// Frames in one segment.
    pub fn segment_frames(&self) -> (frames: usize)
        ensures
            frames == self.geometry.segment,
    {
        self.geometry.segment
    }

    /// New frames each segment advances past the previous one.
    pub fn stride(&self) -> (frames: usize)
        requires
            self.wf(),
        ensures
            frames == advance(self.geometry.segment as nat, self.overlap),
    {
        let segment = self.segment_frames();
        let denominator = self.overlap.denominator;
        let kept = denominator as i64 - self.overlap.numerator as i64;
        if kept <= 0 {
            return 0;
        }
        let kept = kept as u128;
        proof {
            assert(0 <= 2 * segment * kept <= 2 * 0xffff_ffff_ffff_ffff * 0x1_ffff_ffff)
                by (nonlinear_arith)
                requires
                    0 <= segment <= 0xffff_ffff_ffff_ffff,
                    0 <= kept <= 0x1_ffff_ffff,
            ;
            assert(2 * segment * kept == 2 * (segment * kept)) by (nonlinear_arith);
        }
        let rounded = (2 * (segment as u128) * kept + denominator as u128) / (2
            * denominator as u128);
        if rounded <= usize::MAX as u128 {
            rounded as usize
        } else {
            usize::MAX
        }
    }

    /// The start frame of every segment. A short track is a single segment;
    /// a long one ends on a final segment pinned to the last full window.
    pub fn offsets(&self, total_frames: usize) -> (offsets: Vec<usize>)
        requires
            self.wf(),
            total_frames > self.geometry.segment ==> advance(
                self.geometry.segment as nat,
                self.overlap,
            ) > 0,
        ensures
            offsets@ == starts(
                total_frames as nat,
                self.geometry.segment as nat,
                advance(self.geometry.segment as nat, self.overlap),
            ),
    {
        let segment = self.segment_frames();
        let mut offsets: Vec<usize> = Vec::new();
        if total_frames <= segment {
            offsets.push(0);
            assert(offsets@ =~= seq![0usize]);
            return offsets;
        }
        let stride = self.stride();
        let last = total_frames - segment;
        let count = last / stride;
        let ghost regular = Seq::new((last / stride + 1) as nat, |i: int| (i * stride) as usize);
        let mut index: usize = 0;
        let mut offset: usize = 0;
        offsets.push(0);
        while index < count
            invariant
                stride > 0,
                count == last / stride,
                index <= count,
                offset == index * stride,
                regular == Seq::new((last / stride + 1) as nat, |i: int| (i * stride) as usize),
                offsets@ =~= regular.take(index + 1),
            decreases count - index,
        {
            proof {
                lemma_multiple_fits(last as int, stride as int, index + 1);
                assert((index + 1) * stride == index * stride + stride) by (nonlinear_arith);
            }
            offset = offset + stride;
            index = index + 1;
            offsets.push(offset);
        }
        proof {
            assert(regular.take(index + 1) =~= regular);
            vstd::arithmetic::div_mod::lemma_fundamental_div_mod(last as int, stride as int);
            assert(index * stride == stride * (last as int / stride as int)) by (nonlinear_arith)
                requires
                    index == last as int / stride as int,
            ;
        }
        if offset != last {
            offsets.push(last);
        }
        offsets
    }
}

/// A multiple of `step` up to `limit / step` times is at most `limit`.
proof fn lemma_multiple_fits(limit: int, step: int, times: int)
    requires
        limit >= 0,
        step > 0,
        0 <= times <= limit / step,
    ensures
        0 <= times * step <= limit,
{
    vstd::arithmetic::div_mod::lemma_fundamental_div_mod(limit, step);
    vstd::arithmetic::div_mod::lemma_mod_bound(limit, step);
    let q = limit / step;
    assert(0 <= times * step <= limit) by (nonlinear_arith)
        requires
            step > 0,
            0 <= times <= q,
            limit >= step * q,
    ;
}

/// Whether a frame lies in the segment that begins at one of the starts.
pub open spec fn covered(starts: Seq<usize>, segment: nat, frame: nat) -> bool {
    exists|i: int| 0 <= i < starts.len() && #[trigger] starts[i] <= frame < starts[i] + segment
}

/// The plan is ordered and covers the track: the first segment starts at zero
/// and the last is pinned to the end, starts increase by at most a stride, no
/// segment of a long track runs past its end, and where a stride is at most a
/// segment every frame lies in some segment.
pub proof fn law_starts_cover_the_track(total: nat, segment: nat, stride: nat)
    requires
        total <= usize::MAX,
        stride > 0,
    ensures
        starts(total, segment, stride).len() >= 1,
        starts(total, segment, stride)[0] == 0,
        starts(total, segment, stride).last() == (if total <= segment {
            0
        } else {
            total - segment
        }),
        forall|i: int, j: int|
            0 <= i < j < starts(total, segment, stride).len() ==> starts(total, segment, stride)[i]
                < starts(total, segment, stride)[j],
        forall|i: int|
            0 <= i < starts(total, segment, stride).len() - 1 ==> #[trigger] starts(
                total,
                segment,
                stride,
            )[i + 1] - starts(total, segment, stride)[i] <= stride,
        total >= segment ==> forall|i: int|
            0 <= i < starts(total, segment, stride).len() ==> #[trigger] starts(
                total,
                segment,
                stride,
            )[i] + segment <= total,
        stride <= segment ==> forall|frame: nat|
            frame < total ==> #[trigger] covered(starts(total, segment, stride), segment, frame),
{
    let s = starts(total, segment, stride);
    if total <= segment {
        if stride <= segment {
            assert forall|frame: nat| frame < total implies #[trigger] covered(
                s,
                segment,
                frame,
            ) by {
                assert(s[0] <= frame < s[0] + segment);
            }
        }
    } else {
        let last = (total - segment) as nat;
        let count = last / stride;
        vstd::arithmetic::div_mod::lemma_fundamental_div_mod(last as int, stride as int);
        vstd::arithmetic::div_mod::lemma_mod_bound(last as int, stride as int);
        assert(count * stride == stride * count) by (nonlinear_arith);
        assert forall|i: int| 0 <= i <= count implies s[i] == i * stride && 0 <= i * stride
            <= last by {
            lemma_multiple_fits(last as int, stride as int, i);
        }
        assert(0 * stride == 0) by (nonlinear_arith);
        assert forall|i: int, j: int| 0 <= i < j < s.len() implies s[i] < s[j] by {
            if j <= count {
                assert(i * stride < j * stride) by (nonlinear_arith)
                    requires
                        i < j,
                        stride > 0,
                ;
            } else {
                assert(i * stride <= count * stride) by (nonlinear_arith)
                    requires
                        i <= count,
                        stride > 0,
                ;
            }
        }
        assert forall|i: int| 0 <= i < s.len() - 1 implies #[trigger] s[i + 1] - s[i]
            <= stride by {
            assert((i + 1) * stride == i * stride + stride) by (nonlinear_arith);
        }
        assert forall|i: int| 0 <= i < s.len() implies #[trigger] s[i] + segment <= total by {
            if i <= count {
                lemma_multiple_fits(last as int, stride as int, i);
            }
        }
        if stride <= segment {
            assert forall|frame: nat| frame < total implies #[trigger] covered(
                s,
                segment,
                frame,
            ) by {
                if frame >= last {
                    let i = s.len() - 1;
                    assert(s[i] == last);
                    assert(s[i] <= frame < s[i] + segment);
                } else {
                    let i = (frame / stride) as int;
                    vstd::arithmetic::div_mod::lemma_fundamental_div_mod(
                        frame as int,
                        stride as int,
                    );
                    vstd::arithmetic::div_mod::lemma_mod_bound(frame as int, stride as int);
                    vstd::arithmetic::div_mod::lemma_div_is_ordered(
                        frame as int,
                        last as int,
                        stride as int,
                    );
                    assert(i * stride == stride * i) by (nonlinear_arith);
                    vstd::arithmetic::div_mod::lemma_div_pos_is_pos(frame as int, stride as int);
                    assert(s[i] <= frame < s[i] + segment);
                }
            }
        }
    }
}

/// A segment never advances by more than its own length, unless the overlap is
/// negative.
pub proof fn law_segments_overlap(segment: nat, overlap: Overlap)
    requires
        overlap.denominator > 0,
        overlap.numerator >= 0,
    ensures
        advance(segment, overlap) <= segment,
{
    let denominator = overlap.denominator as int;
    let kept = denominator - overlap.numerator;
    if kept > 0 {
        let top = 2 * segment * kept + denominator;
        let bound = segment * (2 * denominator) + denominator;
        assert(top <= bound) by (nonlinear_arith)
            requires
                top == 2 * segment * kept + denominator,
                bound == segment * (2 * denominator) + denominator,
                kept <= denominator,
        ;
        vstd::arithmetic::div_mod::lemma_div_is_ordered(top, bound, 2 * denominator);
        vstd::arithmetic::div_mod::lemma_fundamental_div_mod_converse(
            bound,
            2 * denominator,
            segment as int,
            denominator,
        );
    }
}

/// The triangle over `n` frames before it is normalised: up by one from one,
/// then down by one to one.
pub open spec fn ramp(n: nat, i: int) -> usize {
    if i < n / 2 {
        (i + 1) as usize
    } else {
        (n - i) as usize
    }
}

/// The largest of zero and the values, taken from the left.
pub open spec fn peak<A: Arithmetic>(values: Seq<A::Real>) -> A::Real
    decreases values.len(),
{
    if values.len() == 0 {
        A::zero_spec()
    } else {
        A::larger_spec(peak::<A>(values.drop_last()), values.last())
    }
}

/// The triangle as reals.
pub open spec fn triangle<A: Arithmetic>(n: nat) -> Seq<A::Real> {
    Seq::new(n, |i: int| A::from_count_spec(ramp(n, i)))
}

/// The triangle scaled by one over its peak, where the peak is positive.
pub open spec fn normalised_triangle<A: Arithmetic>(n: nat) -> Seq<A::Real> {
    let values = triangle::<A>(n);
    let maximum = peak::<A>(values);
    if A::exceeds_spec(maximum, A::zero_spec()) {
        Seq::new(
            n,
            |i: int| A::times_spec(values[i], A::over_spec(A::one_spec(), maximum)),
        )
    } else {
        values
    }
}

/// The triangle is symmetric, at least one everywhere, and rises to half of
/// its length, rounded up, in the middle.
pub proof fn law_ramp_is_a_triangle(n: nat, i: int)
    requires
        n <= usize::MAX,
        0 <= i < n,
    ensures
        1 <= ramp(n, i) <= (n + 1) / 2,
        ramp(n, i) == ramp(n, n - 1 - i),
        ramp(n, (n / 2) as int) == (n + 1) / 2,
{
}

/// The triangular overlap weight over one segment, normalised to peak one.
pub fn triangular_weight<A: Arithmetic>(segment_frames: usize) -> (weights: Vec<A::Real>)
    requires
        lawful::<A>(),
    ensures
        weights@ == normalised_triangle::<A>(segment_frames as nat),
{
    let half = segment_frames / 2;
    let ghost n = segment_frames as nat;
    let mut values: Vec<A::Real> = Vec::with_capacity(segment_frames);
    let mut maximum = A::zero();
    let mut index: usize = 0;
    while index < segment_frames
        invariant
            lawful::<A>(),
            n == segment_frames,
            half == segment_frames / 2,
            index <= segment_frames,
            values@ =~= triangle::<A>(n).take(index as int),
            maximum == peak::<A>(values@),
        decreases segment_frames - index,
    {
        let step = if index < half {
            index + 1
        } else {
            segment_frames - index
        };
        let value = A::from_count(step);
        proof {
            assert(values@.push(value).drop_last() =~= values@);
            assert(values@.push(value).last() == value);
        }
        maximum = A::larger(maximum, value);
        values.push(value);
        index = index + 1;
    }
    proof {
        assert(triangle::<A>(n).take(index as int) =~= triangle::<A>(n));
    }
    if A::exceeds(maximum, A::zero()) {
        let scale = A::over(A::one(), maximum);
        let mut scaled: Vec<A::Real> = Vec::with_capacity(segment_frames);
        let mut index: usize = 0;
        while index < segment_frames
            invariant
                lawful::<A>(),
                n == segment_frames,
                index <= segment_frames,
                values@ == triangle::<A>(n),
                maximum == peak::<A>(values@),
                A::exceeds_spec(maximum, A::zero_spec()),
                scale == A::over_spec(A::one_spec(), maximum),
                scaled@ =~= normalised_triangle::<A>(n).take(index as int),
            decreases segment_frames - index,
        {
            scaled.push(A::times(values[index], scale));
            index = index + 1;
        }
        proof {
            assert(normalised_triangle::<A>(n).take(index as int) =~= normalised_triangle::<A>(n));
        }
        scaled
    } else {
        values
    }
}

} // verus!
