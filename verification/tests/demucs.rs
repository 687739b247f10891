//! The stems, the chunk plan and the seam.

use stemsplits::arithmetic::Arithmetic;
use stemsplits::demucs::{triangular_weight, ChunkPlan, Geometry, Overlap, StemKind};
use stemsplits::seam::OverlapAdd;

struct Float;

impl Arithmetic for Float {
    type Real = f32;
    type Wide = f64;

    fn zero() -> f32 {
        0.0
    }
    fn one() -> f32 {
        1.0
    }
    fn lowest() -> f32 {
        f32::MIN
    }
    fn frac_1_sqrt_2() -> f32 {
        std::f32::consts::FRAC_1_SQRT_2
    }
    fn literal(numerator: u32, denominator: u32) -> f32 {
        (numerator as f64 / denominator as f64) as f32
    }
    fn from_bits(bits: u32) -> f32 {
        f32::from_bits(bits)
    }
    fn from_count(count: usize) -> f32 {
        count as f32
    }
    fn plus(a: f32, b: f32) -> f32 {
        a + b
    }
    fn minus(a: f32, b: f32) -> f32 {
        a - b
    }
    fn times(a: f32, b: f32) -> f32 {
        a * b
    }
    fn over(a: f32, b: f32) -> f32 {
        a / b
    }
    fn larger(a: f32, b: f32) -> f32 {
        a.max(b)
    }
    fn power(base: f32, exponent: f32) -> f32 {
        base.powf(exponent)
    }
    fn negated(a: f32) -> f32 {
        -a
    }
    fn exponential(a: f32) -> f32 {
        a.exp()
    }
    fn logarithm(a: f32) -> f32 {
        a.ln()
    }
    fn square_root(a: f32) -> f32 {
        a.sqrt()
    }
    fn sine(a: f32) -> f32 {
        a.sin()
    }
    fn cosine(a: f32) -> f32 {
        a.cos()
    }
    fn error_function(a: f32) -> f32 {
        libm::erff(a)
    }
    fn exceeds(a: f32, b: f32) -> bool {
        a > b
    }
    fn wide_zero() -> f64 {
        0.0
    }
    fn wide_count(count: usize) -> f64 {
        count as f64
    }
    fn widen(a: f32) -> f64 {
        a as f64
    }
    fn narrow(a: f64) -> f32 {
        a as f32
    }
    fn wide_plus(a: f64, b: f64) -> f64 {
        a + b
    }
    fn wide_minus(a: f64, b: f64) -> f64 {
        a - b
    }
    fn wide_times(a: f64, b: f64) -> f64 {
        a * b
    }
    fn wide_over(a: f64, b: f64) -> f64 {
        a / b
    }
    fn wide_square(a: f64) -> f64 {
        a.powi(2)
    }
    fn wide_square_root(a: f64) -> f64 {
        a.sqrt()
    }
    fn wide_exceeds(a: f64, b: f64) -> bool {
        a > b
    }
}

#[test]
fn contract_plan_matches_the_swift_contract() {
    let plan = ChunkPlan::contract();
    assert_eq!(plan.stride(), 257_985);
    assert_eq!(plan.offsets(343_980), vec![0]);
    let offsets = plan.offsets(1_000_000);
    assert_eq!(offsets[0], 0);
    assert_eq!(offsets.last(), Some(&(1_000_000 - 343_980)));
}

#[test]
fn offsets_are_ordered_and_cover_the_tail() {
    let plan = ChunkPlan::contract();
    let offsets = plan.offsets(2_000_000);
    assert!(offsets.windows(2).all(|pair| pair[0] < pair[1]));
    assert_eq!(offsets.last(), Some(&(2_000_000 - 343_980)));
}

#[test]
fn overlap_add_reconstructs_a_constant() {
    // Every segment carries the same constant; the weight normalisation
    // must return that constant everywhere, seams included.
    let plan = ChunkPlan::contract();
    let total = 900_000;
    let window = triangular_weight::<Float>(plan.segment_frames());
    let constant = 0.5f32;
    let segment = vec![constant; plan.segment_frames()];

    let mut accumulator = OverlapAdd::<Float>::new();
    for offset in plan.offsets(total) {
        accumulator.add(offset, &segment, &window);
    }
    let output = accumulator.finish();
    assert!(output.len() >= total);
    for value in &output[..total] {
        assert!((value - constant).abs() < 1e-4, "got {value}");
    }
}

#[test]
fn streaming_flush_is_identical_to_flushing_at_the_end() {
    let plan = ChunkPlan::contract();
    let window = triangular_weight::<Float>(plan.segment_frames());
    let constant = 0.25f32;
    let segment = vec![constant; plan.segment_frames()];
    let total = 800_000;
    let offsets = plan.offsets(total);

    let mut whole = OverlapAdd::<Float>::new();
    for offset in &offsets {
        whole.add(*offset, &segment, &window);
    }
    let batch = whole.finish();

    let mut streamed = OverlapAdd::<Float>::new();
    let mut pieces: Vec<f32> = Vec::new();
    for (index, offset) in offsets.iter().enumerate() {
        streamed.add(*offset, &segment, &window);
        // Once the next segment has landed, everything before it is final.
        let boundary = offsets.get(index + 1).copied().unwrap_or(total);
        pieces.extend(streamed.flush_until(boundary));
    }
    assert_eq!(batch, pieces);
}

#[test]
fn stems_have_titles_and_places() {
    let titles: Vec<&str> = StemKind::ALL.iter().map(|stem| stem.title()).collect();
    assert_eq!(titles, vec!["DRUMS", "BASS", "OTHER", "VOCALS"]);
    for (place, stem) in StemKind::ALL.iter().enumerate() {
        assert_eq!(stem.model_index(), place);
    }
}

#[test]
fn a_small_plan_is_cut_by_hand() {
    let plan = ChunkPlan {
        geometry: Geometry { segment: 10, ..Geometry::contract() },
        overlap: Overlap { numerator: 1, denominator: 4 },
    };
    // 7.5 frames round up.
    assert_eq!(plan.stride(), 8);
    assert_eq!(plan.offsets(0), vec![0]);
    assert_eq!(plan.offsets(26), vec![0, 8, 16]);
    assert_eq!(plan.offsets(27), vec![0, 8, 16, 17]);
    let whole = ChunkPlan { overlap: Overlap { numerator: 5, denominator: 4 }, ..plan };
    assert_eq!(whole.stride(), 0);
    assert_eq!(whole.offsets(10), vec![0]);
}

#[test]
fn the_triangle_peaks_at_one() {
    assert_eq!(triangular_weight::<Float>(0), Vec::<f32>::new());
    assert_eq!(triangular_weight::<Float>(1), vec![1.0]);
    assert_eq!(triangular_weight::<Float>(4), vec![0.5, 1.0, 1.0, 0.5]);
    let odd = triangular_weight::<Float>(5);
    assert_eq!(odd[2], 1.0);
    assert_eq!(odd[0], odd[4]);
    assert_eq!(odd[1], odd[3]);
}

#[test]
fn segments_arrive_in_either_order() {
    let window = [0.5, 1.0, 0.5];
    let mut forward = OverlapAdd::<Float>::new();
    forward.add(0, &[1.0, 2.0, 3.0], &window);
    forward.add(2, &[7.0, 8.0, 9.0], &window);
    let mut backward = OverlapAdd::<Float>::new();
    backward.add(2, &[7.0, 8.0, 9.0], &window);
    backward.add(0, &[1.0, 2.0, 3.0], &window);
    let expected = vec![1.0, 2.0, 5.0, 8.0, 9.0];
    assert_eq!(forward.finish(), expected);
    assert_eq!(backward.finish(), expected);
}

#[test]
fn frames_without_weight_are_silent() {
    let mut accumulator = OverlapAdd::<Float>::default();
    accumulator.add(2, &[4.0], &[0.25]);
    assert_eq!(accumulator.flush_until(1), vec![0.0]);
    assert_eq!(accumulator.flush_until(100), vec![0.0, 4.0]);
    assert_eq!(accumulator.finish(), Vec::<f32>::new());
}

#[test]
fn three_segments_arrive_in_any_order() {
    let window = [0.5, 1.0, 1.0, 0.5];
    let parts = [
        (0, [1.0, 2.0, 3.0, 4.0]),
        (3, [8.0, 5.0, 6.0, 7.0]),
        (6, [9.0, 10.0, 11.0, 12.0]),
    ];
    let orders = [[0, 1, 2], [0, 2, 1], [1, 0, 2], [1, 2, 0], [2, 0, 1], [2, 1, 0]];
    let expected = vec![1.0, 2.0, 3.0, 6.0, 5.0, 6.0, 8.0, 10.0, 11.0, 12.0];
    for order in orders {
        let mut accumulator = OverlapAdd::<Float>::new();
        for place in order {
            accumulator.add(parts[place].0, &parts[place].1, &window);
        }
        assert_eq!(accumulator.finish(), expected, "{order:?}");
    }
}

#[test]
fn a_copy_of_the_seam_goes_its_own_way() {
    let mut first = OverlapAdd::<Float>::new();
    first.add(0, &[1.0, 2.0], &[1.0, 1.0]);
    let mut second = first.clone();
    second.add(2, &[3.0], &[1.0]);
    assert_eq!(first.finish(), vec![1.0, 2.0]);
    assert_eq!(second.finish(), vec![1.0, 2.0, 3.0]);
}
