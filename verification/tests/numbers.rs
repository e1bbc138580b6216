use engram::vector;
use engram::vector::float::{Float, Operation};
use engram::vector::metric::{norm, normalize, prepare, Metric};
use engram::vector::rng::Rng;
use engram::vector::store::VectorStore;

fn num(x: Float) -> f32 {
    f32::from_bits(x.bits)
}

fn float(x: f32) -> Float {
    Float { bits: x.to_bits() }
}

fn floats(v: &[f32]) -> Vec<Float> {
    v.iter().map(|x| float(*x)).collect()
}

fn arith(op: Operation<'_>) -> Float {
    float(match op {
        Operation::Dot(a, b) => a.iter().zip(b).map(|(x, y)| num(*x) * num(*y)).sum(),
        Operation::SquaredDistance(a, b) => a
            .iter()
            .zip(b)
            .map(|(x, y)| (num(*x) - num(*y)) * (num(*x) - num(*y)))
            .sum(),
        Operation::Subtract(a, b) => num(a) - num(b),
        Operation::Divide(a, b) => num(a) / num(b),
        Operation::SquareRoot(a) => num(a).sqrt(),
    })
}

fn distance(metric: Metric, a: &[f32], b: &[f32]) -> f32 {
    num(metric.distance(&floats(a), &floats(b), &arith))
}

fn approx(a: f32, b: f32) {
    assert!((a - b).abs() < 1e-5, "{a} != {b}");
}

#[test]
fn norm_and_normalize() {
    approx(num(norm(&floats(&[3.0, 4.0]), &arith)), 5.0);
    let mut v = floats(&[3.0, 4.0]);
    normalize(&mut v, &arith);
    approx(num(norm(&v, &arith)), 1.0);
    approx(num(v[0]), 0.6);
    approx(num(v[1]), 0.8);
}

#[test]
fn zero_vector_normalizes_to_itself() {
    let mut v = floats(&[0.0, 0.0, 0.0]);
    normalize(&mut v, &arith);
    assert_eq!(v, floats(&[0.0, 0.0, 0.0]));
}

#[test]
fn l2_distance_is_euclidean() {
    approx(distance(Metric::L2, &[0.0, 0.0], &[3.0, 4.0]), 5.0);
}

#[test]
fn cosine_distance_of_identical_normalized_is_zero() {
    let mut a = floats(&[1.0, 2.0, 2.0]);
    normalize(&mut a, &arith);
    approx(num(Metric::Cosine.distance(&a, &a, &arith)), 0.0);
}

#[test]
fn cosine_distance_of_orthogonal_is_one() {
    approx(distance(Metric::Cosine, &[1.0, 0.0], &[0.0, 1.0]), 1.0);
}

#[test]
fn dot_distance_orders_by_negative_inner_product() {
    // Larger dot product => smaller (more negative) distance.
    let q = [1.0, 1.0];
    let near = distance(Metric::Dot, &q, &[2.0, 2.0]); // dot 4
    let far = distance(Metric::Dot, &q, &[0.0, 1.0]); // dot 1
    assert!(near < far);
    assert_eq!(near, -4.0);
}

#[test]
fn metric_parse_roundtrip() {
    for m in [Metric::Cosine, Metric::L2, Metric::Dot] {
        assert_eq!(Metric::parse(m.as_str()), Some(m));
    }
    assert_eq!(Metric::parse("COSINE"), Some(Metric::Cosine));
    assert_eq!(Metric::parse("euclidean"), Some(Metric::L2));
    assert_eq!(Metric::parse("ip"), Some(Metric::Dot));
    assert_eq!(Metric::parse("nope"), None);
}

#[test]
fn metric_tags_round_trip() {
    for m in [Metric::Cosine, Metric::L2, Metric::Dot] {
        assert_eq!(Metric::from_u8(m.to_u8()), Some(m));
    }
    assert_eq!(Metric::L2.to_u8(), 1);
    assert_eq!(Metric::from_u8(3), None);
    assert!(Metric::Cosine.normalizes());
    assert!(!Metric::L2.normalizes() && !Metric::Dot.normalizes());
}

#[test]
fn metric_names_are_bytes_of_any_kind() {
    assert_eq!(Metric::parse_bytes(b"Dot"), Some(Metric::Dot));
    assert_eq!(Metric::parse_bytes(b"L2\xff"), None);
    assert_eq!(Metric::parse("coſine"), None);
}

#[test]
fn only_the_cosine_metric_prepares() {
    let v = floats(&[3.0, 4.0]);
    assert_eq!(prepare(Metric::L2, v.clone(), &arith), v);
    assert_eq!(prepare(Metric::Dot, v.clone(), &arith), v);
    assert_eq!(prepare(Metric::Cosine, v, &arith), floats(&[0.6, 0.8]));
}

#[test]
fn encode_decode_roundtrip() {
    let v = floats(&[1.0, -2.5, 3.25, 0.0]);
    assert_eq!(vector::decode(&vector::encode(&v)), Some(v));
}

#[test]
fn decode_rejects_non_multiple_of_four() {
    assert_eq!(vector::decode(&[0, 1, 2]), None);
    assert_eq!(vector::decode(&[0, 1, 2, 3, 4]), None);
}

#[test]
fn decode_rejects_empty() {
    assert_eq!(vector::decode(&[]), None);
}

#[test]
fn decode_rejects_nan_and_inf() {
    assert_eq!(vector::decode(&vector::encode(&floats(&[f32::NAN]))), None);
    assert_eq!(vector::decode(&vector::encode(&floats(&[f32::INFINITY]))), None);
}

#[test]
fn encoding_is_little_endian() {
    assert_eq!(vector::encode(&floats(&[1.0])), vec![0, 0, 0x80, 0x3F]);
}

const SAMPLES: [f32; 12] = [
    0.0,
    -0.0,
    1.0,
    -1.0,
    1.5,
    -2.5,
    f32::MIN_POSITIVE,
    f32::MAX,
    f32::MIN,
    f32::INFINITY,
    f32::NEG_INFINITY,
    f32::NAN,
];

#[test]
fn numbers_compare_as_the_machine_compares_them() {
    for a in SAMPLES {
        assert_eq!(float(a).is_finite(), a.is_finite());
        for b in SAMPLES {
            assert_eq!(float(a).less(float(b)), a < b, "{a} {b}");
            let by_rank = float(a).total_rank() < float(b).total_rank();
            assert_eq!(by_rank, a.total_cmp(&b).is_lt(), "{a} {b}");
        }
    }
}

#[test]
fn negation_flips_the_sign() {
    for a in SAMPLES {
        assert_eq!(float(a).negate(), float(-a));
    }
    assert_eq!(num(Float::infinity()), f32::INFINITY);
}

fn unit(rng: &mut Rng) -> f64 {
    let u = rng.unit();
    u.numerator as f64 / u.denominator as f64
}

#[test]
fn unit_is_strictly_between_zero_and_one() {
    let mut rng = Rng::new(42);
    for _ in 0..100_000 {
        let u = unit(&mut rng);
        assert!(u > 0.0 && u < 1.0, "{u}");
    }
}

#[test]
fn is_deterministic_for_a_seed() {
    let mut a = Rng::new(7);
    let mut b = Rng::new(7);
    for _ in 0..1000 {
        assert_eq!(unit(&mut a), unit(&mut b));
    }
}

#[test]
fn mean_is_near_one_half() {
    let mut rng = Rng::new(123);
    let n = 200_000;
    let mean: f64 = (0..n).map(|_| unit(&mut rng)).sum::<f64>() / n as f64;
    assert!((mean - 0.5).abs() < 0.01, "mean={mean}");
}

#[test]
fn generator_follows_the_shift_register() {
    let mut state: u64 = 42 ^ 0x9E37_79B9_7F4A_7C15;
    let mut rng = Rng::new(42);
    for _ in 0..100 {
        state ^= state >> 12;
        state ^= state << 25;
        state ^= state >> 27;
        assert_eq!(rng.next_u64(), state.wrapping_mul(0x2545_F491_4F6C_DD1D));
    }
}

#[test]
fn seed_that_would_stick_at_zero_is_remapped() {
    let mut rng = Rng::new(0x9E37_79B9_7F4A_7C15);
    assert_ne!(rng.next_u64(), 0);
}

#[test]
fn push_assigns_sequential_ids() {
    let mut s = VectorStore::new(2);
    assert_eq!(s.push(&floats(&[1.0, 2.0])), 0);
    assert_eq!(s.push(&floats(&[3.0, 4.0])), 1);
    assert_eq!(s.len(), 2);
}

#[test]
fn get_returns_stored_slice() {
    let mut s = VectorStore::new(3);
    s.push(&floats(&[1.0, 2.0, 3.0]));
    s.push(&floats(&[4.0, 5.0, 6.0]));
    assert_eq!(s.get(0), &floats(&[1.0, 2.0, 3.0])[..]);
    assert_eq!(s.get(1), &floats(&[4.0, 5.0, 6.0])[..]);
}
