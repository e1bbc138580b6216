use engram::vector::float::{Float, Operation};
use engram::vector::{Index, Metric, Neighbor, VectorRegistry};

fn num(x: Float) -> f32 {
    f32::from_bits(x.bits)
}

fn float(x: f32) -> Float {
    Float { bits: x.to_bits() }
}

fn floats(v: &[f32]) -> Vec<Float> {
    v.iter().map(|x| float(*x)).collect()
}

fn arith(op: Operation<'_>) -> Float {
    float(match op {
        Operation::Dot(a, b) => a.iter().zip(b).map(|(x, y)| num(*x) * num(*y)).sum(),
        Operation::SquaredDistance(a, b) => a
            .iter()
            .zip(b)
            .map(|(x, y)| (num(*x) - num(*y)) * (num(*x) - num(*y)))
            .sum(),
        Operation::Subtract(a, b) => num(a) - num(b),
        Operation::Divide(a, b) => num(a) / num(b),
        Operation::SquareRoot(a) => num(a).sqrt(),
    })
}

fn level(numerator: u64, denominator: u64, m: usize) -> u8 {
    let u = numerator as f64 / denominator as f64;
    (-u.ln() / (m as f64).ln()) as u8
}

fn add(idx: &mut Index, key: &[u8], v: &[f32]) -> bool {
    assert!(!idx.is_full());
    idx.add(key.to_vec(), floats(v), &arith, &level)
}

fn search(idx: &Index, q: &[f32], k: usize, ef: usize) -> Vec<Neighbor> {
    idx.search(floats(q), k, ef, &arith)
}

fn search_exact(idx: &Index, q: &[f32], k: usize) -> Vec<Neighbor> {
    idx.search_exact(floats(q), k, &arith)
}

fn keys(neighbors: &[Neighbor]) -> Vec<&[u8]> {
    neighbors.iter().map(|n| n.key.as_slice()).collect()
}

/// Deterministic vector source for the recall tests.
struct Lcg(u64);

impl Lcg {
    fn f32(&mut self) -> f32 {
        self.0 = self
            .0
            .wrapping_mul(6364136223846793005)
            .wrapping_add(1442695040888963407);
        ((self.0 >> 33) as u32 as f32 / u32::MAX as f32) * 2.0 - 1.0
    }

    fn vec(&mut self, d: usize) -> Vec<f32> {
        (0..d).map(|_| self.f32()).collect()
    }
}

#[test]
fn add_reports_new_then_overwrite() {
    let mut idx = Index::new(2, Metric::L2);
    assert!(add(&mut idx, b"a", &[1.0, 0.0]));
    assert!(!add(&mut idx, b"a", &[0.0, 1.0]));
    assert_eq!(idx.len(), 1);
}

#[test]
fn search_orders_by_distance_l2() {
    let mut idx = Index::new(2, Metric::L2);
    add(&mut idx, b"origin", &[0.0, 0.0]);
    add(&mut idx, b"near", &[1.0, 0.0]);
    add(&mut idx, b"far", &[10.0, 0.0]);

    let got = search(&idx, &[0.0, 0.0], 3, 32);
    assert_eq!(keys(&got), vec![&b"origin"[..], b"near", b"far"]);
}

#[test]
fn search_respects_k() {
    let mut idx = Index::new(1, Metric::L2);
    for i in 0..10u8 {
        add(&mut idx, &[i], &[i as f32]);
    }
    let got = search(&idx, &[0.0], 3, 32);
    assert_eq!(got.len(), 3);
}

#[test]
fn k_zero_returns_empty() {
    let mut idx = Index::new(1, Metric::L2);
    add(&mut idx, b"a", &[1.0]);
    assert!(search(&idx, &[0.0], 0, 32).is_empty());
}

#[test]
fn cosine_ignores_magnitude() {
    let mut idx = Index::new(2, Metric::Cosine);
    add(&mut idx, b"same_dir", &[10.0, 0.0]);
    add(&mut idx, b"orthogonal", &[0.0, 5.0]);

    let got = search(&idx, &[1.0, 0.0], 2, 32);
    assert_eq!(got[0].key, b"same_dir");
    assert!(num(got[0].distance) < 1e-5);
}

#[test]
fn overwrite_changes_results() {
    let mut idx = Index::new(2, Metric::L2);
    add(&mut idx, b"x", &[5.0, 5.0]);
    add(&mut idx, b"x", &[0.0, 0.0]);
    let got = search(&idx, &[0.0, 0.0], 1, 32);
    assert_eq!(got[0].key, b"x");
    assert!(num(got[0].distance) < 1e-5);
}

#[test]
fn removed_key_is_excluded() {
    let mut idx = Index::new(1, Metric::L2);
    add(&mut idx, b"a", &[0.0]);
    add(&mut idx, b"b", &[1.0]);
    assert!(idx.remove(b"a"));
    assert!(!idx.remove(b"a"));

    let got = search(&idx, &[0.0], 5, 32);
    assert_eq!(keys(&got), vec![&b"b"[..]]);
    assert_eq!(idx.len(), 1);
}

/// On a small index, a generous `ef` should make the graph match the exact
/// scan exactly.
#[test]
fn small_index_is_exact_with_large_ef() {
    let mut rng = Lcg(1);
    let mut idx = Index::new(8, Metric::L2);
    let mut vecs = Vec::new();
    for i in 0..40u32 {
        let v = rng.vec(8);
        add(&mut idx, &i.to_le_bytes(), &v);
        vecs.push(v);
    }
    for _ in 0..20 {
        let q = rng.vec(8);
        let approx = keys(&search(&idx, &q, 5, 200))
            .iter()
            .map(|k| k.to_vec())
            .collect::<Vec<_>>();
        let exact = keys(&search_exact(&idx, &q, 5))
            .iter()
            .map(|k| k.to_vec())
            .collect::<Vec<_>>();
        assert_eq!(approx, exact);
    }
}

/// Recall@10 against the exact scan on a larger random set. The seed is
/// fixed, so this asserts a stable floor rather than a flaky range.
#[test]
fn recall_matches_bruteforce() {
    let mut rng = Lcg(0xC0FFEE);
    let (n, dim, k, ef) = (2000usize, 16usize, 10usize, 128usize);

    let mut idx = Index::new(dim, Metric::L2);
    for i in 0..n as u32 {
        add(&mut idx, &i.to_le_bytes(), &rng.vec(dim));
    }

    let queries = 200;
    let mut hits = 0usize;
    for _ in 0..queries {
        let q = rng.vec(dim);
        let approx: Vec<_> = search(&idx, &q, k, ef)
            .into_iter()
            .map(|n| n.key)
            .collect();
        let exact: std::collections::HashSet<_> = search_exact(&idx, &q, k)
            .into_iter()
            .map(|n| n.key)
            .collect();
        hits += approx.iter().filter(|key| exact.contains(*key)).count();
    }

    let recall = hits as f64 / (queries * k) as f64;
    println!("HNSW recall@{k} = {recall:.4} (n={n}, dim={dim}, ef={ef})");
    assert!(recall >= 0.90, "recall too low: {recall:.4}");
}

#[test]
fn registry_create_is_idempotent_guarded() {
    let mut reg = VectorRegistry::new();
    assert!(reg.create(b"m".to_vec(), 4, Metric::Cosine));
    assert!(!reg.create(b"m".to_vec(), 4, Metric::Cosine));
    assert!(reg.get(b"m").is_some());
    assert_eq!(reg.get(b"m").unwrap().dim(), 4);
    assert!(reg.get(b"missing").is_none());
}

#[test]
fn registry_is_walked_in_the_order_of_the_names() {
    let mut reg = VectorRegistry::new();
    for name in ["b", "ab", "a", "c"] {
        reg.create(name.as_bytes().to_vec(), 1, Metric::L2);
    }
    let names: Vec<&[u8]> = reg.iter().into_iter().map(|(n, _)| n.as_slice()).collect();
    assert_eq!(names, vec![&b"a"[..], b"ab", b"b", b"c"]);
}

#[test]
fn registry_hands_out_an_index_to_change() {
    let mut reg = VectorRegistry::new();
    reg.create(b"m".to_vec(), 1, Metric::L2);
    add(reg.get_mut(b"m").unwrap(), b"k", &[2.0]);
    assert_eq!(reg.get(b"m").unwrap().len(), 1);
    assert!(reg.get_mut(b"n").is_none());
}

#[test]
fn entries_are_listed_as_stored_in_insertion_order() {
    let mut idx = Index::new(2, Metric::Cosine);
    add(&mut idx, b"z", &[0.0, 2.0]);
    add(&mut idx, b"y", &[3.0, 4.0]);
    add(&mut idx, b"x", &[0.0, 0.0]);
    add(&mut idx, b"z", &[4.0, 0.0]);
    let entries = idx.entries();
    assert_eq!(entries.len(), 3);
    assert_eq!(entries[0], (&b"y"[..], &floats(&[0.6, 0.8])[..]));
    assert_eq!(entries[1], (&b"x"[..], &floats(&[0.0, 0.0])[..]));
    assert_eq!(entries[2], (&b"z"[..], &floats(&[1.0, 0.0])[..]));
}

#[test]
fn exact_search_keeps_the_order_of_equal_distances() {
    let mut idx = Index::new(1, Metric::L2);
    add(&mut idx, b"late", &[1.0]);
    add(&mut idx, b"later", &[-1.0]);
    add(&mut idx, b"here", &[0.0]);
    let got = search_exact(&idx, &[0.0], 10);
    assert_eq!(keys(&got), vec![&b"here"[..], b"late", b"later"]);
    assert_eq!(got[1].distance, float(1.0));
    assert_eq!(keys(&search_exact(&idx, &[0.0], 2)), vec![&b"here"[..], b"late"]);
    assert!(search_exact(&idx, &[0.0], 0).is_empty());
}

#[test]
fn searching_nothing_finds_nothing() {
    let idx = Index::new(3, Metric::Dot);
    assert!(search(&idx, &[1.0, 2.0, 3.0], 5, 10).is_empty());
    assert!(search_exact(&idx, &[1.0, 2.0, 3.0], 5).is_empty());
    assert_eq!(idx.metric(), Metric::Dot);
    assert_eq!(idx.len(), 0);
}

#[test]
fn dot_search_prefers_the_larger_product() {
    let mut idx = Index::new(2, Metric::Dot);
    add(&mut idx, b"small", &[1.0, 0.0]);
    add(&mut idx, b"large", &[5.0, 5.0]);
    let got = search(&idx, &[1.0, 1.0], 2, 8);
    assert_eq!(keys(&got), vec![&b"large"[..], b"small"]);
    assert_eq!(got[0].distance, float(-10.0));
}

#[test]
fn search_after_many_deletions_still_returns_live_keys_only() {
    let mut idx = Index::new(1, Metric::L2);
    for i in 0..100u8 {
        add(&mut idx, &[i], &[i as f32]);
    }
    for i in 0..90u8 {
        assert!(idx.remove(&[i]));
    }
    let got = search(&idx, &[0.0], 5, 200);
    let expected: Vec<Vec<u8>> = (90..95u8).map(|i| vec![i]).collect();
    assert_eq!(got.into_iter().map(|n| n.key).collect::<Vec<_>>(), expected);
}

#[test]
fn same_vectors_in_the_same_order_give_the_same_index() {
    let build = || {
        let mut rng = Lcg(77);
        let mut idx = Index::new(4, Metric::Cosine);
        for i in 0..300u32 {
            add(&mut idx, &(i % 250).to_le_bytes(), &rng.vec(4));
        }
        idx
    };
    let (a, b) = (build(), build());
    assert_eq!(a.entries(), b.entries());
    let mut rng = Lcg(5);
    for _ in 0..50 {
        let q = rng.vec(4);
        assert_eq!(search(&a, &q, 7, 10), search(&b, &q, 7, 10));
    }
}

#[test]
fn small_index_answers_like_the_scan() {
    let mut idx = Index::new(2, Metric::L2);
    // As many additions as a node can have neighbours, and one more; some of them
    // overwrite.
    for i in 0..33u32 {
        let key = format!("k{}", i % 30);
        add(&mut idx, key.as_bytes(), &[i as f32, (i * i % 17) as f32 / 7.0]);
    }
    assert!(idx.remove(b"k5"));
    assert!(idx.remove(b"k21"));
    for q in [[0.3f32, 0.1], [16.2, 1.7], [40.0, -3.0]] {
        for k in [1usize, 4, 28, 50] {
            let found = search(&idx, &q, k, 33);
            assert_eq!(found, search_exact(&idx, &q, k));
            assert_eq!(found.len(), k.min(28));
        }
    }
}
