use ivf_fraud::kmeans::{cluster_members, draw_indices, KMeans};
use ivf_fraud::nearest::{nearest_centroid, nearest_indices, nearness_rank, LARGEST_FINITE_KEY};
use ivf_fraud::quantize::{FloatBits, DIMS};
use rand::prelude::SliceRandom;
use rand::{Rng, SeedableRng};
use rand_chacha::ChaCha8Rng;

fn bits(v: &[f32; DIMS]) -> [FloatBits; DIMS] {
    std::array::from_fn(|i| FloatBits { bits: v[i].to_bits() })
}

fn floats(v: &[FloatBits; DIMS]) -> [f32; DIMS] {
    std::array::from_fn(|i| f32::from_bits(v[i].bits))
}

fn squared_euclidean(a: &[f32; DIMS], b: &[f32; DIMS]) -> f32 {
    let mut sum = 0f32;
    for i in 0..DIMS {
        let d = a[i] - b[i];
        sum += d * d;
    }
    sum
}

fn keys(v: &[f32; DIMS], centroids: &[[f32; DIMS]]) -> Vec<u32> {
    centroids.iter().map(|c| squared_euclidean(v, c).to_bits()).collect()
}

fn kmeans(sample: &[[f32; DIMS]], k: usize, iters: usize, seed: u64) -> Vec<[f32; DIMS]> {
    let as_bits: Vec<[FloatBits; DIMS]> = sample.iter().map(bits).collect();
    let mut run = KMeans::start(&as_bits, k, iters, seed, 0);
    while !run.is_done() {
        let centroids: Vec<[f32; DIMS]> = run.centroids.iter().map(floats).collect();
        let assignments: Vec<usize> =
            sample.iter().map(|v| nearest_centroid(&keys(v, &centroids))).collect();
        let members = cluster_members(&assignments, k);
        let means: Vec<[FloatBits; DIMS]> = members
            .iter()
            .map(|group| {
                let mut sums = [0f64; DIMS];
                for &vi in group {
                    for j in 0..DIMS {
                        sums[j] += sample[vi][j] as f64;
                    }
                }
                bits(&std::array::from_fn(|j| (sums[j] / group.len() as f64) as f32))
            })
            .collect();
        run.advance(&members, &means);
    }
    run.centroids.iter().map(floats).collect()
}

#[test]
fn nearest_centroid_returns_closest() {
    let query = [0.0f32; DIMS];
    let mut far = [10.0f32; DIMS];
    far[0] = 10.0;
    let near = [0.1f32; DIMS];
    let centroids = vec![far, near];
    assert_eq!(nearest_centroid(&keys(&query, &centroids)), 1);
}

#[test]
fn kmeans_produces_k_centroids() {
    let sample: Vec<[f32; DIMS]> = (0..20)
        .map(|i| {
            let mut v = [0f32; DIMS];
            for j in 0..DIMS {
                v[j] = (i as f32 + j as f32) / 100.0;
            }
            v
        })
        .collect();
    let centroids = kmeans(&sample, 3, 5, 42);
    assert_eq!(centroids.len(), 3);
}

#[test]
fn kmeans_is_deterministic() {
    let sample: Vec<[f32; DIMS]> = (0..50)
        .map(|i| {
            let mut v = [0f32; DIMS];
            for j in 0..DIMS {
                v[j] = (i as f32 * 0.01) + (j as f32 * 0.001);
            }
            v
        })
        .collect();
    let c1 = kmeans(&sample, 5, 3, 42);
    let c2 = kmeans(&sample, 5, 3, 42);
    assert_eq!(c1, c2, "same seed must produce identical centroids");
}

#[test]
fn kmeans_finds_separate_groups() {
    let sample: Vec<[f32; DIMS]> =
        (0..40).map(|i| [if i % 2 == 0 { 0.0 } else { 0.9 } + i as f32 * 0.001; DIMS]).collect();
    let mut centroids = kmeans(&sample, 2, 20, 7);
    centroids.sort_by(|a, b| a[0].partial_cmp(&b[0]).unwrap());
    assert!((centroids[0][0] - 0.019).abs() < 1e-4, "{}", centroids[0][0]);
    assert!((centroids[1][0] - 0.920).abs() < 1e-4, "{}", centroids[1][0]);
}

#[test]
fn no_rounds_leave_the_drawn_vectors() {
    let sample: Vec<[f32; DIMS]> = (0..9).map(|i| [i as f32; DIMS]).collect();
    let drawn = draw_indices(9, 4, 5, 0);
    let centroids = kmeans(&sample, 4, 0, 5);
    let expected: Vec<[f32; DIMS]> = drawn.iter().map(|&i| sample[i]).collect();
    assert_eq!(centroids, expected);
}

#[test]
fn draws_follow_the_generator() {
    for (seed, calls) in [(42u64, 0usize), (42, 1), (7, 100), (0, 33)] {
        let mut rng = ChaCha8Rng::seed_from_u64(seed);
        for _ in 0..calls {
            rng.random::<f64>();
        }
        let word_pos = rng.get_word_pos();
        assert_eq!(word_pos, 2 * calls as u128);
        let mut indices: Vec<usize> = (0..200).collect();
        indices.shuffle(&mut rng);
        assert_eq!(draw_indices(200, 200, seed, word_pos), indices);
        assert_eq!(draw_indices(200, 10, seed, word_pos), indices[..10].to_vec());
    }
}

#[test]
fn draws_are_different_numbers() {
    let mut drawn = draw_indices(50, 30, 1, 0);
    assert_ne!(drawn, (0..30).collect::<Vec<usize>>());
    drawn.sort();
    drawn.dedup();
    assert_eq!(drawn.len(), 30);
    assert!(drawn.iter().all(|&i| i < 50));
}

#[test]
fn members_are_grouped_in_order() {
    let members = cluster_members(&vec![2, 0, 2, 2, 0], 4);
    assert_eq!(members, vec![vec![1, 4], vec![], vec![0, 2, 3], vec![]]);
}

#[test]
fn an_empty_cluster_keeps_its_centroid() {
    let a = bits(&[0.5; DIMS]);
    let b = bits(&[0.25; DIMS]);
    let mean = bits(&[0.75; DIMS]);
    let mut run = KMeans { centroids: vec![a, b], rounds: 2 };
    run.advance(&vec![vec![], vec![3]], &vec![mean, mean]);
    assert_eq!(run.centroids, vec![a, mean]);
    assert_eq!(run.rounds, 1);
    assert!(!run.is_done());
    run.advance(&vec![vec![], vec![]], &vec![mean, a]);
    assert!(run.is_done());
    assert_eq!(run.centroids, vec![a, mean]);
}

#[test]
fn ties_go_to_the_first_and_overflow_to_none() {
    assert_eq!(nearest_centroid(&vec![5, 3, 3]), 1);
    assert_eq!(nearest_centroid(&vec![]), 0);
    let inf = f32::INFINITY.to_bits();
    assert_eq!(nearest_centroid(&vec![inf, LARGEST_FINITE_KEY]), 0);
    assert_eq!(nearest_centroid(&vec![f32::NAN.to_bits(), inf, LARGEST_FINITE_KEY - 1]), 2);
}

#[test]
fn nearest_indices_are_sorted_and_prefixes_of_each_other() {
    let k = vec![9, 4, 7, 4, 1, 9];
    let all = nearest_indices(&k, 6);
    assert_eq!(all, vec![4, 1, 3, 2, 0, 5]);
    for n in 0..=6 {
        assert_eq!(nearest_indices(&k, n), all[..n].to_vec());
    }
    for (at, &c) in all.iter().enumerate() {
        assert_eq!(nearness_rank(&k, c), at + 1);
    }
}
