use ivf_fraud::decision::{count_fraud, fraud_score, is_approved, response_body};
use ivf_fraud::diagnose::{
    brute_force_5nn, classify, cluster_rank_of_vec_in_centroid_order, diagnostic_search,
    find_cluster, index_positions, Classification, DiagResult, RefNeighbor,
};
use ivf_fraud::heap::{heapify_max, offer, sift_down_max, Candidate};
use ivf_fraud::index_file::{write_index, Entry};
use ivf_fraud::ivf_index::IvfIndex;
use ivf_fraud::quantize::{quantize_vec, FloatBits, DIMS};
use ivf_fraud::scan::dist_int8;
use ivf_fraud::searcher::{Neighbor, Searcher};
use ivf_fraud::tally::{calibrate, Histogram, Recommendation, Summary};

fn fb(f: f32) -> FloatBits {
    FloatBits { bits: f.to_bits() }
}

struct Lcg(u64);

impl Lcg {
    fn next(&mut self, below: u64) -> u64 {
        self.0 = self.0.wrapping_mul(6_364_136_223_846_793_005).wrapping_add(1_442_695_040_888_963_407);
        (self.0 >> 33) % below
    }
}

fn random_clusters(rng: &mut Lcg, k: usize, largest: u64) -> Vec<Vec<Entry>> {
    (0..k)
        .map(|_| {
            (0..rng.next(largest))
                .map(|_| Entry {
                    vec: std::array::from_fn(|_| rng.next(255) as i32 as u8 as i8),
                    is_fraud: rng.next(2) == 1,
                })
                .collect()
        })
        .collect()
}

fn file_of(clusters: &Vec<Vec<Entry>>, probes: u32) -> Vec<u8> {
    let n: usize = clusters.iter().map(|c| c.len()).sum();
    let centroids = vec![[fb(0.0); DIMS]; clusters.len()];
    write_index(&centroids, clusters, n as u64, clusters.len() as u32, probes)
}

fn index_of(clusters: &Vec<Vec<Entry>>) -> IvfIndex {
    match IvfIndex::load(&file_of(clusters, 3)) {
        Ok(i) => i,
        Err(e) => panic!("{}", e.message(" ")),
    }
}

fn entry(first: i8, is_fraud: bool) -> Entry {
    let mut vec = [0i8; DIMS];
    vec[0] = first;
    Entry { vec, is_fraud }
}

fn cand(vec_idx: usize, dist: i32) -> Candidate {
    Candidate { vec_idx, dist, is_fraud: false }
}

#[test]
fn distances_are_sums_of_squares() {
    let a = [1i8; DIMS];
    let b = [-2i8; DIMS];
    assert_eq!(dist_int8(&a, &b), 9 * 14);
    assert_eq!(dist_int8(&b, &a), 9 * 14);
    assert_eq!(dist_int8(&a, &a), 0);
    assert_eq!(dist_int8(&[127; DIMS], &[-128; DIMS]), 14 * 65025);
}

#[test]
fn sifting_restores_the_heap() {
    let mut h = vec![cand(0, 1), cand(1, 9), cand(2, 8), cand(3, 2), cand(4, 7)];
    sift_down_max(&mut h, 0);
    let dists: Vec<i32> = h.iter().map(|c| c.dist).collect();
    assert_eq!(dists, vec![9, 7, 8, 2, 1]);
    let mut h: Vec<Candidate> = (0..7).map(|i| cand(i, i as i32)).collect();
    heapify_max(&mut h);
    let dists: Vec<i32> = h.iter().map(|c| c.dist).collect();
    assert_eq!(dists, vec![6, 4, 5, 3, 1, 0, 2]);
}

#[test]
fn offers_keep_the_nearest() {
    let mut rng = Lcg(5);
    for k in 1..6 {
        let mut kept = Vec::new();
        let mut all = Vec::new();
        for i in 0..60 {
            let c = cand(i, rng.next(40) as i32);
            all.push(c.dist);
            offer(&mut kept, c, k);
            let mut best = all.clone();
            best.sort();
            best.truncate(k);
            let mut have: Vec<i32> = kept.iter().map(|c| c.dist).collect();
            have.sort();
            assert_eq!(have, best);
            if kept.len() == k {
                assert_eq!(kept[0].dist, best[k - 1]);
            }
        }
    }
}

#[test]
fn an_equal_candidate_does_not_displace() {
    let mut kept = vec![cand(0, 5)];
    offer(&mut kept, cand(1, 5), 1);
    assert_eq!(kept, vec![cand(0, 5)]);
    offer(&mut kept, cand(2, 4), 1);
    assert_eq!(kept, vec![cand(2, 4)]);
}

#[test]
fn search_matches_a_full_scan_of_the_probed_clusters() {
    let mut rng = Lcg(11);
    for round in 0..40 {
        let k = 1 + rng.next(6) as usize;
        let clusters = random_clusters(&mut rng, k, 12);
        let bytes = file_of(&clusters, 2);
        let keys: Vec<u32> = (0..k).map(|_| rng.next(4) as u32).collect();
        let query: [FloatBits; DIMS] =
            std::array::from_fn(|_| fb(rng.next(200) as f32 / 100.0 - 1.0));
        let q = quantize_vec(&query);
        for probes in 1..=k + 1 {
            let s = Searcher::load(&bytes, probes).unwrap();
            assert!(s.can_search(&keys));
            let mut order: Vec<usize> = (0..k).collect();
            order.sort_by_key(|&c| (keys[c], c));
            let mut scanned: Vec<(i32, bool)> = order
                .iter()
                .take(probes)
                .flat_map(|&c| clusters[c].iter())
                .map(|e| (dist_int8(&e.vec, &q), e.is_fraud))
                .collect();
            scanned.sort_by_key(|c| c.0);
            let found = s.search(&query, &keys, 5);
            assert_eq!(found.len(), scanned.len().min(5), "round {round}");
            let frauds = count_fraud(&found);
            let cut = scanned.get(4).map(|c| c.0).unwrap_or(i32::MAX);
            let sure = scanned.iter().filter(|c| c.0 < cut && c.1).count();
            let at_cut = scanned.iter().filter(|c| c.0 == cut && c.1).count();
            assert!(sure <= frauds && frauds <= sure + at_cut, "round {round}");
            assert_eq!(fraud_score(&s, &query, &keys), response_body(frauds));
        }
    }
}

#[test]
fn the_diagnostic_search_agrees_with_the_service() {
    let mut rng = Lcg(23);
    for _ in 0..40 {
        let k = 1 + rng.next(8) as usize;
        let clusters = random_clusters(&mut rng, k, 10);
        let bytes = file_of(&clusters, 3);
        let keys: Vec<u32> = (0..k).map(|_| rng.next(9) as u32).collect();
        let query: [FloatBits; DIMS] =
            std::array::from_fn(|_| fb(rng.next(200) as f32 / 100.0 - 1.0));
        let found = Searcher::load(&bytes, 3).unwrap().search(&query, &keys, 5);
        let diag = diagnostic_search(&index_of(&clusters), &query, &keys);
        let flags: Vec<Neighbor> = diag
            .returned_neighbors
            .iter()
            .map(|c| Neighbor { is_fraud: c.is_fraud })
            .collect();
        assert_eq!(flags, found);
        assert_eq!(diag.ivf_fraud_count, count_fraud(&found));
        assert_eq!(diag.probed_cluster_indices.len(), k.min(3));
        let scanned: usize = diag.probed_cluster_indices.iter().map(|&c| clusters[c].len()).sum();
        assert_eq!(diag.scanned_vector_indices.len(), scanned);
    }
}

#[test]
fn more_probes_never_find_farther_neighbours() {
    let mut rng = Lcg(31);
    let clusters = random_clusters(&mut rng, 6, 30);
    let index = index_of(&clusters);
    let all: usize = clusters.iter().map(|c| c.len()).sum();
    let keys = vec![5, 3, 9, 1, 7, 2];
    let query = [fb(0.1); DIMS];
    let diag = diagnostic_search(&index, &query, &keys);
    assert_eq!(diag.probed_cluster_indices, vec![3, 5, 1]);
    let q = quantize_vec(&query);
    let mut exhaustive: Vec<i32> =
        clusters.iter().flatten().map(|e| dist_int8(&e.vec, &q)).collect();
    exhaustive.sort();
    assert_eq!(exhaustive.len(), all);
    let mut some: Vec<i32> = diag.returned_neighbors.iter().map(|c| c.dist).collect();
    some.sort();
    for i in 0..5 {
        assert!(exhaustive[i] <= some[i]);
    }
}

#[test]
fn responses_are_the_six_bodies() {
    assert_eq!(response_body(0), "{\"approved\":true,\"fraud_score\":0.0}");
    assert_eq!(response_body(1), "{\"approved\":true,\"fraud_score\":0.2}");
    assert_eq!(response_body(2), "{\"approved\":true,\"fraud_score\":0.4}");
    assert_eq!(response_body(3), "{\"approved\":false,\"fraud_score\":0.6}");
    assert_eq!(response_body(4), "{\"approved\":false,\"fraud_score\":0.8}");
    assert_eq!(response_body(5), "{\"approved\":false,\"fraud_score\":1.0}");
    assert!(is_approved(2));
    assert!(!is_approved(3));
}

#[test]
fn five_nearest_references_by_key() {
    let keys = vec![8, 2, 6, 2, 9, 1, 7];
    let labels = vec![true, false, true, true, false, false, true];
    let positions = vec![3, 0, 6, 5, 1, 4, 2];
    let nn = brute_force_5nn(&keys, &labels, &positions);
    let expected = vec![
        RefNeighbor { ref_idx: 5, vec_idx: 4, key: 1, is_fraud: false },
        RefNeighbor { ref_idx: 1, vec_idx: 0, key: 2, is_fraud: false },
        RefNeighbor { ref_idx: 3, vec_idx: 5, key: 2, is_fraud: true },
        RefNeighbor { ref_idx: 2, vec_idx: 6, key: 6, is_fraud: true },
        RefNeighbor { ref_idx: 6, vec_idx: 2, key: 7, is_fraud: true },
    ];
    assert_eq!(nn, expected);
    assert_eq!(brute_force_5nn(&vec![4], &vec![true], &vec![9]).len(), 1);
    assert!(brute_force_5nn(&vec![], &vec![], &vec![]).is_empty());
}

fn five_clusters() -> IvfIndex {
    index_of(&vec![
        vec![entry(0, false), entry(1, false)],
        vec![],
        vec![entry(2, true), entry(3, true)],
        vec![entry(4, true)],
        vec![entry(5, true)],
    ])
}

#[test]
fn clusters_and_ranks_of_vectors() {
    let index = five_clusters();
    assert_eq!(find_cluster(&index, 0), 0);
    assert_eq!(find_cluster(&index, 1), 0);
    assert_eq!(find_cluster(&index, 2), 2);
    assert_eq!(find_cluster(&index, 5), 4);
    let keys = vec![40, 10, 50, 20, 30];
    assert_eq!(cluster_rank_of_vec_in_centroid_order(&index, &keys, 4), 2);
    assert_eq!(cluster_rank_of_vec_in_centroid_order(&index, &keys, 0), 4);
    assert_eq!(cluster_rank_of_vec_in_centroid_order(&index, &keys, 3), 5);
    // ranks up to three are exactly the probed clusters
    let diag = diagnostic_search(&index, &[fb(0.0); DIMS], &keys);
    for v in 0..index.num_vecs {
        let rank = cluster_rank_of_vec_in_centroid_order(&index, &keys, v);
        assert_eq!(rank <= 3, diag.scanned_vector_indices.contains(&v), "vector {v}");
    }
}

fn refs(list: &[(usize, bool)]) -> Vec<RefNeighbor> {
    list.iter()
        .map(|&(vec_idx, is_fraud)| RefNeighbor { ref_idx: 100 + vec_idx, vec_idx, key: 0, is_fraud })
        .collect()
}

#[test]
fn references_are_found_at_their_index_positions() {
    let mut rng = Lcg(41);
    let k = 5;
    let entries: Vec<Entry> = (0..60)
        .map(|_| Entry {
            vec: std::array::from_fn(|_| rng.next(255) as u8 as i8),
            is_fraud: rng.next(2) == 1,
        })
        .collect();
    let assignments: Vec<usize> = entries.iter().map(|_| rng.next(k) as usize).collect();
    let mut clusters = vec![Vec::new(); k as usize];
    for (e, &c) in entries.iter().zip(&assignments) {
        clusters[c].push(*e);
    }
    let index = index_of(&clusters);
    let positions = index_positions(&index, &assignments).unwrap();
    for i in 0..entries.len() {
        assert_eq!(index.vecs[positions[i]], entries[i].vec);
        assert_eq!(index.labels[positions[i]], entries[i].is_fraud);
        assert_eq!(find_cluster(&index, positions[i]), assignments[i]);
    }
    assert_ne!(positions, (0..entries.len()).collect::<Vec<usize>>());
}

#[test]
fn positions_follow_clusters_and_earlier_references() {
    let index = five_clusters();
    assert_eq!(index_positions(&index, &vec![4, 2, 0, 2, 3, 0]), Some(vec![5, 2, 0, 3, 4, 1]));
    assert_eq!(index_positions(&index, &vec![]), Some(vec![]));
    // more references of a cluster than the index holds
    assert_eq!(index_positions(&index, &vec![2, 2, 2]), None);
    assert_eq!(index_positions(&index, &vec![1]), None);
}

#[test]
fn a_neighbour_is_looked_up_by_its_index_position() {
    // the first reference of the file lies in the last cluster
    let index = five_clusters();
    let keys = vec![1, 2, 3, 4, 5];
    let query = [fb(0.0); DIMS];
    let diag = diagnostic_search(&index, &query, &keys);
    let positions = index_positions(&index, &vec![4, 0, 0, 2, 2, 3]).unwrap();
    let labels = vec![true, false, false, true, true, true];
    let nn = brute_force_5nn(&vec![0, 1, 2, 3, 4, 9], &labels, &positions);
    let d = classify(&index, &query, &keys, &diag, &nn, false);
    assert_eq!(d.classification, Classification::ProbeMiss);
    assert_eq!(d.probe_miss_cluster_rank, Some(5));
    let found: Vec<usize> = d.true_5nn.iter().map(|t| t.vec_idx).collect();
    assert_eq!(found, vec![5, 0, 1, 2, 3]);
}

#[test]
fn a_wrong_expectation_is_a_vectorize_error() {
    let index = five_clusters();
    let keys = vec![1, 2, 3, 4, 5];
    let query = [fb(0.0); DIMS];
    let diag = diagnostic_search(&index, &query, &keys);
    let nn = refs(&[(2, true), (3, true), (4, true), (0, false), (1, false)]);
    let d = classify(&index, &query, &keys, &diag, &nn, true);
    assert_eq!(d.classification, Classification::Vectorize);
    assert_eq!(d.fraud_count_true, 3);
    assert_eq!((d.probe_miss_cluster_rank, d.tie_flip_int8_gap), (None, None));
}

#[test]
fn a_true_neighbour_outside_the_probes_is_a_probe_miss() {
    let index = five_clusters();
    let keys = vec![1, 2, 3, 4, 5];
    let query = [fb(0.0); DIMS];
    let diag = diagnostic_search(&index, &query, &keys);
    assert_eq!(diag.scanned_vector_indices, vec![0, 1, 2, 3]);
    let nn = refs(&[(5, true), (4, true), (2, true), (0, false), (1, false)]);
    let d = classify(&index, &query, &keys, &diag, &nn, false);
    assert_eq!(d.classification, Classification::ProbeMiss);
    assert_eq!(d.probe_miss_cluster_rank, Some(4));
    let where_is: Vec<(usize, usize)> =
        d.true_5nn.iter().map(|t| (t.cluster_idx, t.cluster_rank_in_cent_order)).collect();
    assert_eq!(where_is, vec![(4, 5), (3, 4), (2, 3), (0, 1), (0, 1)]);
}

#[test]
fn a_changed_ranking_is_a_tie_flip() {
    let index = index_of(&vec![vec![
        entry(0, false),
        entry(1, false),
        entry(2, true),
        entry(3, false),
        entry(4, true),
        entry(5, true),
        entry(6, true),
    ]]);
    let keys = vec![0];
    let query = [fb(0.0); DIMS];
    let diag = diagnostic_search(&index, &query, &keys);
    assert_eq!(diag.ivf_fraud_count, 2);
    let nn = refs(&[(0, false), (2, true), (4, true), (5, true), (6, true)]);
    let d = classify(&index, &query, &keys, &diag, &nn, false);
    assert_eq!(d.classification, Classification::TieFlip);
    // the true fifth is at 36, the farthest returned at 16
    assert_eq!(d.tie_flip_int8_gap, Some(20));
    assert_eq!(d.probe_miss_cluster_rank, None);
}

#[test]
fn a_tie_flip_of_few_neighbours_has_no_gap() {
    let index = five_clusters();
    let diag = DiagResult {
        probed_cluster_indices: vec![0],
        scanned_vector_indices: vec![0, 1],
        returned_neighbors: vec![],
        ivf_fraud_count: 1,
    };
    let nn = refs(&[(0, false), (1, false)]);
    let d = classify(&index, &[fb(0.0); DIMS], &vec![1, 2, 3, 4, 5], &diag, &nn, true);
    assert_eq!(d.classification, Classification::TieFlip);
    assert_eq!(d.tie_flip_int8_gap, Some(0));
}

#[test]
fn nothing_wrong_is_other() {
    let index = five_clusters();
    let keys = vec![1, 2, 3, 4, 5];
    let query = [fb(0.0); DIMS];
    let diag = diagnostic_search(&index, &query, &keys);
    let nn = refs(&[(0, false), (1, false), (2, true), (3, true)]);
    let d = classify(&index, &query, &keys, &diag, &nn, true);
    assert_eq!(d.classification, Classification::Other);
}

#[test]
fn summaries_count_causes() {
    let index = five_clusters();
    let keys = vec![1, 2, 3, 4, 5];
    let query = [fb(0.0); DIMS];
    let diag = diagnostic_search(&index, &query, &keys);
    let mut s = Summary::new();
    let miss = refs(&[(5, true), (4, true), (2, true), (0, false), (1, false)]);
    let far = refs(&[(5, true), (0, false)]);
    s.add(&classify(&index, &query, &keys, &diag, &miss, false));
    s.add(&classify(&index, &query, &keys, &diag, &far, true));
    s.add(&classify(&index, &query, &keys, &diag, &miss, false));
    s.add(&classify(&index, &query, &keys, &diag, &miss, true));
    assert_eq!((s.tie_flip, s.probe_miss, s.vectorize, s.other), (0, 3, 1, 0));
    assert_eq!(s.probe_miss_ranks.bars, vec![(4, 2), (5, 1)]);
    assert!(s.tie_flip_gaps.bars.is_empty());
    assert_eq!(s.recommendation(), Recommendation::RaiseProbes);
    assert_eq!(Summary::new().recommendation(), Recommendation::Rerank);
}

#[test]
fn histograms_are_sorted() {
    let mut h = Histogram::new();
    for key in [5, 1, 9, 5, 5, 1] {
        h.add(key);
    }
    assert_eq!(h.bars, vec![(1, 2), (5, 3), (9, 1)]);
}

#[test]
fn calibration_counts_both_kinds_of_errors() {
    let c = calibrate(&vec![
        (true, true),
        (true, false),
        (false, true),
        (false, false),
        (false, true),
    ]);
    assert_eq!((c.mismatches, c.false_positives, c.false_negatives), (3, 1, 2));
    assert_eq!(calibrate(&vec![(true, true)]).mismatches, 0);
}
