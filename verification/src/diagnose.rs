//! Offline diagnosis of wrong answers: a search that records what it looked
//! at, the true nearest references, and the cause that tells them apart.
use vstd::prelude::*;

use crate::decision::is_approved;
use crate::heap::{offer, Candidate};
use crate::ivf_index::IvfIndex;
use crate::nearest::{nearest_indices, nearness_rank};
use crate::quantize::{quantize_vec, FloatBits, DIMS};
use crate::scan::dist_int8;

verus! {

/// How many clusters the diagnostic search probes.
pub const PROBES: usize = 3;

/// How many neighbours are compared.
pub const K: usize = 5;

/// What a diagnostic search looked at and found.
pub struct DiagResult {
    /// The probed clusters, nearest centroid first.
    pub probed_cluster_indices: Vec<usize>,
    /// Every scanned vector, in scan order.
    pub scanned_vector_indices: Vec<usize>,
    /// The neighbours returned.
    pub returned_neighbors: Vec<Candidate>,
    /// How many of them are fraud.
    pub ivf_fraud_count: usize,
}

impl DiagResult {
    /// The scanned vectors are among the first `num_vecs`, and the distances of
    /// the neighbours are distances of quantized vectors.
    pub open spec fn wf(&self, num_vecs: nat) -> bool {
        &&& forall|i: int|
            0 <= i < self.scanned_vector_indices.len() ==> #[trigger] self.scanned_vector_indices[i]
                < num_vecs
        &&& forall|i: int|
            0 <= i < self.returned_neighbors.len() ==> 0 <= (
            #[trigger] self.returned_neighbors[i]).dist <= 14 * 65025
    }
}

/// One of the true nearest references, with the key of its distance.
#[derive(Clone, Copy, PartialEq, Eq, Structural, Debug)]
pub struct RefNeighbor {
    /// Its position in the reference file.
    pub ref_idx: usize,
    /// Its position in the index, which is sorted by cluster.
    pub vec_idx: usize,
    pub key: u32,
    pub is_fraud: bool,
}

/// The vector indices of candidates.
pub open spec fn candidate_indices(cands: Seq<Candidate>) -> Seq<usize> {
    cands.map_values(|c: Candidate| c.vec_idx)
}

fn scan_cluster(
    index: &IvfIndex,
    query: &[i8; DIMS],
    c: usize,
    kept: &mut Vec<Candidate>,
    indices: &mut Vec<usize>,
    Ghost(before): Ghost<Seq<Candidate>>,
)
    requires
        index.wf(),
        c < index.num_cents,
        crate::scan::cluster_in_range(index.model(), c as int),
        old(kept)@ == crate::heap::best_k(before, 5),
        old(indices)@ == candidate_indices(before),
    ensures
        final(kept)@ == crate::heap::best_k(
            before + crate::scan::cluster_scan(index.model(), query@, c as int),
            5,
        ),
        final(indices)@ == candidate_indices(
            before + crate::scan::cluster_scan(index.model(), query@, c as int),
        ),
{
    let ghost m = index.model();
    let ghost all = crate::scan::cluster_scan(m, query@, c as int);
    let start: u64 = index.offsets[c];
    let end: u64 = index.offsets[c + 1];
    let mut v: u64 = start;
    assert(before + all.take(0) =~= before);
    while v < end
        invariant
            index.wf(),
            m == index.model(),
            start == m.offsets[c as int],
            end == m.offsets[c + 1],
            start < end ==> end <= m.vectors.len(),
            start < end ==> start <= v <= end,
            start >= end ==> v == start,
            all == crate::scan::cluster_scan(m, query@, c as int),
            kept@ == crate::heap::best_k(before + all.take(v - start), 5),
            indices@ == candidate_indices(before + all.take(v - start)),
        decreases end - v,
    {
        let vi: usize = v as usize;
        let dist: i32 = dist_int8(&index.vecs[vi], query);
        let cand: Candidate = Candidate { vec_idx: vi, dist, is_fraud: index.labels[vi] };
        assert(cand == all[v - start]);
        let ghost seen = before + all.take(v + 1 - start);
        assert(seen.drop_last() =~= before + all.take(v - start));
        indices.push(vi);
        assert(indices@ =~= candidate_indices(seen));
        offer(kept, cand, K);
        v = v + 1;
    }
    assert(all.take(all.len() as int) =~= all);
}

/// Searches as the service does, with three probes and five neighbours, and
/// records which clusters and vectors were looked at.
pub fn diagnostic_search(
    index: &IvfIndex,
    query: &[FloatBits; DIMS],
    cent_keys: &Vec<u32>,
) -> (res: DiagResult)
    requires
        index.wf(),
        cent_keys.len() == index.num_cents,
        crate::scan::all_in_range(index.model(), crate::scan::probed(cent_keys@, 3)),
    ensures
        ({
            let seen = crate::scan::scanned(
                index.model(),
                crate::quantize::quantized_vec(query@),
                crate::scan::probed(cent_keys@, 3),
            );
            let best = crate::heap::best_k(seen, 5);
            &&& res.probed_cluster_indices@ == crate::scan::probed(cent_keys@, 3)
            &&& res.scanned_vector_indices@ == candidate_indices(seen)
            &&& res.returned_neighbors@ == best
            &&& res.ivf_fraud_count == crate::decision::count_true(
                crate::decision::candidate_flags(best),
            )
            &&& crate::heap::is_k_nearest(best, seen, 5)
            &&& res.scanned_vector_indices@ == seen.map_values(|c: Candidate| c.vec_idx)
            &&& res.ivf_fraud_count == best.map_values(
                |c: Candidate| c.is_fraud,
            ).to_multiset().count(true)
        }),
        res.probed_cluster_indices.len() == if cent_keys.len() < 3 {
            cent_keys.len()
        } else {
            3
        },
        res.wf(index.num_vecs as nat),
{
    let q: [i8; DIMS] = quantize_vec(query);
    let n: usize = if PROBES < cent_keys.len() {
        PROBES
    } else {
        cent_keys.len()
    };
    assert(n == crate::scan::probe_count(PROBES as nat, cent_keys@.len()));
    let order: Vec<usize> = nearest_indices(cent_keys, n);
    let ghost m = index.model();
    let mut kept: Vec<Candidate> = Vec::new();
    let mut indices: Vec<usize> = Vec::new();
    let mut p: usize = 0;
    assert(order@.take(0) =~= Seq::empty());
    assert(indices@ =~= candidate_indices(Seq::empty()));
    while p < order.len()
        invariant
            p <= order.len(),
            index.wf(),
            m == index.model(),
            cent_keys.len() == index.num_cents,
            crate::nearest::is_nearest_order(cent_keys@, order@, n as nat),
            crate::scan::all_in_range(m, order@),
            kept@ == crate::heap::best_k(
                crate::scan::scanned(m, q@, order@.take(p as int)),
                5,
            ),
            indices@ == candidate_indices(
                crate::scan::scanned(m, q@, order@.take(p as int)),
            ),
        decreases order.len() - p,
    {
        proof {
            crate::scan::lemma_scanned_take(m, q@, order@, p as int);
        }
        scan_cluster(
            index,
            &q,
            order[p],
            &mut kept,
            &mut indices,
            Ghost(crate::scan::scanned(m, q@, order@.take(p as int))),
        );
        p = p + 1;
    }
    assert(order@.take(order.len() as int) =~= order@);
    proof {
        let seen = crate::scan::scanned(m, q@, order@);
        crate::heap::lemma_best_k_nearest(seen, 5);
        crate::scan::lemma_scanned_bounds(m, q@, order@);
        assert forall|i: int| 0 <= i < kept.len() implies seen.contains(#[trigger] kept[i]) by {
            crate::heap::lemma_kept_was_scanned(kept@, seen, 5, i);
        }
    }
    let ivf_fraud_count: usize = count_candidate_frauds(&kept);
    proof {
        let seen = crate::scan::scanned(m, q@, order@);
        crate::decision::lemma_count_true(crate::decision::candidate_flags(kept@));
        assert(crate::decision::candidate_flags(kept@) =~= kept@.map_values(
            |c: Candidate| c.is_fraud,
        ));
        assert(candidate_indices(seen) =~= seen.map_values(|c: Candidate| c.vec_idx));
    }
    DiagResult {
        probed_cluster_indices: order,
        scanned_vector_indices: indices,
        returned_neighbors: kept,
        ivf_fraud_count,
    }
}

fn count_candidate_frauds(cands: &Vec<Candidate>) -> (count: usize)
    ensures
        count == crate::decision::count_true(crate::decision::candidate_flags(cands@)),
{
    let ghost flags = crate::decision::candidate_flags(cands@);
    let mut count: usize = 0;
    let mut i: usize = 0;
    while i < cands.len()
        invariant
            i <= cands.len(),
            flags == crate::decision::candidate_flags(cands@),
            count <= i,
            count == crate::decision::count_true(flags.take(i as int)),
        decreases cands.len() - i,
    {
        assert(flags.take(i + 1).drop_last() =~= flags.take(i as int));
        if cands[i].is_fraud {
            count = count + 1;
        }
        i = i + 1;
    }
    assert(flags.take(cands.len() as int) =~= flags);
    count
}

/// Where the index holds reference `i`: in the range of its cluster, after the
/// references of that cluster that come before it in the file. `assignments`
/// holds the nearest centroid of every reference.
pub open spec fn index_position(offsets: Seq<u64>, assignments: Seq<usize>, i: int) -> int {
    offsets[assignments[i] as int] + crate::kmeans::members_of(
        assignments.take(i),
        assignments[i] as int,
    ).len()
}

/// Reference `i` has its place within the range of its cluster and among the
/// stored vectors.
pub open spec fn has_place(
    m: crate::index_file::IndexModel,
    assignments: Seq<usize>,
    i: int,
) -> bool {
    let at = index_position(m.offsets, assignments, i);
    crate::scan::in_cluster(m, assignments[i] as int, at) && at < m.vectors.len()
}

proof fn lemma_no_members(assignments: Seq<usize>, c: int)
    requires
        forall|j: int| 0 <= j < assignments.len() ==> #[trigger] assignments[j] != c,
    ensures
        crate::kmeans::members_of(assignments, c).len() == 0,
    decreases assignments.len(),
{
    if assignments.len() > 0 {
        assert(assignments[assignments.len() - 1] != c);
        lemma_no_members(assignments.drop_last(), c);
    }
}

proof fn lemma_same_members(assignments: Seq<usize>, from: int, to: int, c: int)
    requires
        0 <= from <= to <= assignments.len(),
        forall|l: int| from <= l < to ==> #[trigger] assignments[l] != c,
    ensures
        crate::kmeans::members_of(assignments.take(to), c) == crate::kmeans::members_of(
            assignments.take(from),
            c,
        ),
    decreases to - from,
{
    if from < to {
        lemma_same_members(assignments, from, to - 1, c);
        assert(assignments[to - 1] != c);
        assert(assignments.take(to).drop_last() =~= assignments.take(to - 1));
    }
}

/// Where the index holds each reference, from the nearest centroid of every
/// reference; nothing where the index has no place for one of them, and so was
/// not built from these references.
pub fn index_positions(index: &IvfIndex, assignments: &Vec<usize>) -> (positions: Option<
    Vec<usize>,
>)
    requires
        index.wf(),
        forall|i: int|
            0 <= i < assignments.len() ==> #[trigger] assignments[i] < index.num_cents,
    ensures
        match positions {
            Some(p) => {
                &&& p.len() == assignments.len()
                &&& forall|i: int|
                    0 <= i < p.len() ==> #[trigger] p[i] == index_position(
                        index.offsets@,
                        assignments@,
                        i,
                    )
                &&& forall|i: int|
                    0 <= i < p.len() ==> #[trigger] has_place(index.model(), assignments@, i)
                &&& forall|i: int|
                    0 <= i < p.len() ==> has_cluster(index.model(), #[trigger] p[i] as int)
                &&& forall|i: int|
                    0 <= i < p.len() ==> index.offsets[assignments[i] as int] <= #[trigger] p[i]
                        < index.offsets[assignments[i] + 1]
                &&& forall|i: int|
                    0 <= i < p.len() && (forall|j: int|
                        0 <= j < i ==> #[trigger] assignments[j] != assignments[i])
                        ==> #[trigger] p[i] == index.offsets[assignments[i] as int]
                &&& forall|i: int, j: int|
                    0 <= i < j < p.len() && assignments[i] == assignments[j] && (forall|l: int|
                        i < l < j ==> #[trigger] assignments[l] != assignments[i])
                        ==> #[trigger] p[j] == #[trigger] p[i] + 1
            },
            None => exists|i: int|
                0 <= i < assignments.len() && !#[trigger] has_place(
                    index.model(),
                    assignments@,
                    i,
                ),
        },
{
    let ghost m = index.model();
    let ghost a = assignments@;
    let mut next: Vec<u64> = Vec::new();
    let mut c: usize = 0;
    while c < index.num_cents
        invariant
            index.wf(),
            c <= index.num_cents,
            next.len() == c,
            forall|d: int| 0 <= d < c ==> #[trigger] next[d] == index.offsets[d],
        decreases index.num_cents - c,
    {
        next.push(index.offsets[c]);
        c = c + 1;
    }
    let mut positions: Vec<usize> = Vec::new();
    let mut i: usize = 0;
    assert(a.take(0) =~= Seq::empty());
    while i < assignments.len()
        invariant
            index.wf(),
            m == index.model(),
            a == assignments@,
            i <= assignments.len(),
            next.len() == index.num_cents,
            positions.len() == i,
            forall|j: int|
                0 <= j < assignments.len() ==> #[trigger] assignments[j] < index.num_cents,
            forall|d: int|
                0 <= d < next.len() ==> #[trigger] next[d] == index.offsets[d]
                    + crate::kmeans::members_of(a.take(i as int), d).len(),
            forall|j: int|
                0 <= j < i ==> #[trigger] positions[j] == index_position(index.offsets@, a, j),
            forall|j: int| 0 <= j < i ==> #[trigger] has_place(m, a, j),
            forall|j: int| 0 <= j < i ==> has_cluster(m, #[trigger] positions[j] as int),
        decreases assignments.len() - i,
    {
        let c: usize = assignments[i];
        let at: u64 = next[c];
        assert(at == index_position(m.offsets, a, i as int));
        if at >= index.offsets[c + 1] || at >= index.num_vecs as u64 {
            assert(!has_place(m, a, i as int));
            return None;
        }
        assert(has_place(m, a, i as int));
        assert(crate::scan::in_cluster(m, c as int, at as int));
        positions.push(at as usize);
        let ghost before = next@;
        next.set(c, at + 1);
        proof {
            let part = a.take(i + 1);
            assert(part.drop_last() =~= a.take(i as int));
            assert forall|d: int| 0 <= d < next.len() implies #[trigger] next[d]
                == index.offsets[d] + crate::kmeans::members_of(part, d).len() by {
                assert(before[d] == index.offsets[d] + crate::kmeans::members_of(
                    a.take(i as int),
                    d,
                ).len());
            }
        }
        i = i + 1;
    }
    proof {
        assert forall|i: int| 0 <= i < positions.len() && (forall|j: int|
            0 <= j < i ==> #[trigger] assignments[j] != assignments[i]) implies #[trigger]
            positions[i] == index.offsets[assignments[i] as int] by {
            lemma_no_members(a.take(i), a[i] as int);
        }
        assert forall|i: int, j: int|
            0 <= i < j < positions.len() && assignments[i] == assignments[j] && (forall|l: int|
                i < l < j ==> #[trigger] assignments[l] != assignments[i]) implies #[trigger]
            positions[j] == #[trigger] positions[i] + 1 by {
            assert(a.take(i + 1).drop_last() =~= a.take(i));
            lemma_same_members(a, i + 1, j, a[i] as int);
        }
        assert forall|i: int| 0 <= i < positions.len() implies index.offsets[assignments[i] as int]
            <= #[trigger] positions[i] < index.offsets[assignments[i] + 1] by {
            assert(has_place(m, a, i));
        }
    }
    Some(positions)
}

/// The five references with the smallest keys, nearest first.
pub open spec fn true_neighbors(
    keys: Seq<u32>,
    labels: Seq<bool>,
    positions: Seq<usize>,
) -> Seq<RefNeighbor> {
    crate::scan::probed(keys, 5).map_values(
        |i: usize|
            RefNeighbor {
                ref_idx: i,
                vec_idx: positions[i as int],
                key: keys[i as int],
                is_fraud: labels[i as int],
            },
    )
}

/// The true five nearest references, from the distance key, the label and the
/// index position of every reference.
pub fn brute_force_5nn(keys: &Vec<u32>, labels: &Vec<bool>, positions: &Vec<usize>) -> (best: Vec<
    RefNeighbor,
>)
    requires
        labels.len() == keys.len(),
        positions.len() == keys.len(),
    ensures
        best@ == true_neighbors(keys@, labels@, positions@),
        best.len() == if keys.len() < 5 {
            keys.len()
        } else {
            5
        },
        forall|i: int|
            0 <= i < best.len() ==> {
                let r = (#[trigger] best[i]).ref_idx as int;
                &&& r < keys.len()
                &&& best[i].vec_idx == positions[r]
                &&& best[i].key == keys[r]
                &&& best[i].is_fraud == labels[r]
            },
        forall|i: int, j: int|
            0 <= i < j < best.len() ==> (#[trigger] best[i]).ref_idx != (
            #[trigger] best[j]).ref_idx && best[i].key <= best[j].key,
        forall|i: int, r: int|
            #![trigger best[i], keys[r]]
            0 <= i < best.len() && 0 <= r < keys.len() && (forall|j: int|
                0 <= j < best.len() ==> (#[trigger] best[j]).ref_idx != r) ==> best[i].key
                <= keys[r],
{
    let n: usize = if K < keys.len() {
        K
    } else {
        keys.len()
    };
    assert(n == crate::scan::probe_count(K as nat, keys@.len()));
    let order: Vec<usize> = nearest_indices(keys, n);
    let mut best: Vec<RefNeighbor> = Vec::new();
    let mut i: usize = 0;
    while i < order.len()
        invariant
            i <= order.len(),
            labels.len() == keys.len(),
            positions.len() == keys.len(),
            crate::nearest::is_nearest_order(keys@, order@, n as nat),
            best.len() == i,
            forall|j: int|
                0 <= j < i ==> #[trigger] best[j] == (RefNeighbor {
                    ref_idx: order[j],
                    vec_idx: positions[order[j] as int],
                    key: keys[order[j] as int],
                    is_fraud: labels[order[j] as int],
                }),
        decreases order.len() - i,
    {
        let r: usize = order[i];
        best.push(
            RefNeighbor {
                ref_idx: r,
                vec_idx: positions[r],
                key: keys[r],
                is_fraud: labels[r],
            },
        );
        i = i + 1;
    }
    assert(best@ =~= true_neighbors(keys@, labels@, positions@));
    proof {
        assert forall|i: int, r: int|
            #![trigger best[i], keys[r]]
            0 <= i < best.len() && 0 <= r < keys.len() && (forall|j: int|
                0 <= j < best.len() ==> (#[trigger] best[j]).ref_idx != r) implies best[i].key
            <= keys[r] by {
            assert(!order@.contains(r as usize)) by {
                if order@.contains(r as usize) {
                    let j = choose|j: int| 0 <= j < order.len() && order[j] == r as usize;
                    assert(best[j].ref_idx == r);
                }
            }
        }
    }
    best
}

/// The first cluster whose range holds vector `v`.
pub open spec fn is_cluster_of(m: crate::index_file::IndexModel, v: int, c: int) -> bool {
    &&& 0 <= c < m.centroids.len()
    &&& crate::scan::in_cluster(m, c, v)
    &&& forall|d: int| 0 <= d < c ==> !#[trigger] crate::scan::in_cluster(m, d, v)
}

/// Vector `v` lies in the range of some cluster.
pub open spec fn has_cluster(m: crate::index_file::IndexModel, v: int) -> bool {
    exists|c: int| 0 <= c < m.centroids.len() && #[trigger] crate::scan::in_cluster(m, c, v)
}

/// The cluster of vector `v`.
pub open spec fn cluster_of(m: crate::index_file::IndexModel, v: int) -> int {
    choose|c: int| is_cluster_of(m, v, c)
}

/// The rank of the centroid of vector `v`'s cluster among all centroids, from 1
/// for the nearest.
pub open spec fn cluster_rank(
    m: crate::index_file::IndexModel,
    cent_keys: Seq<u32>,
    v: int,
) -> nat {
    crate::nearest::nearer_than(cent_keys, cluster_of(m, v)).len() + 1
}

/// The cluster of vector `v`.
pub fn find_cluster(index: &IvfIndex, v: usize) -> (c: usize)
    requires
        index.wf(),
        has_cluster(index.model(), v as int),
    ensures
        is_cluster_of(index.model(), v as int, c as int),
        c == cluster_of(index.model(), v as int),
        c < index.num_cents,
        index.offsets[c as int] <= v < index.offsets[c + 1],
        forall|d: int|
            0 <= d < c ==> !(#[trigger] index.offsets[d] <= v && v < index.offsets[d + 1]),
{
    let ghost m = index.model();
    let mut c: usize = 0;
    while c < index.num_cents
        invariant
            index.wf(),
            m == index.model(),
            has_cluster(m, v as int),
            c <= index.num_cents,
            forall|d: int| 0 <= d < c ==> !#[trigger] crate::scan::in_cluster(m, d, v as int),
        decreases index.num_cents - c,
    {
        if v as u64 >= index.offsets[c] && (v as u64) < index.offsets[c + 1] {
            assert(crate::scan::in_cluster(m, c as int, v as int));
            assert(is_cluster_of(m, v as int, c as int));
            assert forall|d: int| 0 <= d < c implies !(#[trigger] index.offsets[d] <= v && v
                < index.offsets[d + 1]) by {
                assert(!crate::scan::in_cluster(m, d, v as int));
            }
            return c;
        }
        c = c + 1;
    }
    assert(false);
    c
}

/// The rank of the centroid of vector `v`'s cluster, counted from 1 for the
/// nearest centroid.
pub fn cluster_rank_of_vec_in_centroid_order(
    index: &IvfIndex,
    cent_keys: &Vec<u32>,
    v: usize,
) -> (rank: usize)
    requires
        index.wf(),
        cent_keys.len() == index.num_cents,
        has_cluster(index.model(), v as int),
    ensures
        rank == cluster_rank(index.model(), cent_keys@, v as int),
        exists|c: int|
            0 <= c < index.num_cents && #[trigger] index.offsets[c] <= v < index.offsets[c + 1] && (
            forall|d: int|
                0 <= d < c ==> !(#[trigger] index.offsets[d] <= v && v < index.offsets[d + 1]))
                && rank == vstd::set_lib::set_int_range(0, cent_keys@.len() as int).filter(
                        |j: int|
                            cent_keys@[j] < cent_keys@[c] || (cent_keys@[j]
                                == cent_keys@[c] && j < c),
                    ).len() + 1,
{
    let c: usize = find_cluster(index, v);
    nearness_rank(cent_keys, c)
}

/// Why the service gave a wrong answer.
#[derive(Clone, Copy, PartialEq, Eq, Structural, Debug)]
pub enum Classification {
    /// The true neighbours were scanned, but quantized distances ranked others
    /// before them.
    TieFlip,
    /// A true neighbour lies outside the probed clusters.
    ProbeMiss,
    /// Even the true neighbours do not give the expected answer.
    Vectorize,
    /// None of these.
    Other,
}

/// A true neighbour, and where the index holds it.
#[derive(Clone, Copy, PartialEq, Eq, Structural, Debug)]
pub struct TrueNeighbor {
    pub vec_idx: usize,
    pub key: u32,
    pub is_fraud: bool,
    pub cluster_idx: usize,
    pub cluster_rank_in_cent_order: usize,
}

/// The cause of one wrong answer, with what led to it.
pub struct Diagnosis {
    pub classification: Classification,
    pub true_5nn: Vec<TrueNeighbor>,
    pub fraud_count_true: usize,
    /// For a probe miss: the lowest rank of a missed neighbour's cluster.
    pub probe_miss_cluster_rank: Option<usize>,
    /// For a tie flip: how far apart the quantized distances of the true fifth
    /// neighbour and of the fifth returned one are.
    pub tie_flip_int8_gap: Option<i32>,
}

/// The cause of a wrong answer. The true neighbours come first: where they
/// already give another answer than expected, the search is not to blame.
pub open spec fn cause(
    expected_approved: bool,
    true_frauds: nat,
    ivf_frauds: nat,
    all_scanned: bool,
) -> Classification {
    if (true_frauds < 3) != expected_approved {
        Classification::Vectorize
    } else if !all_scanned {
        Classification::ProbeMiss
    } else if ivf_frauds != true_frauds {
        Classification::TieFlip
    } else {
        Classification::Other
    }
}

/// The fraud flags of true neighbours.
pub open spec fn ref_flags(nn: Seq<RefNeighbor>) -> Seq<bool> {
    nn.map_values(|r: RefNeighbor| r.is_fraud)
}

/// True neighbour `i` was not scanned.
pub open spec fn is_missed(nn: Seq<RefNeighbor>, scanned: Seq<usize>, i: int) -> bool {
    !scanned.contains(nn[i].vec_idx)
}

/// Every true neighbour was scanned.
pub open spec fn all_scanned(nn: Seq<RefNeighbor>, scanned: Seq<usize>) -> bool {
    forall|i: int| 0 <= i < nn.len() ==> !#[trigger] is_missed(nn, scanned, i)
}

/// `rank` is the lowest cluster rank of a missed neighbour.
pub open spec fn is_lowest_missed_rank(
    m: crate::index_file::IndexModel,
    cent_keys: Seq<u32>,
    nn: Seq<RefNeighbor>,
    scanned: Seq<usize>,
    rank: int,
) -> bool {
    &&& exists|i: int|
        0 <= i < nn.len() && #[trigger] is_missed(nn, scanned, i) && rank == cluster_rank(
            m,
            cent_keys,
            nn[i].vec_idx as int,
        )
    &&& forall|i: int|
        0 <= i < nn.len() && #[trigger] is_missed(nn, scanned, i) ==> rank <= cluster_rank(
            m,
            cent_keys,
            nn[i].vec_idx as int,
        )
}

/// The largest distance of the candidates.
pub open spec fn farthest(cands: Seq<Candidate>) -> int
    recommends
        cands.len() > 0,
    decreases cands.len(),
{
    if cands.len() <= 1 {
        cands[0].dist as int
    } else if cands.last().dist > farthest(cands.drop_last()) {
        cands.last().dist as int
    } else {
        farthest(cands.drop_last())
    }
}

/// How far apart the quantized distances of the true fifth neighbour and of the
/// farthest returned one are; 0 where there is no such pair.
pub open spec fn fifth_gap(
    m: crate::index_file::IndexModel,
    query: Seq<i8>,
    nn: Seq<RefNeighbor>,
    returned: Seq<Candidate>,
) -> int {
    if nn.len() < 5 || returned.len() == 0 {
        0
    } else {
        let true_fifth = crate::scan::squared_distance(
            m.vectors[nn[4].vec_idx as int],
            query,
            14,
        );
        if true_fifth < farthest(returned) {
            farthest(returned) - true_fifth
        } else {
            true_fifth - farthest(returned)
        }
    }
}

/// What a true neighbour looks like in the report.
pub open spec fn located(
    m: crate::index_file::IndexModel,
    cent_keys: Seq<u32>,
    r: RefNeighbor,
    t: TrueNeighbor,
) -> bool {
    &&& t.vec_idx == r.vec_idx
    &&& t.key == r.key
    &&& t.is_fraud == r.is_fraud
    &&& t.cluster_idx == cluster_of(m, r.vec_idx as int)
    &&& t.cluster_rank_in_cent_order == cluster_rank(m, cent_keys, r.vec_idx as int)
}

proof fn lemma_farthest_among(cands: Seq<Candidate>) -> (i: int)
    requires
        cands.len() > 0,
    ensures
        0 <= i < cands.len(),
        farthest(cands) == cands[i].dist,
        forall|j: int| 0 <= j < cands.len() ==> (#[trigger] cands[j]).dist <= cands[i].dist,
    decreases cands.len(),
{
    if cands.len() == 1 {
        0
    } else {
        let front = cands.drop_last();
        let i = lemma_farthest_among(front);
        assert forall|j: int| 0 <= j < cands.len() - 1 implies (#[trigger] cands[j]).dist
            <= farthest(front) by {
            assert(front[j] == cands[j]);
        }
        if cands.last().dist > farthest(front) {
            cands.len() - 1
        } else {
            i
        }
    }
}

fn was_scanned(scanned: &Vec<usize>, v: usize) -> (found: bool)
    ensures
        found == scanned@.contains(v),
{
    let mut i: usize = 0;
    while i < scanned.len()
        invariant
            i <= scanned.len(),
            forall|j: int| 0 <= j < i ==> scanned[j] != v,
        decreases scanned.len() - i,
    {
        if scanned[i] == v {
            return true;
        }
        i = i + 1;
    }
    false
}

fn farthest_returned(cands: &Vec<Candidate>) -> (d: i32)
    requires
        cands.len() > 0,
    ensures
        d == farthest(cands@),
{
    let mut d: i32 = cands[0].dist;
    let mut i: usize = 1;
    assert(cands@.take(1)[0] == cands[0]);
    while i < cands.len()
        invariant
            1 <= i <= cands.len(),
            d == farthest(cands@.take(i as int)),
        decreases cands.len() - i,
    {
        assert(cands@.take(i + 1).drop_last() =~= cands@.take(i as int));
        if cands[i].dist > d {
            d = cands[i].dist;
        }
        i = i + 1;
    }
    assert(cands@.take(cands.len() as int) =~= cands@);
    d
}

fn locate_all(index: &IvfIndex, cent_keys: &Vec<u32>, nn: &Vec<RefNeighbor>) -> (out: Vec<
    TrueNeighbor,
>)
    requires
        index.wf(),
        cent_keys.len() == index.num_cents,
        forall|i: int|
            0 <= i < nn.len() ==> has_cluster(
                index.model(),
                (#[trigger] nn[i]).vec_idx as int,
            ),
    ensures
        out.len() == nn.len(),
        forall|i: int|
            0 <= i < nn.len() ==> located(
                index.model(),
                cent_keys@,
                nn[i],
                #[trigger] out[i],
            ),
{
    let mut out: Vec<TrueNeighbor> = Vec::new();
    let mut i: usize = 0;
    while i < nn.len()
        invariant
            index.wf(),
            cent_keys.len() == index.num_cents,
            forall|j: int|
                0 <= j < nn.len() ==> has_cluster(
                    index.model(),
                    (#[trigger] nn[j]).vec_idx as int,
                ),
            i <= nn.len(),
            out.len() == i,
            forall|j: int|
                0 <= j < i ==> located(index.model(), cent_keys@, nn[j], #[trigger] out[j]),
        decreases nn.len() - i,
    {
        let r: RefNeighbor = nn[i];
        out.push(
            TrueNeighbor {
                vec_idx: r.vec_idx,
                key: r.key,
                is_fraud: r.is_fraud,
                cluster_idx: find_cluster(index, r.vec_idx),
                cluster_rank_in_cent_order: cluster_rank_of_vec_in_centroid_order(
                    index,
                    cent_keys,
                    r.vec_idx,
                ),
            },
        );
        i = i + 1;
    }
    out
}

fn count_ref_frauds(nn: &Vec<RefNeighbor>) -> (count: usize)
    ensures
        count == crate::decision::count_true(ref_flags(nn@)),
{
    let ghost flags = ref_flags(nn@);
    let mut count: usize = 0;
    let mut i: usize = 0;
    while i < nn.len()
        invariant
            i <= nn.len(),
            flags == ref_flags(nn@),
            count <= i,
            count == crate::decision::count_true(flags.take(i as int)),
        decreases nn.len() - i,
    {
        assert(flags.take(i + 1).drop_last() =~= flags.take(i as int));
        if nn[i].is_fraud {
            count = count + 1;
        }
        i = i + 1;
    }
    assert(flags.take(nn.len() as int) =~= flags);
    count
}

fn lowest_missed_rank(
    Ghost(m): Ghost<crate::index_file::IndexModel>,
    Ghost(cent_keys): Ghost<Seq<u32>>,
    nn: &Vec<RefNeighbor>,
    located_nn: &Vec<TrueNeighbor>,
    scanned: &Vec<usize>,
) -> (rank: Option<usize>)
    requires
        located_nn.len() == nn.len(),
        forall|i: int|
            0 <= i < nn.len() ==> located(m, cent_keys, nn[i], #[trigger] located_nn[i]),
    ensures
        match rank {
            None => all_scanned(nn@, scanned@),
            Some(r) => {
                &&& !all_scanned(nn@, scanned@)
                &&& is_lowest_missed_rank(m, cent_keys, nn@, scanned@, r as int)
            },
        },
{
    let mut rank: Option<usize> = None;
    let mut i: usize = 0;
    while i < nn.len()
        invariant
            i <= nn.len(),
            located_nn.len() == nn.len(),
            forall|j: int|
                0 <= j < nn.len() ==> located(m, cent_keys, nn[j], #[trigger] located_nn[j]),
            match rank {
                None => forall|j: int| 0 <= j < i ==> !#[trigger] is_missed(nn@, scanned@, j),
                Some(r) => {
                    &&& exists|j: int|
                        0 <= j < i && #[trigger] is_missed(nn@, scanned@, j) && r == cluster_rank(
                            m,
                            cent_keys,
                            nn[j].vec_idx as int,
                        )
                    &&& forall|j: int|
                        0 <= j < i && #[trigger] is_missed(nn@, scanned@, j) ==> r <= cluster_rank(
                            m,
                            cent_keys,
                            nn[j].vec_idx as int,
                        )
                },
            },
        decreases nn.len() - i,
    {
        let found: bool = was_scanned(scanned, nn[i].vec_idx);
        assert(is_missed(nn@, scanned@, i as int) == !found);
        assert(located(m, cent_keys, nn[i as int], located_nn[i as int]));
        if !found {
            let here: usize = located_nn[i].cluster_rank_in_cent_order;
            rank = match rank {
                None => Some(here),
                Some(r) => if here < r {
                    Some(here)
                } else {
                    Some(r)
                },
            };
        }
        i = i + 1;
    }
    rank
}

/// Names the cause of a wrong answer, from what the search did and from the
/// true neighbours, which are looked up by their positions in the index.
pub fn classify(
    index: &IvfIndex,
    query: &[FloatBits; DIMS],
    cent_keys: &Vec<u32>,
    diag: &DiagResult,
    true_nn: &Vec<RefNeighbor>,
    expected_approved: bool,
) -> (res: Diagnosis)
    requires
        index.wf(),
        cent_keys.len() == index.num_cents,
        diag.wf(index.num_vecs as nat),
        forall|i: int|
            0 <= i < true_nn.len() ==> has_cluster(
                index.model(),
                (#[trigger] true_nn[i]).vec_idx as int,
            ),
    ensures
        res.fraud_count_true == crate::decision::count_true(ref_flags(true_nn@)),
        res.fraud_count_true == true_nn@.map_values(
            |r: RefNeighbor| r.is_fraud,
        ).to_multiset().count(true),
        res.classification == Classification::Vectorize <==> (res.fraud_count_true < 3)
            != expected_approved,
        (res.fraud_count_true < 3) == expected_approved ==> (res.classification
            == Classification::ProbeMiss <==> exists|i: int|
            0 <= i < true_nn.len() && !diag.scanned_vector_indices@.contains(
                (#[trigger] true_nn[i]).vec_idx,
            )),
        (res.fraud_count_true < 3) == expected_approved && (forall|i: int|
            0 <= i < true_nn.len() ==> diag.scanned_vector_indices@.contains(
                (#[trigger] true_nn[i]).vec_idx,
            )) ==> {
            &&& res.classification == Classification::TieFlip <==> diag.ivf_fraud_count
                != res.fraud_count_true
            &&& res.classification == Classification::Other <==> diag.ivf_fraud_count
                == res.fraud_count_true
        },
        forall|i: int|
            0 <= i < true_nn.len() ==> {
                let t = #[trigger] res.true_5nn[i];
                &&& t.vec_idx == true_nn[i].vec_idx
                &&& t.key == true_nn[i].key
                &&& t.is_fraud == true_nn[i].is_fraud
                &&& t.cluster_idx < index.num_cents
                &&& index.offsets[t.cluster_idx as int] <= t.vec_idx < index.offsets[t.cluster_idx
                    + 1]
                &&& t.cluster_rank_in_cent_order == vstd::set_lib::set_int_range(
                    0,
                    cent_keys@.len() as int,
                ).filter(
                    |j: int|
                        cent_keys@[j] < cent_keys@[t.cluster_idx as int] || (cent_keys@[j]
                            == cent_keys@[t.cluster_idx as int] && j < t.cluster_idx),
                ).len() + 1
            },
        res.classification == Classification::ProbeMiss <==> res.probe_miss_cluster_rank is Some,
        res.probe_miss_cluster_rank matches Some(rank) ==> {
            &&& exists|i: int|
                0 <= i < true_nn.len() && !diag.scanned_vector_indices@.contains(
                    true_nn[i].vec_idx,
                ) && (#[trigger] res.true_5nn[i]).cluster_rank_in_cent_order == rank
            &&& forall|i: int|
                0 <= i < true_nn.len() && !diag.scanned_vector_indices@.contains(
                    true_nn[i].vec_idx,
                ) ==> (#[trigger] res.true_5nn[i]).cluster_rank_in_cent_order >= rank
        },
        res.classification == Classification::TieFlip <==> res.tie_flip_int8_gap is Some,
        res.tie_flip_int8_gap matches Some(gap) ==> {
            &&& true_nn.len() < 5 || diag.returned_neighbors.len() == 0 ==> gap == 0
            &&& true_nn.len() >= 5 && diag.returned_neighbors.len() > 0 ==> exists|i: int|
                {
                    let a = crate::scan::squared_distance(
                        index.vecs[true_nn[4].vec_idx as int]@,
                        crate::quantize::quantized_vec(query@),
                        14,
                    );
                    let b = (#[trigger] diag.returned_neighbors[i]).dist as int;
                    &&& 0 <= i < diag.returned_neighbors.len()
                    &&& forall|j: int|
                        0 <= j < diag.returned_neighbors.len() ==> (
                        #[trigger] diag.returned_neighbors[j]).dist <= b
                    &&& gap == a - b || gap == b - a
                    &&& gap >= 0
                }
        },
        res.classification == cause(
            expected_approved,
            res.fraud_count_true as nat,
            diag.ivf_fraud_count as nat,
            all_scanned(true_nn@, diag.scanned_vector_indices@),
        ),
        res.true_5nn.len() == true_nn.len(),
        forall|i: int|
            0 <= i < true_nn.len() ==> located(
                index.model(),
                cent_keys@,
                true_nn[i],
                #[trigger] res.true_5nn[i],
            ),
        match res.probe_miss_cluster_rank {
            Some(rank) => res.classification == Classification::ProbeMiss && is_lowest_missed_rank(
                index.model(),
                cent_keys@,
                true_nn@,
                diag.scanned_vector_indices@,
                rank as int,
            ),
            None => res.classification != Classification::ProbeMiss,
        },
        match res.tie_flip_int8_gap {
            Some(gap) => res.classification == Classification::TieFlip && gap == fifth_gap(
                index.model(),
                crate::quantize::quantized_vec(query@),
                true_nn@,
                diag.returned_neighbors@,
            ),
            None => res.classification != Classification::TieFlip,
        },
{
    let ghost m = index.model();
    let true_5nn: Vec<TrueNeighbor> = locate_all(index, cent_keys, true_nn);
    let fraud_count_true: usize = count_ref_frauds(true_nn);
    proof {
        crate::decision::lemma_count_true(ref_flags(true_nn@));
        assert(ref_flags(true_nn@) =~= true_nn@.map_values(|r: RefNeighbor| r.is_fraud));
        assert forall|i: int| 0 <= i < true_nn.len() implies is_missed(
            true_nn@,
            diag.scanned_vector_indices@,
            i,
        ) == !diag.scanned_vector_indices@.contains((#[trigger] true_nn[i]).vec_idx) by {}
        assert forall|i: int| 0 <= i < true_nn.len() implies ({
            let t = #[trigger] true_5nn[i];
            &&& t.cluster_idx < index.num_cents
            &&& index.offsets[t.cluster_idx as int] <= t.vec_idx < index.offsets[t.cluster_idx + 1]
            &&& t.cluster_rank_in_cent_order == vstd::set_lib::set_int_range(
                0,
                cent_keys@.len() as int,
            ).filter(
                |j: int|
                    cent_keys@[j] < cent_keys@[t.cluster_idx as int] || (cent_keys@[j]
                        == cent_keys@[t.cluster_idx as int] && j < t.cluster_idx),
            ).len() + 1
        }) by {
            let t = true_5nn[i];
            let v = true_nn[i].vec_idx as int;
            assert(has_cluster(m, v));
            let c = choose|c: int|
                0 <= c < m.centroids.len() && #[trigger] crate::scan::in_cluster(m, c, v);
            lemma_cluster_of(m, v, c);
            assert(crate::nearest::nearer_than(cent_keys@, t.cluster_idx as int)
                =~= vstd::set_lib::set_int_range(0, cent_keys@.len() as int).filter(
                |j: int|
                    cent_keys@[j] < cent_keys@[t.cluster_idx as int] || (cent_keys@[j]
                        == cent_keys@[t.cluster_idx as int] && j < t.cluster_idx),
            ));
        }
    }
    let missed: Option<usize> = lowest_missed_rank(
        Ghost(m),
        Ghost(cent_keys@),
        true_nn,
        &true_5nn,
        &diag.scanned_vector_indices,
    );
    if is_approved(fraud_count_true) != expected_approved {
        return Diagnosis {
            classification: Classification::Vectorize,
            true_5nn,
            fraud_count_true,
            probe_miss_cluster_rank: None,
            tie_flip_int8_gap: None,
        };
    }
    if missed.is_some() {
        proof {
            let scanned = diag.scanned_vector_indices@;
            let w = choose|i: int|
                0 <= i < true_nn.len() && #[trigger] is_missed(true_nn@, scanned, i) && missed->0
                    == cluster_rank(m, cent_keys@, true_nn[i].vec_idx as int);
            assert(located(m, cent_keys@, true_nn[w], true_5nn[w]));
            assert(0 <= w < true_nn.len() && is_missed(true_nn@, scanned, w));
            assert(!scanned.contains(true_nn[w].vec_idx));
            assert(true_5nn[w].cluster_rank_in_cent_order == missed->0);
            assert forall|i: int| 0 <= i < true_nn.len() && !scanned.contains(
                true_nn[i].vec_idx,
            ) implies (#[trigger] true_5nn[i]).cluster_rank_in_cent_order >= missed->0 by {
                assert(is_missed(true_nn@, scanned, i));
                assert(located(m, cent_keys@, true_nn[i], true_5nn[i]));
            }
        }
        let ghost located_nn = true_5nn@;
        let res: Diagnosis = Diagnosis {
            classification: Classification::ProbeMiss,
            true_5nn,
            fraud_count_true,
            probe_miss_cluster_rank: missed,
            tie_flip_int8_gap: None,
        };
        assert(res.true_5nn@ == located_nn);
        return res;
    }
    if diag.ivf_fraud_count == fraud_count_true {
        return Diagnosis {
            classification: Classification::Other,
            true_5nn,
            fraud_count_true,
            probe_miss_cluster_rank: None,
            tie_flip_int8_gap: None,
        };
    }
    let mut gap: i32 = 0;
    if true_nn.len() >= K && diag.returned_neighbors.len() > 0 {
        let fifth: usize = true_nn[4].vec_idx;
        proof {
            assert(!is_missed(true_nn@, diag.scanned_vector_indices@, 4));
            let at = choose|i: int|
                0 <= i < diag.scanned_vector_indices.len() && diag.scanned_vector_indices[i]
                    == fifth;
            assert(diag.scanned_vector_indices[at] < index.num_vecs);
            let top = lemma_farthest_among(diag.returned_neighbors@);
            assert(diag.returned_neighbors[top].dist == farthest(diag.returned_neighbors@));
            assert(m.vectors[fifth as int] == index.vecs[fifth as int]@);
        }
        let q: [i8; DIMS] = quantize_vec(query);
        let a: i32 = dist_int8(&index.vecs[fifth], &q);
        let b: i32 = farthest_returned(&diag.returned_neighbors);
        gap = if a < b {
            b - a
        } else {
            a - b
        };
    }
    Diagnosis {
        classification: Classification::TieFlip,
        true_5nn,
        fraud_count_true,
        probe_miss_cluster_rank: None,
        tie_flip_int8_gap: Some(gap),
    }
}

/// The cluster of a vector that has one is fixed.
pub proof fn lemma_cluster_of(m: crate::index_file::IndexModel, v: int, c: int)
    requires
        0 <= c < m.centroids.len(),
        crate::scan::in_cluster(m, c, v),
    ensures
        is_cluster_of(m, v, cluster_of(m, v)),
    decreases c,
{
    if exists|d: int| 0 <= d < c && #[trigger] crate::scan::in_cluster(m, d, v) {
        let d = choose|d: int| 0 <= d < c && #[trigger] crate::scan::in_cluster(m, d, v);
        lemma_cluster_of(m, v, d);
    } else {
        assert(is_cluster_of(m, v, c));
    }
}

/// A centroid has rank three or better exactly if its cluster is probed.
pub proof fn lemma_rank_tells_probed(cent_keys: Seq<u32>, c: usize)
    requires
        c < cent_keys.len(),
        cent_keys.len() <= usize::MAX,
    ensures
        crate::nearest::nearer_than(cent_keys, c as int).len() + 1 <= 3
            <==> crate::scan::probed(cent_keys, 3).contains(c),
{
    let n = crate::scan::probe_count(3, cent_keys.len());
    let order = crate::scan::probed(cent_keys, 3);
    crate::nearest::lemma_nearest_order_exists(cent_keys, n);
    crate::nearest::lemma_rank_within(cent_keys, order, n, c);
    if n == cent_keys.len() {
        crate::nearest::lemma_full_order_contains(cent_keys, order, c);
    }
}

/// In a partitioned index a vector is scanned by a diagnostic search exactly if
/// the centroid of its cluster has rank three or better. A missed neighbour
/// always has a rank above three.
pub proof fn lemma_rank_tells_scanned(
    m: crate::index_file::IndexModel,
    query: Seq<i8>,
    cent_keys: Seq<u32>,
    v: usize,
)
    requires
        crate::index_file::is_partitioned(m),
        cent_keys.len() == m.centroids.len(),
        cent_keys.len() <= usize::MAX,
        m.vectors.len() <= usize::MAX,
        v < m.vectors.len(),
    ensures
        candidate_indices(
            crate::scan::scanned(m, query, crate::scan::probed(cent_keys, 3)),
        ).contains(v) <==> cluster_rank(m, cent_keys, v as int) <= 3,
{
    let order = crate::scan::probed(cent_keys, 3);
    let some = crate::scan::lemma_some_cluster(m, v as int);
    lemma_cluster_of(m, v as int, some);
    let c = cluster_of(m, v as int);
    lemma_rank_tells_probed(cent_keys, c as usize);
    crate::nearest::lemma_nearest_order_exists(
        cent_keys,
        crate::scan::probe_count(3, cent_keys.len()),
    );
    assert(crate::scan::all_in_range(m, order));
    crate::scan::lemma_scanned_indices(m, query, order, v);
    if order.contains(c as usize) {
        let p = choose|p: int| 0 <= p < order.len() && order[p] == c as usize;
        assert(crate::scan::in_cluster(m, order[p] as int, v as int));
    }
    if exists|p: int|
        0 <= p < order.len() && crate::scan::in_cluster(
            m,
            #[trigger] order[p] as int,
            v as int,
        ) {
        let p = choose|p: int|
            0 <= p < order.len() && crate::scan::in_cluster(
                m,
                #[trigger] order[p] as int,
                v as int,
            );
        crate::scan::lemma_one_cluster(m, v as int, order[p] as int, c);
        assert(order.contains(c as usize));
    }
}

/// A wrong answer of the diagnostic search always has a named cause.
pub proof fn lemma_wrong_answer_has_cause(
    expected_approved: bool,
    true_frauds: nat,
    ivf_frauds: nat,
    all_scanned: bool,
)
    requires
        (ivf_frauds < 3) != expected_approved,
    ensures
        cause(expected_approved, true_frauds, ivf_frauds, all_scanned) != Classification::Other,
{
}

/// A diagnostic search finds what the service finds with three probes and five
/// neighbours: whenever one result is as a search promises and the other as a
/// diagnostic search promises, their flags agree.
pub proof fn lemma_diagnosis_matches_service(
    m: crate::index_file::IndexModel,
    query: Seq<i8>,
    cent_keys: Seq<u32>,
    found: Seq<crate::searcher::Neighbor>,
    diag: DiagResult,
)
    requires
        ({
            let best = crate::heap::best_k(
                crate::scan::scanned(m, query, crate::scan::probed(cent_keys, 3)),
                5,
            );
            &&& found == best.map_values(
                |c: Candidate| crate::searcher::Neighbor { is_fraud: c.is_fraud },
            )
            &&& diag.returned_neighbors@ == best
            &&& diag.ivf_fraud_count == crate::decision::count_true(
                crate::decision::candidate_flags(best),
            )
        }),
    ensures
        crate::decision::neighbor_flags(found) == crate::decision::candidate_flags(
            diag.returned_neighbors@,
        ),
        diag.ivf_fraud_count == crate::decision::count_true(crate::decision::neighbor_flags(found)),
{
    assert(crate::decision::neighbor_flags(found) =~= crate::decision::candidate_flags(
        diag.returned_neighbors@,
    ));
}

/// The clusters hold the entries of the references, each in the cluster of its
/// nearest centroid and in the order of the references.
pub open spec fn is_gathered(
    clusters: Seq<Vec<crate::index_file::Entry>>,
    entries: Seq<crate::index_file::Entry>,
    assignments: Seq<usize>,
) -> bool {
    &&& entries.len() == assignments.len()
    &&& forall|c: int|
        0 <= c < clusters.len() ==> (#[trigger] clusters[c])@ == crate::kmeans::members_of(
            assignments,
            c,
        ).map_values(|i: usize| entries[i as int])
}

/// Empty clusters hold no reference.
pub proof fn lemma_nothing_gathered(clusters: Seq<Vec<crate::index_file::Entry>>)
    requires
        forall|c: int| 0 <= c < clusters.len() ==> (#[trigger] clusters[c])@.len() == 0,
    ensures
        is_gathered(clusters, Seq::empty(), Seq::empty()),
{
    let entries = Seq::<crate::index_file::Entry>::empty();
    assert forall|c: int| 0 <= c < clusters.len() implies (#[trigger] clusters[c])@
        == crate::kmeans::members_of(Seq::empty(), c).map_values(|i: usize| entries[i as int]) by {
        assert(clusters[c]@ =~= crate::kmeans::members_of(Seq::empty(), c).map_values(
            |i: usize| entries[i as int],
        ));
    }
}

/// Adding a reference to the cluster of its nearest centroid keeps the clusters
/// gathered.
pub proof fn lemma_gathered_grows(
    before: Seq<Vec<crate::index_file::Entry>>,
    after: Seq<Vec<crate::index_file::Entry>>,
    entries: Seq<crate::index_file::Entry>,
    assignments: Seq<usize>,
    entry: crate::index_file::Entry,
    c: usize,
)
    requires
        is_gathered(before, entries, assignments),
        assignments.len() < usize::MAX,
        c < before.len(),
        after.len() == before.len(),
        after[c as int]@ == before[c as int]@.push(entry),
        forall|d: int| 0 <= d < before.len() && d != c ==> #[trigger] after[d] == before[d],
    ensures
        is_gathered(after, entries.push(entry), assignments.push(c)),
{
    let more = entries.push(entry);
    let all = assignments.push(c);
    assert(all.drop_last() =~= assignments);
    assert forall|d: int| 0 <= d < after.len() implies (#[trigger] after[d])@
        == crate::kmeans::members_of(all, d).map_values(|i: usize| more[i as int]) by {
        crate::kmeans::lemma_members_partition(assignments, d);
        let old_members = crate::kmeans::members_of(assignments, d);
        assert(before[d]@ == old_members.map_values(|i: usize| entries[i as int]));
        assert forall|j: int| 0 <= j < old_members.len() implies more[#[trigger] old_members[j]
            as int] == entries[old_members[j] as int] by {
            assert(old_members.contains(old_members[j]));
        }
        assert(after[d]@ =~= crate::kmeans::members_of(all, d).map_values(
            |i: usize| more[i as int],
        ));
    }
}

/// In an index built from the references, every reference has its place, and
/// what the index holds there is its own vector and label.
pub proof fn lemma_place_holds_own_vector(
    centroids: Seq<[FloatBits; DIMS]>,
    clusters: Seq<Vec<crate::index_file::Entry>>,
    entries: Seq<crate::index_file::Entry>,
    assignments: Seq<usize>,
    i: int,
)
    requires
        centroids.len() == clusters.len(),
        crate::index_file::flat(clusters).len() <= u64::MAX,
        is_gathered(clusters, entries, assignments),
        assignments.len() <= usize::MAX,
        0 <= i < assignments.len(),
        assignments[i] < clusters.len(),
    ensures
        ({
            let m = crate::index_file::built_model(centroids, clusters);
            let at = index_position(m.offsets, assignments, i);
            &&& has_place(m, assignments, i)
            &&& m.vectors[at] == entries[i].vec@
            &&& m.labels[at] == entries[i].is_fraud
        }),
{
    let m = crate::index_file::built_model(centroids, clusters);
    let c = assignments[i] as int;
    let place = crate::kmeans::members_of(assignments.take(i), c).len() as int;
    crate::kmeans::lemma_member_place(assignments, i);
    crate::index_file::lemma_cluster_range(centroids, clusters, c);
    crate::index_file::lemma_built_is_partitioned(centroids, clusters);
    assert(clusters[c]@ == crate::kmeans::members_of(assignments, c).map_values(
        |j: usize| entries[j as int],
    ));
    assert(clusters[c]@[place] == entries[i]);
    assert(m.offsets[c + 1] <= m.offsets[m.centroids.len() as int]);
}

/// Every wrong answer gets one cause. The vectors are to blame exactly where the
/// labels of the true neighbours do not give the expected answer; where they do,
/// the probes are exactly if a true neighbour was not scanned; and where all were
/// scanned, a tie flip is told from the rest by the number of frauds returned.
pub proof fn lemma_cause(
    expected_approved: bool,
    nn: Seq<RefNeighbor>,
    scanned: Seq<usize>,
    ivf_frauds: nat,
    found: Classification,
)
    requires
        found == cause(
            expected_approved,
            crate::decision::count_true(ref_flags(nn)),
            ivf_frauds,
            all_scanned(nn, scanned),
        ),
    ensures
        ({
            let frauds = nn.map_values(|r: RefNeighbor| r.is_fraud).to_multiset().count(true);
            let explained = expected_approved <==> frauds < 3;
            let missed = exists|i: int|
                0 <= i < nn.len() && !scanned.contains((#[trigger] nn[i]).vec_idx);
            &&& found == Classification::Vectorize <==> !explained
            &&& found == Classification::ProbeMiss <==> explained && missed
            &&& found == Classification::TieFlip <==> explained && !missed && ivf_frauds != frauds
            &&& found == Classification::Other <==> explained && !missed && ivf_frauds == frauds
        }),
{
    crate::decision::lemma_count_true(ref_flags(nn));
    assert(ref_flags(nn) =~= nn.map_values(|r: RefNeighbor| r.is_fraud));
    if all_scanned(nn, scanned) {
        assert forall|i: int| 0 <= i < nn.len() implies scanned.contains(
            (#[trigger] nn[i]).vec_idx,
        ) by {
            assert(!is_missed(nn, scanned, i));
        }
    } else {
        let i = choose|i: int| 0 <= i < nn.len() && #[trigger] is_missed(nn, scanned, i);
        assert(!scanned.contains(nn[i].vec_idx));
    }
}

} // verus!
