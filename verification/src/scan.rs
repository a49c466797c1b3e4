//! What a query reads from an index: which clusters are probed, which vectors
//! are scanned, and how far each is from the query.
use vstd::prelude::*;

use crate::quantize::DIMS;

verus! {

/// The squared distance over the first `n` dimensions.
pub open spec fn squared_distance(a: Seq<i8>, b: Seq<i8>, n: nat) -> int
    decreases n,
{
    if n == 0 {
        0
    } else {
        squared_distance(a, b, (n - 1) as nat) + (a[n - 1] - b[n - 1]) * (a[n - 1] - b[n - 1])
    }
}

/// The squared distance of two quantized vectors.
pub fn dist_int8(stored: &[i8; DIMS], query: &[i8; DIMS]) -> (d: i32)
    ensures
        d == squared_distance(stored@, query@, 14),
        d == (stored[0] - query[0]) * (stored[0] - query[0])
            + (stored[1] - query[1]) * (stored[1] - query[1])
            + (stored[2] - query[2]) * (stored[2] - query[2])
            + (stored[3] - query[3]) * (stored[3] - query[3])
            + (stored[4] - query[4]) * (stored[4] - query[4])
            + (stored[5] - query[5]) * (stored[5] - query[5])
            + (stored[6] - query[6]) * (stored[6] - query[6])
            + (stored[7] - query[7]) * (stored[7] - query[7])
            + (stored[8] - query[8]) * (stored[8] - query[8])
            + (stored[9] - query[9]) * (stored[9] - query[9])
            + (stored[10] - query[10]) * (stored[10] - query[10])
            + (stored[11] - query[11]) * (stored[11] - query[11])
            + (stored[12] - query[12]) * (stored[12] - query[12])
            + (stored[13] - query[13]) * (stored[13] - query[13]),
        0 <= d <= 14 * 65025,
{
    let mut sum: i32 = 0;
    let mut i: usize = 0;
    while i < DIMS
        invariant
            i <= DIMS,
            sum == squared_distance(stored@, query@, i as nat),
            0 <= sum <= i * 65025,
        decreases DIMS - i,
    {
        let diff: i32 = stored[i] as i32 - query[i] as i32;
        assert(0 <= diff * diff <= 65025) by (nonlinear_arith)
            requires
                -255 <= diff <= 255,
        ;
        sum = sum + diff * diff;
        i = i + 1;
    }
    proof {
        lemma_distance_is_sum_of_squares(stored@, query@);
    }
    sum
}

/// Vector `v` of an index as a candidate for `query`.
pub open spec fn candidate(
    m: crate::index_file::IndexModel,
    query: Seq<i8>,
    v: int,
) -> crate::heap::Candidate {
    crate::heap::Candidate {
        vec_idx: v as usize,
        dist: squared_distance(m.vectors[v], query, 14) as i32,
        is_fraud: m.labels[v],
    }
}

/// The number of vectors in the range of cluster `c`.
pub open spec fn cluster_size(m: crate::index_file::IndexModel, c: int) -> nat {
    if m.offsets[c] < m.offsets[c + 1] {
        (m.offsets[c + 1] - m.offsets[c]) as nat
    } else {
        0
    }
}

/// The candidates of cluster `c`, in stored order.
pub open spec fn cluster_scan(
    m: crate::index_file::IndexModel,
    query: Seq<i8>,
    c: int,
) -> Seq<crate::heap::Candidate> {
    Seq::new(cluster_size(m, c), |i: int| candidate(m, query, m.offsets[c] + i))
}

/// The candidates of the clusters in `order`, cluster after cluster.
pub open spec fn scanned(
    m: crate::index_file::IndexModel,
    query: Seq<i8>,
    order: Seq<usize>,
) -> Seq<crate::heap::Candidate>
    decreases order.len(),
{
    if order.len() == 0 {
        Seq::empty()
    } else {
        scanned(m, query, order.drop_last()) + cluster_scan(m, query, order.last() as int)
    }
}

/// The range of cluster `c` is empty or stays within the stored vectors.
pub open spec fn cluster_in_range(m: crate::index_file::IndexModel, c: int) -> bool {
    m.offsets[c] >= m.offsets[c + 1] || m.offsets[c + 1] <= m.vectors.len()
}

/// How many clusters are probed: as many as asked for, and no more than there
/// are.
pub open spec fn probe_count(probes: nat, num_cents: nat) -> nat {
    if probes < num_cents {
        probes
    } else {
        num_cents
    }
}

/// The clusters that a query probes, given the distance keys of all centroids:
/// those of the nearest centroids, nearest first.
pub open spec fn probed(cent_keys: Seq<u32>, probes: nat) -> Seq<usize> {
    crate::nearest::nearest_order(cent_keys, probe_count(probes, cent_keys.len()))
}

/// The range of every listed cluster is empty or stays within the stored
/// vectors.
pub open spec fn all_in_range(m: crate::index_file::IndexModel, order: Seq<usize>) -> bool {
    forall|i: int| 0 <= i < order.len() ==> cluster_in_range(m, #[trigger] order[i] as int)
}

/// Scanning one more cluster appends its candidates; no cluster holds more
/// than all of them together.
pub proof fn lemma_scanned_take(
    m: crate::index_file::IndexModel,
    query: Seq<i8>,
    order: Seq<usize>,
    p: int,
)
    requires
        0 <= p < order.len(),
    ensures
        scanned(m, query, order.take(p + 1)) == scanned(m, query, order.take(p)) + cluster_scan(
            m,
            query,
            order[p] as int,
        ),
        cluster_size(m, order[p] as int) <= scanned(m, query, order).len(),
{
    assert(order.take(p + 1).drop_last() =~= order.take(p));
    lemma_scanned_prefix(m, query, order, p + 1);
}

/// Probing more clusters only adds candidates at the end of the scan.
pub proof fn lemma_scanned_prefix(
    m: crate::index_file::IndexModel,
    query: Seq<i8>,
    order: Seq<usize>,
    p: int,
)
    requires
        0 <= p <= order.len(),
    ensures
        scanned(m, query, order.take(p)).len() <= scanned(m, query, order).len(),
        scanned(m, query, order.take(p)) == scanned(m, query, order).take(
            scanned(m, query, order.take(p)).len() as int,
        ),
    decreases order.len() - p,
{
    let part = scanned(m, query, order.take(p));
    if p < order.len() {
        assert(order.take(p + 1).drop_last() =~= order.take(p));
        lemma_scanned_prefix(m, query, order, p + 1);
        assert(part =~= scanned(m, query, order).take(part.len() as int));
    } else {
        assert(order.take(p) =~= order);
        assert(part =~= part.take(part.len() as int));
    }
}

/// A squared distance is never negative and at most 65025 per dimension.
pub proof fn lemma_squared_distance_bounds(a: Seq<i8>, b: Seq<i8>, n: nat)
    ensures
        0 <= squared_distance(a, b, n) <= n * 65025,
    decreases n,
{
    if n > 0 {
        lemma_squared_distance_bounds(a, b, (n - 1) as nat);
        let d = a[n - 1] - b[n - 1];
        assert(0 <= d * d <= 65025) by (nonlinear_arith)
            requires
                -255 <= d <= 255,
        ;
    }
}

/// A vector is at distance 0 from itself.
pub proof fn lemma_distance_to_itself(a: Seq<i8>, n: nat)
    ensures
        squared_distance(a, a, n) == 0,
    decreases n,
{
    if n > 0 {
        lemma_distance_to_itself(a, (n - 1) as nat);
    }
}

/// Distance does not depend on the order of two vectors.
pub proof fn lemma_distance_symmetric(a: Seq<i8>, b: Seq<i8>, n: nat)
    ensures
        squared_distance(a, b, n) == squared_distance(b, a, n),
    decreases n,
{
    if n > 0 {
        lemma_distance_symmetric(a, b, (n - 1) as nat);
        let x = a[n - 1] as int;
        let y = b[n - 1] as int;
        assert((x - y) * (x - y) == (y - x) * (y - x)) by (nonlinear_arith);
    }
}

/// Every cluster of a partitioned index can be scanned.
pub proof fn lemma_partitioned_in_range(m: crate::index_file::IndexModel, order: Seq<usize>)
    requires
        crate::index_file::is_partitioned(m),
        forall|i: int| 0 <= i < order.len() ==> #[trigger] order[i] < m.centroids.len(),
    ensures
        all_in_range(m, order),
{
    assert forall|i: int| 0 <= i < order.len() implies cluster_in_range(
        m,
        #[trigger] order[i] as int,
    ) by {
        let c = order[i] as int;
        assert(m.offsets[c + 1] <= m.offsets[m.centroids.len() as int]);
    }
}

/// Scanned candidates are stored vectors, at a distance of quantized vectors.
pub proof fn lemma_scanned_bounds(
    m: crate::index_file::IndexModel,
    query: Seq<i8>,
    order: Seq<usize>,
)
    requires
        all_in_range(m, order),
        m.vectors.len() <= usize::MAX,
    ensures
        forall|i: int|
            0 <= i < scanned(m, query, order).len() ==> {
                let c = #[trigger] scanned(m, query, order)[i];
                &&& c.vec_idx < m.vectors.len()
                &&& 0 <= c.dist <= 14 * 65025
            },
    decreases order.len(),
{
    if order.len() > 0 {
        let front = order.drop_last();
        assert(all_in_range(m, front)) by {
            assert forall|i: int| 0 <= i < front.len() implies cluster_in_range(
                m,
                #[trigger] front[i] as int,
            ) by {
                assert(front[i] == order[i]);
            }
        }
        lemma_scanned_bounds(m, query, front);
        let last = order.last() as int;
        assert(cluster_in_range(m, order[order.len() - 1] as int));
        assert forall|i: int| 0 <= i < scanned(m, query, order).len() implies {
            let c = #[trigger] scanned(m, query, order)[i];
            &&& c.vec_idx < m.vectors.len()
            &&& 0 <= c.dist <= 14 * 65025
        } by {
            let before = scanned(m, query, front);
            if i >= before.len() {
                let v = m.offsets[last] + (i - before.len());
                assert(scanned(m, query, order)[i] == candidate(m, query, v));
                lemma_squared_distance_bounds(m.vectors[v], query, 14);
            } else {
                assert(scanned(m, query, order)[i] == before[i]);
            }
        }
    }
}

/// A vector is scanned exactly if it lies in the range of a probed cluster.
pub proof fn lemma_scanned_indices(
    m: crate::index_file::IndexModel,
    query: Seq<i8>,
    order: Seq<usize>,
    v: usize,
)
    requires
        all_in_range(m, order),
        m.vectors.len() <= usize::MAX,
    ensures
        scanned(m, query, order).map_values(|c: crate::heap::Candidate| c.vec_idx).contains(v)
            <==> exists|p: int|
            0 <= p < order.len() && in_cluster(m, #[trigger] order[p] as int, v as int),
    decreases order.len(),
{
    let f = |c: crate::heap::Candidate| c.vec_idx;
    let all = scanned(m, query, order).map_values(f);
    if order.len() > 0 {
        let front = order.drop_last();
        let last = order.last() as int;
        assert forall|i: int| 0 <= i < front.len() implies cluster_in_range(
            m,
            #[trigger] front[i] as int,
        ) by {
            assert(front[i] == order[i]);
        }
        lemma_scanned_indices(m, query, front, v);
        assert(cluster_in_range(m, order[order.len() - 1] as int));
        let before = scanned(m, query, front).map_values(f);
        if all.contains(v) {
            let i = choose|i: int| 0 <= i < all.len() && all[i] == v;
            if i < before.len() {
                assert(before[i] == v);
                let p = choose|p: int|
                    0 <= p < front.len() && in_cluster(m, #[trigger] front[p] as int, v as int);
                assert(order[p] == front[p]);
            } else {
                assert(in_cluster(m, order[order.len() - 1] as int, v as int));
            }
        }
        if exists|p: int|
            0 <= p < order.len() && in_cluster(m, #[trigger] order[p] as int, v as int) {
            let p = choose|p: int|
                0 <= p < order.len() && in_cluster(m, #[trigger] order[p] as int, v as int);
            if p < front.len() {
                assert(front[p] == order[p]);
                let i = choose|i: int| 0 <= i < before.len() && before[i] == v;
                assert(all[i] == v);
            } else {
                let i = before.len() + (v - m.offsets[last]);
                assert(all[i] == v);
            }
        }
    }
}

/// All vectors of an index as candidates for `query`.
pub open spec fn all_candidates(
    m: crate::index_file::IndexModel,
    query: Seq<i8>,
) -> Seq<crate::heap::Candidate> {
    Seq::new(m.vectors.len(), |v: int| candidate(m, query, v))
}

/// Vector `v` lies in the range of cluster `c`.
pub open spec fn in_cluster(m: crate::index_file::IndexModel, c: int, v: int) -> bool {
    m.offsets[c] <= v < m.offsets[c + 1]
}

/// In a partitioned index every vector lies in the range of a cluster.
pub proof fn lemma_some_cluster(m: crate::index_file::IndexModel, v: int) -> (c: int)
    requires
        crate::index_file::is_partitioned(m),
        0 <= v < m.vectors.len(),
    ensures
        0 <= c < m.centroids.len(),
        in_cluster(m, c, v),
{
    lemma_some_cluster_below(m, v, m.centroids.len() as int)
}

proof fn lemma_some_cluster_below(m: crate::index_file::IndexModel, v: int, n: int) -> (c: int)
    requires
        crate::index_file::is_partitioned(m),
        0 <= n <= m.centroids.len(),
        0 <= v < m.offsets[n],
    ensures
        0 <= c < n,
        in_cluster(m, c, v),
    decreases n,
{
    if v >= m.offsets[n - 1] {
        n - 1
    } else {
        lemma_some_cluster_below(m, v, n - 1)
    }
}

/// In a partitioned index no vector lies in the ranges of two clusters.
pub proof fn lemma_one_cluster(m: crate::index_file::IndexModel, v: int, c: int, d: int)
    requires
        crate::index_file::is_partitioned(m),
        0 <= c < m.centroids.len(),
        0 <= d < m.centroids.len(),
        in_cluster(m, c, v),
        in_cluster(m, d, v),
    ensures
        c == d,
{
    if c < d {
        assert(m.offsets[c + 1] <= m.offsets[d]);
    } else if d < c {
        assert(m.offsets[d + 1] <= m.offsets[c]);
    }
}

spec fn in_listed_cluster(m: crate::index_file::IndexModel, order: Seq<usize>, v: int) -> bool {
    exists|a: int| 0 <= a < order.len() && in_cluster(m, #[trigger] order[a] as int, v)
}

proof fn lemma_scanned_elements(
    m: crate::index_file::IndexModel,
    query: Seq<i8>,
    order: Seq<usize>,
)
    requires
        crate::index_file::is_partitioned(m),
        m.vectors.len() <= usize::MAX,
        forall|a: int| 0 <= a < order.len() ==> #[trigger] order[a] < m.centroids.len(),
        order.no_duplicates(),
    ensures
        scanned(m, query, order).no_duplicates(),
        forall|v: int|
            in_listed_cluster(m, order, v) ==> scanned(m, query, order).contains(
                #[trigger] candidate(m, query, v),
            ),
        forall|i: int|
            0 <= i < scanned(m, query, order).len() ==> {
                let x = #[trigger] scanned(m, query, order)[i];
                &&& x == candidate(m, query, x.vec_idx as int)
                &&& x.vec_idx < m.vectors.len()
                &&& in_listed_cluster(m, order, x.vec_idx as int)
            },
    decreases order.len(),
{
    if order.len() > 0 {
        let front = order.drop_last();
        let c = order.last() as int;
        assert(order[order.len() - 1] == c);
        let head = scanned(m, query, front);
        let tail = cluster_scan(m, query, c);
        let all = scanned(m, query, order);
        lemma_scanned_elements(m, query, front);
        assert(m.offsets[c] <= m.offsets[c + 1] <= m.offsets[m.centroids.len() as int]);
        assert forall|i: int| 0 <= i < all.len() implies ({
            let x = #[trigger] all[i];
            &&& x == candidate(m, query, x.vec_idx as int)
            &&& x.vec_idx < m.vectors.len()
            &&& in_listed_cluster(m, order, x.vec_idx as int)
        }) by {
            let x = all[i];
            if i < head.len() {
                assert(x == head[i]);
                let a = choose|a: int|
                    0 <= a < front.len() && in_cluster(
                        m,
                        #[trigger] front[a] as int,
                        x.vec_idx as int,
                    );
                assert(order[a] == front[a]);
            } else {
                assert(x == tail[i - head.len()]);
                assert(in_cluster(m, order[order.len() - 1] as int, x.vec_idx as int));
            }
        }
        assert forall|v: int| in_listed_cluster(m, order, v) implies all.contains(
            #[trigger] candidate(m, query, v),
        ) by {
            let a = choose|a: int|
                0 <= a < order.len() && in_cluster(m, #[trigger] order[a] as int, v);
            if a < front.len() {
                assert(front[a] == order[a]);
                assert(in_listed_cluster(m, front, v));
                let i = choose|i: int| 0 <= i < head.len() && head[i] == candidate(m, query, v);
                assert(all[i] == head[i]);
            } else {
                let i = v - m.offsets[c];
                assert(tail[i] == candidate(m, query, v));
                assert(all[head.len() + i] == tail[i]);
            }
        }
        assert forall|i: int, j: int| 0 <= i < j < all.len() implies all[i] != all[j] by {
            if j < head.len() {
                assert(all[i] == head[i] && all[j] == head[j]);
            } else {
                assert(all[j] == tail[j - head.len()]);
                let w = all[j].vec_idx as int;
                assert(in_cluster(m, c, w));
                if i < head.len() {
                    assert(all[i] == head[i]);
                    let v = all[i].vec_idx as int;
                    let a = choose|a: int|
                        0 <= a < front.len() && in_cluster(m, #[trigger] front[a] as int, v);
                    assert(order[a] == front[a]);
                    if v == w {
                        lemma_one_cluster(m, v, front[a] as int, c);
                        assert(order[a] == order[order.len() - 1]);
                    }
                } else {
                    assert(all[i] == tail[i - head.len()]);
                }
            }
        }
    }
}

/// Probing every cluster of a partitioned index scans each vector exactly
/// once, whatever the query: the search is then exact over the whole index.
pub proof fn lemma_probing_all_is_exhaustive(
    m: crate::index_file::IndexModel,
    query: Seq<i8>,
    keys: Seq<u32>,
    probes: nat,
    k: nat,
)
    requires
        crate::index_file::is_partitioned(m),
        m.vectors.len() <= usize::MAX,
        m.centroids.len() <= usize::MAX,
        keys.len() == m.centroids.len(),
        probes >= keys.len(),
        k > 0,
    ensures
        scanned(m, query, probed(keys, probes)).to_multiset() == all_candidates(
            m,
            query,
        ).to_multiset(),
        crate::heap::is_k_nearest(
            crate::heap::best_k(scanned(m, query, probed(keys, probes)), k),
            all_candidates(m, query),
            k,
        ),
{
    broadcast use vstd::seq_lib::group_to_multiset_ensures;

    let order = probed(keys, probes);
    crate::nearest::lemma_nearest_order_exists(keys, keys.len());
    let seen = scanned(m, query, order);
    let all = all_candidates(m, query);
    assert(order.no_duplicates()) by {
        assert forall|a: int, b: int| 0 <= a < b < order.len() implies order[a] != order[b] by {
            assert(crate::nearest::nearer(keys, order[a] as int, order[b] as int));
        }
    }
    lemma_scanned_elements(m, query, order);
    assert(all.no_duplicates()) by {
        assert forall|i: int, j: int| 0 <= i < j < all.len() implies all[i] != all[j] by {
            assert(all[i].vec_idx == i && all[j].vec_idx == j);
        }
    }
    seen.lemma_multiset_has_no_duplicates();
    all.lemma_multiset_has_no_duplicates();
    assert forall|x: crate::heap::Candidate| seen.contains(x) <==> all.contains(x) by {
        if seen.contains(x) {
            let i = choose|i: int| 0 <= i < seen.len() && seen[i] == x;
            assert(all[x.vec_idx as int] == x);
        }
        if all.contains(x) {
            let v = choose|v: int| 0 <= v < all.len() && all[v] == x;
            let c = lemma_some_cluster(m, v);
            crate::nearest::lemma_full_order_contains(keys, order, c as usize);
            let a = choose|a: int| 0 <= a < order.len() && order[a] == c as usize;
            assert(in_cluster(m, order[a] as int, v));
            assert(in_listed_cluster(m, order, v));
            assert(x == candidate(m, query, v));
        }
    }
    assert forall|x: crate::heap::Candidate| #[trigger]
        seen.to_multiset().count(x) == all.to_multiset().count(x) by {
        assert(seen.contains(x) <==> all.contains(x));
        assert(seen.to_multiset().contains(x) ==> seen.to_multiset().count(x) == 1);
        assert(all.to_multiset().contains(x) ==> all.to_multiset().count(x) == 1);
    }
    assert(seen.to_multiset() =~= all.to_multiset());
    assert(seen.to_multiset().len() == seen.len() && all.to_multiset().len() == all.len());
    crate::heap::lemma_best_k_nearest(seen, k);
}

/// Raising the number of probes keeps every candidate that fewer probes
/// scanned, in the same order, and once `k` neighbours are found it never makes
/// the farthest of them farther.
pub proof fn lemma_more_probes_never_worse(
    m: crate::index_file::IndexModel,
    query: Seq<i8>,
    keys: Seq<u32>,
    fewer: nat,
    more: nat,
    k: nat,
)
    requires
        keys.len() <= usize::MAX,
        fewer <= more,
        k > 0,
    ensures
        ({
            let short = scanned(m, query, probed(keys, fewer));
            let long = scanned(m, query, probed(keys, more));
            &&& short.len() <= long.len()
            &&& short == long.take(short.len() as int)
            &&& short.len() >= k ==> crate::heap::best_k(long, k)[0].dist <= crate::heap::best_k(
                short,
                k,
            )[0].dist
        }),
{
    let few = probed(keys, fewer);
    let many = probed(keys, more);
    crate::nearest::lemma_nearest_order_exists(keys, probe_count(fewer, keys.len()));
    crate::nearest::lemma_nearest_order_exists(keys, probe_count(more, keys.len()));
    crate::nearest::lemma_nearest_order_prefix(keys, few, few.len(), many, many.len());
    lemma_scanned_prefix(m, query, many, few.len() as int);
    let short = scanned(m, query, few);
    let long = scanned(m, query, many);
    if short.len() >= k {
        let rest = long.skip(short.len() as int);
        assert(short + rest =~= long);
        crate::heap::lemma_more_candidates_never_farther(short, rest, k);
    }
}

/// The distance of two quantized vectors is the sum of the squared differences of
/// all 14 coordinates.
pub proof fn lemma_distance_is_sum_of_squares(a: Seq<i8>, b: Seq<i8>)
    ensures
        squared_distance(a, b, 14) == (a[0] - b[0]) * (a[0] - b[0])
            + (a[1] - b[1]) * (a[1] - b[1])
            + (a[2] - b[2]) * (a[2] - b[2])
            + (a[3] - b[3]) * (a[3] - b[3])
            + (a[4] - b[4]) * (a[4] - b[4])
            + (a[5] - b[5]) * (a[5] - b[5])
            + (a[6] - b[6]) * (a[6] - b[6])
            + (a[7] - b[7]) * (a[7] - b[7])
            + (a[8] - b[8]) * (a[8] - b[8])
            + (a[9] - b[9]) * (a[9] - b[9])
            + (a[10] - b[10]) * (a[10] - b[10])
            + (a[11] - b[11]) * (a[11] - b[11])
            + (a[12] - b[12]) * (a[12] - b[12])
            + (a[13] - b[13]) * (a[13] - b[13]),
{
    reveal_with_fuel(squared_distance, 15);
}

/// A query probes as many clusters as it asks for, and no more than there are.
/// They are different ones, and no centroid that is left out is nearer than one
/// that is probed; nearer centroids come first.
pub proof fn lemma_probed_are_the_nearest(keys: Seq<u32>, probes: nat, order: Seq<usize>)
    requires
        keys.len() <= usize::MAX,
        order == probed(keys, probes),
    ensures
        order.len() == if probes < keys.len() {
            probes
        } else {
            keys.len()
        },
        order.no_duplicates(),
        forall|a: int| 0 <= a < order.len() ==> #[trigger] order[a] < keys.len(),
        forall|a: int, b: int|
            0 <= a < b < order.len() ==> keys[#[trigger] order[a] as int]
                <= keys[#[trigger] order[b] as int],
        forall|a: int, j: usize|
            #![trigger order[a], order.contains(j)]
            0 <= a < order.len() && j < keys.len() && !order.contains(j)
                ==> keys[order[a] as int] <= keys[j as int],
{
    crate::nearest::lemma_nearest_order_exists(keys, probe_count(probes, keys.len()));
    assert forall|a: int, b: int| 0 <= a < b < order.len() implies order[a] != order[b]
        && keys[#[trigger] order[a] as int] <= keys[#[trigger] order[b] as int] by {
        assert(crate::nearest::nearer(keys, order[a] as int, order[b] as int));
    }
    assert forall|a: int, j: usize|
        #![trigger order[a], order.contains(j)]
        0 <= a < order.len() && j < keys.len() && !order.contains(j) implies keys[order[a] as int]
        <= keys[j as int] by {
        assert(crate::nearest::nearer(keys, order[a] as int, j as int));
    }
}

proof fn lemma_scanned_members(m: crate::index_file::IndexModel, query: Seq<i8>, order: Seq<usize>)
    requires
        all_in_range(m, order),
        m.vectors.len() <= usize::MAX,
    ensures
        forall|a: int, v: int|
            #![trigger order[a], candidate(m, query, v)]
            0 <= a < order.len() && in_cluster(m, order[a] as int, v) ==> scanned(
                m,
                query,
                order,
            ).contains(candidate(m, query, v)),
        forall|i: int|
            0 <= i < scanned(m, query, order).len() ==> {
                let x = #[trigger] scanned(m, query, order)[i];
                &&& x == candidate(m, query, x.vec_idx as int)
                &&& x.vec_idx < m.vectors.len()
                &&& in_listed_cluster(m, order, x.vec_idx as int)
            },
    decreases order.len(),
{
    if order.len() > 0 {
        let front = order.drop_last();
        let c = order.last() as int;
        assert(cluster_in_range(m, order[order.len() - 1] as int));
        assert forall|i: int| 0 <= i < front.len() implies cluster_in_range(
            m,
            #[trigger] front[i] as int,
        ) by {
            assert(front[i] == order[i]);
        }
        let head = scanned(m, query, front);
        let tail = cluster_scan(m, query, c);
        let all = scanned(m, query, order);
        lemma_scanned_members(m, query, front);
        assert forall|i: int| 0 <= i < all.len() implies ({
            let x = #[trigger] all[i];
            &&& x == candidate(m, query, x.vec_idx as int)
            &&& x.vec_idx < m.vectors.len()
            &&& in_listed_cluster(m, order, x.vec_idx as int)
        }) by {
            let x = all[i];
            if i < head.len() {
                assert(x == head[i]);
                let a = choose|a: int|
                    0 <= a < front.len() && in_cluster(
                        m,
                        #[trigger] front[a] as int,
                        x.vec_idx as int,
                    );
                assert(order[a] == front[a]);
            } else {
                assert(x == tail[i - head.len()]);
                assert(in_cluster(m, order[order.len() - 1] as int, x.vec_idx as int));
            }
        }
        assert forall|a: int, v: int|
            #![trigger order[a], candidate(m, query, v)]
            0 <= a < order.len() && in_cluster(m, order[a] as int, v) implies all.contains(
            candidate(m, query, v),
        ) by {
            if a < front.len() {
                assert(front[a] == order[a]);
                assert(head.contains(candidate(m, query, v)));
                let i = choose|i: int| 0 <= i < head.len() && head[i] == candidate(m, query, v);
                assert(all[i] == head[i]);
            } else {
                let i = v - m.offsets[c];
                assert(tail[i] == candidate(m, query, v));
                assert(all[head.len() + i] == tail[i]);
            }
        }
    }
}

/// A vector of a probed cluster that a search does not find gave way to `k`
/// others, none of them farther. `best` are the vectors found.
pub proof fn lemma_search_leaves_out_no_nearer(
    m: crate::index_file::IndexModel,
    query: Seq<i8>,
    order: Seq<usize>,
    best: Seq<crate::heap::Candidate>,
    k: nat,
    a: int,
    v: int,
)
    requires
        all_in_range(m, order),
        m.vectors.len() <= usize::MAX,
        best == crate::heap::best_k(scanned(m, query, order), k),
        k > 0,
        0 <= a < order.len(),
        m.offsets[order[a] as int] <= v < m.offsets[order[a] + 1],
    ensures
        (exists|i: int| 0 <= i < best.len() && (#[trigger] best[i]).vec_idx == v) || (best.len()
            == k && forall|i: int|
            0 <= i < best.len() ==> (#[trigger] best[i]).dist <= squared_distance(
                m.vectors[v],
                query,
                14,
            )),
{
    broadcast use vstd::seq_lib::group_to_multiset_ensures;

    let seen = scanned(m, query, order);
    crate::heap::lemma_best_k_nearest(seen, k);
    lemma_scanned_members(m, query, order);
    let x = candidate(m, query, v);
    assert(cluster_in_range(m, order[a] as int));
    assert(in_cluster(m, order[a] as int, v));
    assert(seen.contains(x));
    assert(x.vec_idx == v);
    lemma_squared_distance_bounds(m.vectors[v], query, 14);
    if best.contains(x) {
        let i = choose|i: int| 0 <= i < best.len() && best[i] == x;
        assert(best[i].vec_idx == v);
    } else {
        assert(best.to_multiset().count(x) == 0);
        assert(seen.to_multiset().count(x) > 0);
        assert(best.len() == k) by {
            if seen.len() < k {
                assert(best == seen);
            }
        }
        assert forall|i: int| 0 <= i < best.len() implies (#[trigger] best[i]).dist
            <= squared_distance(m.vectors[v], query, 14) by {
            assert(best.contains(best[i]));
            assert(best.to_multiset().count(best[i]) > 0);
        }
    }
}

/// What a search is for. `order` are the probed clusters and `best` the vectors
/// found. Each found vector lies in a probed cluster and is given with its own
/// distance and label; at most `k` are found. In a partitioned index no vector is
/// found twice.
pub proof fn lemma_search_finds_the_nearest(
    m: crate::index_file::IndexModel,
    query: Seq<i8>,
    order: Seq<usize>,
    best: Seq<crate::heap::Candidate>,
    k: nat,
)
    requires
        all_in_range(m, order),
        m.vectors.len() <= usize::MAX,
        best == crate::heap::best_k(scanned(m, query, order), k),
        k > 0,
    ensures
        best.len() <= k,
        forall|i: int|
            0 <= i < best.len() ==> {
                let v = (#[trigger] best[i]).vec_idx as int;
                &&& v < m.vectors.len()
                &&& best[i].dist == squared_distance(m.vectors[v], query, 14)
                &&& best[i].is_fraud == m.labels[v]
                &&& exists|a: int|
                    0 <= a < order.len() && m.offsets[#[trigger] order[a] as int] <= v
                        < m.offsets[order[a] + 1]
            },
        crate::index_file::is_partitioned(m) && order.no_duplicates() && (forall|a: int|
            0 <= a < order.len() ==> #[trigger] order[a] < m.centroids.len()) ==> forall|
            i: int,
            j: int,
        |
            0 <= i < j < best.len() ==> (#[trigger] best[i]).vec_idx != (
            #[trigger] best[j]).vec_idx,
{
    broadcast use vstd::seq_lib::group_to_multiset_ensures;

    let seen = scanned(m, query, order);
    crate::heap::lemma_best_k_nearest(seen, k);
    lemma_scanned_members(m, query, order);
    assert forall|i: int| 0 <= i < best.len() implies ({
        let v = (#[trigger] best[i]).vec_idx as int;
        &&& v < m.vectors.len()
        &&& best[i] == candidate(m, query, v)
        &&& best[i].dist == squared_distance(m.vectors[v], query, 14)
        &&& best[i].is_fraud == m.labels[v]
        &&& exists|a: int|
            0 <= a < order.len() && m.offsets[#[trigger] order[a] as int] <= v < m.offsets[order[a]
                + 1]
    }) by {
        crate::heap::lemma_kept_was_scanned(best, seen, k, i);
        let s = choose|s: int| 0 <= s < seen.len() && seen[s] == best[i];
        let v = best[i].vec_idx as int;
        lemma_squared_distance_bounds(m.vectors[v], query, 14);
        let a = choose|a: int| 0 <= a < order.len() && in_cluster(m, #[trigger] order[a] as int, v);
        assert(m.offsets[order[a] as int] <= v < m.offsets[order[a] + 1]);
    }
    if crate::index_file::is_partitioned(m) && order.no_duplicates() && (forall|a: int|
        0 <= a < order.len() ==> #[trigger] order[a] < m.centroids.len()) {
        lemma_scanned_elements(m, query, order);
        seen.lemma_multiset_has_no_duplicates();
        assert forall|x: crate::heap::Candidate| best.to_multiset().contains(
            x,
        ) implies best.to_multiset().count(x) == 1 by {
            assert(best.to_multiset().count(x) <= seen.to_multiset().count(x));
            assert(seen.to_multiset().contains(x));
        }
        best.lemma_multiset_has_no_duplicates_conv();
        assert forall|i: int, j: int| 0 <= i < j < best.len() implies (#[trigger] best[i]).vec_idx
            != (#[trigger] best[j]).vec_idx by {
            if best[i].vec_idx == best[j].vec_idx {
                assert(best[i] == candidate(m, query, best[i].vec_idx as int));
                assert(best[j] == candidate(m, query, best[j].vec_idx as int));
            }
        }
    }
}

/// The range of a cluster is accepted exactly if none of its vectors lies past
/// the stored ones, and a list of clusters if each of them is.
pub proof fn lemma_range_is_stored(m: crate::index_file::IndexModel, c: int, order: Seq<usize>)
    ensures
        cluster_in_range(m, c) <==> forall|v: int|
            m.offsets[c] <= v < m.offsets[c + 1] ==> #[trigger] in_cluster(m, c, v) && v
                < m.vectors.len(),
        all_in_range(m, order) <==> forall|i: int|
            0 <= i < order.len() ==> m.offsets[#[trigger] order[i] as int] >= m.offsets[order[i]
                + 1] || m.offsets[order[i] + 1] <= m.vectors.len(),
{
    if m.offsets[c] < m.offsets[c + 1] {
        assert(in_cluster(m, c, m.offsets[c + 1] - 1));
    }
    if all_in_range(m, order) {
        assert forall|i: int| 0 <= i < order.len() implies m.offsets[#[trigger] order[i] as int]
            >= m.offsets[order[i] + 1] || m.offsets[order[i] + 1] <= m.vectors.len() by {
            assert(cluster_in_range(m, order[i] as int));
        }
    }
}

/// A scan takes the clusters in the given order and the vectors of each in
/// stored order, each with its position, its distance to the query and its
/// label.
pub proof fn lemma_scan_order(
    m: crate::index_file::IndexModel,
    query: Seq<i8>,
    order: Seq<usize>,
    c: usize,
    v: int,
)
    ensures
        scanned(m, query, Seq::empty()) == Seq::<crate::heap::Candidate>::empty(),
        m.offsets[c as int] <= m.offsets[c + 1] ==> scanned(m, query, order.push(c)) == scanned(
            m,
            query,
            order,
        ) + Seq::new(
            (m.offsets[c + 1] - m.offsets[c as int]) as nat,
            |i: int| candidate(m, query, m.offsets[c as int] + i),
        ),
        m.offsets[c as int] > m.offsets[c + 1] ==> scanned(m, query, order.push(c)) == scanned(
            m,
            query,
            order,
        ),
        candidate(m, query, v).vec_idx == v as usize,
        candidate(m, query, v).dist == squared_distance(m.vectors[v], query, 14) as i32,
        candidate(m, query, v).is_fraud == m.labels[v],
{
    assert(order.push(c).drop_last() =~= order);
    if m.offsets[c as int] > m.offsets[c + 1] {
        assert(scanned(m, query, order.push(c)) =~= scanned(m, query, order));
    }
}

} // verus!
