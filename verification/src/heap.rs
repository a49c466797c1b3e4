//! The bounded max-heap that keeps the best candidates of a cluster scan.
use vstd::prelude::*;

verus! {

/// A scanned vector: its position in the index, its squared int8 distance to
/// the query, and its label.
#[derive(Clone, Copy, PartialEq, Eq, Structural, Debug)]
pub struct Candidate {
    pub vec_idx: usize,
    pub dist: i32,
    pub is_fraud: bool,
}

/// `h` with the entries at `i` and `j` exchanged.
pub open spec fn swapped(h: Seq<Candidate>, i: int, j: int) -> Seq<Candidate> {
    h.update(i, h[j]).update(j, h[i])
}

/// Among `i` and its children `2i + 1` and `2i + 2`, the index of the largest
/// distance; a child wins only when it is strictly larger, and the left child
/// wins against an equal right one.
pub open spec fn largest_at(h: Seq<Candidate>, i: int) -> int {
    let l = 2 * i + 1;
    let r = 2 * i + 2;
    let a = if l < h.len() && h[l].dist > h[i].dist {
        l
    } else {
        i
    };
    if r < h.len() && h[r].dist > h[a].dist {
        r
    } else {
        a
    }
}

/// `h` after the entry at `i` has sunk below every larger child.
pub open spec fn sifted(h: Seq<Candidate>, i: int) -> Seq<Candidate>
    decreases h.len() - i,
{
    if 0 <= i < h.len() && largest_at(h, i) != i {
        sifted(swapped(h, i, largest_at(h, i)), largest_at(h, i))
    } else {
        h
    }
}

/// `h` after sifting `i - 1`, `i - 2`, ..., `0` in that order.
pub open spec fn heapified_below(h: Seq<Candidate>, i: int) -> Seq<Candidate>
    decreases i,
{
    if i <= 0 {
        h
    } else {
        heapified_below(sifted(h, i - 1), i - 1)
    }
}

/// `h` rearranged into a max-heap, bottom up.
pub open spec fn heapified(h: Seq<Candidate>) -> Seq<Candidate> {
    heapified_below(h, h.len() as int / 2)
}

/// Every entry from `lo` on is at least as large as its children.
pub open spec fn is_heap_from(h: Seq<Candidate>, lo: int) -> bool {
    &&& forall|p: int|
        #![trigger h[2 * p + 1]]
        lo <= p && 0 <= p && 2 * p + 1 < h.len() ==> h[p].dist >= h[2 * p + 1].dist
    &&& forall|p: int|
        #![trigger h[2 * p + 2]]
        lo <= p && 0 <= p && 2 * p + 2 < h.len() ==> h[p].dist >= h[2 * p + 2].dist
}

/// `h` is a max-heap by distance.
pub open spec fn is_heap(h: Seq<Candidate>) -> bool {
    is_heap_from(h, 0)
}

/// Sinks the entry at `i` until no child is larger.
pub fn sift_down_max(h: &mut Vec<Candidate>, i: usize)
    ensures
        final(h)@ == sifted(old(h)@, i as int),
        final(h)@.to_multiset() == old(h)@.to_multiset(),
        is_heap_from(old(h)@, i + 1) ==> is_heap_from(final(h)@, i as int),
{
    proof {
        lemma_sifted_permutes(h@, i as int);
        if i < h.len() && is_heap_from(h@, i + 1) {
            lemma_sift_into_heap(h@, i as int);
        }
    }
    let n: usize = h.len();
    let mut i: usize = i;
    let ghost start = i as int;
    while i < n / 2
        invariant_except_break
            n == h.len(),
            sifted(h@, i as int) == sifted(old(h)@, start),
        ensures
            h@ == sifted(old(h)@, start),
        decreases n - i,
    {
        let l: usize = 2 * i + 1;
        let r: usize = 2 * i + 2;
        let mut largest: usize = i;
        if l < n && h[l].dist > h[largest].dist {
            largest = l;
        }
        if r < n && h[r].dist > h[largest].dist {
            largest = r;
        }
        assert(largest == largest_at(h@, i as int));
        if largest == i {
            break;
        }
        let a: Candidate = h[i];
        let b: Candidate = h[largest];
        let ghost before = h@;
        h.set(i, b);
        h.set(largest, a);
        assert(h@ == swapped(before, i as int, largest as int));
        i = largest;
    }
}

/// Rearranges `h` into a max-heap by distance.
pub fn heapify_max(h: &mut Vec<Candidate>)
    ensures
        final(h)@ == heapified(old(h)@),
        final(h)@.to_multiset() == old(h)@.to_multiset(),
        is_heap(final(h)@),
{
    proof {
        lemma_heapified_permutes(h@);
        lemma_heapified_is_heap(h@);
    }
    let n: usize = h.len();
    let mut i: usize = n / 2;
    while i > 0
        invariant
            heapified_below(h@, i as int) == heapified(old(h)@),
        decreases i,
    {
        i = i - 1;
        sift_down_max(h, i);
    }
}

/// The candidates kept after one more scanned vector: the first `k` are
/// collected and heapified once complete; a later one replaces the farthest
/// only when it is strictly nearer.
pub open spec fn offered(kept: Seq<Candidate>, c: Candidate, k: nat) -> Seq<Candidate> {
    if kept.len() < k {
        if kept.len() + 1 == k {
            heapified(kept.push(c))
        } else {
            kept.push(c)
        }
    } else if c.dist < kept[0].dist {
        sifted(kept.update(0, c), 0)
    } else {
        kept
    }
}

/// The candidates kept after the whole of `scanned`.
pub open spec fn best_k(scanned: Seq<Candidate>, k: nat) -> Seq<Candidate>
    decreases scanned.len(),
{
    if scanned.len() == 0 {
        Seq::empty()
    } else {
        offered(best_k(scanned.drop_last(), k), scanned.last(), k)
    }
}

/// `best` holds `k` of the `scanned` candidates (all of them when there are
/// fewer), and none that was left out is nearer than one that was kept.
pub open spec fn is_k_nearest(best: Seq<Candidate>, scanned: Seq<Candidate>, k: nat) -> bool {
    &&& best.len() == if scanned.len() < k {
        scanned.len()
    } else {
        k
    }
    &&& best.to_multiset().subset_of(scanned.to_multiset())
    &&& forall|b: Candidate, c: Candidate|
        #![trigger best.to_multiset().count(b), scanned.to_multiset().count(c)]
        best.to_multiset().count(b) > 0 && scanned.to_multiset().count(c)
            > best.to_multiset().count(c) ==> b.dist <= c.dist
}

/// Offers one more scanned candidate to the best `k` kept so far.
pub fn offer(kept: &mut Vec<Candidate>, c: Candidate, k: usize)
    requires
        k > 0,
    ensures
        final(kept)@ == offered(old(kept)@, c, k as nat),
{
    if kept.len() < k {
        kept.push(c);
        if kept.len() == k {
            heapify_max(kept);
        }
    } else if c.dist < kept[0].dist {
        kept.set(0, c);
        sift_down_max(kept, 0);
    }
}

proof fn lemma_swapped_multiset(h: Seq<Candidate>, i: int, j: int)
    requires
        0 <= i < h.len(),
        0 <= j < h.len(),
    ensures
        swapped(h, i, j).to_multiset() == h.to_multiset(),
{
    lemma_update_multiset(h, i, h[j]);
    lemma_update_multiset(h.update(i, h[j]), j, h[i]);
    if i == j {
        assert(swapped(h, i, j) == h);
    } else {
        assert(swapped(h, i, j).to_multiset() =~= h.to_multiset());
    }
}

proof fn lemma_update_multiset(h: Seq<Candidate>, i: int, c: Candidate)
    requires
        0 <= i < h.len(),
    ensures
        h.update(i, c).to_multiset() == h.to_multiset().remove(h[i]).insert(c),
        h.to_multiset().count(h[i]) > 0,
{
    broadcast use vstd::seq_lib::group_to_multiset_ensures;

    assert(h.update(i, c) == h.remove(i).insert(i, c));
    assert(h.update(i, c).to_multiset() =~= h.to_multiset().remove(h[i]).insert(c));
}

/// Sifting keeps the length and only moves entries.
pub proof fn lemma_sifted_permutes(h: Seq<Candidate>, i: int)
    ensures
        sifted(h, i).len() == h.len(),
        sifted(h, i).to_multiset() == h.to_multiset(),
    decreases h.len() - i,
{
    if 0 <= i < h.len() && largest_at(h, i) != i {
        let m = largest_at(h, i);
        lemma_swapped_multiset(h, i, m);
        lemma_sifted_permutes(swapped(h, i, m), m);
    }
}

/// Heapifying keeps the length and only moves entries.
pub proof fn lemma_heapified_permutes(h: Seq<Candidate>)
    ensures
        heapified(h).len() == h.len(),
        heapified(h).to_multiset() == h.to_multiset(),
{
    lemma_heapified_below_permutes(h, h.len() as int / 2);
}

proof fn lemma_heapified_below_permutes(h: Seq<Candidate>, i: int)
    ensures
        heapified_below(h, i).len() == h.len(),
        heapified_below(h, i).to_multiset() == h.to_multiset(),
    decreases i,
{
    if i > 0 {
        lemma_sifted_permutes(h, i - 1);
        lemma_heapified_below_permutes(sifted(h, i - 1), i - 1);
    }
}

/// The heap order holds from `lo` on, except below `hole`; the parent of
/// `hole` already dominates the children of `hole`.
spec fn heap_but(h: Seq<Candidate>, lo: int, hole: int) -> bool {
    &&& forall|p: int, c: int|
        #![trigger h[p], h[c]]
        lo <= p && 0 <= p && p != hole && (c == 2 * p + 1 || c == 2 * p + 2) && c < h.len()
            ==> h[p].dist >= h[c].dist
    &&& forall|p: int, c: int|
        #![trigger h[p], h[c]]
        lo <= p && 0 <= p && (hole == 2 * p + 1 || hole == 2 * p + 2) && (c == 2 * hole + 1 || c
            == 2 * hole + 2) && c < h.len() ==> h[p].dist >= h[c].dist
}

proof fn lemma_sifted_heap(h: Seq<Candidate>, lo: int, hole: int)
    requires
        0 <= lo <= hole,
        hole < h.len(),
        heap_but(h, lo, hole),
    ensures
        is_heap_from(sifted(h, hole), lo),
    decreases h.len() - hole,
{
    let m = largest_at(h, hole);
    if m != hole {
        let s = swapped(h, hole, m);
        assert(heap_but(s, lo, m)) by {
            assert forall|p: int, c: int|
                #![trigger s[p], s[c]]
                lo <= p && 0 <= p && p != m && (c == 2 * p + 1 || c == 2 * p + 2) && c
                    < s.len() implies s[p].dist >= s[c].dist by {
                assert(h[p] == h[p] && h[c] == h[c]);
                if p == hole {
                    assert(s[p] == h[m]);
                } else if c == hole {
                    assert(s[c] == h[m]);
                    assert(h[p].dist >= h[m].dist);
                } else {
                    assert(c != m);
                }
            }
            assert forall|p: int, c: int|
                #![trigger s[p], s[c]]
                lo <= p && 0 <= p && (m == 2 * p + 1 || m == 2 * p + 2) && (c == 2 * m + 1 || c == 2
                    * m + 2) && c < s.len() implies s[p].dist >= s[c].dist by {
                assert(p == hole);
                assert(h[m].dist >= h[c].dist);
            }
        }
        lemma_sifted_heap(s, lo, m);
    } else {
        assert(is_heap_from(h, lo)) by {
            assert forall|p: int|
                #![trigger h[2 * p + 1]]
                lo <= p && 0 <= p && 2 * p + 1 < h.len() implies h[p].dist >= h[2 * p + 1].dist by {
                assert(h[p] == h[p]);
            }
            assert forall|p: int|
                #![trigger h[2 * p + 2]]
                lo <= p && 0 <= p && 2 * p + 2 < h.len() implies h[p].dist >= h[2 * p + 2].dist by {
                assert(h[p] == h[p]);
            }
        }
    }
}

/// Sinking an entry into the heap below it gives a heap.
pub proof fn lemma_sift_into_heap(h: Seq<Candidate>, i: int)
    requires
        0 <= i < h.len(),
        is_heap_from(h, i + 1),
    ensures
        is_heap_from(sifted(h, i), i),
{
    assert(heap_but(h, i, i)) by {
        assert forall|p: int, c: int|
            #![trigger h[p], h[c]]
            i <= p && 0 <= p && p != i && (c == 2 * p + 1 || c == 2 * p + 2) && c
                < h.len() implies h[p].dist >= h[c].dist by {
            assert(c == 2 * p + 1 ==> h[c] == h[2 * p + 1]);
            assert(c == 2 * p + 2 ==> h[c] == h[2 * p + 2]);
        }
    }
    lemma_sifted_heap(h, i, i);
}

proof fn lemma_heapified_below_heap(h: Seq<Candidate>, i: int)
    requires
        0 <= i <= h.len(),
        is_heap_from(h, i),
    ensures
        is_heap(heapified_below(h, i)),
    decreases i,
{
    if i > 0 {
        lemma_sift_into_heap(h, i - 1);
        lemma_sifted_permutes(h, i - 1);
        lemma_heapified_below_heap(sifted(h, i - 1), i - 1);
    }
}

/// Heapifying any sequence gives a max-heap.
pub proof fn lemma_heapified_is_heap(h: Seq<Candidate>)
    ensures
        is_heap(heapified(h)),
{
    assert(is_heap_from(h, h.len() as int / 2));
    lemma_heapified_below_heap(h, h.len() as int / 2);
}

/// The root of a max-heap is its farthest entry.
pub proof fn lemma_heap_root_is_max(h: Seq<Candidate>, i: int)
    requires
        is_heap(h),
        0 <= i < h.len(),
    ensures
        h[0].dist >= h[i].dist,
    decreases i,
{
    if i > 0 {
        let p = (i - 1) / 2;
        lemma_heap_root_is_max(h, p);
        if i == 2 * p + 1 {
            assert(h[p].dist >= h[2 * p + 1].dist);
        } else {
            assert(i == 2 * p + 2);
            assert(h[p].dist >= h[2 * p + 2].dist);
        }
    }
}

/// The kept candidates are the `k` nearest of those scanned. Fewer than `k`
/// stay in scan order; `k` of them form a max-heap.
pub proof fn lemma_best_k_nearest(scanned: Seq<Candidate>, k: nat)
    requires
        k > 0,
    ensures
        is_k_nearest(best_k(scanned, k), scanned, k),
        scanned.len() < k ==> best_k(scanned, k) == scanned,
        scanned.len() >= k ==> is_heap(best_k(scanned, k)),
    decreases scanned.len(),
{
    broadcast use vstd::seq_lib::group_to_multiset_ensures;

    let best = best_k(scanned, k);
    if scanned.len() > 0 {
        let front = scanned.drop_last();
        let c = scanned.last();
        let kept = best_k(front, k);
        lemma_best_k_nearest(front, k);
        assert(scanned == front.push(c));
        assert(scanned.to_multiset() =~= front.to_multiset().insert(c));
        if kept.len() < k {
            assert(kept == front);
            assert(kept.push(c) == scanned);
            if kept.len() + 1 == k {
                lemma_heapified_permutes(scanned);
                lemma_heapified_is_heap(scanned);
            }
        } else {
            assert forall|b: Candidate| kept.to_multiset().count(b) > 0 implies b.dist
                <= kept[0].dist by {
                assert(kept.contains(b));
                let j = choose|j: int| 0 <= j < kept.len() && kept[j] == b;
                lemma_heap_root_is_max(kept, j);
            }
            if c.dist < kept[0].dist {
                let next = kept.update(0, c);
                lemma_update_multiset(kept, 0, c);
                lemma_sifted_permutes(next, 0);
                assert(heap_but(next, 0, 0)) by {
                    assert forall|p: int, q: int|
                        #![trigger next[p], next[q]]
                        0 <= p && p != 0 && (q == 2 * p + 1 || q == 2 * p + 2) && q
                            < next.len() implies next[p].dist >= next[q].dist by {
                        assert(q == 2 * p + 1 ==> kept[q] == kept[2 * p + 1]);
                        assert(q == 2 * p + 2 ==> kept[q] == kept[2 * p + 2]);
                    }
                }
                lemma_sifted_heap(next, 0, 0);
                assert(best.to_multiset() == kept.to_multiset().remove(kept[0]).insert(c));
                assert forall|b: Candidate, d: Candidate|
                    #![trigger best.to_multiset().count(b), scanned.to_multiset().count(d)]
                    best.to_multiset().count(b) > 0 && scanned.to_multiset().count(d)
                        > best.to_multiset().count(d) implies b.dist <= d.dist by {
                    assert(b == c || kept.to_multiset().count(b) > 0);
                    assert(d == kept[0] || front.to_multiset().count(d)
                        > kept.to_multiset().count(d));
                    assert(kept.to_multiset().count(kept[0]) > 0);
                }
            } else {
                assert(best == kept);
                assert forall|b: Candidate, d: Candidate|
                    #![trigger best.to_multiset().count(b), scanned.to_multiset().count(d)]
                    best.to_multiset().count(b) > 0 && scanned.to_multiset().count(d)
                        > best.to_multiset().count(d) implies b.dist <= d.dist by {
                    assert(d == c || front.to_multiset().count(d) > kept.to_multiset().count(d));
                }
            }
        }
    }
}

/// Once `k` candidates are kept, scanning more of them never moves the
/// farthest kept one further away.
pub proof fn lemma_more_candidates_never_farther(
    scanned: Seq<Candidate>,
    more: Seq<Candidate>,
    k: nat,
)
    requires
        0 < k <= scanned.len(),
    ensures
        best_k(scanned + more, k).len() == k,
        best_k(scanned + more, k)[0].dist <= best_k(scanned, k)[0].dist,
    decreases more.len(),
{
    broadcast use vstd::seq_lib::group_to_multiset_ensures;

    let all = scanned + more;
    lemma_best_k_nearest(scanned, k);
    lemma_best_k_nearest(all, k);
    if more.len() == 0 {
        assert(all =~= scanned);
    } else {
        let front = more.drop_last();
        lemma_more_candidates_never_farther(scanned, front, k);
        lemma_best_k_nearest(scanned + front, k);
        assert(all.drop_last() =~= scanned + front);
        let kept = best_k(scanned + front, k);
        let c = all.last();
        if c.dist < kept[0].dist {
            let next = kept.update(0, c);
            lemma_sifted_permutes(next, 0);
            let root = best_k(all, k)[0];
            assert(next.to_multiset().count(root) > 0);
            assert(next.contains(root));
            let j = choose|j: int| 0 <= j < next.len() && next[j] == root;
            if j > 0 {
                lemma_heap_root_is_max(kept, j);
            }
        }
    }
}

/// Every kept candidate was scanned.
pub proof fn lemma_kept_was_scanned(best: Seq<Candidate>, scanned: Seq<Candidate>, k: nat, i: int)
    requires
        is_k_nearest(best, scanned, k),
        0 <= i < best.len(),
    ensures
        scanned.contains(best[i]),
{
    broadcast use vstd::seq_lib::group_to_multiset_ensures;

    assert(best.contains(best[i]));
    assert(best.to_multiset().count(best[i]) > 0);
    assert(scanned.to_multiset().count(best[i]) >= best.to_multiset().count(best[i]));
}

/// A max-heap is a sequence in which no entry is farther than its parent.
pub proof fn lemma_heap_parents(h: Seq<Candidate>)
    ensures
        is_heap(h) <==> forall|c: int|
            1 <= c < h.len() ==> h[(c - 1) / 2].dist >= (#[trigger] h[c]).dist,
{
    if is_heap(h) {
        assert forall|c: int| 1 <= c < h.len() implies h[(c - 1) / 2].dist >= (#[trigger] h[c]).dist
        by {
            let p = (c - 1) / 2;
            if c == 2 * p + 1 {
                assert(h[p].dist >= h[2 * p + 1].dist);
            } else {
                assert(c == 2 * p + 2);
                assert(h[p].dist >= h[2 * p + 2].dist);
            }
        }
    }
    if forall|c: int| 1 <= c < h.len() ==> h[(c - 1) / 2].dist >= (#[trigger] h[c]).dist {
        assert forall|p: int|
            #![trigger h[2 * p + 1]]
            0 <= p && 2 * p + 1 < h.len() implies h[p].dist >= h[2 * p + 1].dist by {
            assert((2 * p + 1 - 1) / 2 == p);
        }
        assert forall|p: int|
            #![trigger h[2 * p + 2]]
            0 <= p && 2 * p + 2 < h.len() implies h[p].dist >= h[2 * p + 2].dist by {
            assert((2 * p + 2 - 1) / 2 == p);
        }
    }
}

/// An entry stays where no child is farther. Otherwise it changes places with
/// the farther child, the left one where both are equally far, and sinks on from
/// there.
pub proof fn lemma_sift_step(h: Seq<Candidate>, i: int, l: int, r: int)
    requires
        0 <= i < h.len(),
        l == 2 * i + 1,
        r == 2 * i + 2,
    ensures
        (l < h.len() ==> h[l].dist <= h[i].dist) && (r < h.len() ==> h[r].dist <= h[i].dist)
            ==> sifted(h, i) == h,
        l < h.len() && h[l].dist > h[i].dist && (r < h.len() ==> h[r].dist <= h[l].dist) ==> sifted(
            h,
            i,
        ) == sifted(h.update(i, h[l]).update(l, h[i]), l),
        r < h.len() && h[r].dist > h[i].dist && h[r].dist > h[l].dist ==> sifted(h, i) == sifted(
            h.update(i, h[r]).update(r, h[i]),
            r,
        ),
{
}

/// Heapifying sinks the entries that have children, from the last of them to
/// the first.
pub proof fn lemma_heapify_steps(h: Seq<Candidate>, i: int)
    requires
        0 <= i,
    ensures
        heapified(h) == heapified_below(h, h.len() as int / 2),
        heapified_below(h, 0) == h,
        heapified_below(h, i + 1) == heapified_below(sifted(h, i), i),
{
}

/// Offering a candidate: below `k` it is taken in at the end, and the `k`
/// candidates are made a heap; from then on it takes the place of the farthest
/// one if it is strictly nearer, and is dropped otherwise.
pub proof fn lemma_offered(kept: Seq<Candidate>, c: Candidate, k: nat)
    requires
        k > 0,
        kept.len() <= k,
        kept.len() == k ==> is_heap(kept),
    ensures
        kept.len() + 1 < k ==> offered(kept, c, k) == kept.push(c),
        kept.len() + 1 == k ==> {
            &&& offered(kept, c, k).to_multiset() == kept.to_multiset().insert(c)
            &&& is_heap(offered(kept, c, k))
        },
        kept.len() == k && c.dist >= kept[0].dist ==> offered(kept, c, k) == kept,
        kept.len() == k && c.dist < kept[0].dist ==> {
            &&& offered(kept, c, k) == sifted(kept.update(0, c), 0)
            &&& offered(kept, c, k).to_multiset() == kept.to_multiset().remove(kept[0]).insert(c)
            &&& is_heap(offered(kept, c, k))
        },
        forall|b: Candidate|
            kept.len() == k && #[trigger] kept.contains(b) ==> b.dist <= kept[0].dist,
{
    broadcast use vstd::seq_lib::group_to_multiset_ensures;

    if kept.len() + 1 == k {
        lemma_heapified_permutes(kept.push(c));
        lemma_heapified_is_heap(kept.push(c));
        assert(kept.push(c).to_multiset() =~= kept.to_multiset().insert(c));
    }
    if kept.len() == k {
        assert forall|b: Candidate| #[trigger] kept.contains(b) implies b.dist <= kept[0].dist by {
            let j = choose|j: int| 0 <= j < kept.len() && kept[j] == b;
            lemma_heap_root_is_max(kept, j);
        }
        if c.dist < kept[0].dist {
            let next = kept.update(0, c);
            lemma_update_multiset(kept, 0, c);
            lemma_sifted_permutes(next, 0);
            assert(is_heap_from(next, 1)) by {
                assert forall|p: int|
                    #![trigger next[2 * p + 1]]
                    1 <= p && 2 * p + 1 < next.len() implies next[p].dist >= next[2 * p
                    + 1].dist by {
                    assert(kept[p].dist >= kept[2 * p + 1].dist);
                }
                assert forall|p: int|
                    #![trigger next[2 * p + 2]]
                    1 <= p && 2 * p + 2 < next.len() implies next[p].dist >= next[2 * p
                    + 2].dist by {
                    assert(kept[p].dist >= kept[2 * p + 2].dist);
                }
            }
            lemma_sift_into_heap(next, 0);
        }
    }
}

/// The best candidates of a scan come about by offering the scanned ones in
/// order.
pub proof fn lemma_best_k_steps(scanned: Seq<Candidate>, c: Candidate, k: nat)
    ensures
        best_k(Seq::empty(), k) == Seq::<Candidate>::empty(),
        best_k(scanned.push(c), k) == offered(best_k(scanned, k), c, k),
{
    assert(scanned.push(c).drop_last() =~= scanned);
}

/// What it means to be the `k` nearest: there are `k`, or all where there are
/// fewer; each is among the scanned ones as often as it is kept; and one that
/// was left out is no nearer than any that was kept.
pub proof fn lemma_k_nearest(
    best: Seq<Candidate>,
    scanned: Seq<Candidate>,
    k: nat,
    b: Candidate,
    c: Candidate,
)
    requires
        is_k_nearest(best, scanned, k),
    ensures
        scanned.len() < k ==> best.len() == scanned.len(),
        scanned.len() >= k ==> best.len() == k,
        best.to_multiset().count(c) <= scanned.to_multiset().count(c),
        best.to_multiset().count(b) > 0 && best.to_multiset().count(c)
            < scanned.to_multiset().count(c) ==> b.dist <= c.dist,
{
    assert(best.to_multiset().subset_of(scanned.to_multiset()));
}

} // verus!
