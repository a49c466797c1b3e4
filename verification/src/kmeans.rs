//! Clustering by Lloyd's algorithm: `k` reference vectors are drawn as first
//! centroids; then, a number of times, every vector joins its nearest centroid
//! and every centroid moves to the mean of its vectors.
//!
//! Distances and means are floating-point numbers, and are computed by the
//! caller.
use rand::seq::SliceRandom;
use rand::SeedableRng;
use vstd::prelude::*;

use crate::quantize::{FloatBits, DIMS};

verus! {

/// The order into which `items` are shuffled by the ChaCha8 generator with a
/// seed, from a position of its stream on.
pub uninterp spec fn chacha8_shuffled(seed: u64, word_pos: u128, items: Seq<usize>) -> Seq<usize>;

/// `rand::seq::SliceRandom::shuffle`, by the `rand_chacha::ChaCha8Rng` that
/// `seed_from_u64` gives, set to 32-bit word `word_pos` of its stream. The order
/// depends on the seed, the position and the items alone, and the items stay the
/// same ones.
#[verifier::external_body]
fn shuffle(items: &mut Vec<usize>, seed: u64, word_pos: u128)
    ensures
        final(items)@ == chacha8_shuffled(seed, word_pos, old(items)@),
        final(items)@.to_multiset() == old(items)@.to_multiset(),
{
    let mut rng = rand_chacha::ChaCha8Rng::seed_from_u64(seed);
    rng.set_word_pos(word_pos);
    items.shuffle(&mut rng);
}

/// The numbers below `n`, ascending.
pub open spec fn first_numbers(n: nat) -> Seq<usize> {
    Seq::new(n, |i: int| i as usize)
}

/// The first `k` of the shuffled numbers below `n`.
pub open spec fn drawn(n: nat, k: nat, seed: u64, word_pos: u128) -> Seq<usize> {
    chacha8_shuffled(seed, word_pos, first_numbers(n)).take(k as int)
}

/// Draws `k` different numbers below `n`.
pub fn draw_indices(n: usize, k: usize, seed: u64, word_pos: u128) -> (out: Vec<usize>)
    requires
        k <= n,
    ensures
        out@ == drawn(n as nat, k as nat, seed, word_pos),
        out@ == chacha8_shuffled(seed, word_pos, Seq::new(n as nat, |i: int| i as usize)).take(
            k as int,
        ),
        chacha8_shuffled(seed, word_pos, Seq::new(n as nat, |i: int| i as usize)).len() == n,
        out.len() == k,
        out@.no_duplicates(),
        forall|i: int| 0 <= i < out.len() ==> #[trigger] out[i] < n,
{
    let mut indices: Vec<usize> = Vec::new();
    let mut i: usize = 0;
    while i < n
        invariant
            i <= n,
            indices@ == first_numbers(i as nat),
        decreases n - i,
    {
        indices.push(i);
        i = i + 1;
        assert(indices@ =~= first_numbers(i as nat));
    }
    let ghost before = indices@;
    assert(before =~= Seq::new(n as nat, |i: int| i as usize));
    shuffle(&mut indices, seed, word_pos);
    proof {
        broadcast use vstd::seq_lib::group_to_multiset_ensures;

        let after = indices@;
        assert(before.no_duplicates());
        before.lemma_multiset_has_no_duplicates();
        assert forall|x: usize| after.to_multiset().contains(x) implies after.to_multiset().count(x)
            == 1 by {
            assert(before.to_multiset().contains(x));
        }
        after.lemma_multiset_has_no_duplicates_conv();
        assert(after.len() == after.to_multiset().len() && before.len()
            == before.to_multiset().len());
        assert forall|j: int| 0 <= j < after.len() implies #[trigger] after[j] < n by {
            assert(after.contains(after[j]));
            assert(before.to_multiset().count(after[j]) > 0);
            assert(before.contains(after[j]));
        }
    }
    let mut out: Vec<usize> = Vec::new();
    let mut j: usize = 0;
    while j < k
        invariant
            j <= k <= indices.len(),
            out@ == indices@.take(j as int),
        decreases k - j,
    {
        out.push(indices[j]);
        j = j + 1;
        assert(out@ =~= indices@.take(j as int));
    }
    out
}

/// The numbers below the length whose assignment is `c`, ascending.
pub open spec fn members_of(assignments: Seq<usize>, c: int) -> Seq<usize>
    decreases assignments.len(),
{
    if assignments.len() == 0 {
        Seq::empty()
    } else {
        let n = assignments.len() - 1;
        let front = members_of(assignments.drop_last(), c);
        if assignments.last() == c {
            front.push(n as usize)
        } else {
            front
        }
    }
}

/// Groups vectors by the centroid they are assigned to.
pub fn cluster_members(assignments: &Vec<usize>, k: usize) -> (members: Vec<Vec<usize>>)
    requires
        forall|i: int| 0 <= i < assignments.len() ==> #[trigger] assignments[i] < k,
    ensures
        members.len() == k,
        forall|c: int|
            0 <= c < k ==> (#[trigger] members[c])@ == members_of(assignments@, c),
        forall|c: int, i: usize|
            #![trigger members[c]@.contains(i)]
            0 <= c < k ==> (members[c]@.contains(i) <==> i < assignments.len()
                && assignments[i as int] == c),
        forall|c: int, a: int, b: int|
            #![trigger members[c]@[a], members[c]@[b]]
            0 <= c < k && 0 <= a < b < members[c].len() ==> members[c]@[a] < members[c]@[b],
{
    let mut members: Vec<Vec<usize>> = Vec::new();
    let mut c: usize = 0;
    while c < k
        invariant
            c <= k,
            members.len() == c,
            forall|d: int| 0 <= d < c ==> (#[trigger] members[d])@ == Seq::<usize>::empty(),
        decreases k - c,
    {
        members.push(Vec::new());
        c = c + 1;
    }
    let mut i: usize = 0;
    assert(assignments@.take(0) =~= Seq::empty());
    while i < assignments.len()
        invariant
            i <= assignments.len(),
            forall|j: int| 0 <= j < assignments.len() ==> #[trigger] assignments[j] < k,
            members.len() == k,
            forall|d: int|
                0 <= d < k ==> (#[trigger] members[d])@ == members_of(
                    assignments@.take(i as int),
                    d,
                ),
        decreases assignments.len() - i,
    {
        let ci: usize = assignments[i];
        let ghost before = members@;
        members[ci].push(i);
        proof {
            let part = assignments@.take(i + 1);
            assert(part.drop_last() =~= assignments@.take(i as int));
            assert forall|d: int| 0 <= d < k implies (#[trigger] members[d])@ == members_of(
                part,
                d,
            ) by {
                assert(before[d]@ == members_of(assignments@.take(i as int), d));
            }
        }
        i = i + 1;
    }
    assert(assignments@.take(assignments.len() as int) =~= assignments@);
    proof {
        assert(assignments.len() == assignments@.len());
        assert forall|c: int, i: usize|
            #![trigger members[c]@.contains(i)]
            0 <= c < k implies (members[c]@.contains(i) <==> i < assignments.len()
            && assignments[i as int] == c) by {
            lemma_members_partition(assignments@, c);
        }
        assert forall|c: int, a: int, b: int|
            #![trigger members[c]@[a], members[c]@[b]]
            0 <= c < k && 0 <= a < b < members[c].len() implies members[c]@[a] < members[c]@[b] by {
            lemma_members_partition(assignments@, c);
        }
    }
    members
}

/// Every vector is in the group of its centroid and in no other, and groups are
/// in ascending order.
pub proof fn lemma_members_partition(assignments: Seq<usize>, c: int)
    requires
        assignments.len() <= usize::MAX,
    ensures
        forall|i: usize| #[trigger]
            members_of(assignments, c).contains(i) <==> i < assignments.len()
                && assignments[i as int] == c,
        forall|a: int, b: int|
            0 <= a < b < members_of(assignments, c).len() ==> #[trigger] members_of(
                assignments,
                c,
            )[a] < #[trigger] members_of(assignments, c)[b],
    decreases assignments.len(),
{
    let all = members_of(assignments, c);
    if assignments.len() > 0 {
        let front = members_of(assignments.drop_last(), c);
        let n = (assignments.len() - 1) as usize;
        lemma_members_partition(assignments.drop_last(), c);
        assert forall|i: usize| #[trigger]
            all.contains(i) <==> i < assignments.len() && assignments[i as int] == c by {
            assert(front.contains(i) <==> i < n && assignments[i as int] == c);
            if front.contains(i) {
                let at = choose|at: int| 0 <= at < front.len() && front[at] == i;
                assert(all[at] == i);
            }
            if all.contains(i) {
                let at = choose|at: int| 0 <= at < all.len() && all[at] == i;
                if at < front.len() {
                    assert(front[at] == i);
                }
            }
            if i == n && assignments.last() == c {
                assert(all[front.len() as int] == i);
            }
        }
        assert forall|a: int, b: int| 0 <= a < b < all.len() implies #[trigger] all[a]
            < #[trigger] all[b] by {
            assert(front.contains(front[a]));
        }
    }
}

/// A vector stands in the group of its centroid after the vectors of that group
/// that come before it.
pub proof fn lemma_member_place(assignments: Seq<usize>, i: int)
    requires
        0 <= i < assignments.len(),
        assignments.len() <= usize::MAX,
    ensures
        ({
            let c = assignments[i] as int;
            let place = members_of(assignments.take(i), c).len();
            &&& place < members_of(assignments, c).len()
            &&& members_of(assignments, c)[place as int] == i
        }),
    decreases assignments.len(),
{
    let front = assignments.drop_last();
    if i < front.len() {
        lemma_member_place(front, i);
        assert(front.take(i) =~= assignments.take(i));
    } else {
        assert(assignments.take(i) =~= front);
    }
}

/// A run of the algorithm.
pub struct KMeans {
    pub centroids: Vec<[FloatBits; DIMS]>,
    /// How many rounds are left.
    pub rounds: usize,
}

/// The first centroids: the drawn vectors of the sample.
pub open spec fn first_centroids(
    sample: Seq<[FloatBits; DIMS]>,
    k: nat,
    seed: u64,
    word_pos: u128,
) -> Seq<[FloatBits; DIMS]> {
    drawn(sample.len(), k, seed, word_pos).map_values(|i: usize| sample[i as int])
}

/// Where the centroids move: each to the mean of its vectors, and one that has
/// none stays in place.
pub open spec fn moved(
    centroids: Seq<[FloatBits; DIMS]>,
    members: Seq<Vec<usize>>,
    means: Seq<[FloatBits; DIMS]>,
) -> Seq<[FloatBits; DIMS]> {
    Seq::new(
        centroids.len(),
        |c: int|
            if members[c].len() > 0 {
                means[c]
            } else {
                centroids[c]
            },
    )
}

impl KMeans {
    /// Starts with `k` different vectors of the sample as centroids.
    pub fn start(
        sample: &Vec<[FloatBits; DIMS]>,
        k: usize,
        iters: usize,
        seed: u64,
        word_pos: u128,
    ) -> (run: KMeans)
        requires
            k <= sample.len(),
        ensures
            run.centroids@ == first_centroids(sample@, k as nat, seed, word_pos),
            run.centroids.len() == k,
            run.rounds == iters,
            forall|i: int|
                0 <= i < k ==> #[trigger] run.centroids[i] == sample[chacha8_shuffled(
                    seed,
                    word_pos,
                    Seq::new(sample@.len(), |j: int| j as usize),
                )[i] as int],
            drawn(sample@.len(), k as nat, seed, word_pos).no_duplicates(),
            forall|i: int|
                0 <= i < k ==> #[trigger] drawn(sample@.len(), k as nat, seed, word_pos)[i]
                    < sample.len(),
    {
        let indices: Vec<usize> = draw_indices(sample.len(), k, seed, word_pos);
        let mut centroids: Vec<[FloatBits; DIMS]> = Vec::new();
        let mut i: usize = 0;
        while i < k
            invariant
                i <= k,
                indices.len() == k,
                forall|j: int| 0 <= j < k ==> #[trigger] indices[j] < sample.len(),
                centroids.len() == i,
                forall|j: int| 0 <= j < i ==> #[trigger] centroids[j] == sample[indices[j] as int],
            decreases k - i,
        {
            centroids.push(sample[indices[i]]);
            i = i + 1;
        }
        assert(centroids@ =~= first_centroids(sample@, k as nat, seed, word_pos));
        proof {
            let all = chacha8_shuffled(
                seed,
                word_pos,
                Seq::new(sample@.len(), |j: int| j as usize),
            );
            assert forall|i: int| 0 <= i < k implies #[trigger] centroids[i]
                == sample[all[i] as int] by {
                assert(indices@[i] == all.take(k as int)[i]);
            }
        }
        KMeans { centroids, rounds: iters }
    }

    /// Whether all rounds are over.
    pub fn is_done(&self) -> (done: bool)
        ensures
            done == (self.rounds == 0),
    {
        self.rounds == 0
    }

    /// Ends a round: centroids move to the means of their vectors.
    pub fn advance(&mut self, members: &Vec<Vec<usize>>, means: &Vec<[FloatBits; DIMS]>)
        requires
            old(self).rounds > 0,
            members.len() == old(self).centroids.len(),
            means.len() == old(self).centroids.len(),
        ensures
            final(self).centroids@ == moved(old(self).centroids@, members@, means@),
            forall|c: int|
                0 <= c < old(self).centroids.len() && members[c].len() > 0 ==> (
                #[trigger] final(self).centroids[c]) == means[c],
            forall|c: int|
                0 <= c < old(self).centroids.len() && members[c].len() == 0 ==> (
                #[trigger] final(self).centroids[c]) == old(self).centroids[c],
            final(self).centroids.len() == old(self).centroids.len(),
            final(self).rounds == old(self).rounds - 1,
    {
        let ghost before = self.centroids@;
        let mut c: usize = 0;
        while c < self.centroids.len()
            invariant
                c <= self.centroids.len(),
                self.centroids.len() == before.len(),
                members.len() == before.len(),
                means.len() == before.len(),
                self.rounds == old(self).rounds,
                forall|d: int|
                    0 <= d < c ==> #[trigger] self.centroids[d] == moved(
                        before,
                        members@,
                        means@,
                    )[d],
                forall|d: int| c <= d < before.len() ==> #[trigger] self.centroids[d] == before[d],
            decreases self.centroids.len() - c,
        {
            if members[c].len() > 0 {
                self.centroids.set(c, means[c]);
            }
            c = c + 1;
        }
        assert(self.centroids@ =~= moved(before, members@, means@));
        self.rounds = self.rounds - 1;
    }
}

/// After a round, a centroid stands at the mean of the vectors it was given, and
/// where it was before if it was given none. None appears or goes.
pub proof fn lemma_moved(
    centroids: Seq<[FloatBits; DIMS]>,
    members: Seq<Vec<usize>>,
    means: Seq<[FloatBits; DIMS]>,
    c: int,
)
    requires
        0 <= c < centroids.len(),
    ensures
        moved(centroids, members, means).len() == centroids.len(),
        members[c]@.len() > 0 ==> moved(centroids, members, means)[c] == means[c],
        members[c]@.len() == 0 ==> moved(centroids, members, means)[c] == centroids[c],
{
}

} // verus!
