//! Ordering of centroids and reference vectors by distance.
//!
//! Distances are non-negative single-precision numbers. They come in as their
//! bit patterns, which order as the numbers do: `key(a) < key(b)` exactly when
//! `a < b`. Where two distances are equal, the smaller index counts as nearer.
use vstd::prelude::*;

verus! {

/// The bit pattern of the largest finite single-precision number.
pub const LARGEST_FINITE_KEY: u32 = 0x7f7f_ffff;

/// Index `i` is nearer than index `j`.
pub open spec fn nearer(keys: Seq<u32>, i: int, j: int) -> bool {
    keys[i] < keys[j] || (keys[i] == keys[j] && i < j)
}

/// `order` lists the `n` nearest indices, nearest first.
pub open spec fn is_nearest_order(keys: Seq<u32>, order: Seq<usize>, n: nat) -> bool {
    &&& order.len() == n
    &&& forall|a: int| 0 <= a < order.len() ==> 0 <= #[trigger] order[a] < keys.len()
    &&& forall|a: int, b: int|
        0 <= a < b < order.len() ==> nearer(
            keys,
            #[trigger] order[a] as int,
            #[trigger] order[b] as int,
        )
    &&& forall|a: int, j: usize|
        #![trigger order[a], order.contains(j)]
        0 <= a < order.len() && j < keys.len() && !order.contains(j) ==> nearer(
            keys,
            order[a] as int,
            j as int,
        )
}

/// The `n` nearest indices, nearest first.
pub open spec fn nearest_order(keys: Seq<u32>, n: nat) -> Seq<usize> {
    choose|order: Seq<usize>| is_nearest_order(keys, order, n)
}

/// The indices that are nearer than `c`.
pub open spec fn nearer_than(keys: Seq<u32>, c: int) -> Set<int> {
    vstd::set_lib::set_int_range(0, keys.len() as int).filter(|j: int| nearer(keys, j, c))
}

/// `best` is the nearest index whose key is below the largest finite one (the
/// first of them where several are equally near), or 0 where there is none.
pub open spec fn is_nearest(keys: Seq<u32>, best: int) -> bool {
    &&& (exists|i: int| 0 <= i < keys.len() && #[trigger] keys[i] < LARGEST_FINITE_KEY) ==> {
        &&& 0 <= best < keys.len()
        &&& keys[best] < LARGEST_FINITE_KEY
        &&& forall|j: int| 0 <= j < keys.len() && j != best ==> #[trigger] nearer(keys, best, j)
    }
    &&& (forall|i: int| 0 <= i < keys.len() ==> #[trigger] keys[i] >= LARGEST_FINITE_KEY) ==> best
        == 0
}

/// The nearest index whose key is below the largest finite one, or 0.
pub open spec fn nearest(keys: Seq<u32>) -> int {
    choose|best: int| is_nearest(keys, best)
}

proof fn lemma_nearest_unique(keys: Seq<u32>, a: int, b: int)
    requires
        is_nearest(keys, a),
        is_nearest(keys, b),
    ensures
        a == b,
{
    if a != b {
        if exists|i: int| 0 <= i < keys.len() && #[trigger] keys[i] < LARGEST_FINITE_KEY {
            assert(nearer(keys, a, b));
            assert(nearer(keys, b, a));
        }
    }
}

/// The nearest centroid, from the distance keys of all: the first of the
/// nearest whose key is below the largest finite one, or 0.
pub fn nearest_centroid(keys: &Vec<u32>) -> (best: usize)
    ensures
        is_nearest(keys@, best as int),
        best == nearest(keys@),
        (exists|i: int| 0 <= i < keys.len() && #[trigger] keys[i] < 0x7f7f_ffff) ==> {
            &&& best < keys.len()
            &&& keys[best as int] < 0x7f7f_ffff
            &&& forall|j: int| 0 <= j < keys.len() ==> keys[best as int] <= #[trigger] keys[j]
            &&& forall|j: int| 0 <= j < best ==> keys[best as int] < #[trigger] keys[j]
        },
        (forall|i: int| 0 <= i < keys.len() ==> #[trigger] keys[i] >= 0x7f7f_ffff) ==> best == 0,
        keys.len() > 0 ==> best < keys.len(),
{
    let mut best: usize = 0;
    let mut best_key: u32 = LARGEST_FINITE_KEY;
    let mut i: usize = 0;
    while i < keys.len()
        invariant
            i <= keys.len(),
            best_key <= LARGEST_FINITE_KEY,
            best_key == LARGEST_FINITE_KEY ==> best == 0 && forall|j: int|
                0 <= j < i ==> #[trigger] keys[j] >= LARGEST_FINITE_KEY,
            best_key < LARGEST_FINITE_KEY ==> best < i && best_key == keys[best as int] && forall|
                j: int,
            |
                0 <= j < i && j != best ==> #[trigger] nearer(keys@, best as int, j),
        decreases keys.len() - i,
    {
        let key: u32 = keys[i];
        if key < best_key {
            assert forall|j: int| 0 <= j < i implies #[trigger] nearer(keys@, i as int, j) by {
                if best_key < LARGEST_FINITE_KEY && j != best {
                    assert(nearer(keys@, best as int, j));
                }
                assert(keys[j] == keys@[j]);
            }
            best_key = key;
            best = i;
        }
        i = i + 1;
    }
    proof {
        assert(is_nearest(keys@, best as int));
        lemma_nearest_unique(keys@, best as int, nearest(keys@));
        assert forall|j: int| 0 <= j < keys.len() && best_key < LARGEST_FINITE_KEY implies keys[best
            as int] <= #[trigger] keys[j] && (j < best ==> keys[best as int] < keys[j]) by {
            if j != best {
                assert(nearer(keys@, best as int, j));
            }
        }
    }
    best
}

/// One listing of the nearest indices is the front part of any longer one.
pub proof fn lemma_nearest_order_prefix(
    keys: Seq<u32>,
    short: Seq<usize>,
    m: nat,
    long: Seq<usize>,
    n: nat,
)
    requires
        m <= n,
        is_nearest_order(keys, short, m),
        is_nearest_order(keys, long, n),
    ensures
        short == long.take(m as int),
    decreases m,
{
    if m > 0 {
        let front = short.drop_last();
        assert(is_nearest_order(keys, front, (m - 1) as nat)) by {
            assert forall|a: int, j: usize|
                #![trigger front[a], front.contains(j)]
                0 <= a < front.len() && j < keys.len() && !front.contains(j) implies nearer(
                keys,
                front[a] as int,
                j as int,
            ) by {
                assert(front[a] == short[a]);
                if short.contains(j) {
                    let b = choose|b: int| 0 <= b < short.len() && short[b] == j;
                    assert(b == m - 1) by {
                        if b < m - 1 {
                            assert(front[b] == j);
                        }
                    }
                }
            }
        }
        lemma_nearest_order_prefix(keys, front, (m - 1) as nat, long, n);
        let x = short[m - 1];
        let y = long[m - 1];
        assert(front == long.take(m - 1));
        if x != y {
            if !long.contains(x) {
                assert(nearer(keys, y as int, x as int));
            } else {
                let b = choose|b: int| 0 <= b < long.len() && long[b] == x;
                if b < m - 1 {
                    assert(front[b] == x);
                    assert(short[b] == x);
                    assert(nearer(keys, short[b] as int, short[m - 1] as int));
                } else {
                    assert(nearer(keys, long[m - 1] as int, long[b] as int));
                }
            }
            assert(nearer(keys, y as int, x as int));
            if !short.contains(y) {
                assert(nearer(keys, x as int, y as int));
            } else {
                let b = choose|b: int| 0 <= b < short.len() && short[b] == y;
                assert(b < m - 1);
                assert(front[b] == y);
                assert(long[b] == y);
                assert(nearer(keys, long[b] as int, long[m - 1] as int));
            }
        }
        assert(short =~= long.take(m as int));
    }
}

/// There is only one listing of the `n` nearest indices.
pub proof fn lemma_nearest_order_unique(keys: Seq<u32>, order: Seq<usize>, n: nat)
    requires
        is_nearest_order(keys, order, n),
    ensures
        nearest_order(keys, n) == order,
{
    lemma_nearest_order_prefix(keys, nearest_order(keys, n), n, order, n);
    assert(order.take(n as int) == order);
}

/// The `n` nearest indices, nearest first.
pub fn nearest_indices(keys: &Vec<u32>, n: usize) -> (order: Vec<usize>)
    requires
        n <= keys.len(),
    ensures
        is_nearest_order(keys@, order@, n as nat),
        order@ == nearest_order(keys@, n as nat),
        order.len() == n,
        forall|a: int| 0 <= a < n ==> #[trigger] order[a] < keys.len(),
        forall|a: int, b: int|
            0 <= a < b < n ==> keys[#[trigger] order[a] as int] < keys[#[trigger] order[b] as int]
                || (keys[order[a] as int] == keys[order[b] as int] && order[a] < order[b]),
        forall|a: int, j: usize|
            #![trigger order[a], order@.contains(j)]
            0 <= a < n && j < keys.len() && !order@.contains(j) ==> keys[order[a] as int]
                < keys[j as int] || (keys[order[a] as int] == keys[j as int] && order[a] < j),
{
    let mut order: Vec<usize> = Vec::new();
    let mut i: usize = 0;
    while i < keys.len()
        invariant
            i <= keys.len(),
            n <= keys.len(),
            is_nearest_order(
                keys@.take(i as int),
                order@,
                if i < n {
                    i as nat
                } else {
                    n as nat
                },
            ),
        decreases keys.len() - i,
    {
        insert_nearest(keys, &mut order, i, n);
        i = i + 1;
    }
    assert(keys@.take(keys.len() as int) == keys@);
    proof {
        lemma_nearest_order_unique(keys@, order@, n as nat);
        assert forall|a: int, b: int| 0 <= a < b < n implies keys[#[trigger] order[a] as int]
            < keys[#[trigger] order[b] as int] || (keys[order[a] as int] == keys[order[b] as int]
            && order[a] < order[b]) by {
            assert(nearer(keys@, order[a] as int, order[b] as int));
        }
        assert forall|a: int, j: usize|
            #![trigger order[a], order@.contains(j)]
            0 <= a < n && j < keys.len() && !order@.contains(j) implies keys[order[a] as int]
            < keys[j as int] || (keys[order[a] as int] == keys[j as int] && order[a] < j) by {
            assert(nearer(keys@, order[a] as int, j as int));
        }
    }
    order
}

/// Adds index `i` to the `n` nearest among the indices before it.
fn insert_nearest(keys: &Vec<u32>, order: &mut Vec<usize>, i: usize, n: usize)
    requires
        i < keys.len(),
        is_nearest_order(
            keys@.take(i as int),
            old(order)@,
            if i < n {
                i as nat
            } else {
                n as nat
            },
        ),
    ensures
        is_nearest_order(
            keys@.take(i + 1),
            final(order)@,
            if i + 1 < n {
                (i + 1) as nat
            } else {
                n as nat
            },
        ),
{
    let ghost before = order@;
    let ghost seen = keys@.take(i as int);
    let ghost next = keys@.take(i + 1);
    let mut at: usize = order.len();
    while at > 0 && keys[i] < keys[order[at - 1]]
        invariant
            at <= order.len(),
            i < keys.len(),
            seen == keys@.take(i as int),
            order@ == before,
            is_nearest_order(seen, before, before.len()),
            forall|b: int| at <= b < before.len() ==> keys[i as int] < keys[#[trigger] before[b] as int],
        decreases at,
    {
        at = at - 1;
    }
    proof {
        assert forall|a: int| 0 <= a < at implies keys[#[trigger] before[a] as int] <= keys[i as int]
            && before[a] < i by {
            assert(before[at - 1] < seen.len());
            if a < at - 1 {
                assert(nearer(seen, before[a] as int, before[at - 1] as int));
            }
        }
        assert forall|x: int, y: int| 0 <= x < i && 0 <= y < i implies nearer(seen, x, y) == nearer(
            next,
            x,
            y,
        ) by {
            assert(seen[x] == next[x] && seen[y] == next[y]);
        }
        assert(!before.contains(i)) by {
            if before.contains(i) {
                let b = choose|b: int| 0 <= b < before.len() && before[b] == i;
                assert(before[b] < seen.len());
            }
        }
    }
    if at < n {
        order.insert(at, i);
        let ghost grown = order@;
        proof {
            assert(grown == before.insert(at as int, i));
            assert forall|b: int| 0 <= b < grown.len() implies #[trigger] grown[b] == (if b < at {
                before[b]
            } else if b == at {
                i
            } else {
                before[b - 1]
            }) by {}
            assert(seen =~= next.take(i as int));
            lemma_grown_order(seen, next, before, grown, i, at as int);
        }
        if order.len() > n {
            let dropped = order.pop();
            proof {
                lemma_shrunk_order(next, grown, order@);
            }
        }
    } else {
        proof {
            assert(at == n && before.len() == n);
            assert forall|a: int, j: usize|
                #![trigger before[a], before.contains(j)]
                0 <= a < before.len() && j < next.len() && !before.contains(j) implies nearer(
                next,
                before[a] as int,
                j as int,
            ) by {
                if j < i {
                    assert(nearer(seen, before[a] as int, j as int));
                }
            }
        }
    }
}

proof fn lemma_grown_order(
    seen: Seq<u32>,
    next: Seq<u32>,
    before: Seq<usize>,
    grown: Seq<usize>,
    i: usize,
    at: int,
)
    requires
        next.len() == i + 1,
        seen == next.take(i as int),
        is_nearest_order(seen, before, before.len()),
        0 <= at <= before.len(),
        grown == before.insert(at, i),
        forall|a: int| 0 <= a < at ==> next[#[trigger] before[a] as int] <= next[i as int],
        forall|a: int|
            at <= a < before.len() ==> next[i as int] < next[#[trigger] before[a] as int],
        before.len() == i || at < before.len(),
    ensures
        is_nearest_order(next, grown, grown.len()),
{
    assert forall|x: int, y: int| 0 <= x < i && 0 <= y < i implies nearer(seen, x, y) == nearer(
        next,
        x,
        y,
    ) by {
        assert(seen[x] == next[x] && seen[y] == next[y]);
    }
    assert forall|a: int, b: int| 0 <= a < b < grown.len() implies nearer(
        next,
        #[trigger] grown[a] as int,
        #[trigger] grown[b] as int,
    ) by {
        let pa = if a < at {
            a
        } else {
            a - 1
        };
        let pb = if b < at {
            b
        } else {
            b - 1
        };
        if a != at {
            assert(grown[a] == before[pa]);
        }
        if b != at {
            assert(grown[b] == before[pb]);
        }
        if a != at && b != at {
            assert(nearer(seen, before[pa] as int, before[pb] as int));
        }
    }
    assert forall|a: int, j: usize|
        #![trigger grown[a], grown.contains(j)]
        0 <= a < grown.len() && j < next.len() && !grown.contains(j) implies nearer(
        next,
        grown[a] as int,
        j as int,
    ) by {
        assert(j != i) by {
            if j == i {
                assert(grown[at] == i);
            }
        }
        assert(!before.contains(j)) by {
            if before.contains(j) {
                let b = choose|b: int| 0 <= b < before.len() && before[b] == j;
                if b < at {
                    assert(grown[b] == j);
                } else {
                    assert(grown[b + 1] == j);
                }
            }
        }
        if a == at {
            if at < before.len() {
                assert(nearer(seen, before[at] as int, j as int));
            } else {
                lemma_full_order_contains(seen, before, j);
            }
        } else if a < at {
            assert(nearer(seen, before[a] as int, j as int));
        } else {
            assert(nearer(seen, before[a - 1] as int, j as int));
        }
    }
}

/// A listing as long as the keys leaves no index out.
pub proof fn lemma_full_order_contains(keys: Seq<u32>, order: Seq<usize>, j: usize)
    requires
        is_nearest_order(keys, order, keys.len()),
        j < keys.len(),
    ensures
        order.contains(j),
{
    let ids = order.map_values(|x: usize| x as int);
    assert(ids.no_duplicates()) by {
        assert forall|a: int, b: int| 0 <= a < b < ids.len() implies ids[a] != ids[b] by {
            assert(nearer(keys, order[a] as int, order[b] as int));
        }
    }
    let all = vstd::set_lib::set_int_range(0, keys.len() as int);
    vstd::set_lib::lemma_int_range(0, keys.len() as int);
    ids.unique_seq_to_set();
    assert(ids.to_set().subset_of(all)) by {
        assert forall|x: int| ids.to_set().contains(x) implies all.contains(x) by {
            let a = choose|a: int| 0 <= a < ids.len() && ids[a] == x;
            assert(order[a] < keys.len());
        }
    }
    vstd::set_lib::lemma_subset_equality(ids.to_set(), all);
    assert(ids.to_set().contains(j as int));
    let a = choose|a: int| 0 <= a < ids.len() && ids[a] == j as int;
    assert(order[a] == j);
}

proof fn lemma_shrunk_order(keys: Seq<u32>, grown: Seq<usize>, shrunk: Seq<usize>)
    requires
        is_nearest_order(keys, grown, grown.len()),
        grown.len() > 0,
        shrunk == grown.subrange(0, grown.len() - 1),
    ensures
        is_nearest_order(keys, shrunk, shrunk.len()),
{
    assert forall|a: int, j: usize|
        #![trigger shrunk[a], shrunk.contains(j)]
        0 <= a < shrunk.len() && j < keys.len() && !shrunk.contains(j) implies nearer(
        keys,
        shrunk[a] as int,
        j as int,
    ) by {
        assert(shrunk[a] == grown[a]);
        if grown.contains(j) {
            let b = choose|b: int| 0 <= b < grown.len() && grown[b] == j;
            if b < shrunk.len() {
                assert(shrunk[b] == j);
            }
        }
    }
}

proof fn lemma_insert_position(next: Seq<u32>, before: Seq<usize>, i: usize, b: int) -> (at: int)
    requires
        next.len() == i + 1,
        is_nearest_order(next.take(i as int), before, before.len()),
        0 <= b <= before.len(),
        forall|a: int|
            b <= a < before.len() ==> next[i as int] < next[#[trigger] before[a] as int],
    ensures
        0 <= at <= before.len(),
        forall|a: int| 0 <= a < at ==> next[#[trigger] before[a] as int] <= next[i as int],
        forall|a: int|
            at <= a < before.len() ==> next[i as int] < next[#[trigger] before[a] as int],
    decreases b,
{
    if b > 0 && next[i as int] < next[before[b - 1] as int] {
        lemma_insert_position(next, before, i, b - 1)
    } else {
        assert forall|a: int| 0 <= a < b implies next[#[trigger] before[a] as int]
            <= next[i as int] by {
            if a < b - 1 {
                assert(nearer(next.take(i as int), before[a] as int, before[b - 1] as int));
            }
        }
        b
    }
}

proof fn lemma_full_order_exists(keys: Seq<u32>) -> (order: Seq<usize>)
    requires
        keys.len() <= usize::MAX,
    ensures
        is_nearest_order(keys, order, keys.len()),
    decreases keys.len(),
{
    if keys.len() == 0 {
        Seq::empty()
    } else {
        let i = (keys.len() - 1) as usize;
        let before = lemma_full_order_exists(keys.take(i as int));
        let at = lemma_insert_position(keys, before, i, before.len() as int);
        lemma_grown_order(keys.take(i as int), keys, before, before.insert(at, i), i, at);
        before.insert(at, i)
    }
}

proof fn lemma_order_front(keys: Seq<u32>, order: Seq<usize>, n: nat)
    requires
        is_nearest_order(keys, order, order.len()),
        n <= order.len(),
    ensures
        is_nearest_order(keys, order.take(n as int), n),
    decreases order.len() - n,
{
    if n < order.len() {
        lemma_order_front(keys, order, n + 1);
        let grown = order.take(n as int + 1);
        assert(order.take(n as int) =~= grown.subrange(0, grown.len() - 1));
        lemma_shrunk_order(keys, grown, order.take(n as int));
    } else {
        assert(order.take(n as int) =~= order);
    }
}

/// The `n` nearest indices can always be listed.
pub proof fn lemma_nearest_order_exists(keys: Seq<u32>, n: nat)
    requires
        keys.len() <= usize::MAX,
        n <= keys.len(),
    ensures
        is_nearest_order(keys, nearest_order(keys, n), n),
{
    let order = lemma_full_order_exists(keys);
    lemma_order_front(keys, order, n);
}

/// The position of `c` in the full listing of indices, counted from 1.
pub fn nearness_rank(keys: &Vec<u32>, c: usize) -> (rank: usize)
    requires
        c < keys.len(),
    ensures
        rank == nearer_than(keys@, c as int).len() + 1,
        rank == vstd::set_lib::set_int_range(0, keys@.len() as int).filter(
            |j: int| keys@[j] < keys@[c as int] || (keys@[j] == keys@[c as int] && j < c),
        ).len() + 1,
{
    let mut count: usize = 0;
    let mut j: usize = 0;
    let ghost found: Set<int> = Set::empty();
    while j < keys.len()
        invariant
            j <= keys.len(),
            c < keys.len(),
            found.finite(),
            found =~= vstd::set_lib::set_int_range(0, j as int).filter(
                |x: int| nearer(keys@, x, c as int),
            ),
            count == found.len(),
            count + (if j > c {
                1int
            } else {
                0int
            }) <= j,
        decreases keys.len() - j,
    {
        if keys[j] < keys[c] || (keys[j] == keys[c] && j < c) {
            count = count + 1;
            proof {
                found = found.insert(j as int);
            }
        }
        j = j + 1;
    }
    assert(found =~= nearer_than(keys@, c as int));
    assert(found =~= vstd::set_lib::set_int_range(0, keys@.len() as int).filter(
        |j: int| keys@[j] < keys@[c as int] || (keys@[j] == keys@[c as int] && j < c),
    ));
    count + 1
}

/// The first `n` listed indices are exactly those of rank `n` or better.
pub proof fn lemma_rank_within(keys: Seq<u32>, order: Seq<usize>, n: nat, c: usize)
    requires
        keys.len() <= usize::MAX,
        is_nearest_order(keys, order, n),
        c < keys.len(),
    ensures
        nearer_than(keys, c as int).len() + 1 <= n <==> order.contains(c),
{
    let closer = nearer_than(keys, c as int);
    vstd::set_lib::lemma_int_range(0, keys.len() as int);
    assert(closer.subset_of(vstd::set_lib::set_int_range(0, keys.len() as int)));
    vstd::set_lib::lemma_set_subset_finite(
        vstd::set_lib::set_int_range(0, keys.len() as int),
        closer,
    );
    let ids = order.map_values(|x: usize| x as int);
    assert(ids.no_duplicates()) by {
        assert forall|a: int, b: int| 0 <= a < b < ids.len() implies ids[a] != ids[b] by {
            assert(nearer(keys, order[a] as int, order[b] as int));
        }
    }
    if order.contains(c) {
        let a = choose|a: int| 0 <= a < order.len() && order[a] == c;
        let front = ids.take(a);
        assert(front.no_duplicates());
        front.unique_seq_to_set();
        assert(closer =~= front.to_set()) by {
            assert forall|x: int| closer.contains(x) implies front.to_set().contains(x) by {
                if !order.contains(x as usize) {
                    assert(nearer(keys, order[a] as int, x));
                } else {
                    let b = choose|b: int| 0 <= b < order.len() && order[b] == x as usize;
                    if b > a {
                        assert(nearer(keys, order[a] as int, order[b] as int));
                    }
                    assert(b < a);
                    assert(front[b] == x);
                }
            }
            assert forall|x: int| front.to_set().contains(x) implies closer.contains(x) by {
                let b = choose|b: int| 0 <= b < front.len() && front[b] == x;
                assert(nearer(keys, order[b] as int, order[a] as int));
            }
        }
    } else {
        ids.unique_seq_to_set();
        assert(ids.to_set().subset_of(closer)) by {
            assert forall|x: int| ids.to_set().contains(x) implies closer.contains(x) by {
                let b = choose|b: int| 0 <= b < ids.len() && ids[b] == x;
                assert(nearer(keys, order[b] as int, c as int));
            }
        }
        vstd::set_lib::lemma_len_subset(ids.to_set(), closer);
    }
}

} // verus!
