//! From the neighbours of a query to the answer of the service.
use vstd::prelude::*;

use crate::heap::Candidate;
use crate::quantize::{FloatBits, DIMS};
use crate::searcher::{Neighbor, Searcher};

verus! {

/// How many flags are set.
pub open spec fn count_true(flags: Seq<bool>) -> nat
    decreases flags.len(),
{
    if flags.len() == 0 {
        0
    } else {
        count_true(flags.drop_last()) + if flags.last() {
            1nat
        } else {
            0nat
        }
    }
}

/// Every set flag is counted as often as it occurs.
pub proof fn lemma_count_true(flags: Seq<bool>)
    ensures
        count_true(flags) == flags.to_multiset().count(true),
    decreases flags.len(),
{
    broadcast use vstd::seq_lib::group_to_multiset_ensures;

    if flags.len() > 0 {
        lemma_count_true(flags.drop_last());
        assert(flags =~= flags.drop_last().push(flags.last()));
    }
}

/// No more flags are set than there are.
pub proof fn lemma_count_true_bound(flags: Seq<bool>)
    ensures
        count_true(flags) <= flags.len(),
    decreases flags.len(),
{
    if flags.len() > 0 {
        lemma_count_true_bound(flags.drop_last());
    }
}

/// The fraud flags of candidates.
pub open spec fn candidate_flags(cands: Seq<Candidate>) -> Seq<bool> {
    cands.map_values(|c: Candidate| c.is_fraud)
}

/// The fraud flags of neighbours.
pub open spec fn neighbor_flags(neighbors: Seq<Neighbor>) -> Seq<bool> {
    neighbors.map_values(|n: Neighbor| n.is_fraud)
}

/// How many of the neighbours are fraud.
pub fn count_fraud(neighbors: &Vec<Neighbor>) -> (count: usize)
    ensures
        count == count_true(neighbor_flags(neighbors@)),
        count == neighbors@.map_values(|n: Neighbor| n.is_fraud).to_multiset().count(true),
        count <= neighbors.len(),
{
    let ghost flags = neighbor_flags(neighbors@);
    let mut count: usize = 0;
    let mut i: usize = 0;
    while i < neighbors.len()
        invariant
            i <= neighbors.len(),
            flags == neighbor_flags(neighbors@),
            count <= i,
            count == count_true(flags.take(i as int)),
        decreases neighbors.len() - i,
    {
        assert(flags.take(i + 1).drop_last() =~= flags.take(i as int));
        if neighbors[i].is_fraud {
            count = count + 1;
        }
        i = i + 1;
    }
    assert(flags.take(neighbors.len() as int) =~= flags);
    proof {
        lemma_count_true(flags);
        assert(flags =~= neighbors@.map_values(|n: Neighbor| n.is_fraud));
    }
    count
}

/// A transaction is approved while fewer than three of its five neighbours are
/// fraud, that is while the fraud score `count / 5` is below 0.6.
pub fn is_approved(fraud_count: usize) -> (approved: bool)
    ensures
        approved <==> fraud_count < 3,
        approved <==> 10 * fraud_count < 6 * 5,
{
    fraud_count < 3
}

/// The response body for a number of fraud neighbours out of five: whether the
/// transaction is approved, and the fraud score `count / 5` with one decimal.
pub open spec fn response_text(fraud_count: int) -> Seq<char> {
    "{\"approved\":"@ + (if fraud_count < 3 {
        "true"@
    } else {
        "false"@
    }) + ",\"fraud_score\":"@ + seq![
        crate::text::digit_char(2 * fraud_count / 10),
        '.',
        crate::text::digit_char(2 * fraud_count % 10),
    ] + "}"@
}

/// The response body for a number of fraud neighbours out of five.
pub fn response_body(fraud_count: usize) -> (body: &'static str)
    requires
        fraud_count <= 5,
    ensures
        body@ == response_text(fraud_count as int),
        fraud_count == 0 ==> body@ == "{\"approved\":true,\"fraud_score\":0.0}"@,
        fraud_count == 1 ==> body@ == "{\"approved\":true,\"fraud_score\":0.2}"@,
        fraud_count == 2 ==> body@ == "{\"approved\":true,\"fraud_score\":0.4}"@,
        fraud_count == 3 ==> body@ == "{\"approved\":false,\"fraud_score\":0.6}"@,
        fraud_count == 4 ==> body@ == "{\"approved\":false,\"fraud_score\":0.8}"@,
        fraud_count == 5 ==> body@ == "{\"approved\":false,\"fraud_score\":1.0}"@,
{
    proof {
        reveal_strlit("{\"approved\":");
        reveal_strlit("true");
        reveal_strlit("false");
        reveal_strlit(",\"fraud_score\":");
        reveal_strlit("}");
        reveal_strlit("{\"approved\":true,\"fraud_score\":0.0}");
        reveal_strlit("{\"approved\":true,\"fraud_score\":0.2}");
        reveal_strlit("{\"approved\":true,\"fraud_score\":0.4}");
        reveal_strlit("{\"approved\":false,\"fraud_score\":0.6}");
        reveal_strlit("{\"approved\":false,\"fraud_score\":0.8}");
        reveal_strlit("{\"approved\":false,\"fraud_score\":1.0}");
    }
    let body: &'static str = match fraud_count {
        0 => "{\"approved\":true,\"fraud_score\":0.0}",
        1 => "{\"approved\":true,\"fraud_score\":0.2}",
        2 => "{\"approved\":true,\"fraud_score\":0.4}",
        3 => "{\"approved\":false,\"fraud_score\":0.6}",
        4 => "{\"approved\":false,\"fraud_score\":0.8}",
        _ => "{\"approved\":false,\"fraud_score\":1.0}",
    };
    assert(body@ =~= response_text(fraud_count as int));
    body
}

/// How many neighbours decide on a transaction.
pub const NEIGHBORS: usize = 5;

/// Answers a query: searches its five nearest neighbours and turns the number
/// of frauds among them into a response body.
pub fn fraud_score(
    searcher: &Searcher<'_>,
    query: &[FloatBits; DIMS],
    cent_keys: &Vec<u32>,
) -> (body: &'static str)
    requires
        cent_keys.len() == searcher.model().centroids.len(),
        searcher.probe_setting() > 0 || searcher.model().centroids.len() == 0,
        crate::scan::all_in_range(
            searcher.model(),
            crate::scan::probed(cent_keys@, searcher.probe_setting()),
        ),
    ensures
        crate::scan::probed(cent_keys@, searcher.probe_setting()).len()
            == if searcher.probe_setting() < cent_keys@.len() {
            searcher.probe_setting()
        } else {
            cent_keys@.len()
        },
        ({
            let seen = crate::scan::scanned(
                searcher.model(),
                crate::quantize::quantized_vec(query@),
                crate::scan::probed(cent_keys@, searcher.probe_setting()),
            );
            let best = crate::heap::best_k(seen, 5);
            let frauds = count_true(candidate_flags(best));
            &&& crate::heap::is_k_nearest(best, seen, 5)
            &&& frauds == best.map_values(|c: Candidate| c.is_fraud).to_multiset().count(true)
            &&& frauds <= 5
            &&& body@ == response_text(frauds as int)
        }),
{
    let neighbors: Vec<Neighbor> = searcher.search(query, cent_keys, NEIGHBORS);
    let count: usize = count_fraud(&neighbors);
    proof {
        let seen = crate::scan::scanned(
            searcher.model(),
            crate::quantize::quantized_vec(query@),
            crate::scan::probed(cent_keys@, searcher.probe_setting()),
        );
        let best = crate::heap::best_k(seen, 5);
        assert(neighbor_flags(neighbors@) =~= candidate_flags(best));
        lemma_count_true(candidate_flags(best));
        assert(candidate_flags(best) =~= best.map_values(|c: Candidate| c.is_fraud));
    }
    response_body(count)
}

/// The flags are those of the neighbours and candidates, one for one.
pub proof fn lemma_flags(neighbors: Seq<Neighbor>, cands: Seq<Candidate>, i: int)
    ensures
        neighbor_flags(neighbors).len() == neighbors.len(),
        candidate_flags(cands).len() == cands.len(),
        0 <= i < neighbors.len() ==> neighbor_flags(neighbors)[i] == neighbors[i].is_fraud,
        0 <= i < cands.len() ==> candidate_flags(cands)[i] == cands[i].is_fraud,
{
}

} // verus!
