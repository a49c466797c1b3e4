//! Counting of answers: how often a setting was wrong, and what caused it.
use vstd::prelude::*;

use crate::diagnose::{Classification, Diagnosis};

verus! {

/// How often answers differed from the expected ones.
#[derive(Clone, Copy, PartialEq, Eq, Structural, Debug)]
pub struct Calibration {
    pub mismatches: usize,
    /// Denied, though approval was expected.
    pub false_positives: usize,
    /// Approved, though denial was expected.
    pub false_negatives: usize,
}

/// How many of the pairs of an expected and a given approval are
/// `(expected, given)`.
pub open spec fn count_pairs(answers: Seq<(bool, bool)>, expected: bool, given: bool) -> nat
    decreases answers.len(),
{
    if answers.len() == 0 {
        0
    } else {
        count_pairs(answers.drop_last(), expected, given) + if answers.last() == (expected, given) {
            1nat
        } else {
            0nat
        }
    }
}

/// Every pair is counted as often as it occurs.
pub proof fn lemma_count_pairs(answers: Seq<(bool, bool)>, expected: bool, given: bool)
    ensures
        count_pairs(answers, expected, given) == answers.to_multiset().count((expected, given)),
    decreases answers.len(),
{
    broadcast use vstd::seq_lib::group_to_multiset_ensures;

    if answers.len() > 0 {
        lemma_count_pairs(answers.drop_last(), expected, given);
        assert(answers =~= answers.drop_last().push(answers.last()));
    }
}

/// Counts the wrong answers in a list of pairs of an expected and a given
/// approval.
pub fn calibrate(answers: &Vec<(bool, bool)>) -> (c: Calibration)
    ensures
        c.false_positives == count_pairs(answers@, true, false),
        c.false_negatives == count_pairs(answers@, false, true),
        c.false_positives == answers@.to_multiset().count((true, false)),
        c.false_negatives == answers@.to_multiset().count((false, true)),
        c.mismatches == c.false_positives + c.false_negatives,
        c.mismatches <= answers.len(),
        c.mismatches == 0 <==> forall|i: int|
            0 <= i < answers.len() ==> (#[trigger] answers[i]).0 == answers[i].1,
{
    let mut false_positives: usize = 0;
    let mut false_negatives: usize = 0;
    let mut i: usize = 0;
    while i < answers.len()
        invariant
            i <= answers.len(),
            false_positives + false_negatives <= i,
            false_positives == count_pairs(answers@.take(i as int), true, false),
            false_negatives == count_pairs(answers@.take(i as int), false, true),
            false_positives + false_negatives == 0 <==> forall|j: int|
                0 <= j < i ==> (#[trigger] answers[j]).0 == answers[j].1,
        decreases answers.len() - i,
    {
        assert(answers@.take(i + 1).drop_last() =~= answers@.take(i as int));
        let (expected, given) = answers[i];
        assert(answers@.take(i + 1).last() == answers[i as int]);
        if expected && !given {
            false_positives = false_positives + 1;
        } else if !expected && given {
            false_negatives = false_negatives + 1;
        }
        i = i + 1;
    }
    assert(answers@.take(answers.len() as int) =~= answers@);
    proof {
        lemma_count_pairs(answers@, true, false);
        lemma_count_pairs(answers@, false, true);
    }
    Calibration {
        mismatches: false_positives + false_negatives,
        false_positives,
        false_negatives,
    }
}

/// How often each number occurred, in ascending order of the numbers.
pub struct Histogram {
    pub bars: Vec<(u64, usize)>,
}

/// The count of `key` among ascending bars; 0 where there is none.
pub open spec fn bar_count(bars: Seq<(u64, usize)>, key: u64) -> nat
    decreases bars.len(),
{
    if bars.len() == 0 {
        0
    } else if bars.last().0 == key {
        bars.last().1 as nat
    } else {
        bar_count(bars.drop_last(), key)
    }
}

/// The sum of all bars.
pub open spec fn bar_total(bars: Seq<(u64, usize)>) -> nat
    decreases bars.len(),
{
    if bars.len() == 0 {
        0
    } else {
        bar_total(bars.drop_last()) + bars.last().1 as nat
    }
}

/// The bars with one more occurrence of `key`, which belongs at `at`.
pub open spec fn bar_added(bars: Seq<(u64, usize)>, key: u64, at: int) -> Seq<(u64, usize)> {
    if at < bars.len() && bars[at].0 == key {
        bars.update(at, (key, (bars[at].1 + 1) as usize))
    } else {
        bars.insert(at, (key, 1usize))
    }
}

/// Among ascending bars, the count of a number is what its bar says.
pub proof fn lemma_bar_counts(bars: Seq<(u64, usize)>, i: int)
    requires
        0 <= i < bars.len(),
        forall|a: int, b: int|
            0 <= a < b < bars.len() ==> (#[trigger] bars[a]).0 < (#[trigger] bars[b]).0,
    ensures
        bar_count(bars, bars[i].0) == bars[i].1,
    decreases bars.len(),
{
    if i < bars.len() - 1 {
        assert(bars[i].0 < bars[bars.len() - 1].0);
        let front = bars.drop_last();
        assert forall|a: int, b: int| 0 <= a < b < front.len() implies (#[trigger] front[a]).0 < (
        #[trigger] front[b]).0 by {
            assert(bars[a].0 < bars[b].0);
        }
        lemma_bar_counts(front, i);
    }
}

/// A number without a bar has the count 0.
pub proof fn lemma_absent_count(bars: Seq<(u64, usize)>, key: u64)
    requires
        forall|i: int| 0 <= i < bars.len() ==> (#[trigger] bars[i]).0 != key,
    ensures
        bar_count(bars, key) == 0,
    decreases bars.len(),
{
    if bars.len() > 0 {
        lemma_absent_count(bars.drop_last(), key);
    }
}

proof fn lemma_bar_at_most_total(bars: Seq<(u64, usize)>, at: int)
    requires
        0 <= at < bars.len(),
    ensures
        bars[at].1 <= bar_total(bars),
    decreases bars.len(),
{
    if at < bars.len() - 1 {
        lemma_bar_at_most_total(bars.drop_last(), at);
    }
}

proof fn lemma_bar_added(bars: Seq<(u64, usize)>, key: u64, at: int)
    requires
        0 <= at <= bars.len(),
        forall|i: int, j: int|
            0 <= i < j < bars.len() ==> (#[trigger] bars[i]).0 < (#[trigger] bars[j]).0,
        forall|i: int| 0 <= i < at ==> (#[trigger] bars[i]).0 < key,
        forall|i: int| at <= i < bars.len() ==> key <= (#[trigger] bars[i]).0,
        bar_total(bars) < usize::MAX,
    ensures
        forall|k: u64|
            #[trigger] bar_count(bar_added(bars, key, at), k) == bar_count(bars, k) + if k == key {
                1nat
            } else {
                0nat
            },
        bar_total(bar_added(bars, key, at)) == bar_total(bars) + 1,
    decreases bars.len(),
{
    let added = bar_added(bars, key, at);
    if at < bars.len() {
        lemma_bar_at_most_total(bars, at);
    }
    if at == bars.len() {
        assert(added.drop_last() =~= bars);
        lemma_absent_count(bars, key);
    } else if at == bars.len() - 1 && bars[at].0 == key {
        assert(added.drop_last() =~= bars.drop_last());
    } else {
        let front = bars.drop_last();
        assert forall|i: int, j: int| 0 <= i < j < front.len() implies (#[trigger] front[i]).0 < (
        #[trigger] front[j]).0 by {
            assert(bars[i].0 < bars[j].0);
        }
        lemma_bar_added(front, key, at);
        assert(added.drop_last() =~= bar_added(front, key, at));
        assert(added.last() == bars.last());
        assert(bars[bars.len() - 1].0 != key) by {
            if at < bars.len() - 1 {
                assert(bars[at].0 < bars[bars.len() - 1].0);
            }
        }
        assert forall|k: u64| #[trigger] bar_count(added, k) == bar_count(bars, k) + (if k == key {
            1nat
        } else {
            0nat
        }) by {
            assert(bar_count(bar_added(front, key, at), k) == bar_count(front, k) + (if k == key {
                1nat
            } else {
                0nat
            }));
            if bars.last().0 == k {
                assert(bar_count(added, k) == added.last().1);
            } else {
                assert(bar_count(added, k) == bar_count(added.drop_last(), k));
            }
        }
    }
}

impl Histogram {
    /// The bars stand in ascending order of their numbers, and none is empty.
    pub open spec fn wf(&self) -> bool {
        &&& forall|i: int, j: int|
            0 <= i < j < self.bars.len() ==> (#[trigger] self.bars[i]).0 < (
            #[trigger] self.bars[j]).0
        &&& forall|i: int| 0 <= i < self.bars.len() ==> (#[trigger] self.bars[i]).1 > 0
    }

    /// How often `key` occurred.
    pub open spec fn count(&self, key: u64) -> nat {
        bar_count(self.bars@, key)
    }

    /// How often any number occurred.
    pub open spec fn total(&self) -> nat {
        bar_total(self.bars@)
    }

    /// A histogram of nothing.
    pub fn new() -> (h: Histogram)
        ensures
            h.wf(),
            h.total() == 0,
            h.bars@ == Seq::<(u64, usize)>::empty(),
            forall|k: u64| #[trigger] h.count(k) == 0,
    {
        Histogram { bars: Vec::new() }
    }

    /// Counts one more occurrence of `key`.
    pub fn add(&mut self, key: u64)
        requires
            old(self).wf(),
            old(self).total() < usize::MAX,
        ensures
            final(self).wf(),
            final(self).total() == old(self).total() + 1,
            forall|i: int, j: int|
                0 <= i < j < final(self).bars.len() ==> (#[trigger] final(self).bars[i]).0 < (
                #[trigger] final(self).bars[j]).0,
            forall|i: int|
                0 <= i < final(self).bars.len() ==> (#[trigger] final(self).bars[i]).1 > 0,
            forall|k: u64|
                #[trigger] final(self).count(k) == old(self).count(k) + if k == key {
                    1nat
                } else {
                    0nat
                },
    {
        let ghost before = self.bars@;
        let mut at: usize = 0;
        while at < self.bars.len() && self.bars[at].0 < key
            invariant
                self.bars@ == before,
                at <= before.len(),
                forall|i: int| 0 <= i < at ==> (#[trigger] before[i]).0 < key,
            decreases before.len() - at,
        {
            at = at + 1;
        }
        proof {
            assert forall|i: int| at <= i < before.len() implies key <= (#[trigger] before[i]).0 by {
                if i > at {
                    assert(before[at as int].0 < before[i].0);
                }
            }
            lemma_bar_added(before, key, at as int);
            if at < before.len() {
                lemma_bar_at_most_total(before, at as int);
            }
        }
        if at < self.bars.len() && self.bars[at].0 == key {
            let count: usize = self.bars[at].1;
            self.bars.set(at, (key, count + 1));
        } else {
            self.bars.insert(at, (key, 1));
        }
        proof {
            assert(self.bars@ =~= bar_added(before, key, at as int));
            assert forall|k: u64| #[trigger] self.count(k) == bar_count(before, k) + (if k == key {
                1nat
            } else {
                0nat
            }) by {
                assert(bar_count(bar_added(before, key, at as int), k) == bar_count(before, k)
                    + if k == key {
                    1nat
                } else {
                    0nat
                });
            }
        }
    }
}

/// What to do about the wrong answers.
#[derive(Clone, Copy, PartialEq, Eq, Structural, Debug)]
pub enum Recommendation {
    /// Probe more clusters, or build more of them.
    RaiseProbes,
    /// Re-rank the scanned candidates by their exact distances.
    Rerank,
}

/// The causes of all wrong answers so far.
pub struct Summary {
    pub tie_flip: usize,
    pub probe_miss: usize,
    pub vectorize: usize,
    pub other: usize,
    /// Cluster ranks of probe misses.
    pub probe_miss_ranks: Histogram,
    /// Distance gaps of tie flips.
    pub tie_flip_gaps: Histogram,
}

impl Summary {
    /// Every probe miss has a rank and every tie flip a gap.
    pub open spec fn wf(&self) -> bool {
        &&& self.probe_miss_ranks.wf()
        &&& self.tie_flip_gaps.wf()
        &&& self.probe_miss_ranks.total() == self.probe_miss
        &&& self.tie_flip_gaps.total() == self.tie_flip
    }

    /// How many answers were counted.
    pub open spec fn total(&self) -> nat {
        (self.tie_flip + self.probe_miss + self.vectorize + self.other) as nat
    }

    /// How many answers were counted under `c`.
    pub open spec fn count(&self, c: Classification) -> nat {
        match c {
            Classification::TieFlip => self.tie_flip as nat,
            Classification::ProbeMiss => self.probe_miss as nat,
            Classification::Vectorize => self.vectorize as nat,
            Classification::Other => self.other as nat,
        }
    }

    /// A summary of nothing.
    pub fn new() -> (s: Summary)
        ensures
            s.wf(),
            s.total() == 0,
            s.tie_flip == 0 && s.probe_miss == 0 && s.vectorize == 0 && s.other == 0,
            s.probe_miss_ranks.bars@.len() == 0 && s.tie_flip_gaps.bars@.len() == 0,
    {
        Summary {
            tie_flip: 0,
            probe_miss: 0,
            vectorize: 0,
            other: 0,
            probe_miss_ranks: Histogram::new(),
            tie_flip_gaps: Histogram::new(),
        }
    }

    /// Counts one more diagnosis.
    pub fn add(&mut self, d: &Diagnosis)
        requires
            old(self).wf(),
            old(self).total() < usize::MAX,
            d.probe_miss_cluster_rank is Some <==> d.classification == Classification::ProbeMiss,
            d.tie_flip_int8_gap is Some <==> d.classification == Classification::TieFlip,
            d.tie_flip_int8_gap is Some ==> d.tie_flip_int8_gap->0 >= 0,
        ensures
            final(self).wf(),
            final(self).total() == old(self).total() + 1,
            final(self).tie_flip == old(self).tie_flip + if d.classification
                == Classification::TieFlip {
                1int
            } else {
                0int
            },
            final(self).probe_miss == old(self).probe_miss + if d.classification
                == Classification::ProbeMiss {
                1int
            } else {
                0int
            },
            final(self).vectorize == old(self).vectorize + if d.classification
                == Classification::Vectorize {
                1int
            } else {
                0int
            },
            final(self).other == old(self).other + if d.classification == Classification::Other {
                1int
            } else {
                0int
            },
            forall|c: Classification|
                #[trigger] final(self).count(c) == old(self).count(c) + if c == d.classification {
                    1nat
                } else {
                    0nat
                },
            forall|k: u64|
                #[trigger] final(self).probe_miss_ranks.count(k) == old(
                    self,
                ).probe_miss_ranks.count(k) + if d.probe_miss_cluster_rank == Some(k as usize) && k
                    <= usize::MAX {
                    1nat
                } else {
                    0nat
                },
            forall|k: u64|
                #[trigger] final(self).tie_flip_gaps.count(k) == old(self).tie_flip_gaps.count(k)
                    + if d.tie_flip_int8_gap == Some(k as i32) && k <= i32::MAX {
                    1nat
                } else {
                    0nat
                },
    {
        match d.classification {
            Classification::TieFlip => {
                self.tie_flip = self.tie_flip + 1;
            },
            Classification::ProbeMiss => {
                self.probe_miss = self.probe_miss + 1;
            },
            Classification::Vectorize => {
                self.vectorize = self.vectorize + 1;
            },
            Classification::Other => {
                self.other = self.other + 1;
            },
        }
        if let Some(rank) = d.probe_miss_cluster_rank {
            self.probe_miss_ranks.add(rank as u64);
        }
        if let Some(gap) = d.tie_flip_int8_gap {
            self.tie_flip_gaps.add(gap as u64);
        }
    }

    /// Probe misses that outnumber tie flips call for more probes; otherwise
    /// re-ranking helps.
    pub fn recommendation(&self) -> (r: Recommendation)
        ensures
            r == if self.probe_miss > self.tie_flip {
                Recommendation::RaiseProbes
            } else {
                Recommendation::Rerank
            },
    {
        if self.probe_miss > self.tie_flip {
            Recommendation::RaiseProbes
        } else {
            Recommendation::Rerank
        }
    }
}

} // verus!
