//! Histograms of how long the phases of a request take, and their report.
use vstd::prelude::*;

use crate::rounding::round_to_precision;
use crate::text::{lines, push_decimal, push_padded, push_padded_decimal, starts_with};

verus! {

/// The number of buckets of a histogram.
pub const BUCKETS: usize = 8;

/// One past the largest significand of a double-precision number.
pub const DOUBLE_LIMIT: u128 = 0x20_0000_0000_0000;

/// The double-precision number 0.5, in units of one over `DOUBLE_LIMIT`.
pub const HALF: u128 = 0x10_0000_0000_0000;

/// The double-precision number nearest to 0.99, in units of one over
/// `DOUBLE_LIMIT`.
pub const NINETY_NINE_PERCENT: u128 = 8_917_127_262_193_582;

/// The upper bound of a bucket in microseconds; the last bucket has none.
pub open spec fn bucket_bound(i: int) -> int {
    if i == 0 {
        10
    } else if i == 1 {
        50
    } else if i == 2 {
        100
    } else if i == 3 {
        250
    } else if i == 4 {
        500
    } else if i == 5 {
        1_000
    } else {
        5_000
    }
}

/// Bucket `i` takes a duration of `us` microseconds.
pub open spec fn is_bucket_of(us: u64, i: int) -> bool {
    &&& 0 <= i < 8
    &&& i > 0 ==> us >= bucket_bound(i - 1)
    &&& i < 7 ==> us < bucket_bound(i)
}

/// The bucket that takes a duration of `us` microseconds.
pub fn bucket_of(us: u64) -> (i: usize)
    ensures
        is_bucket_of(us, i as int),
        i == 0 <==> us < 10,
        i == 1 <==> 10 <= us < 50,
        i == 2 <==> 50 <= us < 100,
        i == 3 <==> 100 <= us < 250,
        i == 4 <==> 250 <= us < 500,
        i == 5 <==> 500 <= us < 1_000,
        i == 6 <==> 1_000 <= us < 5_000,
        i == 7 <==> 5_000 <= us,
{
    if us < 10 {
        0
    } else if us < 50 {
        1
    } else if us < 100 {
        2
    } else if us < 250 {
        3
    } else if us < 500 {
        4
    } else if us < 1_000 {
        5
    } else if us < 5_000 {
        6
    } else {
        7
    }
}

/// Every duration has exactly one bucket.
pub proof fn lemma_one_bucket(us: u64, i: int, j: int)
    requires
        is_bucket_of(us, i),
        is_bucket_of(us, j),
    ensures
        i == j,
{
}

/// What a bucket is called in the report.
pub open spec fn label_text(i: int) -> Seq<char> {
    if i == 0 {
        "<10µs"@
    } else if i == 1 {
        "<50µs"@
    } else if i == 2 {
        "<100µs"@
    } else if i == 3 {
        "<250µs"@
    } else if i == 4 {
        "<500µs"@
    } else if i == 5 {
        "<1ms"@
    } else if i == 6 {
        "<5ms"@
    } else {
        "≥5ms"@
    }
}

/// What a bucket is called in the report.
pub fn label(i: usize) -> (t: &'static str)
    ensures
        t@ == label_text(i as int),
        i < 8 ==> t@ == seq![
            "<10µs"@,
            "<50µs"@,
            "<100µs"@,
            "<250µs"@,
            "<500µs"@,
            "<1ms"@,
            "<5ms"@,
            "≥5ms"@,
        ][i as int],
{
    if i == 0 {
        "<10µs"
    } else if i == 1 {
        "<50µs"
    } else if i == 2 {
        "<100µs"
    } else if i == 3 {
        "<250µs"
    } else if i == 4 {
        "<500µs"
    } else if i == 5 {
        "<1ms"
    } else if i == 6 {
        "<5ms"
    } else {
        "≥5ms"
    }
}

/// The durations of one phase, counted in buckets. All counters wrap around.
pub struct PhaseStats {
    pub name: &'static str,
    pub sum_us: u64,
    pub count: u64,
    pub buckets: [u64; BUCKETS],
}

/// The sum of the first `n` buckets.
pub open spec fn cumulative(buckets: Seq<u64>, n: nat) -> nat
    decreases n,
{
    if n == 0 {
        0
    } else {
        cumulative(buckets, (n - 1) as nat) + buckets[n - 1] as nat
    }
}

/// `n * p` as a double-precision product, cut off to a whole number. The
/// factor `p` is given in units of one over `DOUBLE_LIMIT`.
pub open spec fn percentile_target(n: nat, p: nat) -> nat {
    let limit = DOUBLE_LIMIT as nat;
    crate::rounding::rounded(crate::rounding::rounded(n, limit) * p, limit) / limit
}

/// The first bucket up to which `target` durations have been counted; the last
/// one where there are fewer.
pub open spec fn is_percentile_bucket(buckets: Seq<u64>, target: nat, i: int) -> bool {
    &&& 0 <= i < 8
    &&& forall|j: nat| j < i ==> #[trigger] cumulative(buckets, j + 1) < target
    &&& i < 7 ==> cumulative(buckets, (i + 1) as nat) >= target
}

/// The bucket of the fraction `p` of `n` durations.
pub open spec fn percentile_bucket(buckets: Seq<u64>, n: nat, p: nat) -> int {
    choose|i: int| is_percentile_bucket(buckets, percentile_target(n, p), i)
}

/// The entries of the non-empty buckets among the first `n`.
pub open spec fn bucket_entries(buckets: Seq<u64>, n: nat) -> Seq<char>
    decreases n,
{
    if n == 0 {
        Seq::empty()
    } else if buckets[n - 1] > 0 {
        bucket_entries(buckets, (n - 1) as nat) + label_text(n - 1) + ":"@ + crate::text::decimal(
            buckets[n - 1] as nat,
        ) + " "@
    } else {
        bucket_entries(buckets, (n - 1) as nat)
    }
}

/// The report line of a phase.
pub open spec fn phase_text(s: PhaseStats) -> Seq<char> {
    if s.count == 0 {
        crate::text::padded(s.name@, 12) + "  (no data)\n"@
    } else {
        crate::text::padded(s.name@, 12) + "  n="@ + crate::text::padded(
            crate::text::decimal(s.count as nat),
            7,
        ) + "  avg="@ + crate::text::padded(
            crate::text::decimal((s.sum_us as int / s.count as int) as nat),
            6,
        ) + "µs  p50≈"@ + crate::text::padded(
            label_text(percentile_bucket(s.buckets@, s.count as nat, HALF as nat)),
            8,
        ) + "  p99≈"@ + crate::text::padded(
            label_text(percentile_bucket(s.buckets@, s.count as nat, NINETY_NINE_PERCENT as nat)),
            8,
        ) + "  | "@ + bucket_entries(s.buckets@, 8) + "\n"@
    }
}

proof fn lemma_percentile_bucket_unique(buckets: Seq<u64>, target: nat, i: int, j: int)
    requires
        is_percentile_bucket(buckets, target, i),
        is_percentile_bucket(buckets, target, j),
    ensures
        i == j,
{
    if i < j {
        assert(cumulative(buckets, (i as nat) + 1) < target);
    }
    if j < i {
        assert(cumulative(buckets, (j as nat) + 1) < target);
    }
}

proof fn lemma_cumulative_grows(buckets: Seq<u64>, m: nat, n: nat)
    requires
        m <= n,
    ensures
        cumulative(buckets, m) <= cumulative(buckets, n),
    decreases n - m,
{
    if m < n {
        lemma_cumulative_grows(buckets, m + 1, n);
    }
}

proof fn lemma_cumulative_update(buckets: Seq<u64>, i: int, v: u64, n: nat)
    requires
        0 <= i < buckets.len(),
        n <= buckets.len(),
    ensures
        cumulative(buckets.update(i, v), n) == cumulative(buckets, n) + if i < n {
            v - buckets[i]
        } else {
            0
        },
    decreases n,
{
    if n > 0 {
        lemma_cumulative_update(buckets, i, v, (n - 1) as nat);
    }
}

fn target_of(n: u64, p: u128) -> (target: u64)
    requires
        p <= NINETY_NINE_PERCENT,
    ensures
        target == percentile_target(n as nat, p as nat),
{
    let limit: u128 = DOUBLE_LIMIT;
    let r: u128 = round_to_precision(n as u128, limit);
    proof {
        let unit = crate::rounding::rounding_unit(n as nat, limit as nat);
        crate::rounding::lemma_unit_range(n as nat, limit as nat);
        crate::rounding::lemma_round_half_even_near(n as nat, unit);
        assert(unit <= 0x1000);
    }
    assert(r * p <= 0x1_0000_0000_0000_1000 * 8_917_127_262_193_582) by (nonlinear_arith)
        requires
            r <= 0x1_0000_0000_0000_1000,
            p <= 8_917_127_262_193_582,
    ;
    let product: u128 = round_to_precision(r * p, limit);
    proof {
        let x = (r * p) as nat;
        let unit = crate::rounding::rounding_unit(x, limit as nat);
        crate::rounding::lemma_unit_range(x, limit as nat);
        crate::rounding::lemma_round_half_even_near(x, unit);
        assert(unit <= 0x10_0000_0000_0000_0000);
    }
    (product / limit) as u64
}

impl PhaseStats {
    /// The counters agree: up to wrap-around, every duration counted stands in
    /// one bucket.
    pub open spec fn wf(&self) -> bool {
        cumulative(self.buckets@, 8) as int % 0x1_0000_0000_0000_0000 == self.count
    }

    /// Statistics of a phase of which nothing is known yet.
    pub fn new(name: &'static str) -> (s: PhaseStats)
        ensures
            s.name@ == name@,
            s.sum_us == 0,
            s.count == 0,
            forall|i: int| 0 <= i < 8 ==> #[trigger] s.buckets[i] == 0,
            s.wf(),
    {
        let s: PhaseStats = PhaseStats { name, sum_us: 0, count: 0, buckets: [0u64; BUCKETS] };
        assert(cumulative(s.buckets@, 8) == 0) by {
            reveal_with_fuel(cumulative, 9);
        }
        s
    }

    /// Counts one duration of `us` microseconds.
    pub fn record(&mut self, us: u64)
        ensures
            final(self).name@ == old(self).name@,
            final(self).sum_us == (old(self).sum_us + us) % 0x1_0000_0000_0000_0000,
            final(self).count == (old(self).count + 1) % 0x1_0000_0000_0000_0000,
            forall|i: int|
                0 <= i < 8 ==> #[trigger] final(self).buckets[i] == if is_bucket_of(us, i) {
                    (old(self).buckets[i] + 1) % 0x1_0000_0000_0000_0000
                } else {
                    old(self).buckets[i] as int
                },
            forall|i: int|
                0 <= i < 8 ==> #[trigger] final(self).buckets[i] == if seq![
                    0int,
                    10,
                    50,
                    100,
                    250,
                    500,
                    1_000,
                    5_000,
                ][i] <= us < seq![
                    10int,
                    50,
                    100,
                    250,
                    500,
                    1_000,
                    5_000,
                    0x1_0000_0000_0000_0000,
                ][i] {
                    (old(self).buckets[i] + 1) % 0x1_0000_0000_0000_0000
                } else {
                    old(self).buckets[i] as int
                },
            old(self).wf() ==> final(self).wf(),
    {
        let ghost before = self.buckets@;
        self.sum_us = self.sum_us.wrapping_add(us);
        self.count = self.count.wrapping_add(1);
        let idx: usize = bucket_of(us);
        let grown: u64 = self.buckets[idx].wrapping_add(1);
        self.buckets[idx] = grown;
        proof {
            assert(self.buckets@ =~= before.update(idx as int, grown));
            lemma_cumulative_update(before, idx as int, grown, 8);
            assert forall|i: int| 0 <= i < 8 && is_bucket_of(us, i) implies i == idx by {
                lemma_one_bucket(us, i, idx as int);
            }
        }
    }

    fn percentile(&self, p: u128) -> (t: &'static str)
        requires
            p <= NINETY_NINE_PERCENT,
            cumulative(self.buckets@, 8) <= u64::MAX,
        ensures
            t@ == label_text(percentile_bucket(self.buckets@, self.count as nat, p as nat)),
    {
        let target: u64 = target_of(self.count, p);
        let ghost buckets = self.buckets@;
        let mut seen: u64 = self.buckets[0];
        let mut i: usize = 0;
        proof {
            reveal_with_fuel(cumulative, 2);
        }
        while i < 7 && seen < target
            invariant
                i < 8,
                buckets == self.buckets@,
                cumulative(buckets, 8) <= u64::MAX,
                seen == cumulative(buckets, (i + 1) as nat),
                forall|j: nat| j < i ==> #[trigger] cumulative(buckets, j + 1) < target,
            decreases 7 - i,
        {
            proof {
                lemma_cumulative_grows(buckets, (i + 2) as nat, 8);
                assert(cumulative(buckets, (i + 2) as nat) == cumulative(buckets, (i + 1) as nat)
                    + buckets[i + 1]);
            }
            i = i + 1;
            seen = seen + self.buckets[i];
        }
        proof {
            assert(is_percentile_bucket(buckets, target as nat, i as int));
            lemma_percentile_bucket_unique(
                buckets,
                target as nat,
                i as int,
                percentile_bucket(buckets, self.count as nat, p as nat),
            );
        }
        label(i)
    }

    /// The report line of the phase.
    pub fn report(&self) -> (text: String)
        requires
            cumulative(self.buckets@, 8) <= u64::MAX,
        ensures
            text@ == phase_text(*self),
            self.count == 0 ==> text@ == crate::text::padded(self.name@, 12) + "  (no data)\n"@,
            self.count > 0 ==> exists|median: int, tail: int|
                {
                    &&& #[trigger] is_percentile_bucket(
                        self.buckets@,
                        percentile_target(self.count as nat, 0x10_0000_0000_0000),
                        median,
                    )
                    &&& #[trigger] is_percentile_bucket(
                        self.buckets@,
                        percentile_target(self.count as nat, 8_917_127_262_193_582),
                        tail,
                    )
                    &&& text@ == crate::text::padded(self.name@, 12) + "  n="@
                        + crate::text::padded(crate::text::decimal(self.count as nat), 7)
                        + "  avg="@ + crate::text::padded(
                        crate::text::decimal((self.sum_us as int / self.count as int) as nat),
                        6,
                    ) + "µs  p50≈"@ + crate::text::padded(label_text(median), 8) + "  p99≈"@
                        + crate::text::padded(label_text(tail), 8) + "  | "@ + bucket_entries(
                        self.buckets@,
                        8,
                    ) + "\n"@
                },
    {
        proof {
            lemma_percentile_bucket(self.buckets@, self.count as nat, HALF as nat);
            lemma_percentile_bucket(self.buckets@, self.count as nat, NINETY_NINE_PERCENT as nat);
        }
        let mut out: String = String::new();
        push_padded(&mut out, self.name, 12);
        assert(out@ =~= crate::text::padded(self.name@, 12));
        if self.count == 0 {
            out.append("  (no data)\n");
            return out;
        }
        out.append("  n=");
        push_padded_decimal(&mut out, self.count as u128, 7);
        out.append("  avg=");
        push_padded_decimal(&mut out, (self.sum_us / self.count) as u128, 6);
        out.append("µs  p50≈");
        push_padded(&mut out, self.percentile(HALF), 8);
        out.append("  p99≈");
        push_padded(&mut out, self.percentile(NINETY_NINE_PERCENT), 8);
        out.append("  | ");
        let ghost head = out@;
        let mut i: usize = 0;
        assert(out@ =~= head + bucket_entries(self.buckets@, 0));
        while i < BUCKETS
            invariant
                i <= BUCKETS,
                out@ == head + bucket_entries(self.buckets@, i as nat),
            decreases BUCKETS - i,
        {
            let c: u64 = self.buckets[i];
            if c > 0 {
                out.append(label(i));
                out.append(":");
                push_decimal(&mut out, c as u128);
                out.append(" ");
            }
            assert(out@ =~= head + bucket_entries(self.buckets@, (i + 1) as nat));
            i = i + 1;
        }
        out.append("\n");
        out
    }
}

/// The median never falls into a later bucket than the 99th percentile.
pub proof fn lemma_percentiles_ordered(buckets: Seq<u64>, n: nat, i: int, j: int)
    requires
        is_percentile_bucket(buckets, percentile_target(n, HALF as nat), i),
        is_percentile_bucket(buckets, percentile_target(n, NINETY_NINE_PERCENT as nat), j),
    ensures
        i <= j,
{
    let limit = DOUBLE_LIMIT as nat;
    let r = crate::rounding::rounded(n, limit);
    assert(r * HALF as nat <= r * NINETY_NINE_PERCENT as nat) by (nonlinear_arith);
    crate::rounding::lemma_rounded_monotone(
        r * HALF as nat,
        r * NINETY_NINE_PERCENT as nat,
        limit,
    );
    if j < i {
        assert(cumulative(buckets, (j as nat) + 1) < percentile_target(n, HALF as nat));
    }
}

/// A counter line that matters for stalls is marked.
pub open spec fn is_marked(line: Seq<char>) -> bool {
    ||| "nr_throttled"@.is_prefix_of(line)
    ||| "throttled_usec"@.is_prefix_of(line)
    ||| "nr_periods"@.is_prefix_of(line)
    ||| "nr_burst"@.is_prefix_of(line)
    ||| "burst_usec"@.is_prefix_of(line)
}

/// The first `n` counter lines, each with its mark.
pub open spec fn marked_lines(all: Seq<Seq<char>>, n: nat) -> Seq<char>
    decreases n,
{
    if n == 0 {
        Seq::empty()
    } else {
        marked_lines(all, (n - 1) as nat) + (if is_marked(all[n - 1]) {
            "*** "@
        } else {
            "    "@
        }) + all[n - 1] + "\n"@
    }
}

/// The report on the throttle counters, from the path and the content of the
/// file they were read from.
pub open spec fn cfs_text(found: Option<(Seq<char>, Seq<char>)>) -> Seq<char> {
    match found {
        Some((path, content)) => {
            let all = crate::text::lines_from(content, 0);
            "# ── CFS throttle counters ("@ + path
                + ") ─────────────────────────────\n"@ + marked_lines(all, all.len())
                + "# *** = fields most relevant to CFS stall diagnosis\n"@
        },
        None => "# CFS stats: /sys/fs/cgroup/cpu.stat not found (not Linux, or unusual cgroup mount)\n"@,
    }
}

/// The path and content as texts.
pub open spec fn file_view(found: Option<(String, String)>) -> Option<(Seq<char>, Seq<char>)> {
    match found {
        Some((path, content)) => Some((path@, content@)),
        None => None,
    }
}

fn matters(line: &str) -> (b: bool)
    ensures
        b == is_marked(line@),
{
    starts_with(line, "nr_throttled") || starts_with(line, "throttled_usec") || starts_with(
        line,
        "nr_periods",
    ) || starts_with(line, "nr_burst") || starts_with(line, "burst_usec")
}

/// The report on the throttle counters, from the path and the content of the
/// file they were read from.
pub fn cfs_stats(found: &Option<(String, String)>) -> (text: String)
    ensures
        text@ == cfs_text(file_view(*found)),
        found is None ==> text@
            == "# CFS stats: /sys/fs/cgroup/cpu.stat not found (not Linux, or unusual cgroup mount)\n"@,
        found matches Some(file) ==> text@ == "# ── CFS throttle counters ("@ + file.0@
            + ") ─────────────────────────────\n"@ + marked_lines(
            crate::text::lines_from(file.1@, 0),
            crate::text::lines_from(file.1@, 0).len(),
        ) + "# *** = fields most relevant to CFS stall diagnosis\n"@,
{
    let mut out: String = String::new();
    match found {
        None => {
            out.append(
                "# CFS stats: /sys/fs/cgroup/cpu.stat not found (not Linux, or unusual cgroup mount)\n",
            );
            assert(out@
                =~= "# CFS stats: /sys/fs/cgroup/cpu.stat not found (not Linux, or unusual cgroup mount)\n"@);
        },
        Some((path, content)) => {
            out.append("# ── CFS throttle counters (");
            assert(out@ =~= "# ── CFS throttle counters ("@);
            out.append(path.as_str());
            out.append(") ─────────────────────────────\n");
            let all: Vec<String> = lines(content.as_str());
            let ghost views = all@.map_values(|l: String| l@);
            let ghost head = out@;
            let mut i: usize = 0;
            assert(out@ =~= head + marked_lines(views, 0));
            while i < all.len()
                invariant
                    i <= all.len(),
                    views == all@.map_values(|l: String| l@),
                    out@ == head + marked_lines(views, i as nat),
                decreases all.len() - i,
            {
                assert(views[i as int] == all[i as int]@);
                if matters(all[i].as_str()) {
                    out.append("*** ");
                } else {
                    out.append("    ");
                }
                out.append(all[i].as_str());
                out.append("\n");
                assert(out@ =~= head + marked_lines(views, (i + 1) as nat));
                i = i + 1;
            }
            out.append("# *** = fields most relevant to CFS stall diagnosis\n");
        },
    }
    out
}

/// The head of the full report.
pub open spec fn report_head() -> Seq<char> {
    "# ── per-request phase breakdown (µs) ──────────────────────────────\n"@
        + "# parse      = serde_json::from_slice  (JSON → Request struct)\n"@
        + "# vectorize  = feature extraction      (Request → [f32; 14])\n"@
        + "# search     = IVF k-NN search         (centroid scan + cluster scan)\n"@
        + "# total      = full handler wall time  (parse + vectorize + search + overhead)\n"@
        + "#\n"@
}

/// The full report: one line per phase, then the throttle counters.
pub fn report_all(
    enabled: bool,
    parse: &PhaseStats,
    vectorize: &PhaseStats,
    search: &PhaseStats,
    total: &PhaseStats,
    cfs: &Option<(String, String)>,
) -> (text: String)
    requires
        enabled ==> cumulative(parse.buckets@, 8) <= u64::MAX,
        enabled ==> cumulative(vectorize.buckets@, 8) <= u64::MAX,
        enabled ==> cumulative(search.buckets@, 8) <= u64::MAX,
        enabled ==> cumulative(total.buckets@, 8) <= u64::MAX,
    ensures
        text@ == if enabled {
            report_head() + phase_text(*parse) + phase_text(*vectorize) + phase_text(*search)
                + phase_text(*total) + "\n"@ + cfs_text(file_view(*cfs))
        } else {
            "metrics collection is disabled.\nSet METRICS=true and restart to enable.\n"@
        },
        enabled ==> report_head()
            == "# ── per-request phase breakdown (µs) ──────────────────────────────\n"@
            + "# parse      = serde_json::from_slice  (JSON → Request struct)\n"@
            + "# vectorize  = feature extraction      (Request → [f32; 14])\n"@
            + "# search     = IVF k-NN search         (centroid scan + cluster scan)\n"@
            + "# total      = full handler wall time  (parse + vectorize + search + overhead)\n"@
            + "#\n"@,
{
    let mut out: String = String::new();
    if !enabled {
        out.append("metrics collection is disabled.\nSet METRICS=true and restart to enable.\n");
        assert(out@
            =~= "metrics collection is disabled.\nSet METRICS=true and restart to enable.\n"@);
        return out;
    }
    out.append("# ── per-request phase breakdown (µs) ──────────────────────────────\n");
    assert(out@ =~= "# ── per-request phase breakdown (µs) ──────────────────────────────\n"@);
    out.append("# parse      = serde_json::from_slice  (JSON → Request struct)\n");
    out.append("# vectorize  = feature extraction      (Request → [f32; 14])\n");
    out.append("# search     = IVF k-NN search         (centroid scan + cluster scan)\n");
    out.append("# total      = full handler wall time  (parse + vectorize + search + overhead)\n");
    out.append("#\n");
    assert(out@ == report_head());
    out.append(parse.report().as_str());
    out.append(vectorize.report().as_str());
    out.append(search.report().as_str());
    out.append(total.report().as_str());
    out.append("\n");
    out.append(cfs_stats(cfs).as_str());
    out
}

/// A duration goes into bucket `i` where it lies from the bound of the bucket
/// before up to its own.
pub proof fn lemma_bucket_bounds(us: u64, i: int)
    ensures
        is_bucket_of(us, i) <==> {
            ||| i == 0 && us < 10
            ||| i == 1 && 10 <= us < 50
            ||| i == 2 && 50 <= us < 100
            ||| i == 3 && 100 <= us < 250
            ||| i == 4 && 250 <= us < 500
            ||| i == 5 && 500 <= us < 1_000
            ||| i == 6 && 1_000 <= us < 5_000
            ||| i == 7 && 5_000 <= us
        },
{
}

/// The buckets add up one after the other.
pub proof fn lemma_cumulative(buckets: Seq<u64>, n: nat)
    ensures
        cumulative(buckets, 0) == 0,
        cumulative(buckets, n + 1) == cumulative(buckets, n) + buckets[n as int],
        cumulative(buckets, 8) == buckets[0] + buckets[1] + buckets[2] + buckets[3] + buckets[4]
            + buckets[5] + buckets[6] + buckets[7],
{
    reveal_with_fuel(cumulative, 9);
}

proof fn lemma_percentile_bucket_from(buckets: Seq<u64>, target: nat, from: int) -> (i: int)
    requires
        0 <= from < 8,
        forall|j: nat| j < from ==> #[trigger] cumulative(buckets, j + 1) < target,
    ensures
        is_percentile_bucket(buckets, target, i),
    decreases 8 - from,
{
    if from == 7 || cumulative(buckets, (from as nat) + 1) >= target {
        from
    } else {
        lemma_percentile_bucket_from(buckets, target, from + 1)
    }
}

/// The bucket of a fraction is the first up to which the fraction of the
/// durations has been counted, and the last bucket where there is none.
pub proof fn lemma_percentile_bucket(buckets: Seq<u64>, n: nat, p: nat)
    ensures
        is_percentile_bucket(
            buckets,
            percentile_target(n, p),
            percentile_bucket(buckets, n, p),
        ),
        0 <= percentile_bucket(buckets, n, p) < 8,
        forall|j: nat|
            j < percentile_bucket(buckets, n, p) ==> #[trigger] cumulative(buckets, j + 1)
                < percentile_target(n, p),
        percentile_bucket(buckets, n, p) < 7 ==> cumulative(
            buckets,
            (percentile_bucket(buckets, n, p) + 1) as nat,
        ) >= percentile_target(n, p),
{
    let i = lemma_percentile_bucket_from(buckets, percentile_target(n, p), 0);
    assert(is_percentile_bucket(buckets, percentile_target(n, p), i));
}

/// The entries of the non-empty buckets follow one another: what the bucket is
/// called, a colon, its count and a space.
pub proof fn lemma_bucket_entries(buckets: Seq<u64>, n: nat)
    requires
        n < 8,
    ensures
        bucket_entries(buckets, 0) == Seq::<char>::empty(),
        bucket_entries(buckets, n + 1) == bucket_entries(buckets, n) + if buckets[n as int] > 0 {
            seq![
                "<10µs"@,
                "<50µs"@,
                "<100µs"@,
                "<250µs"@,
                "<500µs"@,
                "<1ms"@,
                "<5ms"@,
                "≥5ms"@,
            ][n as int] + ":"@ + crate::text::decimal(buckets[n as int] as nat) + " "@
        } else {
            Seq::empty()
        },
{
    assert(bucket_entries(buckets, n + 1) =~= bucket_entries(buckets, n) + if buckets[n as int]
        > 0 {
        label_text(n as int) + ":"@ + crate::text::decimal(buckets[n as int] as nat) + " "@
    } else {
        Seq::empty()
    });
}

/// Every counter line is kept, in order, behind a mark or four spaces. The
/// marked ones begin with one of five names.
pub proof fn lemma_marked_lines(all: Seq<Seq<char>>, n: nat)
    ensures
        marked_lines(all, 0) == Seq::<char>::empty(),
        marked_lines(all, n + 1) == marked_lines(all, n) + (if {
            ||| "nr_throttled"@.is_prefix_of(all[n as int])
            ||| "throttled_usec"@.is_prefix_of(all[n as int])
            ||| "nr_periods"@.is_prefix_of(all[n as int])
            ||| "nr_burst"@.is_prefix_of(all[n as int])
            ||| "burst_usec"@.is_prefix_of(all[n as int])
        } {
            "*** "@
        } else {
            "    "@
        }) + all[n as int] + "\n"@,
{
}

/// Half of the durations are as many as the half says, cut off, as long as
/// their number is exact in double precision.
pub proof fn lemma_half_target(n: nat)
    requires
        n < 0x20_0000_0000_0000,
    ensures
        percentile_target(n, 0x10_0000_0000_0000) == n / 2,
{
    let limit: nat = 0x20_0000_0000_0000;
    crate::rounding::lemma_rounded_to_nearest(n, limit);
    let x = n * 0x10_0000_0000_0000;
    let r = crate::rounding::rounded(x, limit);
    crate::rounding::lemma_rounded_to_nearest(x, limit);
    if x >= limit {
        let e = choose|e: nat|
            {
                let unit = #[trigger] vstd::arithmetic::power2::pow2(e) as int;
                &&& x < limit * unit <= 2 * x
                &&& r as int % unit == 0
                &&& -unit <= 2 * (r - x) <= unit
                &&& 2 * (r - x) == unit || 2 * (x - r) == unit ==> (r as int / unit) % 2 == 0
            };
        let unit = vstd::arithmetic::power2::pow2(e) as int;
        vstd::arithmetic::power2::lemma_pow2_pos(e);
        vstd::arithmetic::power2::lemma2_to64_rest();
        assert(unit <= n);
        if e > 52 {
            assert(vstd::arithmetic::power2::pow2(53) == 0x20_0000_0000_0000);
            if e > 53 {
                vstd::arithmetic::power2::lemma_pow2_strictly_increases(53, e);
            }
        }
        assert(vstd::arithmetic::power2::pow2(52) == 0x10_0000_0000_0000);
        vstd::arithmetic::power2::lemma_pow2_adds(e, (52 - e) as nat);
        let more = vstd::arithmetic::power2::pow2((52 - e) as nat) as int;
        assert(x == unit * (more * n)) by (nonlinear_arith)
            requires
                x == n * (unit * more),
        ;
        lemma_nearest_multiple(r as int, unit, more * n);
    }
}

proof fn lemma_nearest_multiple(r: int, unit: int, m: int)
    requires
        unit > 0,
        r % unit == 0,
        -unit < r - unit * m < unit,
    ensures
        r == unit * m,
{
    let k = r / unit;
    assert(r == unit * k) by (nonlinear_arith)
        requires
            unit > 0,
            r % unit == 0,
            k == r / unit,
    ;
    assert(k == m) by (nonlinear_arith)
        requires
            unit > 0,
            -unit < unit * k - unit * m < unit,
    ;
}

/// Ninety-nine of a hundred durations are as many as the share says, cut off.
pub proof fn lemma_ninety_nine_percent_target(n: nat)
    requires
        n < 0x2000_0000_0000,
    ensures
        percentile_target(n, 8_917_127_262_193_582) == 99 * n / 100,
{
    let limit: nat = 0x20_0000_0000_0000;
    crate::rounding::lemma_rounded_to_nearest(n, limit);
    let x = n * 8_917_127_262_193_582;
    let r = crate::rounding::rounded(x, limit);
    crate::rounding::lemma_rounded_to_nearest(x, limit);
    let q = 99 * n / 100;
    let s = 99 * n % 100;
    assert(100 * x == limit * (100 * q + s) - 8 * n);
    if x >= limit {
        let e = choose|e: nat|
            {
                let unit = #[trigger] vstd::arithmetic::power2::pow2(e) as int;
                &&& x < limit * unit <= 2 * x
                &&& r as int % unit == 0
                &&& -unit <= 2 * (r - x) <= unit
                &&& 2 * (r - x) == unit || 2 * (x - r) == unit ==> (r as int / unit) % 2 == 0
            };
        let unit = vstd::arithmetic::power2::pow2(e) as int;
        assert(limit * unit <= 2 * x);
        assert(100 * r <= 100 * x + 50 * unit);
        assert(100 * r >= 100 * x - 50 * unit);
        if s == 0 {
            vstd::arithmetic::power2::lemma_pow2_pos(e);
            vstd::arithmetic::power2::lemma2_to64_rest();
            assert(vstd::arithmetic::power2::pow2(53) == limit);
            if e > 53 {
                vstd::arithmetic::power2::lemma_pow2_strictly_increases(53, e);
            }
            vstd::arithmetic::power2::lemma_pow2_adds(e, (53 - e) as nat);
            let more = vstd::arithmetic::power2::pow2((53 - e) as nat) as int;
            assert(limit * q == unit * (more * q)) by (nonlinear_arith)
                requires
                    limit == unit * more,
            ;
            lemma_nearest_multiple(r as int, unit, more * q);
        }
        assert(limit * q <= r < limit * (q + 1));
    }
    assert(r / limit == q);
}

} // verus!
