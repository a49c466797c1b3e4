use ivf_fraud::args::{parse_build_args, parse_classify_args, ArgFault};
use ivf_fraud::service::{is_benign_error, metrics_enabled};
use ivf_fraud::text::{
    chars_of, contains, eq_ignore_ascii_case, lines, parse_unsigned, push_decimal, push_padded,
    push_padded_decimal, starts_with,
};
use ivf_fraud::timing::{bucket_of, cfs_stats, label, report_all, PhaseStats};

fn words(list: &[&str]) -> Vec<String> {
    list.iter().map(|w| w.to_string()).collect()
}

#[test]
fn buckets_by_duration() {
    let bounds = [10u64, 50, 100, 250, 500, 1_000, 5_000];
    for (i, &b) in bounds.iter().enumerate() {
        assert_eq!(bucket_of(b - 1), i);
        assert_eq!(bucket_of(b), i + 1);
    }
    assert_eq!(bucket_of(0), 0);
    assert_eq!(bucket_of(u64::MAX), 7);
    assert_eq!(label(0), "<10µs");
    assert_eq!(label(7), "≥5ms");
}

#[test]
fn records_are_counted() {
    let mut s = PhaseStats::new("parse");
    for us in [3, 20, 20, 300, 7_000] {
        s.record(us);
    }
    assert_eq!(s.sum_us, 7_343);
    assert_eq!(s.count, 5);
    assert_eq!(s.buckets, [1, 2, 0, 0, 1, 0, 0, 1]);
}

#[test]
fn counters_wrap_around() {
    let mut s = PhaseStats::new("parse");
    s.sum_us = u64::MAX;
    s.count = u64::MAX;
    s.buckets[0] = u64::MAX;
    s.record(5);
    assert_eq!((s.sum_us, s.count, s.buckets[0]), (4, 0, 0));
}

#[test]
fn a_phase_without_data() {
    assert_eq!(PhaseStats::new("search").report(), "search        (no data)\n");
}

#[test]
fn a_phase_report() {
    let mut s = PhaseStats::new("vectorize");
    for us in [3, 20, 20, 300, 7_000] {
        s.record(us);
    }
    assert_eq!(
        s.report(),
        "vectorize     n=5        avg=1468  µs  p50≈<50µs     p99≈<500µs    | <10µs:1 <50µs:2 <500µs:1 ≥5ms:1 \n"
    );
}

#[test]
fn percentiles_follow_double_precision() {
    let labels = ["<10µs", "<50µs", "<100µs", "<250µs", "<500µs", "<1ms", "<5ms", "≥5ms"];
    let mut seed: u64 = 3;
    for round in 0..400 {
        let mut s = PhaseStats::new("x");
        for b in &mut s.buckets {
            seed = seed.wrapping_mul(6_364_136_223_846_793_005).wrapping_add(11);
            *b = (seed >> 4) >> (seed % 61);
        }
        s.count = s.buckets.iter().sum();
        if round % 7 == 0 {
            s.count = seed | 1;
        }
        let pct = |p: f64| {
            let target = (s.count as f64 * p) as u64;
            let mut cum = 0u64;
            for i in 0..8 {
                cum += s.buckets[i];
                if cum >= target {
                    return labels[i];
                }
            }
            labels[7]
        };
        let mut expected = format!(
            "{:<12}  n={:<7}  avg={:<6}µs  p50≈{:<8}  p99≈{:<8}  | ",
            s.name,
            s.count,
            s.sum_us / s.count,
            pct(0.50),
            pct(0.99)
        );
        for i in 0..8 {
            if s.buckets[i] > 0 {
                expected += &format!("{}:{} ", labels[i], s.buckets[i]);
            }
        }
        expected += "\n";
        assert_eq!(s.report(), expected);
    }
}

#[test]
fn a_report_of_everything() {
    let parse = PhaseStats::new("parse");
    let vectorize = PhaseStats::new("vectorize");
    let search = PhaseStats::new("search");
    let mut total = PhaseStats::new("total");
    total.record(12);
    let off = report_all(false, &parse, &vectorize, &search, &total, &None);
    assert_eq!(off, "metrics collection is disabled.\nSet METRICS=true and restart to enable.\n");
    let mut full = PhaseStats::new("full");
    full.buckets = [u64::MAX; 8];
    assert_eq!(report_all(false, &full, &full, &full, &full, &None), off);
    let on = report_all(true, &parse, &vectorize, &search, &total, &None);
    let expected = "# ── per-request phase breakdown (µs) ──────────────────────────────\n\
        # parse      = serde_json::from_slice  (JSON → Request struct)\n\
        # vectorize  = feature extraction      (Request → [f32; 14])\n\
        # search     = IVF k-NN search         (centroid scan + cluster scan)\n\
        # total      = full handler wall time  (parse + vectorize + search + overhead)\n\
        #\n\
        parse         (no data)\n\
        vectorize     (no data)\n\
        search        (no data)\n\
        total         n=1        avg=12    µs  p50≈<10µs     p99≈<10µs     | <50µs:1 \n\
        \n\
        # CFS stats: /sys/fs/cgroup/cpu.stat not found (not Linux, or unusual cgroup mount)\n";
    assert_eq!(on, expected);
}

#[test]
fn throttle_counters_are_marked() {
    let content = "usage_usec 5\nnr_periods 1\r\nnr_throttled 2\nthrottled_usec 3\nnr_bursts 0\nburst_usec 0\n xnr_burst\n\nlast";
    let text = cfs_stats(&Some(("/p".to_string(), content.to_string())));
    let expected = "# ── CFS throttle counters (/p) ─────────────────────────────\n    usage_usec 5\n*** nr_periods 1\n*** nr_throttled 2\n*** throttled_usec 3\n*** nr_bursts 0\n*** burst_usec 0\n     xnr_burst\n    \n    last\n# *** = fields most relevant to CFS stall diagnosis\n";
    assert_eq!(text, expected);
}

#[test]
fn lines_are_those_of_str() {
    for t in ["", "\n", "a", "a\n", "a\r\nb", "\r\n\n\r", "a\rb\nc\r\r\n", "é\n\nü"] {
        let expected: Vec<String> = t.lines().map(|l| l.to_string()).collect();
        assert_eq!(lines(t), expected, "{t:?}");
    }
}

#[test]
fn numbers_are_read_as_by_str() {
    for t in [
        "0", "7", "+7", "-7", "", "+", "++1", "007", "18446744073709551615",
        "18446744073709551616", "000000000000000000000000000001", "1_0", " 1", "1 ", "٣", "1e3",
        "+18446744073709551615",
    ] {
        assert_eq!(parse_unsigned(t, u64::MAX), t.parse::<u64>().ok(), "{t:?}");
        assert_eq!(parse_unsigned(t, u32::MAX as u64), t.parse::<u32>().ok().map(u64::from), "{t:?}");
    }
}

#[test]
fn numbers_are_written_in_decimal() {
    let mut out = String::from("x");
    push_decimal(&mut out, 0);
    push_decimal(&mut out, 9_070_130);
    push_padded(&mut out, "µs", 4);
    push_padded(&mut out, "toolong", 3);
    push_padded_decimal(&mut out, 12, 5);
    assert_eq!(out, "x09070130µs  toolong12   ");
    let mut out = String::new();
    push_decimal(&mut out, u128::MAX);
    assert_eq!(out, u128::MAX.to_string());
}

#[test]
fn texts_are_searched() {
    assert_eq!(chars_of("aµ"), vec!['a', 'µ']);
    assert!(starts_with("nr_bursts", "nr_burst"));
    assert!(!starts_with("nr", "nr_burst"));
    assert!(starts_with("abc", ""));
    assert!(contains("hyper: connection closed before", "connection closed"));
    assert!(contains("aab", "ab"));
    assert!(!contains("ab", "abc"));
    assert!(contains("", ""));
    assert!(eq_ignore_ascii_case("TrUe", "tRuE"));
    assert!(!eq_ignore_ascii_case("True", "Truer"));
    assert!(!eq_ignore_ascii_case("É", "é"));
    assert!(!eq_ignore_ascii_case("[", "{"));
}

#[test]
fn server_settings_and_errors() {
    assert!(metrics_enabled("TRUE"));
    assert!(!metrics_enabled("1"));
    assert!(!metrics_enabled(""));
    assert!(is_benign_error("error: connection closed"));
    assert!(is_benign_error("broken pipe (os error 32)"));
    assert!(!is_benign_error("Broken pipe"));
}

#[test]
fn builder_defaults() {
    let (args, fault) = parse_build_args(&vec![]);
    assert!(fault.is_none());
    assert_eq!(args.in_path, "references.json.gz");
    assert_eq!(args.out_path, "index.ivf.bin");
    assert_eq!((args.num_centroids, args.iters, args.default_probes, args.seed), (1000, 20, 20, 42));
    assert!(args.sample_rates.is_empty());
}

#[test]
fn builder_flags() {
    let (args, fault) = parse_build_args(&words(&[
        "-in", "a", "-out", "b", "-centroids", "5", "-sample", "0.5", "-iters", "+6", "-probes",
        "7", "-seed", "18446744073709551615", "-in", "-out", "-sample", "1",
    ]));
    assert!(fault.is_none());
    assert_eq!((args.in_path.as_str(), args.out_path.as_str()), ("-out", "b"));
    assert_eq!((args.num_centroids, args.iters, args.default_probes), (5, 6, 7));
    assert_eq!(args.seed, u64::MAX);
    assert_eq!(args.sample_rates, vec!["0.5", "1"]);
}

#[test]
fn builder_faults() {
    match parse_build_args(&words(&["-seed", "1", "--in", "x"])) {
        (args, Some(ArgFault::UnknownFlag(f))) => {
            assert_eq!(f, "--in");
            assert_eq!(args.seed, 1);
        }
        _ => panic!("no unknown flag"),
    }
    match parse_build_args(&words(&["-in", "x", "-probes"])) {
        (_, Some(ArgFault::MissingValue(f))) => assert_eq!(f, "-probes"),
        _ => panic!("no missing value"),
    }
    for flag in ["-centroids", "-iters", "-probes", "-seed"] {
        match parse_build_args(&words(&["-sample", "oops", flag, "-1", "-what"])) {
            (args, Some(ArgFault::BadNumber(f))) => {
                assert_eq!(f, flag);
                assert_eq!(args.sample_rates, vec!["oops"]);
            }
            _ => panic!("no bad number"),
        }
    }
}

#[test]
fn classifier_paths() {
    let (args, fault) = parse_classify_args(&vec![]);
    assert!(fault.is_none());
    assert_eq!(args.mismatches_path, "../test/diag-mismatches.jsonl");
    assert_eq!(args.index_path, "../data/index.ivf.bin");
    assert_eq!(args.refs_path, "../data/references.json.gz");
    assert_eq!(args.norm_path, "../data/normalization.json");
    assert_eq!(args.mcc_path, "../data/mcc_risk.json");
    assert_eq!(args.output_path, "../test/diag-classified.jsonl");
    let (args, fault) = parse_classify_args(&words(&[
        "--mismatches", "1", "--index", "2", "--refs", "3", "--norm", "4", "--mcc", "5",
        "--output", "6",
    ]));
    assert!(fault.is_none());
    let all = [
        args.mismatches_path, args.index_path, args.refs_path, args.norm_path, args.mcc_path,
        args.output_path,
    ];
    assert_eq!(all.join(""), "123456");
}

#[test]
fn classifier_faults() {
    match parse_classify_args(&words(&["--index", "i", "-out", "x"])) {
        (args, Some(ArgFault::UnknownFlag(f))) => {
            assert_eq!((f.as_str(), args.index_path.as_str()), ("-out", "i"));
        }
        _ => panic!("no unknown flag"),
    }
    match parse_classify_args(&words(&["--norm"])) {
        (_, Some(ArgFault::MissingValue(f))) => assert_eq!(f, "--norm"),
        _ => panic!("no missing value"),
    }
}
