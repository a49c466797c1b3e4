use ivf_fraud::clock::UtcTime;
use ivf_fraud::quantize::{FloatBits, DIMS};
use ivf_fraud::vectorize::{
    vectorize, vectorize_at, Customer, Feature, LastTx, MccRisk, Merchant, Normalization, Request,
    Terminal, Transaction,
};

fn fb(f: f32) -> FloatBits {
    FloatBits { bits: f.to_bits() }
}

fn value(f: &Feature) -> f32 {
    let num = |b: &FloatBits| f32::from_bits(b.bits);
    match f {
        Feature::Exact(b) => num(b),
        Feature::Share { part, whole } => *part as f32 / *whole as f32,
        Feature::Ratio { value, max } => (num(value) / num(max)).clamp(0.0, 1.0),
        Feature::CountRatio { count, max } => (*count as f32 / num(max)).clamp(0.0, 1.0),
        Feature::AverageRatio { value, average, max } => {
            ((num(value) / num(average)) / num(max)).clamp(0.0, 1.0)
        }
        Feature::MinutesRatio { seconds, max } => {
            ((*seconds as f32 / 60.0) / num(max)).clamp(0.0, 1.0)
        }
    }
}

fn vector(req: &Request) -> [f32; DIMS] {
    let features = vectorize(req, &norm(), &mcc_risk());
    std::array::from_fn(|i| value(&features[i]))
}

fn norm() -> Normalization {
    Normalization {
        max_amount: fb(10_000.0),
        max_installments: fb(12.0),
        amount_vs_avg_ratio: fb(10.0),
        max_minutes: fb(1440.0),
        max_km: fb(1000.0),
        max_tx_count_24h: fb(20.0),
        max_merchant_avg_amount: fb(10_000.0),
    }
}

fn mcc_risk() -> MccRisk {
    vec![] // all lookups fall through to the default of 0.5
}

/// A minimal request with only requested_at varying; all other fields are
/// neutral (zero amounts, empty merchants list, no last transaction).
fn request_at(requested_at: &str) -> Request {
    Request {
        transaction: Transaction {
            amount: fb(0.0),
            installments: 0,
            requested_at: requested_at.to_string(),
        },
        customer: Customer {
            avg_amount: fb(1.0), // non-zero to avoid zero-division in dim2
            tx_count_24h: 0,
            known_merchants: vec![],
        },
        merchant: Merchant {
            id: "m1".to_string(),
            mcc: "0000".to_string(),
            avg_amount: fb(0.0),
        },
        terminal: Terminal {
            is_online: false,
            card_present: false,
            km_from_home: fb(0.0),
        },
        last_tx: None,
    }
}

fn seconds_after(requested_at: &str, timestamp: &str) -> i64 {
    let mut req = request_at(requested_at);
    req.last_tx = Some(LastTx { timestamp: timestamp.to_string(), km_from_current: fb(0.0) });
    match vectorize(&req, &norm(), &mcc_risk())[5] {
        Feature::MinutesRatio { seconds, .. } => seconds,
        f => panic!("{f:?}"),
    }
}

#[test]
fn dim4_monday_is_zero() {
    // 2026-03-23 is a Monday.
    let v = vector(&request_at("2026-03-23T12:00:00Z"));
    assert_eq!(v[4], 0.0 / 6.0, "Monday must map to dim4=0.0 (mon=0)");
}

#[test]
fn dim4_tuesday_is_one_sixth() {
    // 2026-03-24 is a Tuesday.
    let v = vector(&request_at("2026-03-24T12:00:00Z"));
    let expected = 1.0_f32 / 6.0;
    assert!(
        (v[4] - expected).abs() < 1e-6,
        "Tuesday must map to dim4≈{expected:.6} (tue=1), got {}",
        v[4]
    );
}

#[test]
fn dim4_wednesday_is_two_sixths() {
    // 2026-03-25 is a Wednesday.
    let v = vector(&request_at("2026-03-25T12:00:00Z"));
    let expected = 2.0_f32 / 6.0;
    assert!(
        (v[4] - expected).abs() < 1e-6,
        "Wednesday must map to dim4≈{expected:.6} (wed=2), got {}",
        v[4]
    );
}

#[test]
fn dim4_thursday_is_three_sixths() {
    // 2026-03-26 is a Thursday.
    let v = vector(&request_at("2026-03-26T12:00:00Z"));
    let expected = 3.0_f32 / 6.0;
    assert!(
        (v[4] - expected).abs() < 1e-6,
        "Thursday must map to dim4≈{expected:.6} (thu=3), got {}",
        v[4]
    );
}

#[test]
fn dim4_friday_is_four_sixths() {
    // 2026-03-27 is a Friday.
    let v = vector(&request_at("2026-03-27T12:00:00Z"));
    let expected = 4.0_f32 / 6.0;
    assert!(
        (v[4] - expected).abs() < 1e-6,
        "Friday must map to dim4≈{expected:.6} (fri=4), got {}",
        v[4]
    );
}

#[test]
fn dim4_saturday_is_five_sixths() {
    // 2026-03-28 is a Saturday.
    let v = vector(&request_at("2026-03-28T12:00:00Z"));
    let expected = 5.0_f32 / 6.0;
    assert!(
        (v[4] - expected).abs() < 1e-6,
        "Saturday must map to dim4≈{expected:.6} (sat=5), got {}",
        v[4]
    );
}

#[test]
fn dim4_sunday_is_one() {
    // 2026-03-15 is a Sunday.
    let v = vector(&request_at("2026-03-15T12:00:00Z"));
    assert_eq!(v[4], 6.0 / 6.0, "Sunday must map to dim4=1.0 (sun=6), got {}", v[4]);
}

#[test]
fn dim3_hour_of_day_unaffected() {
    // Midnight gives 0/23 = 0.0; 23:00 gives 23/23 = 1.0
    let v_midnight = vector(&request_at("2026-03-23T00:00:00Z"));
    let v_evening = vector(&request_at("2026-03-23T23:00:00Z"));
    assert_eq!(v_midnight[3], 0.0, "midnight must give dim3=0.0");
    assert!((v_evening[3] - 1.0).abs() < 1e-6, "23:00 must give dim3=1.0");
}

#[test]
fn times_are_taken_in_utc() {
    // 01:30 on a Monday, three hours east of Greenwich, is Sunday 22:30 UTC.
    let v = vectorize(&request_at("2026-03-23T01:30:00+03:00"), &norm(), &mcc_risk());
    assert_eq!(v[3], Feature::Share { part: 22, whole: 23 });
    assert_eq!(v[4], Feature::Share { part: 6, whole: 6 });
    let v = vectorize(&request_at("1969-12-31T23:59:59Z"), &norm(), &mcc_risk());
    assert_eq!(v[3], Feature::Share { part: 23, whole: 23 });
    assert_eq!(v[4], Feature::Share { part: 2, whole: 6 });
}

#[test]
fn a_time_that_is_none_counts_as_the_epoch() {
    // 1970-01-01 was a Thursday.
    let v = vectorize(&request_at("yesterday"), &norm(), &mcc_risk());
    assert_eq!(v[3], Feature::Share { part: 0, whole: 23 });
    assert_eq!(v[4], Feature::Share { part: 3, whole: 6 });
    assert_eq!(seconds_after("yesterday", "1969-12-31T23:00:00Z"), 3600);
}

#[test]
fn the_last_time_that_is_none_counts_as_the_request() {
    assert_eq!(seconds_after("2026-03-23T12:00:00Z", "12:00"), 0);
    assert_eq!(seconds_after("?", "!"), 0);
}

#[test]
fn elapsed_seconds_are_cut_off_toward_zero() {
    assert_eq!(seconds_after("2026-03-23T12:00:01.2Z", "2026-03-23T12:00:00.5Z"), 0);
    assert_eq!(seconds_after("2026-03-23T12:00:02.5Z", "2026-03-23T12:00:00.5Z"), 2);
    assert_eq!(seconds_after("2026-03-23T12:00:00.5Z", "2026-03-23T12:00:02.2Z"), -1);
    assert_eq!(seconds_after("2026-03-23T12:00:00Z", "2026-03-23T10:00:00+01:00"), 10800);
}

#[test]
fn leap_seconds_count() {
    assert_eq!(seconds_after("2015-06-30T23:59:60.5Z", "2015-06-30T23:00:00Z"), 3600);
    assert_eq!(seconds_after("2015-07-01T01:00:00Z", "2015-06-30T23:59:60.5Z"), 3599);
    assert_eq!(seconds_after("2015-06-30T23:59:60Z", "2015-06-30T23:59:59Z"), 1);
    assert_eq!(seconds_after("2015-06-30T23:00:00Z", "2015-06-30T23:59:60.5Z"), -3600);
}

#[test]
fn elapsed_seconds_agree_with_chrono() {
    let texts = [
        "0000-01-01T00:00:00+23:59",
        "9999-12-31T23:59:60.999999999-23:59",
        "2016-12-31T23:59:60.25Z",
        "2016-12-31T23:59:59.75Z",
        "2017-01-01T00:00:00Z",
        "1970-01-01T00:00:00.000000001Z",
        "2024-02-29t12:30:60z",
        "1999-01-01 07:08:09.5+05:30",
    ];
    for a in texts {
        for b in texts {
            let x = chrono::DateTime::parse_from_rfc3339(a).unwrap().naive_utc();
            let y = chrono::DateTime::parse_from_rfc3339(b).unwrap().naive_utc();
            assert_eq!(seconds_after(a, b), (x - y).num_seconds(), "{a} {b}");
        }
    }
}

#[test]
fn a_full_request_fills_every_dimension() {
    let mut req = request_at("2026-03-25T18:45:00Z");
    req.transaction.amount = fb(2500.0);
    req.transaction.installments = 3;
    req.customer.avg_amount = fb(500.0);
    req.customer.tx_count_24h = 5;
    req.customer.known_merchants = vec!["m9".to_string(), "m1".to_string()];
    req.merchant.mcc = "5411".to_string();
    req.merchant.avg_amount = fb(20_000.0);
    req.terminal = Terminal { is_online: true, card_present: false, km_from_home: fb(-1.0) };
    req.last_tx = Some(LastTx {
        timestamp: "2026-03-25T06:45:00Z".to_string(),
        km_from_current: fb(250.0),
    });
    let risks = vec![("5999".to_string(), fb(0.9)), ("5411".to_string(), fb(0.15))];
    let features = vectorize(&req, &norm(), &risks);
    let v: [f32; DIMS] = std::array::from_fn(|i| value(&features[i]));
    let expected = [
        0.25,
        0.25,
        0.5,
        18.0 / 23.0,
        2.0 / 6.0,
        0.5,
        0.25,
        0.0,
        0.25,
        1.0,
        0.0,
        0.0,
        0.15,
        1.0,
    ];
    assert_eq!(v, expected);
}

#[test]
fn an_empty_request_has_defaults() {
    let v = vector(&request_at("2026-03-23T00:00:00Z"));
    let mut expected = [0.0f32; DIMS];
    expected[5] = -1.0;
    expected[6] = -1.0;
    expected[11] = 1.0;
    expected[12] = 0.5;
    assert_eq!(v, expected);
}

#[test]
fn the_average_counts_only_when_positive() {
    for (average, counts) in [
        (0.0f32, false),
        (-0.0, false),
        (-5.0, false),
        (f32::NAN, false),
        (f32::NEG_INFINITY, false),
        (f32::from_bits(1), true),
        (5.0, true),
        (f32::INFINITY, true),
    ] {
        let mut req = request_at("2026-03-23T00:00:00Z");
        req.transaction.amount = fb(10.0);
        req.customer.avg_amount = fb(average);
        let third = vectorize(&req, &norm(), &mcc_risk())[2];
        if counts {
            assert_eq!(
                third,
                Feature::AverageRatio { value: fb(10.0), average: fb(average), max: fb(10.0) }
            );
        } else {
            assert_eq!(third, Feature::Exact(fb(0.0)));
        }
    }
}

#[test]
fn given_times_decide() {
    let mut req = request_at("not read here");
    req.last_tx = Some(LastTx { timestamp: String::new(), km_from_current: fb(1.0) });
    let t = UtcTime { secs: 86_400 + 3_600 * 5, nanos: 0 };
    let v = vectorize_at(&req, &norm(), &mcc_risk(), Some(t), Some(UtcTime { secs: 0, nanos: 0 }));
    assert_eq!(v[3], Feature::Share { part: 5, whole: 23 });
    assert_eq!(v[4], Feature::Share { part: 4, whole: 6 });
    assert_eq!(v[5], Feature::MinutesRatio { seconds: 104_400, max: fb(1440.0) });
}
