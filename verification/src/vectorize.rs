//! From a transaction request to its 14 search dimensions.
//!
//! Which number goes into which dimension is decided here. The floating-point
//! divisions are left to the caller: a dimension is handed over as what is to be
//! divided by what.
use vstd::prelude::*;

use crate::clock::{days_from_monday, hour, parse_rfc3339, seconds_since, UtcTime};
use crate::quantize::{FloatBits, DIMS};

verus! {

/// The largest values that dimensions are scaled by.
#[derive(Clone, Copy, PartialEq, Eq, Structural, Debug)]
pub struct Normalization {
    pub max_amount: FloatBits,
    pub max_installments: FloatBits,
    pub amount_vs_avg_ratio: FloatBits,
    pub max_minutes: FloatBits,
    pub max_km: FloatBits,
    pub max_tx_count_24h: FloatBits,
    pub max_merchant_avg_amount: FloatBits,
}

/// A transaction to be scored.
pub struct Request {
    pub transaction: Transaction,
    pub customer: Customer,
    pub merchant: Merchant,
    pub terminal: Terminal,
    pub last_tx: Option<LastTx>,
}

pub struct Transaction {
    pub amount: FloatBits,
    pub installments: i32,
    pub requested_at: String,
}

pub struct Customer {
    pub avg_amount: FloatBits,
    pub tx_count_24h: i32,
    pub known_merchants: Vec<String>,
}

pub struct Merchant {
    pub id: String,
    pub mcc: String,
    pub avg_amount: FloatBits,
}

#[derive(Clone, Copy, PartialEq, Eq, Structural, Debug)]
pub struct Terminal {
    pub is_online: bool,
    pub card_present: bool,
    pub km_from_home: FloatBits,
}

/// The transaction before.
pub struct LastTx {
    pub timestamp: String,
    pub km_from_current: FloatBits,
}

/// Risk scores by merchant category code.
pub type MccRisk = Vec<(String, FloatBits)>;

/// The bit pattern of 0.
pub const ZERO: u32 = 0;

/// The bit pattern of 1.
pub const ONE: u32 = 0x3f80_0000;

/// The bit pattern of -1, for a dimension that has no value.
pub const MINUS_ONE: u32 = 0xbf80_0000;

/// The bit pattern of 0.5, the risk of a code that has no risk score.
pub const DEFAULT_MCC_RISK: u32 = 0x3f00_0000;

/// A dimension: a number, or how to compute it in single precision.
#[derive(Clone, Copy, PartialEq, Eq, Structural, Debug)]
pub enum Feature {
    /// This number.
    Exact(FloatBits),
    /// `part / whole`.
    Share { part: u32, whole: u32 },
    /// `value / max`, clamped to 0..=1.
    Ratio { value: FloatBits, max: FloatBits },
    /// `count / max`, clamped to 0..=1.
    CountRatio { count: i32, max: FloatBits },
    /// `(value / average) / max`, clamped to 0..=1.
    AverageRatio { value: FloatBits, average: FloatBits, max: FloatBits },
    /// `(seconds / 60) / max`, clamped to 0..=1.
    MinutesRatio { seconds: i64, max: FloatBits },
}

/// The number is greater than 0.
pub open spec fn is_positive(f: FloatBits) -> bool {
    !f.is_negative() && !f.is_nan() && f.bits != 0
}

/// One for yes, zero for no.
pub open spec fn flag(b: bool) -> Feature {
    if b {
        Feature::Exact(FloatBits { bits: ONE })
    } else {
        Feature::Exact(FloatBits { bits: ZERO })
    }
}

/// The customer has dealt with the merchant before.
pub open spec fn is_known(known: Seq<String>, id: Seq<char>) -> bool {
    exists|i: int| 0 <= i < known.len() && (#[trigger] known[i])@ == id
}

/// The risk score listed for a code, or the default.
pub open spec fn risk_of(risks: Seq<(String, FloatBits)>, code: Seq<char>) -> FloatBits
    decreases risks.len(),
{
    if risks.len() == 0 {
        FloatBits { bits: DEFAULT_MCC_RISK }
    } else if risks[0].0@ == code {
        risks[0].1
    } else {
        risk_of(risks.skip(1), code)
    }
}

/// When the transaction was requested: a text that is no time counts as the
/// start of 1970.
pub open spec fn request_time(requested: Option<UtcTime>) -> UtcTime {
    match requested {
        Some(t) => t,
        None => UtcTime { secs: 0, nanos: 0 },
    }
}

/// When the transaction before took place: a text that is no time counts as
/// the time of the request.
pub open spec fn last_time(requested: Option<UtcTime>, last: Option<UtcTime>) -> UtcTime {
    match last {
        Some(t) => t,
        None => request_time(requested),
    }
}

/// The 14 dimensions of a request. `requested` and `last` are the times that
/// the texts of the request and of the transaction before stand for.
pub open spec fn features(
    req: Request,
    norm: Normalization,
    risks: Seq<(String, FloatBits)>,
    requested: Option<UtcTime>,
    last: Option<UtcTime>,
) -> Seq<Feature> {
    let tx_time = request_time(requested);
    seq![
        Feature::Ratio { value: req.transaction.amount, max: norm.max_amount },
        Feature::CountRatio { count: req.transaction.installments, max: norm.max_installments },
        if is_positive(req.customer.avg_amount) {
            Feature::AverageRatio {
                value: req.transaction.amount,
                average: req.customer.avg_amount,
                max: norm.amount_vs_avg_ratio,
            }
        } else {
            Feature::Exact(FloatBits { bits: ZERO })
        },
        Feature::Share { part: (crate::clock::second_of_day(tx_time) / 3_600) as u32, whole: 23 },
        Feature::Share { part: ((crate::clock::day(tx_time) + 3) % 7) as u32, whole: 6 },
        match req.last_tx {
            None => Feature::Exact(FloatBits { bits: MINUS_ONE }),
            Some(_) => Feature::MinutesRatio {
                seconds: crate::clock::seconds_between(tx_time, last_time(requested, last)) as i64,
                max: norm.max_minutes,
            },
        },
        match req.last_tx {
            None => Feature::Exact(FloatBits { bits: MINUS_ONE }),
            Some(tx) => Feature::Ratio { value: tx.km_from_current, max: norm.max_km },
        },
        Feature::Ratio { value: req.terminal.km_from_home, max: norm.max_km },
        Feature::CountRatio { count: req.customer.tx_count_24h, max: norm.max_tx_count_24h },
        flag(req.terminal.is_online),
        flag(req.terminal.card_present),
        flag(!is_known(req.customer.known_merchants@, req.merchant.id@)),
        Feature::Exact(risk_of(risks, req.merchant.mcc@)),
        Feature::Ratio { value: req.merchant.avg_amount, max: norm.max_merchant_avg_amount },
    ]
}

fn flag_feature(b: bool) -> (f: Feature)
    ensures
        f == flag(b),
{
    if b {
        Feature::Exact(FloatBits { bits: ONE })
    } else {
        Feature::Exact(FloatBits { bits: ZERO })
    }
}

fn knows_merchant(known: &Vec<String>, id: &String) -> (found: bool)
    ensures
        found == is_known(known@, id@),
{
    let mut i: usize = 0;
    while i < known.len()
        invariant
            i <= known.len(),
            forall|j: int| 0 <= j < i ==> (#[trigger] known[j])@ != id@,
        decreases known.len() - i,
    {
        if known[i] == *id {
            return true;
        }
        i = i + 1;
    }
    false
}

fn mcc_risk_of(risks: &MccRisk, code: &String) -> (risk: FloatBits)
    ensures
        risk == risk_of(risks@, code@),
{
    let mut i: usize = 0;
    assert(risks@.skip(0) =~= risks@);
    while i < risks.len()
        invariant
            i <= risks.len(),
            risk_of(risks@.skip(i as int), code@) == risk_of(risks@, code@),
        decreases risks.len() - i,
    {
        assert(risks@.skip(i as int).skip(1) =~= risks@.skip(i + 1));
        if risks[i].0 == *code {
            return risks[i].1;
        }
        i = i + 1;
    }
    FloatBits { bits: DEFAULT_MCC_RISK }
}

/// The 14 dimensions of a request, from the times that its texts stand for.
pub fn vectorize_at(
    req: &Request,
    norm: &Normalization,
    mcc_risk: &MccRisk,
    requested: Option<UtcTime>,
    last: Option<UtcTime>,
) -> (v: [Feature; DIMS])
    requires
        requested is Some ==> requested->0.wf(),
        last is Some ==> last->0.wf(),
    ensures
        v@ == features(*req, *norm, mcc_risk@, requested, last),
        v@[0] == (Feature::Ratio { value: req.transaction.amount, max: norm.max_amount }),
        v@[1] == (Feature::CountRatio {
            count: req.transaction.installments,
            max: norm.max_installments,
        }),
        1 <= req.customer.avg_amount.bits <= 0x7f80_0000 ==> v@[2] == (Feature::AverageRatio {
            value: req.transaction.amount,
            average: req.customer.avg_amount,
            max: norm.amount_vs_avg_ratio,
        }),
        !(1 <= req.customer.avg_amount.bits <= 0x7f80_0000) ==> v@[2] == Feature::Exact(
            FloatBits { bits: 0 },
        ),
        requested matches Some(t) ==> v@[3] == (Feature::Share {
            part: (t.secs as int % 86_400 / 3_600) as u32,
            whole: 23,
        }) && v@[4] == (Feature::Share {
            part: ((t.secs as int / 86_400 + 3) % 7) as u32,
            whole: 6,
        }),
        requested is None ==> v@[3] == (Feature::Share { part: 0, whole: 23 }) && v@[4] == (
        Feature::Share { part: 3, whole: 6 }),
        req.last_tx is None ==> v@[5] == Feature::Exact(FloatBits { bits: 0xbf80_0000 }) && v@[6]
            == Feature::Exact(FloatBits { bits: 0xbf80_0000 }),
        req.last_tx is Some && last is None ==> v@[5] == (Feature::MinutesRatio {
            seconds: 0,
            max: norm.max_minutes,
        }),
        req.last_tx is Some && last is Some ==> v@[5] == (Feature::MinutesRatio {
            seconds: crate::clock::seconds_between(
                if requested is Some {
                    requested->0
                } else {
                    UtcTime { secs: 0, nanos: 0 }
                },
                last->0,
            ) as i64,
            max: norm.max_minutes,
        }),
        req.last_tx matches Some(tx) ==> v@[6] == (Feature::Ratio {
            value: tx.km_from_current,
            max: norm.max_km,
        }),
        v@[7] == (Feature::Ratio { value: req.terminal.km_from_home, max: norm.max_km }),
        v@[8] == (Feature::CountRatio {
            count: req.customer.tx_count_24h,
            max: norm.max_tx_count_24h,
        }),
        v@[9] == Feature::Exact(FloatBits { bits: 0x3f80_0000 }) <==> req.terminal.is_online,
        v@[9] == Feature::Exact(FloatBits { bits: 0 }) <==> !req.terminal.is_online,
        v@[10] == Feature::Exact(FloatBits { bits: 0x3f80_0000 }) <==> req.terminal.card_present,
        v@[10] == Feature::Exact(FloatBits { bits: 0 }) <==> !req.terminal.card_present,
        v@[11] == Feature::Exact(FloatBits { bits: 0 }) <==> exists|i: int|
            0 <= i < req.customer.known_merchants@.len() && (
            #[trigger] req.customer.known_merchants@[i])@ == req.merchant.id@,
        v@[11] == Feature::Exact(FloatBits { bits: 0x3f80_0000 }) <==> forall|i: int|
            0 <= i < req.customer.known_merchants@.len() ==> (
            #[trigger] req.customer.known_merchants@[i])@ != req.merchant.id@,
        forall|i: int|
            #![trigger mcc_risk@[i]]
            0 <= i < mcc_risk@.len() && mcc_risk@[i].0@ == req.merchant.mcc@ && (forall|j: int|
                0 <= j < i ==> (#[trigger] mcc_risk@[j]).0@ != req.merchant.mcc@) ==> v@[12]
                == Feature::Exact(mcc_risk@[i].1),
        (forall|j: int| 0 <= j < mcc_risk@.len() ==> (#[trigger] mcc_risk@[j]).0@ != req.merchant.mcc@)
            ==> v@[12] == Feature::Exact(FloatBits { bits: 0x3f00_0000 }),
        v@[13] == (Feature::Ratio {
            value: req.merchant.avg_amount,
            max: norm.max_merchant_avg_amount,
        }),
{
    let tx_time: UtcTime = match requested {
        Some(t) => t,
        None => UtcTime { secs: 0, nanos: 0 },
    };
    let average: FloatBits = req.customer.avg_amount;
    let positive: bool = average.bits >= 1 && average.bits <= 0x7f80_0000;
    let vs_average: Feature = if positive {
        Feature::AverageRatio {
            value: req.transaction.amount,
            average,
            max: norm.amount_vs_avg_ratio,
        }
    } else {
        Feature::Exact(FloatBits { bits: ZERO })
    };
    let (recency, velocity) = match &req.last_tx {
        None => (Feature::Exact(FloatBits { bits: MINUS_ONE }), Feature::Exact(FloatBits { bits: MINUS_ONE })),
        Some(tx) => {
            let before: UtcTime = match last {
                Some(t) => t,
                None => tx_time,
            };
            (
                Feature::MinutesRatio {
                    seconds: seconds_since(tx_time, before),
                    max: norm.max_minutes,
                },
                Feature::Ratio { value: tx.km_from_current, max: norm.max_km },
            )
        },
    };
    let v: [Feature; DIMS] = [
        Feature::Ratio { value: req.transaction.amount, max: norm.max_amount },
        Feature::CountRatio { count: req.transaction.installments, max: norm.max_installments },
        vs_average,
        Feature::Share { part: hour(tx_time), whole: 23 },
        Feature::Share { part: days_from_monday(tx_time), whole: 6 },
        recency,
        velocity,
        Feature::Ratio { value: req.terminal.km_from_home, max: norm.max_km },
        Feature::CountRatio { count: req.customer.tx_count_24h, max: norm.max_tx_count_24h },
        flag_feature(req.terminal.is_online),
        flag_feature(req.terminal.card_present),
        flag_feature(!knows_merchant(&req.customer.known_merchants, &req.merchant.id)),
        Feature::Exact(mcc_risk_of(mcc_risk, &req.merchant.mcc)),
        Feature::Ratio { value: req.merchant.avg_amount, max: norm.max_merchant_avg_amount },
    ];
    assert(v@ =~= features(*req, *norm, mcc_risk@, requested, last));
    proof {
        lemma_dimensions(*req, *norm, mcc_risk@, requested, last, v@);
    }
    v
}

/// The time that a text stands for.
pub open spec fn time_of(text: Seq<char>) -> Option<UtcTime> {
    match crate::clock::rfc3339_instant(text) {
        Some((secs, nanos)) => Some(UtcTime { secs, nanos }),
        None => None,
    }
}

/// The time that the text of the transaction before stands for.
pub open spec fn last_time_of(last_tx: Option<LastTx>) -> Option<UtcTime> {
    match last_tx {
        Some(tx) => time_of(tx.timestamp@),
        None => None,
    }
}

/// The 14 dimensions of a request.
pub fn vectorize(req: &Request, norm: &Normalization, mcc_risk: &MccRisk) -> (v: [Feature; DIMS])
    ensures
        v@ == features(
            *req,
            *norm,
            mcc_risk@,
            time_of(req.transaction.requested_at@),
            last_time_of(req.last_tx),
        ),
        crate::clock::rfc3339_instant(req.transaction.requested_at@) matches Some(t) ==> v@[3] == (
        Feature::Share { part: (t.0 as int % 86_400 / 3_600) as u32, whole: 23 }) && v@[4] == (
        Feature::Share { part: ((t.0 as int / 86_400 + 3) % 7) as u32, whole: 6 }),
        crate::clock::rfc3339_instant(req.transaction.requested_at@) is None ==> v@[3] == (
        Feature::Share { part: 0, whole: 23 }) && v@[4] == (Feature::Share { part: 3, whole: 6 }),
        req.last_tx matches Some(tx) ==> {
            let requested = crate::clock::rfc3339_instant(req.transaction.requested_at@);
            let last = crate::clock::rfc3339_instant(tx.timestamp@);
            v@[5] == (Feature::MinutesRatio {
                seconds: if last is None {
                    0
                } else if requested is None {
                    crate::clock::seconds_between(
                        UtcTime { secs: 0, nanos: 0 },
                        UtcTime { secs: (last->0).0, nanos: (last->0).1 },
                    ) as i64
                } else {
                    crate::clock::seconds_between(
                        UtcTime { secs: (requested->0).0, nanos: (requested->0).1 },
                        UtcTime { secs: (last->0).0, nanos: (last->0).1 },
                    ) as i64
                },
                max: norm.max_minutes,
            })
        },
{
    let requested: Option<UtcTime> = parse_rfc3339(req.transaction.requested_at.as_str());
    let last: Option<UtcTime> = match &req.last_tx {
        Some(tx) => parse_rfc3339(tx.timestamp.as_str()),
        None => None,
    };
    vectorize_at(req, norm, mcc_risk, requested, last)
}

/// Where every code is listed once, a listed code has the risk score listed for
/// it.
pub proof fn lemma_listed_risk(risks: Seq<(String, FloatBits)>, i: int)
    requires
        0 <= i < risks.len(),
        forall|a: int, b: int|
            0 <= a < b < risks.len() ==> (#[trigger] risks[a]).0@ != (#[trigger] risks[b]).0@,
    ensures
        risk_of(risks, risks[i].0@) == risks[i].1,
    decreases risks.len(),
{
    if i > 0 {
        assert(risks[0].0@ != risks[i].0@);
        let rest = risks.skip(1);
        assert forall|a: int, b: int| 0 <= a < b < rest.len() implies (#[trigger] rest[a]).0@ != (
        #[trigger] rest[b]).0@ by {
            assert(risks[a + 1].0@ != risks[b + 1].0@);
        }
        lemma_listed_risk(rest, i - 1);
        assert(rest[i - 1] == risks[i]);
    }
}

/// A code that is not listed has the default risk score.
pub proof fn lemma_unlisted_risk(risks: Seq<(String, FloatBits)>, code: Seq<char>)
    requires
        forall|i: int| 0 <= i < risks.len() ==> (#[trigger] risks[i]).0@ != code,
    ensures
        risk_of(risks, code) == (FloatBits { bits: DEFAULT_MCC_RISK }),
    decreases risks.len(),
{
    if risks.len() > 0 {
        assert(risks[0].0@ != code);
        let rest = risks.skip(1);
        assert forall|i: int| 0 <= i < rest.len() implies (#[trigger] rest[i]).0@ != code by {
            assert(rest[i] == risks[i + 1]);
        }
        lemma_unlisted_risk(rest, code);
    }
}

/// The hour runs from 0 to 23 and the day of the week from 0 to 6, so that both
/// dimensions lie between 0 and 1; a day later the hour is the same and the day
/// of the week the next one.
pub proof fn lemma_clock_dimensions(t: UtcTime, next: UtcTime)
    requires
        next.secs == t.secs + 86_400,
    ensures
        0 <= crate::clock::second_of_day(t) / 3_600 <= 23,
        0 <= (crate::clock::day(t) + 3) % 7 <= 6,
        crate::clock::second_of_day(next) == crate::clock::second_of_day(t),
        (crate::clock::day(next) + 3) % 7 == ((crate::clock::day(t) + 3) % 7 + 1) % 7,
{
}

/// The first listing of a code decides its risk score.
proof fn lemma_first_listing(risks: Seq<(String, FloatBits)>, code: Seq<char>, i: int)
    requires
        0 <= i < risks.len(),
        risks[i].0@ == code,
        forall|j: int| 0 <= j < i ==> (#[trigger] risks[j]).0@ != code,
    ensures
        risk_of(risks, code) == risks[i].1,
    decreases i,
{
    if i > 0 {
        assert(risks[0].0@ != code);
        let rest = risks.skip(1);
        assert forall|j: int| 0 <= j < i - 1 implies (#[trigger] rest[j]).0@ != code by {
            assert(rest[j] == risks[j + 1]);
        }
        lemma_first_listing(rest, code, i - 1);
    }
}

/// What each of the 14 dimensions stands for, over the fields of the request.
pub proof fn lemma_dimensions(
    req: Request,
    norm: Normalization,
    risks: Seq<(String, FloatBits)>,
    requested: Option<UtcTime>,
    last: Option<UtcTime>,
    v: Seq<Feature>,
)
    requires
        v == features(req, norm, risks, requested, last),
    ensures
        v[0] == (Feature::Ratio { value: req.transaction.amount, max: norm.max_amount }),
        v[1] == (Feature::CountRatio {
            count: req.transaction.installments,
            max: norm.max_installments,
        }),
        1 <= req.customer.avg_amount.bits <= 0x7f80_0000 ==> v[2] == (Feature::AverageRatio {
            value: req.transaction.amount,
            average: req.customer.avg_amount,
            max: norm.amount_vs_avg_ratio,
        }),
        !(1 <= req.customer.avg_amount.bits <= 0x7f80_0000) ==> v[2] == Feature::Exact(
            FloatBits { bits: 0 },
        ),
        requested matches Some(t) ==> v[3] == (Feature::Share {
            part: (t.secs as int % 86_400 / 3_600) as u32,
            whole: 23,
        }) && v[4] == (Feature::Share {
            part: ((t.secs as int / 86_400 + 3) % 7) as u32,
            whole: 6,
        }),
        requested is None ==> v[3] == (Feature::Share { part: 0, whole: 23 }) && v[4] == (
        Feature::Share { part: 3, whole: 6 }),
        req.last_tx is None ==> v[5] == Feature::Exact(FloatBits { bits: 0xbf80_0000 }) && v[6]
            == Feature::Exact(FloatBits { bits: 0xbf80_0000 }),
        req.last_tx is Some && last is None ==> v[5] == (Feature::MinutesRatio {
            seconds: 0,
            max: norm.max_minutes,
        }),
        req.last_tx is Some && last is Some ==> v[5] == (Feature::MinutesRatio {
            seconds: crate::clock::seconds_between(
                if requested is Some {
                    requested->0
                } else {
                    UtcTime { secs: 0, nanos: 0 }
                },
                last->0,
            ) as i64,
            max: norm.max_minutes,
        }),
        req.last_tx matches Some(tx) ==> v[6] == (Feature::Ratio {
            value: tx.km_from_current,
            max: norm.max_km,
        }),
        v[7] == (Feature::Ratio { value: req.terminal.km_from_home, max: norm.max_km }),
        v[8] == (Feature::CountRatio {
            count: req.customer.tx_count_24h,
            max: norm.max_tx_count_24h,
        }),
        v[9] == Feature::Exact(FloatBits { bits: 0x3f80_0000 }) <==> req.terminal.is_online,
        v[9] == Feature::Exact(FloatBits { bits: 0 }) <==> !req.terminal.is_online,
        v[10] == Feature::Exact(FloatBits { bits: 0x3f80_0000 }) <==> req.terminal.card_present,
        v[10] == Feature::Exact(FloatBits { bits: 0 }) <==> !req.terminal.card_present,
        v[11] == Feature::Exact(FloatBits { bits: 0 }) <==> exists|i: int|
            0 <= i < req.customer.known_merchants@.len() && (
            #[trigger] req.customer.known_merchants@[i])@ == req.merchant.id@,
        v[11] == Feature::Exact(FloatBits { bits: 0x3f80_0000 }) <==> forall|i: int|
            0 <= i < req.customer.known_merchants@.len() ==> (
            #[trigger] req.customer.known_merchants@[i])@ != req.merchant.id@,
        forall|i: int|
            #![trigger risks[i]]
            0 <= i < risks.len() && risks[i].0@ == req.merchant.mcc@ && (forall|j: int|
                0 <= j < i ==> (#[trigger] risks[j]).0@ != req.merchant.mcc@) ==> v[12]
                == Feature::Exact(risks[i].1),
        (forall|j: int| 0 <= j < risks.len() ==> (#[trigger] risks[j]).0@ != req.merchant.mcc@)
            ==> v[12] == Feature::Exact(FloatBits { bits: 0x3f00_0000 }),
        v[13] == (Feature::Ratio {
            value: req.merchant.avg_amount,
            max: norm.max_merchant_avg_amount,
        }),
{
    assert forall|i: int|
        #![trigger risks[i]]
        0 <= i < risks.len() && risks[i].0@ == req.merchant.mcc@ && (forall|j: int|
            0 <= j < i ==> (#[trigger] risks[j]).0@ != req.merchant.mcc@) implies v[12]
        == Feature::Exact(risks[i].1) by {
        lemma_first_listing(risks, req.merchant.mcc@, i);
    }
    if forall|j: int| 0 <= j < risks.len() ==> (#[trigger] risks[j]).0@ != req.merchant.mcc@ {
        lemma_unlisted_risk(risks, req.merchant.mcc@);
    }
}

} // verus!
