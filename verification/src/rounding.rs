//! Rounding of whole numbers as binary floating-point products round: to a
//! number of significant bits, to nearest, ties to even.
use vstd::prelude::*;

verus! {

/// The smallest power of two by which `n` can be divided down below `limit`.
pub open spec fn rounding_unit(n: nat, limit: nat) -> nat
    decreases n,
{
    if n < limit || n == 0 {
        1
    } else {
        2 * rounding_unit(n / 2, limit)
    }
}

/// `n` rounded to a multiple of `unit`, to nearest, ties to even multiples.
pub open spec fn round_half_even(n: nat, unit: nat) -> nat {
    let q = n / unit;
    let r = n % unit;
    if 2 * r < unit || (2 * r == unit && q % 2 == 0) {
        q * unit
    } else {
        (q + 1) * unit
    }
}

/// `n` rounded to the precision of numbers whose significand lies below
/// `limit`.
pub open spec fn rounded(n: nat, limit: nat) -> nat {
    round_half_even(n, rounding_unit(n, limit))
}

/// Rounding moves a number by less than one unit.
pub proof fn lemma_round_half_even_near(n: nat, unit: nat)
    requires
        unit > 0,
    ensures
        n < round_half_even(n, unit) + unit,
        round_half_even(n, unit) < n + unit,
{
    let q = n / unit;
    let r = n % unit;
    assert(n == q * unit + r && r < unit) by (nonlinear_arith)
        requires
            unit > 0,
            q == n / unit,
            r == n % unit,
    ;
    assert((q + 1) * unit == q * unit + unit) by (nonlinear_arith);
}

/// The unit leaves a significand below the limit, and of at least half of it
/// unless the number itself is below the limit.
pub proof fn lemma_unit_range(n: nat, limit: nat)
    requires
        limit >= 2,
    ensures
        rounding_unit(n, limit) >= 1,
        n < limit * rounding_unit(n, limit),
        rounding_unit(n, limit) == 1 || limit * rounding_unit(n, limit) <= 2 * n,
    decreases n,
{
    if n >= limit {
        let u = rounding_unit(n / 2, limit);
        lemma_unit_range(n / 2, limit);
        assert(limit * (2 * u) == 2 * (limit * u)) by (nonlinear_arith);
        assert(u == 1 ==> limit * u == limit) by (nonlinear_arith);
    } else {
        assert(limit * 1 == limit) by (nonlinear_arith);
    }
}

/// The unit is a power of two.
proof fn lemma_unit_is_power(n: nat, limit: nat) -> (e: nat)
    requires
        limit >= 2,
    ensures
        rounding_unit(n, limit) == vstd::arithmetic::power2::pow2(e),
        n >= limit ==> e >= 1,
    decreases n,
{
    vstd::arithmetic::power2::lemma2_to64();
    if n >= limit {
        let e = lemma_unit_is_power(n / 2, limit);
        vstd::arithmetic::power2::lemma_pow2_unfold(e + 1);
        e + 1
    } else {
        0
    }
}

/// A number below the limit stays as it is. Any other goes to the nearest
/// multiple of the power of two that brings its significand below the limit, and
/// between two equally near ones to the even one.
pub proof fn lemma_rounded_to_nearest(n: nat, limit: nat)
    requires
        limit >= 2,
    ensures
        n < limit ==> rounded(n, limit) == n,
        n >= limit ==> exists|e: nat|
            {
                let unit = #[trigger] vstd::arithmetic::power2::pow2(e) as int;
                let r = rounded(n, limit) as int;
                &&& n < limit * unit <= 2 * n
                &&& r % unit == 0
                &&& -unit <= 2 * (r - n) <= unit
                &&& 2 * (r - n) == unit || 2 * (n - r) == unit ==> (r / unit) % 2 == 0
            },
{
    let unit = rounding_unit(n, limit);
    let e = lemma_unit_is_power(n, limit);
    lemma_unit_range(n, limit);
    let q = n / unit;
    let r = n % unit;
    lemma_round_half_even_bounds(n, unit, q, r);
    if n < limit {
        assert(q == n && q * unit == n) by (nonlinear_arith)
            requires
                unit == 1,
                q == n / unit,
        ;
    } else {
        if unit == 1 {
            vstd::arithmetic::power2::lemma2_to64();
            if e > 0 {
                vstd::arithmetic::power2::lemma_pow2_strictly_increases(0, e);
            }
        }
        lemma_multiple(q as int, unit as int);
        lemma_multiple((q + 1) as int, unit as int);
    }
}

proof fn lemma_multiple(q: int, unit: int)
    requires
        unit > 0,
    ensures
        (q * unit) % unit == 0,
        (q * unit) / unit == q,
{
    assert((q * unit) % unit == 0) by (nonlinear_arith)
        requires
            unit > 0,
    ;
    assert((q * unit) / unit == q) by (nonlinear_arith)
        requires
            unit > 0,
    ;
}

proof fn lemma_unit_grows(a: nat, b: nat, limit: nat)
    requires
        a <= b,
        limit >= 2,
    ensures
        rounding_unit(a, limit) == rounding_unit(b, limit) || 2 * rounding_unit(a, limit)
            <= rounding_unit(b, limit),
    decreases b,
{
    if a >= limit {
        lemma_unit_grows(a / 2, b / 2, limit);
    } else if b >= limit {
        lemma_unit_range(b / 2, limit);
    }
}

proof fn lemma_round_half_even_bounds(n: nat, unit: nat, q: nat, r: nat)
    requires
        unit > 0,
        q == n / unit,
        r == n % unit,
    ensures
        n == q * unit + r,
        r < unit,
        (q + 1) * unit == q * unit + unit,
{
    assert(n == q * unit + r && r < unit) by (nonlinear_arith)
        requires
            unit > 0,
            q == n / unit,
            r == n % unit,
    ;
    assert((q + 1) * unit == q * unit + unit) by (nonlinear_arith);
}

proof fn lemma_same_unit_monotone(a: nat, b: nat, unit: nat)
    requires
        a <= b,
        unit > 0,
    ensures
        round_half_even(a, unit) <= round_half_even(b, unit),
{
    let qa = a / unit;
    let qb = b / unit;
    lemma_round_half_even_bounds(a, unit, qa, a % unit);
    lemma_round_half_even_bounds(b, unit, qb, b % unit);
    assert(qa <= qb) by (nonlinear_arith)
        requires
            qa * unit <= b,
            b < qb * unit + unit,
            unit > 0,
    ;
    if qa < qb {
        assert((qa + 1) * unit <= qb * unit) by (nonlinear_arith)
            requires
                qa + 1 <= qb,
                unit > 0,
        ;
    }
}

/// Rounding keeps the order of numbers.
pub proof fn lemma_rounded_monotone(a: nat, b: nat, limit: nat)
    requires
        a <= b,
        limit >= 2,
        limit % 2 == 0,
    ensures
        rounded(a, limit) <= rounded(b, limit),
{
    let ua = rounding_unit(a, limit);
    let ub = rounding_unit(b, limit);
    lemma_unit_range(a, limit);
    lemma_unit_range(b, limit);
    lemma_unit_grows(a, b, limit);
    if ua == ub {
        lemma_same_unit_monotone(a, b, ua);
    } else {
        let half = limit / 2;
        let qa = a / ua;
        let qb = b / ub;
        lemma_round_half_even_bounds(a, ua, qa, a % ua);
        lemma_round_half_even_bounds(b, ub, qb, b % ub);
        assert(qa < limit) by (nonlinear_arith)
            requires
                qa * ua <= a,
                a < limit * ua,
                ua > 0,
        ;
        assert((qa + 1) * ua <= limit * ua) by (nonlinear_arith)
            requires
                qa + 1 <= limit,
                ua > 0,
        ;
        assert(limit * ub == 2 * (half * ub)) by (nonlinear_arith)
            requires
                limit == 2 * half,
        ;
        assert(qb >= half) by (nonlinear_arith)
            requires
                half * ub <= b,
                b < (qb + 1) * ub,
                ub > 0,
        ;
        assert(half * ub <= qb * ub) by (nonlinear_arith)
            requires
                half <= qb,
        ;
        assert(limit * ua <= half * ub) by (nonlinear_arith)
            requires
                limit == 2 * half,
                2 * ua <= ub,
        ;
    }
}

/// `n` rounded to the precision of numbers whose significand lies below
/// `limit`.
pub fn round_to_precision(n: u128, limit: u128) -> (r: u128)
    requires
        limit >= 2,
        n < 0x8000_0000_0000_0000_0000_0000_0000_0000,
    ensures
        r == rounded(n as nat, limit as nat),
        n < limit ==> r == n,
        n >= limit ==> exists|e: nat|
            {
                let unit = #[trigger] vstd::arithmetic::power2::pow2(e) as int;
                &&& n < limit * unit <= 2 * n
                &&& r as int % unit == 0
                &&& -unit <= 2 * (r - n) <= unit
                &&& 2 * (r - n) == unit || 2 * (n - r) == unit ==> (r as int / unit) % 2 == 0
            },
{
    proof {
        lemma_rounded_to_nearest(n as nat, limit as nat);
    }
    let mut unit: u128 = 1;
    let mut rest: u128 = n;
    while rest >= limit
        invariant
            limit >= 2,
            n < 0x8000_0000_0000_0000_0000_0000_0000_0000,
            unit >= 1,
            unit * rest <= n,
            unit <= n || unit == 1,
            unit * rounding_unit(rest as nat, limit as nat) == rounding_unit(
                n as nat,
                limit as nat,
            ),
        decreases rest,
    {
        assert(2 * unit <= n && (2 * unit) * (rest / 2) <= n) by (nonlinear_arith)
            requires
                unit >= 1,
                rest >= 2,
                unit * rest <= n,
        ;
        let ghost inner = rounding_unit((rest / 2) as nat, limit as nat);
        assert((2 * unit) * inner == unit * (2 * inner)) by (nonlinear_arith);
        unit = unit * 2;
        rest = rest / 2;
    }
    assert(unit == rounding_unit(n as nat, limit as nat)) by {
        assert(unit * 1 == unit) by (nonlinear_arith);
    }
    let q: u128 = n / unit;
    let r: u128 = n % unit;
    assert(q * unit <= n && (q + 1) * unit == q * unit + unit) by (nonlinear_arith)
        requires
            unit >= 1,
            q == n / unit,
    ;
    if r < unit - r || (r == unit - r && q % 2 == 0) {
        q * unit
    } else {
        (q + 1) * unit
    }
}

} // verus!
