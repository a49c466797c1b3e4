//! Quantization of single-precision numbers to int8.
//!
//! A single-precision number is held as its IEEE 754 bit pattern. The int8
//! value of `f` is `f * 127` in single precision, cut off toward zero and
//! clamped to `-127..=127`. Queries and stored vectors are quantized alike.
use vstd::prelude::*;

use crate::rounding::round_to_precision;

verus! {

/// The number of dimensions of every vector.
pub const DIMS: usize = 14;

/// One past the largest significand of a single-precision number.
pub const SIGNIFICAND_LIMIT: u128 = 0x100_0000;

/// A single-precision number, as its IEEE 754 bit pattern.
#[derive(Clone, Copy, PartialEq, Eq, Structural, Debug)]
pub struct FloatBits {
    pub bits: u32,
}

impl FloatBits {
    /// The sign bit is set.
    pub open spec fn is_negative(self) -> bool {
        self.bits >= 0x8000_0000
    }

    /// The biased exponent.
    pub open spec fn exponent(self) -> int {
        (self.bits as int / 0x80_0000) % 256
    }

    /// The stored part of the significand.
    pub open spec fn fraction(self) -> int {
        self.bits as int % 0x80_0000
    }

    /// Neither an infinity nor a NaN.
    pub open spec fn is_finite(self) -> bool {
        self.exponent() != 255
    }

    /// Not a number.
    pub open spec fn is_nan(self) -> bool {
        self.exponent() == 255 && self.fraction() != 0
    }

    /// The significand of a finite number, its leading bit filled in.
    pub open spec fn significand(self) -> nat {
        if self.exponent() == 0 {
            self.fraction() as nat
        } else {
            (self.fraction() + 0x80_0000) as nat
        }
    }

    /// A finite number has magnitude `significand * 2^(scale - 150)`.
    pub open spec fn scale(self) -> int {
        if self.exponent() == 0 {
            1
        } else {
            self.exponent()
        }
    }
}

/// The whole part of `|f| * 127` for a finite `f`, the product taken in single
/// precision.
pub open spec fn scaled_magnitude(f: FloatBits) -> int {
    let product = crate::rounding::rounded(127 * f.significand(), SIGNIFICAND_LIMIT as nat) as int;
    if f.scale() >= 150 {
        product * vstd::arithmetic::power2::pow2((f.scale() - 150) as nat) as int
    } else {
        product / vstd::arithmetic::power2::pow2((150 - f.scale()) as nat) as int
    }
}

/// The int8 value of `f`: 0 for a NaN, and the sign of `f` with a magnitude of
/// at most 127 otherwise.
pub open spec fn quantized(f: FloatBits) -> int {
    let magnitude = if !f.is_finite() || scaled_magnitude(f) > 127 {
        127
    } else {
        scaled_magnitude(f)
    };
    if f.is_nan() {
        0
    } else if f.is_negative() {
        -magnitude
    } else {
        magnitude
    }
}

proof fn lemma_product_bounds(f: FloatBits)
    ensures
        crate::rounding::rounded(127 * f.significand(), SIGNIFICAND_LIMIT as nat) < 0x1_0000_0000,
        f.exponent() > 0 ==> crate::rounding::rounded(
            127 * f.significand(),
            SIGNIFICAND_LIMIT as nat,
        ) > 127,
{
    let n = 127 * f.significand();
    let limit = SIGNIFICAND_LIMIT as nat;
    assert(n < 0x8000_0000);
    assert(1 <= crate::rounding::rounding_unit(n, limit) <= 128) by {
        reveal_with_fuel(crate::rounding::rounding_unit, 9);
    }
    crate::rounding::lemma_round_half_even_near(n, crate::rounding::rounding_unit(n, limit));
}

/// The int8 value of `f`.
pub fn quantize_scalar(f: FloatBits) -> (q: i8)
    ensures
        q == quantized(f),
        -127 <= q <= 127,
{
    let exponent: u32 = (f.bits / 0x80_0000) % 256;
    let fraction: u32 = f.bits % 0x80_0000;
    let negative: bool = f.bits >= 0x8000_0000;
    if exponent == 255 && fraction != 0 {
        return 0;
    }
    let mut magnitude: i8 = 127;
    if exponent < 150 {
        let significand: u32 = if exponent == 0 {
            fraction
        } else {
            fraction + 0x80_0000
        };
        let product: u128 = round_to_precision(127 * (significand as u128), SIGNIFICAND_LIMIT);
        proof {
            lemma_product_bounds(f);
        }
        let shift: u32 = if exponent == 0 {
            149
        } else {
            150 - exponent
        };
        let whole: u64 = if shift < 32 {
            let wide: u64 = product as u64;
            proof {
                vstd::bits::lemma_u64_shr_is_div(wide, shift as u64);
            }
            wide >> shift
        } else {
            proof {
                vstd::arithmetic::power2::lemma2_to64();
                if shift > 32 {
                    vstd::arithmetic::power2::lemma_pow2_strictly_increases(32, shift as nat);
                }
                vstd::arithmetic::power2::lemma_pow2_pos(shift as nat);
                assert(product as int / vstd::arithmetic::power2::pow2(shift as nat) as int == 0) by {
                    vstd::arithmetic::div_mod::lemma_basic_div(
                        product as int,
                        vstd::arithmetic::power2::pow2(shift as nat) as int,
                    );
                }
            }
            0
        };
        assert(whole == scaled_magnitude(f));
        if whole <= 127 {
            magnitude = whole as i8;
        }
    } else {
        proof {
            if exponent != 255 {
                lemma_product_bounds(f);
                let product = crate::rounding::rounded(
                    127 * f.significand(),
                    SIGNIFICAND_LIMIT as nat,
                ) as int;
                let factor = vstd::arithmetic::power2::pow2((exponent - 150) as nat) as int;
                vstd::arithmetic::power2::lemma_pow2_pos((exponent - 150) as nat);
                assert(product * factor > 127) by (nonlinear_arith)
                    requires
                        product > 127,
                        factor >= 1,
                ;
            }
        }
    }
    if negative {
        -magnitude
    } else {
        magnitude
    }
}

/// The int8 values of a vector, one for one.
pub open spec fn quantized_vec(v: Seq<FloatBits>) -> Seq<i8> {
    v.map_values(|f: FloatBits| quantized(f) as i8)
}

/// The int8 values of a vector, one for one.
pub fn quantize_vec(v: &[FloatBits; DIMS]) -> (out: [i8; DIMS])
    ensures
        out@ == quantized_vec(v@),
        forall|i: int| 0 <= i < DIMS ==> #[trigger] out[i] == quantized(v[i]),
{
    let mut out: [i8; DIMS] = [0i8; DIMS];
    let mut i: usize = 0;
    while i < DIMS
        invariant
            i <= DIMS,
            forall|j: int| 0 <= j < i ==> #[trigger] out[j] == quantized(v[j]),
        decreases DIMS - i,
    {
        out[i] = quantize_scalar(v[i]);
        i = i + 1;
    }
    assert(out@ =~= quantized_vec(v@));
    out
}

/// The number with the sign bit flipped.
pub open spec fn negated(f: FloatBits) -> FloatBits {
    if f.is_negative() {
        FloatBits { bits: (f.bits - 0x8000_0000) as u32 }
    } else {
        FloatBits { bits: (f.bits + 0x8000_0000) as u32 }
    }
}

/// Quantization is symmetric about zero.
pub proof fn lemma_quantized_symmetric(f: FloatBits)
    ensures
        quantized(negated(f)) == -quantized(f),
{
    let g = negated(f);
    assert(g.exponent() == f.exponent());
    assert(g.fraction() == f.fraction());
}

/// Every number of magnitude one or more, an infinity included, quantizes to
/// 127 with its sign.
pub proof fn lemma_quantized_saturates(f: FloatBits)
    requires
        f.exponent() >= 127,
        !f.is_nan(),
    ensures
        quantized(f) == if f.is_negative() {
            -127
        } else {
            127int
        },
{
    if f.is_finite() {
        let n = 127 * f.significand();
        let limit = SIGNIFICAND_LIMIT as nat;
        let product = crate::rounding::rounded(n, limit) as int;
        assert(n >= 127 * 0x80_0000);
        assert(crate::rounding::rounding_unit(n, limit) == 64 || crate::rounding::rounding_unit(
            n,
            limit,
        ) == 128) by {
            reveal_with_fuel(crate::rounding::rounding_unit, 9);
        }
        crate::rounding::lemma_round_half_even_near(n, crate::rounding::rounding_unit(n, limit));
        assert(product >= 127 * 0x80_0000);
        if f.scale() >= 150 {
            let factor = vstd::arithmetic::power2::pow2((f.scale() - 150) as nat) as int;
            vstd::arithmetic::power2::lemma_pow2_pos((f.scale() - 150) as nat);
            assert(product * factor >= 127) by (nonlinear_arith)
                requires
                    product >= 127,
                    factor >= 1,
            ;
        } else {
            let shift = (150 - f.scale()) as nat;
            vstd::arithmetic::power2::lemma2_to64();
            vstd::arithmetic::power2::lemma_pow2_pos(shift);
            if shift < 23 {
                vstd::arithmetic::power2::lemma_pow2_strictly_increases(shift, 23);
            }
            let unit = vstd::arithmetic::power2::pow2(shift) as int;
            assert(product / unit >= 127) by (nonlinear_arith)
                requires
                    product >= 127 * 0x80_0000,
                    0 < unit <= 0x80_0000,
            ;
        }
    }
}

/// Zero, of either sign, quantizes to zero.
pub proof fn lemma_quantized_zero(f: FloatBits)
    requires
        f.exponent() == 0,
        f.fraction() == 0,
    ensures
        quantized(f) == 0,
{
    let unit = vstd::arithmetic::power2::pow2(149) as int;
    vstd::arithmetic::power2::lemma_pow2_pos(149);
    assert(crate::rounding::rounded(0, SIGNIFICAND_LIMIT as nat) == 0);
    assert(0int / unit == 0) by (nonlinear_arith)
        requires
            unit > 0,
    ;
}

/// `a` is not greater than `b`, for numbers.
pub open spec fn not_greater(a: FloatBits, b: FloatBits) -> bool {
    if a.is_negative() && b.is_negative() {
        b.bits <= a.bits
    } else if a.is_negative() {
        true
    } else if b.is_negative() {
        a.bits == 0 && b.bits == 0x8000_0000
    } else {
        a.bits <= b.bits
    }
}

/// The product before it is cut off, in units of `2^(scale - 150)`.
spec fn product(f: FloatBits) -> nat {
    crate::rounding::rounded(127 * f.significand(), SIGNIFICAND_LIMIT as nat)
}

proof fn lemma_exact_product(n: nat)
    requires
        n == 127 * 0x80_0000 || n == 127 * 0x100_0000,
    ensures
        crate::rounding::rounded(n, SIGNIFICAND_LIMIT as nat) == n,
{
    let unit = crate::rounding::rounding_unit(n, SIGNIFICAND_LIMIT as nat);
    assert(unit == if n == 127 * 0x80_0000 {
        64nat
    } else {
        128nat
    }) by {
        reveal_with_fuel(crate::rounding::rounding_unit, 9);
    }
    assert(n % unit == 0 && n / unit == 127 * 0x2_0000);
    assert((n / unit) * unit == n);
}

proof fn lemma_small_magnitudes_ordered(a: FloatBits, b: FloatBits)
    requires
        !a.is_negative(),
        a.bits <= b.bits,
        b.bits < 0x3f80_0000,
    ensures
        scaled_magnitude(a) <= scaled_magnitude(b),
{
    let limit = SIGNIFICAND_LIMIT as nat;
    let sa = (150 - a.scale()) as nat;
    let sb = (150 - b.scale()) as nat;
    let pa = product(a) as int;
    let pb = product(b) as int;
    vstd::arithmetic::power2::lemma_pow2_pos(sa);
    vstd::arithmetic::power2::lemma_pow2_pos(sb);
    let ub = vstd::arithmetic::power2::pow2(sb) as int;
    if sa == sb {
        assert(a.significand() <= b.significand());
        crate::rounding::lemma_rounded_monotone(127 * a.significand(), 127 * b.significand(), limit);
        vstd::arithmetic::div_mod::lemma_div_is_ordered(pa, pb, ub);
    } else {
        let d = (sa - sb) as nat;
        let ud = vstd::arithmetic::power2::pow2(d) as int;
        assert(a.scale() < b.scale() && b.exponent() > 0);
        lemma_exact_product(127 * 0x80_0000);
        lemma_exact_product(127 * 0x100_0000);
        crate::rounding::lemma_rounded_monotone(127 * a.significand(), 127 * 0x100_0000, limit);
        crate::rounding::lemma_rounded_monotone(127 * 0x80_0000, 127 * b.significand(), limit);
        vstd::arithmetic::power2::lemma_pow2_adds(d, sb);
        vstd::arithmetic::power2::lemma2_to64();
        if d > 1 {
            vstd::arithmetic::power2::lemma_pow2_strictly_increases(1, d);
        }
        assert(pa <= ud * pb) by (nonlinear_arith)
            requires
                pa <= 2 * pb,
                ud >= 2,
                pb >= 0,
        ;
        vstd::arithmetic::div_mod::lemma_div_is_ordered(pa, ud * pb, ud * ub);
        vstd::arithmetic::div_mod::lemma_div_denominator(ud * pb, ud, ub);
        assert((ud * pb) / ud == pb) by (nonlinear_arith)
            requires
                ud > 0,
        ;
    }
}

/// Quantization keeps the order of numbers.
pub proof fn lemma_quantized_monotone(a: FloatBits, b: FloatBits)
    requires
        !a.is_nan(),
        !b.is_nan(),
        not_greater(a, b),
    ensures
        quantized(a) <= quantized(b),
{
    lemma_magnitude_not_negative(a);
    lemma_magnitude_not_negative(b);
    if a.is_negative() && b.is_negative() {
        lemma_quantized_symmetric(a);
        lemma_quantized_symmetric(b);
        lemma_positive_ordered(negated(b), negated(a));
    } else if !a.is_negative() && !b.is_negative() {
        lemma_positive_ordered(a, b);
    } else if b.is_negative() {
        lemma_quantized_zero(a);
        lemma_quantized_zero(b);
    }
}

proof fn lemma_magnitude_not_negative(f: FloatBits)
    requires
        !f.is_nan(),
    ensures
        f.is_finite() ==> scaled_magnitude(f) >= 0,
{
    let p = product(f) as int;
    if f.scale() >= 150 {
        let factor = vstd::arithmetic::power2::pow2((f.scale() - 150) as nat) as int;
        assert(p * factor >= 0) by (nonlinear_arith)
            requires
                p >= 0,
                factor >= 0,
        ;
    } else {
        let unit = vstd::arithmetic::power2::pow2((150 - f.scale()) as nat) as int;
        vstd::arithmetic::power2::lemma_pow2_pos((150 - f.scale()) as nat);
        assert(p / unit >= 0) by (nonlinear_arith)
            requires
                p >= 0,
                unit > 0,
        ;
    }
}

proof fn lemma_positive_ordered(a: FloatBits, b: FloatBits)
    requires
        !a.is_negative(),
        !b.is_negative(),
        !a.is_nan(),
        !b.is_nan(),
        a.bits <= b.bits,
    ensures
        quantized(a) <= quantized(b),
{
    if b.bits >= 0x3f80_0000 {
        lemma_quantized_saturates(b);
    } else {
        lemma_small_magnitudes_ordered(a, b);
    }
}

/// What quantization is for, of a number with exponent field `e` and full
/// significand `sig`: the int8 magnitude `m` is the whole part of the
/// single-precision product of the number and 127, and at most 127.
pub proof fn lemma_quantized_is_cut_off_product(f: FloatBits, e: int, sig: nat, m: int)
    requires
        e == f.bits as int / 0x80_0000 % 256,
        sig == f.bits as int % 0x80_0000 + 0x80_0000,
        m == if f.bits >= 0x8000_0000 {
            -quantized(f)
        } else {
            quantized(f)
        },
    ensures
        e == 0 ==> m == 0,
        150 <= e < 255 ==> m == 127,
        e == 255 && sig == 0x80_0000 ==> m == 127,
        e == 255 && sig > 0x80_0000 ==> m == 0,
        0 < e < 150 ==> ({
            let product = crate::rounding::rounded(127 * sig, 0x100_0000) as int;
            let one = vstd::arithmetic::power2::pow2((150 - e) as nat) as int;
            &&& product >= 128 * one ==> m == 127
            &&& product < 128 * one ==> m * one <= product < (m + 1) * one
        }),
{
    if e == 0 {
        lemma_product_bounds(f);
        vstd::arithmetic::power2::lemma2_to64();
        vstd::arithmetic::power2::lemma_pow2_strictly_increases(32, 149);
        let one = vstd::arithmetic::power2::pow2(149) as int;
        let p = product(f) as int;
        assert(p / one == 0) by {
            vstd::arithmetic::div_mod::lemma_basic_div(p, one);
        }
    } else if 150 <= e {
        if !f.is_nan() {
            lemma_quantized_saturates(f);
        }
    } else {
        let p = product(f) as int;
        let one = vstd::arithmetic::power2::pow2((150 - e) as nat) as int;
        vstd::arithmetic::power2::lemma_pow2_pos((150 - e) as nat);
        let w = p / one;
        assert(w * one <= p < (w + 1) * one) by (nonlinear_arith)
            requires
                one > 0,
                w == p / one,
        ;
        if p >= 128 * one {
            assert(w >= 128) by (nonlinear_arith)
                requires
                    p >= 128 * one,
                    p < (w + 1) * one,
                    one > 0,
            ;
        } else {
            assert(w <= 127) by (nonlinear_arith)
                requires
                    p < 128 * one,
                    w * one <= p,
                    one > 0,
            ;
        }
    }
}

} // verus!
