//! IEEE-754 binary64 numbers, handled as their 64-bit patterns.
//!
//! A pattern holds a sign bit, an 11-bit exponent field and a 52-bit fraction
//! field. A finite pattern stands for `significand * 2^scale`, negated where the
//! sign bit is set. Everything here is integer arithmetic on those fields.

use vstd::arithmetic::div_mod::*;
use vstd::arithmetic::mul::*;
use vstd::arithmetic::power2::*;
use vstd::bits::*;
use vstd::prelude::*;

verus! {

/// 2^52: the weight of the implicit leading bit of a normal significand.
pub const TWO_52: u64 = 0x0010_0000_0000_0000;

/// 2^53: every integer up to this magnitude has a pattern of its own.
pub const TWO_53: u64 = 0x0020_0000_0000_0000;

/// 2^63: the sign bit.
pub const TWO_63: u64 = 0x8000_0000_0000_0000;

/// The pattern of negative zero.
pub const NEGATIVE_ZERO: u64 = 0x8000_0000_0000_0000;

/// Whether the sign bit is set.
pub open spec fn is_negative(bits: u64) -> bool {
    bits >= TWO_63
}

/// The exponent field, in `0..2048`.
pub open spec fn exponent(bits: u64) -> int {
    (bits as int / TWO_52 as int) % 2048
}

/// The fraction field, in `0..2^52`.
pub open spec fn fraction(bits: u64) -> int {
    bits as int % TWO_52 as int
}

/// Whether the pattern is not a number.
pub open spec fn spec_is_nan(bits: u64) -> bool {
    exponent(bits) == 2047 && fraction(bits) != 0
}

/// Whether the pattern is an infinity.
pub open spec fn spec_is_infinite(bits: u64) -> bool {
    exponent(bits) == 2047 && fraction(bits) == 0
}

/// Whether the pattern stands for a number that is not an infinity.
pub open spec fn is_finite(bits: u64) -> bool {
    exponent(bits) != 2047
}

/// The significand of a finite pattern: the fraction, with the implicit
/// leading bit unless the pattern is subnormal.
pub open spec fn significand(bits: u64) -> int {
    if exponent(bits) == 0 {
        fraction(bits)
    } else {
        fraction(bits) + TWO_52
    }
}

/// The power of two that scales the significand of a finite pattern.
pub open spec fn scale(bits: u64) -> int {
    if exponent(bits) == 0 {
        -1074
    } else {
        exponent(bits) - 1075
    }
}

/// Whether the pattern is finite and stands for an integer.
pub open spec fn spec_is_integral(bits: u64) -> bool {
    is_finite(bits) && (scale(bits) >= 0 || significand(bits) % (pow2((-scale(bits)) as nat) as int)
        == 0)
}

/// The magnitude of a finite pattern, rounded toward zero.
pub open spec fn truncated_magnitude(bits: u64) -> int {
    if scale(bits) >= 0 {
        significand(bits) * pow2(scale(bits) as nat)
    } else {
        significand(bits) / (pow2((-scale(bits)) as nat) as int)
    }
}

/// The value of a finite pattern, rounded toward zero.
pub open spec fn truncated(bits: u64) -> int {
    if is_negative(bits) {
        -truncated_magnitude(bits)
    } else {
        truncated_magnitude(bits)
    }
}

/// The value rounded toward zero and brought into the range of `i64`: a NaN
/// gives 0, and what lies beyond the range gives the nearest end of it.
pub open spec fn spec_to_i64(bits: u64) -> int {
    if spec_is_nan(bits) {
        0
    } else if spec_is_infinite(bits) {
        if is_negative(bits) {
            i64::MIN as int
        } else {
            i64::MAX as int
        }
    } else if truncated(bits) < i64::MIN {
        i64::MIN as int
    } else if truncated(bits) > i64::MAX {
        i64::MAX as int
    } else {
        truncated(bits)
    }
}

/// The position of the highest set bit of `m`: the `p` with
/// `2^p <= m < 2^(p+1)`.
pub open spec fn floor_log2(m: nat) -> nat
    decreases m,
{
    if m <= 1 {
        0
    } else {
        floor_log2(m / 2) + 1
    }
}

/// The significand of the pattern nearest to the positive integer `m`, in
/// `2^52..=2^53`: `m` scaled up where it has at most 53 bits, and else cut to
/// 53 bits and rounded to nearest, a tie going to the even significand.
pub open spec fn rounded_significand(m: nat) -> nat {
    let p = floor_log2(m);
    if p <= 52 {
        m * pow2((52 - p) as nat)
    } else {
        let d = pow2((p - 52) as nat);
        let q = m / d;
        let r = m % d;
        if 2 * r > d || (2 * r == d && q % 2 == 1) {
            q + 1
        } else {
            q
        }
    }
}

/// The pattern nearest to the integer `i`, which is to lie in
/// `-2^63..=2^63`.
pub open spec fn spec_from_int(i: int) -> u64 {
    if i == 0 {
        0
    } else {
        let m = (if i < 0 {
            -i
        } else {
            i
        }) as nat;
        ((if i < 0 {
            TWO_63 as int
        } else {
            0
        }) + (1022 + floor_log2(m)) * TWO_52 + rounded_significand(m)) as u64
    }
}

proof fn lemma_pow2_increases(e1: nat, e2: nat)
    requires
        e1 <= e2,
    ensures
        pow2(e1) <= pow2(e2),
{
    if e1 < e2 {
        lemma_pow2_strictly_increases(e1, e2);
    }
}

/// `floor_log2(m)` is the position of the highest set bit of `m`.
pub proof fn lemma_floor_log2_bounds(m: nat)
    requires
        m >= 1,
    ensures
        pow2(floor_log2(m)) <= m < pow2(floor_log2(m) + 1),
    decreases m,
{
    if m == 1 {
        lemma2_to64();
    } else {
        lemma_floor_log2_bounds(m / 2);
        lemma_pow2_unfold(floor_log2(m));
        lemma_pow2_unfold(floor_log2(m) + 1);
    }
}

/// Only one `p` has `2^p <= m < 2^(p+1)`.
pub proof fn lemma_floor_log2_unique(m: nat, p: nat)
    requires
        pow2(p) <= m < pow2(p + 1),
    ensures
        floor_log2(m) == p,
{
    lemma_pow2_pos(p);
    lemma_floor_log2_bounds(m);
    let q = floor_log2(m);
    if q < p {
        lemma_pow2_increases(q + 1, p);
    } else if q > p {
        lemma_pow2_increases(p + 1, q);
    }
}

/// A pattern is the sum of its three fields, each at its place.
proof fn lemma_unpack(bits: u64)
    ensures
        0 <= exponent(bits) < 2048,
        0 <= fraction(bits) < TWO_52,
        bits == (if is_negative(bits) {
            TWO_63 as int
        } else {
            0
        }) + exponent(bits) * TWO_52 + fraction(bits),
{
    let high = bits as int / TWO_52 as int;
    lemma_fundamental_div_mod(bits as int, TWO_52 as int);
    lemma_fundamental_div_mod(high, 2048);
    assert(0 <= high < 4096);
    assert(high / 2048 == 0 || high / 2048 == 1);
}

/// Three fields put at their places are the fields of the sum.
proof fn lemma_pack(negative: bool, e: int, f: int)
    requires
        0 <= e < 2048,
        0 <= f < TWO_52,
    ensures
        ({
            let bits = ((if negative {
                TWO_63 as int
            } else {
                0
            }) + e * TWO_52 + f) as u64;
            &&& bits == (if negative {
                TWO_63 as int
            } else {
                0
            }) + e * TWO_52 + f
            &&& is_negative(bits) == negative
            &&& exponent(bits) == e
            &&& fraction(bits) == f
        }),
{
    let s: int = if negative {
        2048
    } else {
        0
    };
    let x = s * TWO_52 + e * TWO_52 + f;
    assert(x == (s + e) * TWO_52 + f);
    lemma_fundamental_div_mod_converse(x, TWO_52 as int, s + e, f);
    lemma_fundamental_div_mod_converse(s + e, 2048, s / 2048, e);
}

/// Below exponent 1023 the magnitude is less than one.
proof fn lemma_below_one(bits: u64)
    requires
        exponent(bits) < 1023,
    ensures
        scale(bits) < 0,
        truncated_magnitude(bits) == 0,
        spec_is_integral(bits) <==> significand(bits) == 0,
        significand(bits) == 0 <==> (exponent(bits) == 0 && fraction(bits) == 0),
{
    lemma_unpack(bits);
    let k = (-scale(bits)) as nat;
    lemma2_to64_rest();
    lemma_pow2_increases(53, k);
    lemma_small_mod(significand(bits) as nat, pow2(k));
    lemma_basic_div(significand(bits), pow2(k) as int);
}

fn exponent_field(bits: u64) -> (e: u64)
    ensures
        e == exponent(bits),
        e < 2048,
{
    (bits / TWO_52) % 2048
}

fn fraction_field(bits: u64) -> (f: u64)
    ensures
        f == fraction(bits),
        f < TWO_52,
{
    bits % TWO_52
}

fn power_of_two(k: u64) -> (d: u64)
    requires
        k < 64,
    ensures
        d == pow2(k as nat),
        d >= 1,
{
    proof {
        lemma_u64_pow2_no_overflow(k as nat);
        lemma_u64_shl_is_mul(1, k);
    }
    1u64 << k
}

/// Whether `bits` is not a number.
#[verifier::when_used_as_spec(spec_is_nan)]
pub fn is_nan(bits: u64) -> (r: bool)
    ensures
        r == spec_is_nan(bits),
{
    exponent_field(bits) == 2047 && fraction_field(bits) != 0
}

/// Whether `bits` is an infinity.
#[verifier::when_used_as_spec(spec_is_infinite)]
pub fn is_infinite(bits: u64) -> (r: bool)
    ensures
        r == spec_is_infinite(bits),
{
    exponent_field(bits) == 2047 && fraction_field(bits) == 0
}

/// Whether `bits` is finite and stands for an integer.
#[verifier::when_used_as_spec(spec_is_integral)]
pub fn is_integral(bits: u64) -> (r: bool)
    ensures
        r == spec_is_integral(bits),
{
    let e = exponent_field(bits);
    let f = fraction_field(bits);
    if e == 2047 {
        false
    } else if e < 1023 {
        proof {
            lemma_below_one(bits);
        }
        e == 0 && f == 0
    } else if e >= 1075 {
        true
    } else {
        let d = power_of_two(1075 - e);
        (f + TWO_52) % d == 0
    }
}

/// The value of `bits` rounded toward zero, as `i64`: a NaN gives 0, and what
/// lies beyond the range of `i64` gives the nearest end of it.
pub fn to_i64(bits: u64) -> (r: i64)
    ensures
        r == spec_to_i64(bits),
{
    let e = exponent_field(bits);
    let f = fraction_field(bits);
    let negative = bits >= TWO_63;
    if e == 2047 {
        if f != 0 {
            0
        } else if negative {
            i64::MIN
        } else {
            i64::MAX
        }
    } else if e < 1023 {
        proof {
            lemma_below_one(bits);
        }
        0
    } else if e <= 1075 {
        let d = power_of_two(1075 - e);
        let magnitude = (f + TWO_52) / d;
        proof {
            lemma2_to64();
            if e == 1075 {
                assert(truncated_magnitude(bits) == significand(bits) * 1);
                assert((f + TWO_52) / (d as int) == f + TWO_52) by (nonlinear_arith)
                    requires
                        d == 1,
                ;
            }
            lemma_pow2_pos((1075 - e) as nat);
            lemma_div_nonincreasing((f + TWO_52) as int, d as int);
            assert(truncated_magnitude(bits) == magnitude);
        }
        if negative {
            -(magnitude as i64)
        } else {
            magnitude as i64
        }
    } else if e <= 1085 {
        let d = power_of_two(e - 1075);
        proof {
            lemma2_to64();
            lemma_pow2_increases((e - 1075) as nat, 10);
            assert((f + TWO_52) * d < TWO_63) by (nonlinear_arith)
                requires
                    0 <= f + TWO_52 < TWO_53,
                    0 < d <= 1024,
            ;
        }
        let magnitude = (f + TWO_52) * d;
        assert(truncated_magnitude(bits) == magnitude);
        if negative {
            -(magnitude as i64)
        } else {
            magnitude as i64
        }
    } else {
        proof {
            lemma2_to64();
            lemma_pow2_increases(11, (e - 1075) as nat);
            let p = pow2((e - 1075) as nat) as int;
            assert((f + TWO_52) * p >= TWO_63) by (nonlinear_arith)
                requires
                    f + TWO_52 >= TWO_52,
                    p >= 2048,
            ;
            assert(truncated_magnitude(bits) >= TWO_63);
        }
        if negative {
            i64::MIN
        } else {
            i64::MAX
        }
    }
}

fn highest_bit(m: u64) -> (p: u64)
    requires
        m >= 1,
    ensures
        p == floor_log2(m as nat),
        p <= 63,
        pow2(p as nat) <= m < pow2(p as nat + 1),
{
    proof {
        lemma_floor_log2_bounds(m as nat);
        lemma2_to64();
        if floor_log2(m as nat) > 63 {
            lemma_pow2_increases(64, floor_log2(m as nat));
        }
    }
    let mut p: u64 = 0;
    let mut rest: u64 = m;
    while rest > 1
        invariant
            rest >= 1,
            floor_log2(m as nat) == p + floor_log2(rest as nat),
            floor_log2(m as nat) <= 63,
        decreases rest,
    {
        rest = rest / 2;
        p = p + 1;
    }
    p
}

/// The pattern nearest to `value`; of two that are equally near, the one with
/// the even significand.
pub fn from_i64(value: i64) -> (bits: u64)
    ensures
        bits == spec_from_int(value as int),
{
    if value == 0 {
        return 0;
    }
    let negative = value < 0;
    let m: u64 = if value == i64::MIN {
        TWO_63
    } else if negative {
        (-value) as u64
    } else {
        value as u64
    };
    let p = highest_bit(m);
    let sig: u64 = if p <= 52 {
        let d = power_of_two(52 - p);
        proof {
            lemma_pow2_adds(p as nat + 1, (52 - p) as nat);
            lemma2_to64_rest();
            lemma_pow2_pos((52 - p) as nat);
            lemma_mul_strict_inequality(m as int, pow2(p as nat + 1) as int, d as int);
        }
        m * d
    } else {
        let d = power_of_two(p - 52);
        let q = m / d;
        let r = m % d;
        proof {
            lemma_pow2_unfold((p - 52) as nat);
            lemma_pow2_pos((p - 53) as nat);
            lemma_div_nonincreasing(m as int, d as int);
            lemma_rounded_quotient(m as nat);
        }
        if r > d / 2 || (r == d / 2 && q % 2 == 1) {
            q + 1
        } else {
            q
        }
    };
    proof {
        lemma_rounded_significand_bounds(m as nat);
    }
    let sign_bit: u64 = if negative {
        TWO_63
    } else {
        0
    };
    sign_bit + (1022 + p) * TWO_52 + sig
}

/// The pattern of `value`, which every `i32` has exactly.
pub fn from_i32(value: i32) -> (bits: u64)
    ensures
        bits == spec_from_int(value as int),
{
    from_i64(value as i64)
}

/// With more than 53 bits, the quotient that `rounded_significand` rounds lies
/// in `2^52..2^53`.
proof fn lemma_rounded_quotient(m: nat)
    requires
        m >= 1,
        floor_log2(m) > 52,
    ensures
        ({
            let d = pow2((floor_log2(m) - 52) as nat);
            &&& d >= 2
            &&& TWO_52 <= m / d < TWO_53
        }),
{
    let p = floor_log2(m);
    let k = (p - 52) as nat;
    let d = pow2(k);
    lemma_floor_log2_bounds(m);
    lemma2_to64();
    lemma2_to64_rest();
    lemma_pow2_increases(1, k);
    lemma_pow2_adds(52, k);
    lemma_pow2_adds(53, k);
    lemma_fundamental_div_mod(m as int, d as int);
    lemma_mod_bound(m as int, d as int);
    let q = m as int / d as int;
    let r = m as int % d as int;
    assert(m == d * q + r);
    if q < TWO_52 {
        assert(d * q + r < d * TWO_52) by (nonlinear_arith)
            requires
                q < TWO_52,
                0 <= r < d,
        ;
    }
    if q >= TWO_53 {
        assert(d * q + r >= d * TWO_53) by (nonlinear_arith)
            requires
                q >= TWO_53,
                0 <= r < d,
        ;
    }
    assert(pow2(52) * d == d * TWO_52) by (nonlinear_arith)
        requires
            pow2(52) == TWO_52,
    ;
    assert(pow2(53) * d == d * TWO_53) by (nonlinear_arith)
        requires
            pow2(53) == TWO_53,
    ;
}

/// The rounded significand of a positive integer lies in `2^52..=2^53`.
pub proof fn lemma_rounded_significand_bounds(m: nat)
    requires
        m >= 1,
    ensures
        TWO_52 <= rounded_significand(m) <= TWO_53,
        floor_log2(m) <= 52 ==> rounded_significand(m) < TWO_53,
{
    let p = floor_log2(m);
    lemma_floor_log2_bounds(m);
    lemma2_to64_rest();
    if p <= 52 {
        let k = (52 - p) as nat;
        lemma_pow2_adds(p, k);
        lemma_pow2_adds(p + 1, k);
        lemma_pow2_pos(k);
        lemma_mul_inequality(pow2(p) as int, m as int, pow2(k) as int);
        lemma_mul_strict_inequality(m as int, pow2(p + 1) as int, pow2(k) as int);
    } else {
        lemma_rounded_quotient(m);
    }
}

/// The fields of the pattern nearest to a nonzero integer.
pub proof fn lemma_from_int_fields(i: int)
    requires
        i != 0,
        -(TWO_63 as int) <= i <= TWO_63,
    ensures
        ({
            let m = (if i < 0 {
                -i
            } else {
                i
            }) as nat;
            let p = floor_log2(m);
            let sig = rounded_significand(m);
            let bits = spec_from_int(i);
            &&& p <= 63
            &&& TWO_52 <= sig <= TWO_53
            &&& is_negative(bits) == (i < 0)
            &&& exponent(bits) == (if sig == TWO_53 {
                1024 + p
            } else {
                1023 + p
            })
            &&& fraction(bits) == (if sig == TWO_53 {
                0
            } else {
                sig - TWO_52
            })
        }),
{
    let m = (if i < 0 {
        -i
    } else {
        i
    }) as nat;
    let p = floor_log2(m);
    let sig = rounded_significand(m);
    lemma_floor_log2_bounds(m);
    lemma2_to64();
    if p > 63 {
        lemma_pow2_increases(64, p);
    }
    lemma_rounded_significand_bounds(m);
    if sig == TWO_53 {
        lemma_pack(i < 0, (1024 + p) as int, 0);
    } else {
        lemma_pack(i < 0, (1023 + p) as int, sig - TWO_52);
    }
}

/// The value of the pattern nearest to a nonzero integer is the rounded
/// significand at the place where it was cut.
proof fn lemma_from_int_magnitude(i: int)
    requires
        i != 0,
        -(TWO_63 as int) <= i <= TWO_63,
    ensures
        ({
            let m = (if i < 0 {
                -i
            } else {
                i
            }) as nat;
            let p = floor_log2(m);
            let bits = spec_from_int(i);
            &&& spec_is_integral(bits)
            &&& p <= 52 ==> truncated_magnitude(bits) == m
            &&& p > 52 ==> truncated_magnitude(bits) == rounded_significand(m) * pow2(
                (p - 52) as nat,
            )
        }),
{
    let m = (if i < 0 {
        -i
    } else {
        i
    }) as nat;
    let p = floor_log2(m);
    let sig = rounded_significand(m);
    let bits = spec_from_int(i);
    lemma_from_int_fields(i);
    lemma_rounded_significand_bounds(m);
    lemma2_to64();
    if p < 52 {
        let k = (52 - p) as nat;
        lemma_pow2_pos(k);
        lemma_fundamental_div_mod_converse(sig as int, pow2(k) as int, m as int, 0);
    } else if p == 52 {
        assert(sig == m * 1);
        assert(truncated_magnitude(bits) == sig * 1);
    } else if sig == TWO_53 {
        let k = (p - 52) as nat;
        lemma_pow2_unfold(k + 1);
        assert(TWO_52 * (2 * pow2(k)) == TWO_53 * pow2(k)) by (nonlinear_arith);
    }
}

/// An integer of magnitude up to 2^53 has a pattern of its own: the nearest
/// pattern stands for the integer itself.
pub proof fn lemma_from_int_exact(i: int)
    requires
        -(TWO_53 as int) <= i <= TWO_53,
    ensures
        spec_is_integral(spec_from_int(i)),
        truncated(spec_from_int(i)) == i,
        spec_to_i64(spec_from_int(i)) == i,
{
    let bits = spec_from_int(i);
    if i == 0 {
        lemma_pack(false, 0, 0);
        lemma_below_one(bits);
    } else {
        let m = (if i < 0 {
            -i
        } else {
            i
        }) as nat;
        let p = floor_log2(m);
        lemma_from_int_fields(i);
        lemma_from_int_magnitude(i);
        lemma_floor_log2_bounds(m);
        lemma2_to64();
        lemma2_to64_rest();
        if p > 52 {
            if p > 53 {
                lemma_pow2_increases(54, p);
            }
            assert(m == TWO_53);
            lemma_fundamental_div_mod_converse(m as int, 2, TWO_52 as int, 0);
            assert(rounded_significand(m) == TWO_52);
        }
    }
}

/// The pattern nearest to an integer stands for an integer, with the
/// integer's sign, and lies no further from it than half the step between
/// neighbouring patterns at that magnitude.
pub proof fn lemma_from_int_nearest(i: int)
    requires
        -(TWO_63 as int) <= i <= TWO_63,
    ensures
        spec_is_integral(spec_from_int(i)),
        i >= 0 ==> truncated(spec_from_int(i)) >= 0,
        i <= 0 ==> truncated(spec_from_int(i)) <= 0,
        ({
            let m = (if i < 0 {
                -i
            } else {
                i
            }) as nat;
            if floor_log2(m) <= 52 {
                truncated(spec_from_int(i)) == i
            } else {
                let step = pow2((floor_log2(m) - 52) as nat);
                -step <= 2 * (truncated(spec_from_int(i)) - i) <= step
            }
        }),
{
    if i == 0 {
        lemma_from_int_exact(i);
    } else {
        let m = (if i < 0 {
            -i
        } else {
            i
        }) as nat;
        let p = floor_log2(m);
        lemma_from_int_fields(i);
        lemma_from_int_magnitude(i);
        if p > 52 {
            let d = pow2((p - 52) as nat) as int;
            let q = m as int / d;
            let r = m as int % d;
            lemma_rounded_quotient(m);
            lemma_fundamental_div_mod(m as int, d);
            lemma_mod_bound(m as int, d);
            assert((q + 1) * d == q * d + d) by (nonlinear_arith);
            assert(d * q == q * d) by (nonlinear_arith);
        }
    }
}

/// The nearest pattern of the value of an integral pattern is that pattern
/// itself, negative zero apart: the patterns of integers are unique.
pub proof fn lemma_from_int_truncated(bits: u64)
    requires
        spec_is_integral(bits),
        bits != NEGATIVE_ZERO,
        -(TWO_63 as int) <= truncated(bits) <= TWO_63,
    ensures
        spec_from_int(truncated(bits)) == bits,
{
    lemma_unpack(bits);
    lemma2_to64();
    lemma2_to64_rest();
    let e = exponent(bits);
    let f = fraction(bits);
    let sig = significand(bits);
    let m = truncated_magnitude(bits);
    if e < 1023 {
        lemma_below_one(bits);
    } else if e < 1075 {
        let k = (1075 - e) as nat;
        let d = pow2(k) as int;
        lemma_pow2_pos(k);
        lemma_fundamental_div_mod(sig, d);
        assert(sig == d * m);
        assert(m >= 1) by (nonlinear_arith)
            requires
                sig == d * m,
                sig > 0,
                d > 0,
        ;
        let p = (52 - k) as nat;
        lemma_pow2_adds(p, k);
        lemma_pow2_adds(p + 1, k);
        assert(pow2(p) <= m) by (nonlinear_arith)
            requires
                pow2(p) * d <= d * m,
                d > 0,
        ;
        assert(m < pow2(p + 1)) by (nonlinear_arith)
            requires
                d * m < pow2(p + 1) * d,
                d > 0,
        ;
        lemma_floor_log2_unique(m as nat, p);
        assert(rounded_significand(m as nat) == m * d);
        assert(m * d == d * m) by (nonlinear_arith);
    } else {
        let k = (e - 1075) as nat;
        let d = pow2(k) as int;
        lemma_pow2_pos(k);
        if k > 11 {
            lemma_pow2_increases(12, k);
            assert(sig * d > TWO_63) by (nonlinear_arith)
                requires
                    sig >= TWO_52,
                    d >= 4096,
            ;
        }
        let p = (52 + k) as nat;
        lemma_pow2_adds(52, k);
        lemma_pow2_adds(53, k);
        lemma_mul_inequality(pow2(52) as int, sig, d);
        lemma_mul_strict_inequality(sig, pow2(53) as int, d);
        lemma_floor_log2_unique(m as nat, p);
        if k == 0 {
            assert(m == sig * 1);
            assert(rounded_significand(m as nat) == m * 1);
        } else {
            lemma_pow2_increases(1, k);
            lemma_fundamental_div_mod_converse(m, d, sig, 0);
        }
    }
}

/// Where an integral pattern stands for 2^63, one more than `i64` holds, the
/// greatest `i64` has that same pattern as its nearest.
pub proof fn lemma_from_int_at_limit(bits: u64)
    requires
        spec_is_integral(bits),
        truncated(bits) == TWO_63,
    ensures
        spec_from_int(i64::MAX as int) == bits,
{
    if bits == NEGATIVE_ZERO {
        lemma_pack(true, 0, 0);
        lemma_below_one(bits);
    }
    lemma_from_int_truncated(bits);
    lemma2_to64();
    lemma2_to64_rest();
    let low = i64::MAX as nat;
    let high = TWO_63 as nat;
    lemma_floor_log2_unique(low, 62);
    lemma_floor_log2_unique(high, 63);
    lemma_fundamental_div_mod_converse(low as int, 1024, TWO_53 - 1, 1023);
    lemma_fundamental_div_mod_converse(high as int, 2048, TWO_52 as int, 0);
    assert(rounded_significand(low) == TWO_53);
    assert(rounded_significand(high) == TWO_52);
}

/// Bringing the value of an integral pattern into the range of `i64` changes
/// nothing within that range.
pub proof fn lemma_to_i64_saturates(bits: u64)
    requires
        spec_is_integral(bits),
    ensures
        i64::MIN <= truncated(bits) <= i64::MAX ==> spec_to_i64(bits) == truncated(bits),
        truncated(bits) < i64::MIN ==> spec_to_i64(bits) == i64::MIN,
        truncated(bits) > i64::MAX ==> spec_to_i64(bits) == i64::MAX,
{
}

/// The pattern nearest to an `i64` is never negative zero, and its value lies
/// within `-2^63..=2^63`.
pub proof fn lemma_from_int_bounded(i: int)
    requires
        -(TWO_63 as int) <= i <= TWO_63,
    ensures
        spec_is_integral(spec_from_int(i)),
        spec_from_int(i) != NEGATIVE_ZERO,
        -(TWO_63 as int) <= truncated(spec_from_int(i)) <= TWO_63,
{
    lemma_pack(true, 0, 0);
    if i == 0 {
        lemma_from_int_exact(i);
    } else {
        let m = (if i < 0 {
            -i
        } else {
            i
        }) as nat;
        let p = floor_log2(m);
        let sig = rounded_significand(m) as int;
        lemma_from_int_fields(i);
        lemma_from_int_magnitude(i);
        lemma_floor_log2_bounds(m);
        lemma2_to64();
        lemma2_to64_rest();
        if p > 62 {
            assert(m == TWO_63);
            lemma_fundamental_div_mod_converse(m as int, 2048, TWO_52 as int, 0);
            assert(sig == TWO_52);
        } else if p > 52 {
            let d = pow2((p - 52) as nat) as int;
            lemma_pow2_increases((p - 52) as nat, 10);
            assert(sig * d <= TWO_63) by (nonlinear_arith)
                requires
                    0 <= sig <= TWO_53,
                    0 <= d <= 1024,
            ;
        }
    }
}

/// Where an integer lies midway between two neighbouring patterns, the
/// pattern nearest to it is the one with the even significand.
pub proof fn lemma_from_int_tie_to_even(i: int)
    requires
        -(TWO_63 as int) <= i <= TWO_63,
        i != 0,
        ({
            let m = (if i < 0 {
                -i
            } else {
                i
            }) as nat;
            let step = pow2((floor_log2(m) - 52) as nat) as int;
            &&& floor_log2(m) > 52
            &&& (2 * (truncated(spec_from_int(i)) - i) == step || 2 * (truncated(spec_from_int(i))
                - i) == -step)
        }),
    ensures
        fraction(spec_from_int(i)) % 2 == 0,
{
    let m = (if i < 0 {
        -i
    } else {
        i
    }) as nat;
    let p = floor_log2(m);
    let d = pow2((p - 52) as nat) as int;
    let q = m as int / d;
    let r = m as int % d;
    lemma_from_int_fields(i);
    lemma_from_int_magnitude(i);
    lemma_rounded_quotient(m);
    lemma_fundamental_div_mod(m as int, d);
    lemma_mod_bound(m as int, d);
    assert((q + 1) * d == q * d + d) by (nonlinear_arith);
    assert(d * q == q * d) by (nonlinear_arith);
    assert(2 * r == d);
}

} // verus!
