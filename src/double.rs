//! Learnable values are held as the bit patterns of IEEE-754 doubles. The
//! arithmetic of a node works on fixed-point integers: a value `v` there
//! stands for `v / 2^32`. This module converts between the two.
//!
//! The double of `v` has the sign of `v`, the biased exponent `p + 991`
//! where `p` is the place of the highest set bit of `|v|`, and as fraction
//! the 52 bits of `|v|` below that one. Reading a double gives the nearest
//! value toward zero that is a multiple of `2^-32`; values beyond the range
//! of `i64` saturate, and NaN reads as 0.
use vstd::arithmetic::div_mod::lemma_fundamental_div_mod;
use vstd::arithmetic::power2::{lemma2_to64, lemma2_to64_rest, lemma_pow2_adds, lemma_pow2_pos, lemma_pow2_strictly_increases, pow2};
use vstd::bits::{lemma_u64_shl_is_mul, lemma_u64_shr_is_div};
use vstd::prelude::*;

verus! {

/// The largest magnitude that the doubles hold exactly in units of `2^-32`
/// whatever its bits: `2^53 - 1`.
pub const MAX_EXACT: i64 = 0x1F_FFFF_FFFF_FFFF;

/// The 52 fraction bits of a double.
pub const FRAC_MASK: u64 = 0xF_FFFF_FFFF_FFFF;

/// The bit of a double's sign.
pub const SIGN_BIT: u64 = 0x8000_0000_0000_0000;

/// `mag` with the sign `neg`, saturated at the range of `i64`.
pub open spec fn clamp_signed(neg: bool, mag: int) -> i64 {
    if neg {
        if mag <= 0x8000_0000_0000_0000 {
            (-mag) as i64
        } else {
            i64::MIN
        }
    } else {
        if mag <= 0x7FFF_FFFF_FFFF_FFFF {
            mag as i64
        } else {
            i64::MAX
        }
    }
}

/// The value, in units of `2^-32` and cut toward zero, of the double with
/// bits `b`. A double with sign bit `s`, biased exponent `e` (bits 52 to 62)
/// and fraction `f` (bits 0 to 51), `0 < e < 2047`, stands for
/// `(-1)^s * (2^52 + f) * 2^(e - 1075)`, that is `(2^52 + f) * 2^(e - 1043)`
/// units. Zero and the subnormals (`e == 0`, all below `2^-32`) and NaN
/// read as 0; infinities, and values past the range of `i64`, saturate.
pub open spec fn units_of_double(b: u64) -> i64 {
    let neg = b >= SIGN_BIT;
    let e = (b as int / 0x10_0000_0000_0000) % 2048;
    let f = b as int % 0x10_0000_0000_0000;
    let sig = 0x10_0000_0000_0000 + f;
    if e == 2047 {
        if f != 0 {
            0
        } else {
            clamp_signed(neg, 0x1_0000_0000_0000_0000)
        }
    } else if e == 0 {
        0
    } else if e >= 1043 {
        clamp_signed(neg, sig * (pow2((e - 1043) as nat) as int))
    } else {
        clamp_signed(neg, sig / (pow2((1043 - e) as nat) as int))
    }
}

/// The place `p` of the highest set bit of `m > 0`: `2^p <= m < 2^(p + 1)`.
pub open spec fn top_place(m: int) -> nat {
    choose|p: nat| #[trigger] pow2(p) <= m < pow2(p + 1)
}

/// The bits of the double of `v / 2^32`, its magnitude `m` cut to 53
/// significant bits. With `2^p <= m < 2^(p + 1)`, the value is
/// `m * 2^(p - 52) * 2^(-32)` times a significand `s` in `[2^52, 2^53)`:
/// `s = m * 2^(52 - p)`, or `m / 2^(p - 52)` cut toward zero. The double has
/// the sign bit of `v < 0`, biased exponent `p - 32 + 1023` and fraction
/// `s - 2^52`. Zero is the bits 0.
pub open spec fn double_bits(v: i64) -> u64 {
    let m = magnitude(v) as int;
    if m == 0 {
        0
    } else {
        let p = top_place(m);
        let sig = if p <= 52 {
            m * pow2((52 - p) as nat)
        } else {
            m / (pow2((p - 52) as nat) as int)
        };
        let sign: int = if v < 0 {
            0x8000_0000_0000_0000
        } else {
            0
        };
        (sign + (p + 991) * 0x10_0000_0000_0000 + (sig - 0x10_0000_0000_0000)) as u64
    }
}

/// The magnitude of `v`.
pub open spec fn magnitude(v: i64) -> u64 {
    if v < 0 {
        (-(v as int)) as u64
    } else {
        v as u64
    }
}

/// The place of the highest set bit of `m` (for `m > 0`).
spec fn top_bit(m: u64) -> u64 {
    choose|p: u64| p < 64 && m >> p == 1
}

/// The 52 fraction bits of `m`: the bits below its highest set bit, cut to
/// the 52 highest of them.
spec fn fraction_of(m: u64, p: u64) -> u64 {
    if p <= 52 {
        (m << ((52 - p) as u64)) & FRAC_MASK
    } else {
        (m >> ((p - 52) as u64)) & FRAC_MASK
    }
}

/// `double_bits` in terms of bit operations, as the code computes it.
spec fn bits_of(v: i64) -> u64 {
    let m = magnitude(v);
    if m == 0 {
        0
    } else {
        let p = top_bit(m);
        let sign: u64 = if v < 0 {
            SIGN_BIT
        } else {
            0
        };
        sign | (((p + 991) as u64) << 52u64) | fraction_of(m, p)
    }
}

/// `v` has at most 53 significant bits, so its double is exact.
spec fn exact_in_double(v: i64) -> bool {
    let m = magnitude(v);
    m == 0 || top_bit(m) <= 52 || (m >> ((top_bit(m) - 52) as u64)) << ((top_bit(m) - 52) as u64) == m
}

/// `clamp_signed` over a `u128`.
spec fn signed(neg: bool, mag: u128) -> i64 {
    if neg {
        if mag <= 0x8000_0000_0000_0000 {
            (-(mag as int)) as i64
        } else {
            i64::MIN
        }
    } else {
        if mag <= 0x7FFF_FFFF_FFFF_FFFF {
            mag as i64
        } else {
            i64::MAX
        }
    }
}

/// `units_of_double` in terms of bit operations, as the code computes it.
spec fn units_of_bits(b: u64) -> i64 {
    let e = (b >> 52u64) & 0x7FFu64;
    let frac = b & FRAC_MASK;
    let neg = b >> 63u64 == 1;
    if e == 0x7FF {
        if frac != 0 {
            0
        } else {
            signed(neg, 0x1_0000_0000_0000_0000)
        }
    } else if e == 0 {
        0
    } else {
        let sig = frac | 0x10_0000_0000_0000u64;
        if e >= 1043 {
            if e - 1043 > 11 {
                signed(neg, 0x1_0000_0000_0000_0000)
            } else {
                signed(neg, (sig << ((e - 1043) as u64)) as u128)
            }
        } else if 1043 - e >= 64 {
            0
        } else {
            signed(neg, (sig >> ((1043 - e) as u64)) as u128)
        }
    }
}

proof fn lemma_top_bit(m: u64, p: u64)
    requires
        p < 64,
        m >> p == 1,
    ensures
        top_bit(m) == p,
{
    let q = top_bit(m);
    assert(q < 64 && m >> q == 1);
    assert(m >> p == 1u64 && m >> q == 1u64 && p < 64 && q < 64 ==> p == q) by (bit_vector);
}

proof fn lemma_top_bit_exists(m: u64, p: u64)
    requires
        p < 64,
        m >> p != 0,
    ensures
        exists|q: u64| q < 64 && m >> q == 1,
    decreases 63 - p,
{
    if p < 63 && m >> ((p + 1) as u64) != 0 {
        lemma_top_bit_exists(m, (p + 1) as u64);
    } else {
        assert(m >> p != 0 && (p == 63 || m >> ((p + 1) as u64) == 0) && p < 64 ==> m >> p == 1) by (bit_vector);
    }
}

/// The place of the highest set bit of `m`.
fn find_top_bit(m: u64) -> (p: u64)
    requires
        m > 0,
    ensures
        p < 64,
        m >> p == 1,
        p == top_bit(m),
{
    let mut p: u64 = 0;
    assert(m >> 0u64 == m) by (bit_vector);
    while p < 63 && (m >> ((p + 1) as u64)) != 0
        invariant
            p < 64,
            m >> p != 0,
        decreases 63 - p,
    {
        p = p + 1;
    }
    assert(m >> p != 0 && (p == 63 || m >> ((p + 1) as u64) == 0) && p < 64 ==> m >> p == 1) by (bit_vector);
    proof {
        lemma_top_bit(m, p);
    }
    p
}

/// The bits of the double of `v / 2^32`.
pub fn encode_value(v: i64) -> (r: u64)
    ensures
        r == double_bits(v),
{
    let m: u64 = if v < 0 {
        if v == i64::MIN {
            0x8000_0000_0000_0000
        } else {
            (-v) as u64
        }
    } else {
        v as u64
    };
    if m == 0 {
        proof {
            lemma_double_bits_form(v);
        }
        return 0;
    }
    let p = find_top_bit(m);
    proof {
        lemma_double_bits_form(v);
    }
    let frac = if p <= 52 {
        (m << ((52 - p) as u64)) & FRAC_MASK
    } else {
        (m >> ((p - 52) as u64)) & FRAC_MASK
    };
    let sign: u64 = if v < 0 {
        SIGN_BIT
    } else {
        0
    };
    sign | (((p + 991) as u64) << 52u64) | frac
}

/// The value, in units of `2^-32`, of the double with bits `b`.
pub fn decode_value(b: u64) -> (r: i64)
    ensures
        r == units_of_double(b),
{
    proof {
        lemma_units_form(b);
    }
    let e = (b >> 52u64) & 0x7FFu64;
    let frac = b & FRAC_MASK;
    let neg = b >> 63u64 == 1;
    if e == 0x7FF {
        if frac != 0 {
            0
        } else {
            to_signed(neg, 0x1_0000_0000_0000_0000)
        }
    } else if e == 0 {
        0
    } else {
        let sig = frac | 0x10_0000_0000_0000u64;
        if e >= 1043 {
            if e - 1043 > 11 {
                to_signed(neg, 0x1_0000_0000_0000_0000)
            } else {
                to_signed(neg, (sig << ((e - 1043) as u64)) as u128)
            }
        } else if 1043 - e >= 64 {
            0
        } else {
            to_signed(neg, (sig >> ((1043 - e) as u64)) as u128)
        }
    }
}

fn to_signed(neg: bool, mag: u128) -> (r: i64)
    ensures
        r == signed(neg, mag),
{
    if neg {
        if mag <= 0x8000_0000_0000_0000 {
            if mag == 0x8000_0000_0000_0000 {
                i64::MIN
            } else {
                -(mag as i64)
            }
        } else {
            i64::MIN
        }
    } else {
        if mag <= 0x7FFF_FFFF_FFFF_FFFF {
            mag as i64
        } else {
            i64::MAX
        }
    }
}

/// A value of magnitude at most `MAX_EXACT` is exact as a double, and
/// reading its double back gives it.
pub proof fn lemma_exact_small(v: i64)
    requires
        -MAX_EXACT <= v <= MAX_EXACT,
    ensures
        units_of_double(double_bits(v)) == v,
{
    let m = magnitude(v);
    if m > 0 {
        assert(m >> 0u64 == m) by (bit_vector);
        lemma_top_bit_exists(m, 0);
        let p = top_bit(m);
        assert(m <= 0x1F_FFFF_FFFF_FFFFu64 && m >> p == 1 && p < 64 ==> p <= 52) by (bit_vector);
    }
    lemma_bits_round_trip(v);
    lemma_double_bits_form(v);
    lemma_units_form(bits_of(v));
}

/// Reading back the double of a value with at most 53 significant bits
/// gives the value.
proof fn lemma_bits_round_trip(v: i64)
    requires
        exact_in_double(v),
    ensures
        units_of_bits(bits_of(v)) == v,
{
    let m = magnitude(v);
    let b = bits_of(v);
    if m == 0 {
        assert(v == 0);
        assert((0u64 >> 52u64) & 0x7FFu64 == 0) by (bit_vector);
        assert(b == 0);
    } else {
        let p = top_bit(m);
        assert(m >> 0u64 == m) by (bit_vector);
        lemma_top_bit_exists(m, 0);
        assert(p < 64 && m >> p == 1);
        let sign: u64 = if v < 0 {
            SIGN_BIT
        } else {
            0
        };
        let frac = fraction_of(m, p);
        assert(b == sign | (((p + 991) as u64) << 52u64) | frac);
        assert(frac <= FRAC_MASK) by (bit_vector)
            requires
                frac == (if p <= 52 {
                    (m << ((52 - p) as u64)) & FRAC_MASK
                } else {
                    (m >> ((p - 52) as u64)) & FRAC_MASK
                }),
        ;
        assert(((sign | (((p + 991) as u64) << 52u64) | frac) >> 52u64) & 0x7FFu64 == p + 991) by (bit_vector)
            requires
                p < 64,
                frac <= FRAC_MASK,
                sign == 0 || sign == SIGN_BIT,
        ;
        assert((sign | (((p + 991) as u64) << 52u64) | frac) & FRAC_MASK == frac) by (bit_vector)
            requires
                p < 64,
                frac <= FRAC_MASK,
                sign == 0 || sign == SIGN_BIT,
        ;
        assert(((sign | (((p + 991) as u64) << 52u64) | frac) >> 63u64 == 1) == (sign == SIGN_BIT)) by (bit_vector)
            requires
                p < 64,
                frac <= FRAC_MASK,
                sign == 0 || sign == SIGN_BIT,
        ;
        let sig = frac | 0x10_0000_0000_0000u64;
        let e = (b >> 52u64) & 0x7FFu64;
        let neg = b >> 63u64 == 1;
        assert(e == p + 991);
        assert(b & FRAC_MASK == frac);
        assert(neg == (v < 0));
        let mag: u64 = if p <= 52 {
            assert(((((m << ((52 - p) as u64)) & FRAC_MASK) | 0x10_0000_0000_0000u64) >> ((52 - p) as u64)) == m)
                by (bit_vector)
                requires
                    p <= 52,
                    m >> p == 1,
            ;
            if p == 52 {
                assert(sig >> 0u64 == sig && sig << 0u64 == sig) by (bit_vector);
                sig << 0u64
            } else {
                sig >> ((1043 - e) as u64)
            }
        } else {
            assert(((((m >> ((p - 52) as u64)) & FRAC_MASK) | 0x10_0000_0000_0000u64) << ((p - 52) as u64)) == (m
                >> ((p - 52) as u64)) << ((p - 52) as u64)) by (bit_vector)
                requires
                    52 < p < 64,
                    m >> p == 1,
            ;
            sig << ((e - 1043) as u64)
        };
        assert(mag == m);
        assert(units_of_bits(b) == signed(neg, mag as u128));
        if v < 0 {
            assert(m as int == -(v as int));
            assert(mag as u128 <= 0x8000_0000_0000_0000);
            assert(signed(neg, mag as u128) == (-(mag as int)) as i64);
        } else {
            assert(m as int == v as int);
        }
        assert(signed(neg, mag as u128) == v);
    }
}

proof fn lemma_pow2_le(a: nat, b: nat)
    requires
        a <= b,
    ensures
        pow2(a) <= pow2(b),
{
    if a < b {
        lemma_pow2_strictly_increases(a, b);
    }
}

/// The bit form of the value of a double is the value.
proof fn lemma_units_form(b: u64)
    ensures
        units_of_double(b) == units_of_bits(b),
{
    let e = (b >> 52u64) & 0x7FFu64;
    let frac = b & FRAC_MASK;
    assert((b >> 52u64) & 0x7FFu64 == (b / 0x10_0000_0000_0000u64) % 2048u64) by (bit_vector);
    assert(b & FRAC_MASK == b % 0x10_0000_0000_0000u64) by (bit_vector);
    assert((b >> 63u64 == 1) == (b >= SIGN_BIT)) by (bit_vector);
    assert(frac | 0x10_0000_0000_0000u64 == 0x10_0000_0000_0000u64 + frac) by (bit_vector)
        requires
            frac == b & FRAC_MASK,
    ;
    assert(frac < 0x10_0000_0000_0000u64) by (bit_vector)
        requires
            frac == b & FRAC_MASK,
    ;
    let sig = frac | 0x10_0000_0000_0000u64;
    lemma2_to64();
    lemma2_to64_rest();
    if e != 0x7FF && e != 0 {
        if e >= 1043 {
            let k = (e - 1043) as u64;
            if k > 11 {
                lemma_pow2_le(12, k as nat);
                assert(sig * pow2(k as nat) >= 0x10_0000_0000_0000 * 4096) by (nonlinear_arith)
                    requires
                        sig >= 0x10_0000_0000_0000,
                        pow2(k as nat) >= 4096,
                ;
            } else {
                lemma_pow2_le(k as nat, 11);
                assert(sig * pow2(k as nat) <= u64::MAX) by (nonlinear_arith)
                    requires
                        sig < 0x20_0000_0000_0000,
                        pow2(k as nat) <= 2048,
                ;
                lemma_u64_shl_is_mul(sig, k);
            }
        } else {
            let k = (1043 - e) as u64;
            if k >= 64 {
                lemma_pow2_le(64, k as nat);
                assert(sig as nat / pow2(k as nat) == 0) by (nonlinear_arith)
                    requires
                        sig < pow2(k as nat),
                ;
            } else {
                lemma_u64_shr_is_div(sig, k);
            }
        }
    }
}

proof fn lemma_top_place_unique(m: int, p: nat, q: nat)
    requires
        pow2(p) <= m < pow2(p + 1),
        pow2(q) <= m < pow2(q + 1),
    ensures
        p == q,
{
    if p < q {
        lemma_pow2_le(p + 1, q);
    } else if q < p {
        lemma_pow2_le(q + 1, p);
    }
}

/// The bit form of the double of a value is its double.
proof fn lemma_double_bits_form(v: i64)
    ensures
        double_bits(v) == bits_of(v),
{
    let m = magnitude(v);
    if m > 0 {
        assert(m >> 0u64 == m) by (bit_vector);
        lemma_top_bit_exists(m, 0);
        let p = top_bit(m);
        assert(p < 64 && m >> p == 1);
        lemma2_to64();
        lemma2_to64_rest();
        lemma_u64_shr_is_div(m, p);
        lemma_pow2_pos(p as nat);
        let d: int = pow2(p as nat) as int;
        let mi: int = m as int;
        lemma_fundamental_div_mod(mi, d);
        lemma_pow2_adds(p as nat, 1);
        assert(d <= mi < 2 * d) by (nonlinear_arith)
            requires
                mi == d * (mi / d) + mi % d,
                mi / d == 1,
                0 <= mi % d < d,
        ;
        assert(pow2((p + 1) as nat) == 2 * d);
        let tp = top_place(m as int);
        assert(pow2(tp) <= m < pow2(tp + 1));
        lemma_top_place_unique(m as int, tp, p as nat);
        let sign: u64 = if v < 0 {
            SIGN_BIT
        } else {
            0
        };
        let frac = fraction_of(m, p);
        let sig: int = if p <= 52 {
            m * pow2((52 - p) as nat)
        } else {
            m as int / (pow2((p - 52) as nat) as int)
        };
        if p <= 52 {
            let k = (52 - p) as u64;
            lemma_pow2_adds((p + 1) as nat, k as nat);
            lemma_pow2_adds(p as nat, k as nat);
            assert(m * pow2(k as nat) < pow2(53) && m * pow2(k as nat) >= pow2(52)) by (nonlinear_arith)
                requires
                    pow2(p as nat) <= m < pow2((p + 1) as nat),
                    pow2((p + 1) as nat) * pow2(k as nat) == pow2(53),
                    pow2(p as nat) * pow2(k as nat) == pow2(52),
                    pow2(k as nat) > 0,
            ;
            lemma_u64_shl_is_mul(m, k);
            let x = m << k;
            assert(x & FRAC_MASK == x - 0x10_0000_0000_0000u64) by (bit_vector)
                requires
                    0x10_0000_0000_0000u64 <= x < 0x20_0000_0000_0000u64,
            ;
        } else {
            let k = (p - 52) as u64;
            lemma_u64_shr_is_div(m, k);
            let x = m >> k;
            assert(0x10_0000_0000_0000u64 <= m >> ((p - 52) as u64) < 0x20_0000_0000_0000u64) by (bit_vector)
                requires
                    52 < p < 64,
                    m >> p == 1,
            ;
            assert(x & FRAC_MASK == x - 0x10_0000_0000_0000u64) by (bit_vector)
                requires
                    0x10_0000_0000_0000u64 <= x < 0x20_0000_0000_0000u64,
            ;
        }
        assert(frac == sig - 0x10_0000_0000_0000);
        let e = (p + 991) as u64;
        assert(sign | (e << 52u64) | frac == sign + e * 0x10_0000_0000_0000u64 + frac) by (bit_vector)
            requires
                e < 2048,
                frac < 0x10_0000_0000_0000u64,
                sign == 0 || sign == SIGN_BIT,
        ;
    }
}

} // verus!
