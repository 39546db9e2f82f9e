//! `Single`, an IEEE-754 binary32 number held as its encoding: the numbers
//! that a glyph rasterizer speaks in. Its arithmetic rounds to nearest,
//! ties to even, as that of `Num` does.

use vstd::prelude::*;
use vstd::arithmetic::power2::{pow2, lemma_pow2_adds, lemma_pow2_pos, lemma2_to64, lemma2_to64_rest};
use vstd::arithmetic::div_mod::{
    lemma_fundamental_div_mod,
    lemma_fundamental_div_mod_converse,
    lemma_mod_bound,
};
use crate::ieee::{
    SIGN_BIT,
    INFINITY_BITS,
    bit_len,
    pow2_u128,
    quantum_of,
    rounded_at,
    round,
    round_at,
    round_pack,
    lemma_pow2_monotone,
    lemma_rounded_bounds,
    lemma_rounded_coarsen,
};
use crate::math::Num;

verus! {

/// The sign bit of the binary32 encoding.
pub const SINGLE_SIGN_BIT: u32 = 0x8000_0000;

/// The binary32 encoding of positive infinity.
pub const SINGLE_INFINITY_BITS: u32 = 0x7f80_0000;

/// The one binary32 NaN that the operations of this library produce.
pub const SINGLE_NAN_BITS: u32 = 0x7fc0_0000;

/// `2^23`: the implicit leading bit of a normal binary32 significand.
pub const SINGLE_HIDDEN_BIT: u32 = 0x80_0000;

/// The exponent of the smallest binary32 subnormal, `2^-149`.
pub const SINGLE_MIN_EXPONENT: i64 = -149;

/// Whether the sign bit is set.
pub open spec fn single_negative(bits: u32) -> bool {
    bits >= SINGLE_SIGN_BIT
}

/// The encoding without its sign bit.
pub open spec fn single_magnitude(bits: u32) -> u32 {
    if bits >= SINGLE_SIGN_BIT {
        (bits - SINGLE_SIGN_BIT) as u32
    } else {
        bits
    }
}

/// The integer significand of a finite binary32 value.
pub open spec fn single_significand(bits: u32) -> nat {
    let mag = single_magnitude(bits);
    if mag < SINGLE_HIDDEN_BIT {
        mag as nat
    } else {
        (SINGLE_HIDDEN_BIT + mag % SINGLE_HIDDEN_BIT) as nat
    }
}

/// The power of two that scales the significand of a finite binary32
/// value.
pub open spec fn single_exponent(bits: u32) -> int {
    let mag = single_magnitude(bits);
    if mag < SINGLE_HIDDEN_BIT {
        SINGLE_MIN_EXPONENT as int
    } else {
        mag / SINGLE_HIDDEN_BIT - 150
    }
}

/// The magnitude bits of the binary32 nearest to a value `v` with
/// `m * 2^e <= v < (m + 1) * 2^e`, where `sticky` says that `v` is not
/// `m * 2^e` itself: 24 digits are kept, a tie goes to the even
/// significand, and a result beyond the largest finite value is infinity.
pub open spec fn round_single_magnitude(m: nat, e: int, sticky: bool) -> nat {
    if m == 0 {
        0
    } else {
        let q = quantum_of(m, e, 24, SINGLE_MIN_EXPONENT as int);
        let mag = (q + 149) * SINGLE_HIDDEN_BIT + rounded_at(m, e, q, sticky);
        if mag >= SINGLE_INFINITY_BITS {
            SINGLE_INFINITY_BITS as nat
        } else {
            mag as nat
        }
    }
}

/// The binary32 nearest to `v` or to `-v`, as `negative` says.
pub open spec fn round_single(negative: bool, m: nat, e: int, sticky: bool) -> u32 {
    if negative {
        (SINGLE_SIGN_BIT + round_single_magnitude(m, e, sticky)) as u32
    } else {
        round_single_magnitude(m, e, sticky) as u32
    }
}

/// Rounds `v` to binary32 and packs the encoding, where
/// `m * 2^e <= v < (m + 1) * 2^e` and `sticky` says that `v` exceeds
/// `m * 2^e`.
pub fn round_pack_single(negative: bool, m: u128, e: i64, sticky: bool) -> (bits: u32)
    requires
        -0x1_0000_0000 <= e <= 0x1_0000_0000,
    ensures
        bits == round_single(negative, m as nat, e as int, sticky),
{
    let sign: u32 = if negative {
        SINGLE_SIGN_BIT
    } else {
        0
    };
    if m == 0 {
        return sign;
    }
    let len: u32 = bit_len(m);
    let natural: i64 = e + len as i64 - 24;
    let q: i64 = if natural < SINGLE_MIN_EXPONENT {
        SINGLE_MIN_EXPONENT
    } else {
        natural
    };
    proof {
        lemma_rounded_bounds(m as nat, e as int, sticky, 24, SINGLE_MIN_EXPONENT as int);
        lemma2_to64();
    }
    if q > 104 {
        assert(round_single_magnitude(m as nat, e as int, sticky) == SINGLE_INFINITY_BITS) by {
            assert((q + 149) * SINGLE_HIDDEN_BIT >= 254 * SINGLE_HIDDEN_BIT) by (nonlinear_arith)
                requires
                    q + 149 >= 254,
            ;
        }
        return sign + SINGLE_INFINITY_BITS;
    }
    let sig: u64 = round_at(m, e, q, sticky);
    assert((q + 149) * SINGLE_HIDDEN_BIT <= 253 * SINGLE_HIDDEN_BIT) by (nonlinear_arith)
        requires
            q + 149 <= 253,
    ;
    assert((q + 149) * SINGLE_HIDDEN_BIT >= 0) by (nonlinear_arith)
        requires
            q + 149 >= 0,
    ;
    let mag: u32 = (q + 149) as u32 * SINGLE_HIDDEN_BIT + sig as u32;
    if mag >= SINGLE_INFINITY_BITS {
        sign + SINGLE_INFINITY_BITS
    } else {
        sign + mag
    }
}

/// Rounding to binary32 reads only the leading digits: once at least 26
/// of them are kept, the `j` digits below them matter only through
/// whether any is set.
pub proof fn lemma_round_single_coarsen(negative: bool, m: nat, e: int, sticky: bool, j: nat)
    requires
        m / pow2(j) >= 0x200_0000,
    ensures
        round_single(negative, m, e, sticky) == round_single(
            negative,
            m / pow2(j),
            e + j,
            sticky || m % pow2(j) != 0,
        ),
{
    lemma2_to64();
    lemma_rounded_coarsen(m, e, sticky, j, 24, SINGLE_MIN_EXPONENT as int);
    lemma_pow2_pos(j);
    lemma_fundamental_div_mod(m as int, pow2(j) as int);
    lemma_mod_bound(m as int, pow2(j) as int);
    assert(m > 0) by (nonlinear_arith)
        requires
            m == pow2(j) * (m / pow2(j)) + m % pow2(j),
            m / pow2(j) > 0,
            pow2(j) > 0,
            m % pow2(j) >= 0,
    ;
}

/// Splits a binary32 encoding into its sign, significand and exponent; an
/// infinity or a NaN has the exponent 105.
pub fn unpack_single(bits: u32) -> (parts: (bool, u64, i64))
    ensures
        parts.0 == single_negative(bits),
        parts.1 == single_significand(bits),
        parts.2 == single_exponent(bits),
        parts.1 < 2 * SINGLE_HIDDEN_BIT,
        SINGLE_MIN_EXPONENT <= parts.2 <= 105,
        parts.2 > SINGLE_MIN_EXPONENT ==> parts.1 >= SINGLE_HIDDEN_BIT,
        (parts.2 > 104) == (single_magnitude(bits) >= SINGLE_INFINITY_BITS),
{
    let neg = bits >= SINGLE_SIGN_BIT;
    let mag: u32 = if neg {
        bits - SINGLE_SIGN_BIT
    } else {
        bits
    };
    if mag < SINGLE_HIDDEN_BIT {
        (neg, mag as u64, SINGLE_MIN_EXPONENT)
    } else {
        (neg, (SINGLE_HIDDEN_BIT + mag % SINGLE_HIDDEN_BIT) as u64, (mag / SINGLE_HIDDEN_BIT) as i64 - 150)
    }
}

/// The rounded sum of two finite binary32 values, the first with the
/// exponent that is not the smaller.
fn add_ordered_single(sx: bool, mx: u64, ex: i64, sy: bool, my: u64, ey: i64) -> (bits: u32)
    requires
        mx < 2 * SINGLE_HIDDEN_BIT,
        my < 2 * SINGLE_HIDDEN_BIT,
        SINGLE_MIN_EXPONENT <= ey <= ex <= 105,
        ex > SINGLE_MIN_EXPONENT ==> mx >= SINGLE_HIDDEN_BIT,
    ensures
        bits == ({
            let x: int = if sx {
                -(mx as int)
            } else {
                mx as int
            };
            let y: int = if sy {
                -(my as int)
            } else {
                my as int
            };
            let sum = x * pow2((ex - ey) as nat) + y;
            if sum == 0 {
                Single::signed_zero(sx && sy).bits
            } else if sum < 0 {
                round_single(true, (-sum) as nat, ey as int, false)
            } else {
                round_single(false, sum as nat, ey as int, false)
            }
        }),
{
    let d: i64 = ex - ey;
    let ghost p = pow2(d as nat);
    proof {
        lemma_pow2_pos(d as nat);
        lemma2_to64();
        lemma2_to64_rest();
    }
    if d <= 64 {
        let unit: u128 = pow2_u128(d as u32);
        proof {
            lemma_pow2_monotone(d as nat, 64);
            assert(mx * unit <= 0x100_0000 * 0x1_0000_0000_0000_0000) by (nonlinear_arith)
                requires
                    mx <= 0x100_0000,
                    unit <= 0x1_0000_0000_0000_0000,
            ;
            assert((-(mx as int)) * p == -(mx * p)) by (nonlinear_arith);
        }
        let big: u128 = mx as u128 * unit;
        let small: u128 = my as u128;
        if sx == sy {
            let total: u128 = big + small;
            if total == 0 {
                if sx {
                    SINGLE_SIGN_BIT
                } else {
                    0
                }
            } else {
                round_pack_single(sx, total, ey, false)
            }
        } else if big > small {
            round_pack_single(sx, big - small, ey, false)
        } else if big < small {
            round_pack_single(sy, small - big, ey, false)
        } else {
            0
        }
    } else {
        // the second value lies far below the last place of the first: all
        // that rounding can see of it is that it is there
        let sticky = my != 0;
        let coarse: u128 = if sx == sy || my == 0 {
            8 * mx as u128
        } else {
            8 * mx as u128 - 1
        };
        proof {
            let j = (d - 3) as nat;
            let pj = pow2(j);
            lemma_pow2_adds(3, j);
            lemma_pow2_monotone(62, j);
            lemma_pow2_pos(j);
            assert(p == 8 * pj);
            assert(mx * p == (8 * mx) * pj) by (nonlinear_arith)
                requires
                    p == 8 * pj,
            ;
            assert((-(mx as int)) * p == -(mx * p)) by (nonlinear_arith);
            let fine: int = if sx == sy {
                mx * p + my
            } else {
                mx * p - my
            };
            let rest: int = if sx == sy || my == 0 {
                my as int
            } else {
                pj - my
            };
            assert(fine == pj * coarse + rest) by (nonlinear_arith)
                requires
                    mx * p == (8 * mx) * pj,
                    fine == if sx == sy {
                        mx * p + my
                    } else {
                        mx * p - my
                    },
                    coarse == if sx == sy || my == 0 {
                        8 * mx
                    } else {
                        8 * mx - 1
                    },
                    rest == if sx == sy || my == 0 {
                        my as int
                    } else {
                        pj - my
                    },
            ;
            assert(fine >= 0) by (nonlinear_arith)
                requires
                    fine == pj * coarse + rest,
                    rest >= 0,
                    pj > 0,
                    coarse >= 0,
            ;
            lemma_fundamental_div_mod_converse(fine, pj as int, coarse as int, rest);
            lemma_round_single_coarsen(sx, fine as nat, ey as int, false, j);
            assert(fine > 0) by (nonlinear_arith)
                requires
                    fine == pj * coarse + rest,
                    rest >= 0,
                    pj > 0,
                    coarse > 0,
            ;
        }
        round_pack_single(sx, coarse, ex - 3, sticky)
    }
}

/// A binary32 number, held as its 32-bit encoding.
#[derive(Clone, Copy, Debug)]
pub struct Single {
    pub bits: u32,
}

impl Single {
    /// The number with the given encoding.
    pub fn from_bits(bits: u32) -> (n: Single)
        ensures
            n.bits == bits,
    {
        Single { bits }
    }

    /// The encoding of the number.
    pub fn to_bits(self) -> (bits: u32)
        ensures
            bits == self.bits,
    {
        self.bits
    }

    pub open spec fn spec_is_nan(self) -> bool {
        single_magnitude(self.bits) > SINGLE_INFINITY_BITS
    }

    /// Whether the number is a NaN.
    pub fn is_nan(self) -> (b: bool)
        ensures
            b == self.spec_is_nan(),
    {
        let mag: u32 = if self.bits >= SINGLE_SIGN_BIT {
            self.bits - SINGLE_SIGN_BIT
        } else {
            self.bits
        };
        mag > SINGLE_INFINITY_BITS
    }

    /// The same number in binary64, which holds every binary32 exactly.
    #[verifier::opaque]
    pub open spec fn spec_widen(self) -> Num {
        let mag = single_magnitude(self.bits);
        let neg = single_negative(self.bits);
        if mag > SINGLE_INFINITY_BITS {
            Num::spec_nan()
        } else if mag == SINGLE_INFINITY_BITS {
            Num::signed_infinity(neg)
        } else {
            Num {
                bits: round(
                    neg,
                    single_significand(self.bits),
                    single_exponent(self.bits),
                    false,
                ),
            }
        }
    }

    /// The same number in binary64.
    pub fn widen(self) -> (n: Num)
        ensures
            n == self.spec_widen(),
    {
        reveal(Single::spec_widen);
        let neg = self.bits >= SINGLE_SIGN_BIT;
        let mag: u32 = if neg {
            self.bits - SINGLE_SIGN_BIT
        } else {
            self.bits
        };
        if mag > SINGLE_INFINITY_BITS {
            Num::nan()
        } else if mag == SINGLE_INFINITY_BITS {
            if neg {
                Num { bits: SIGN_BIT + INFINITY_BITS }
            } else {
                Num { bits: INFINITY_BITS }
            }
        } else if mag < SINGLE_HIDDEN_BIT {
            Num { bits: round_pack(neg, mag as u128, SINGLE_MIN_EXPONENT, false) }
        } else {
            Num {
                bits: round_pack(
                    neg,
                    (SINGLE_HIDDEN_BIT + mag % SINGLE_HIDDEN_BIT) as u128,
                    (mag / SINGLE_HIDDEN_BIT) as i64 - 150,
                    false,
                ),
            }
        }
    }

    pub open spec fn spec_is_finite(self) -> bool {
        single_magnitude(self.bits) < SINGLE_INFINITY_BITS
    }

    pub open spec fn spec_is_infinite(self) -> bool {
        single_magnitude(self.bits) == SINGLE_INFINITY_BITS
    }

    pub open spec fn spec_is_zero(self) -> bool {
        single_magnitude(self.bits) == 0
    }

    /// The NaN that every invalid operation returns.
    pub open spec fn spec_nan() -> Single {
        Single { bits: SINGLE_NAN_BITS }
    }

    /// Infinity with the given sign.
    pub open spec fn signed_infinity(neg: bool) -> Single {
        if neg {
            Single { bits: (SINGLE_SIGN_BIT + SINGLE_INFINITY_BITS) as u32 }
        } else {
            Single { bits: SINGLE_INFINITY_BITS }
        }
    }

    /// Zero with the given sign.
    pub open spec fn signed_zero(neg: bool) -> Single {
        if neg {
            Single { bits: SINGLE_SIGN_BIT }
        } else {
            Single { bits: 0 }
        }
    }

    /// The significand with the sign of the value.
    pub open spec fn signed_significand(bits: u32) -> int {
        if single_negative(bits) {
            -(single_significand(bits) as int)
        } else {
            single_significand(bits) as int
        }
    }

    /// The binary32 nearest to the integer `v`.
    #[verifier::opaque]
    pub open spec fn spec_from_int(v: int) -> Single {
        if v < 0 {
            Single { bits: round_single(true, (-v) as nat, 0, false) }
        } else {
            Single { bits: round_single(false, v as nat, 0, false) }
        }
    }

    /// The binary32 nearest to `v`.
    pub fn from_i32(v: i32) -> (s: Single)
        ensures
            s == Single::spec_from_int(v as int),
    {
        reveal(Single::spec_from_int);
        if v < 0 {
            Single { bits: round_pack_single(true, (-(v as i64)) as u128, 0, false) }
        } else {
            Single { bits: round_pack_single(false, v as u128, 0, false) }
        }
    }

    /// The binary32 nearest to `v`.
    pub fn from_u32(v: u32) -> (s: Single)
        ensures
            s == Single::spec_from_int(v as int),
    {
        reveal(Single::spec_from_int);
        Single { bits: round_pack_single(false, v as u128, 0, false) }
    }

    /// The sum, rounded: the two values are added exactly, in units of the
    /// smaller of their exponents. Infinity plus its opposite is a NaN; an
    /// exact zero is negative only when both terms are.
    #[verifier::opaque]
    pub open spec fn spec_add(self, rhs: Single) -> Single {
        let a = self.bits;
        let b = rhs.bits;
        if self.spec_is_nan() || rhs.spec_is_nan() {
            Single::spec_nan()
        } else if self.spec_is_infinite() {
            if rhs.spec_is_infinite() && single_negative(a) != single_negative(b) {
                Single::spec_nan()
            } else {
                self
            }
        } else if rhs.spec_is_infinite() {
            rhs
        } else {
            let e = if single_exponent(a) <= single_exponent(b) {
                single_exponent(a)
            } else {
                single_exponent(b)
            };
            let sum = Single::signed_significand(a) * pow2((single_exponent(a) - e) as nat)
                + Single::signed_significand(b) * pow2((single_exponent(b) - e) as nat);
            if sum == 0 {
                Single::signed_zero(single_negative(a) && single_negative(b))
            } else if sum < 0 {
                Single { bits: round_single(true, (-sum) as nat, e, false) }
            } else {
                Single { bits: round_single(false, sum as nat, e, false) }
            }
        }
    }

    /// The sum of the two numbers.
    pub fn add(self, rhs: Single) -> (s: Single)
        ensures
            s == self.spec_add(rhs),
    {
        reveal(Single::spec_add);
        if self.is_nan() || rhs.is_nan() {
            return Single { bits: SINGLE_NAN_BITS };
        }
        let (sa, ma, ea) = unpack_single(self.bits);
        let (sb, mb, eb) = unpack_single(rhs.bits);
        if ea > 104 {
            return if eb > 104 && sa != sb {
                Single { bits: SINGLE_NAN_BITS }
            } else {
                self
            };
        }
        if eb > 104 {
            return rhs;
        }
        if ea >= eb {
            let s = Single { bits: add_ordered_single(sa, ma, ea, sb, mb, eb) };
            proof {
                lemma2_to64();
                assert(Single::signed_significand(rhs.bits) * pow2(0)
                    == Single::signed_significand(rhs.bits)) by (nonlinear_arith)
                    requires
                        pow2(0) == 1,
                ;
            }
            s
        } else {
            let s = Single { bits: add_ordered_single(sb, mb, eb, sa, ma, ea) };
            proof {
                lemma2_to64();
                assert(Single::signed_significand(self.bits) * pow2(0)
                    == Single::signed_significand(self.bits)) by (nonlinear_arith)
                    requires
                        pow2(0) == 1,
                ;
            }
            s
        }
    }

    /// The product, rounded: the exact product of the significands, scaled
    /// by the sum of the exponents. Infinity times zero is a NaN.
    #[verifier::opaque]
    pub open spec fn spec_mul(self, rhs: Single) -> Single {
        let a = self.bits;
        let b = rhs.bits;
        let neg = single_negative(a) != single_negative(b);
        if self.spec_is_nan() || rhs.spec_is_nan() {
            Single::spec_nan()
        } else if self.spec_is_infinite() || rhs.spec_is_infinite() {
            if self.spec_is_zero() || rhs.spec_is_zero() {
                Single::spec_nan()
            } else {
                Single::signed_infinity(neg)
            }
        } else {
            Single {
                bits: round_single(
                    neg,
                    single_significand(a) * single_significand(b),
                    single_exponent(a) + single_exponent(b),
                    false,
                ),
            }
        }
    }

    /// The product of the two numbers.
    pub fn mul(self, rhs: Single) -> (s: Single)
        ensures
            s == self.spec_mul(rhs),
    {
        reveal(Single::spec_mul);
        if self.is_nan() || rhs.is_nan() {
            return Single { bits: SINGLE_NAN_BITS };
        }
        let (sa, ma, ea) = unpack_single(self.bits);
        let (sb, mb, eb) = unpack_single(rhs.bits);
        let neg = sa != sb;
        if ea > 104 || eb > 104 {
            if (ea <= 104 && ma == 0) || (eb <= 104 && mb == 0) {
                return Single { bits: SINGLE_NAN_BITS };
            }
            return if neg {
                Single { bits: SINGLE_SIGN_BIT + SINGLE_INFINITY_BITS }
            } else {
                Single { bits: SINGLE_INFINITY_BITS }
            };
        }
        assert(ma * mb <= 0x100_0000 * 0x100_0000) by (nonlinear_arith)
            requires
                ma <= 0x100_0000,
                mb <= 0x100_0000,
        ;
        let m: u128 = ma as u128 * mb as u128;
        Single { bits: round_pack_single(neg, m, ea + eb, false) }
    }

    /// The integer nearest to the number on the side of zero, held to the
    /// range from `lo` to `hi`; a NaN gives 0.
    pub open spec fn spec_to_int(self, lo: int, hi: int) -> int {
        self.spec_widen().spec_to_int(lo, hi)
    }

    /// The number as a `usize`: rounded toward zero, held to the range of
    /// `usize`, a NaN as 0.
    pub fn to_usize(self) -> (v: usize)
        ensures
            v == self.spec_to_int(0, usize::MAX as int),
    {
        self.widen().to_usize()
    }

    /// The number as a `u8`: rounded toward zero, held to the range of
    /// `u8`, a NaN as 0.
    pub fn to_u8(self) -> (v: u8)
        ensures
            v == self.spec_to_int(0, 255),
    {
        self.widen().to_u8()
    }
}

} // verus!
