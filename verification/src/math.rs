//! `Num`, the renderer's number: an IEEE-754 binary64 value held as its
//! encoding, with arithmetic that rounds to nearest, ties to even.

use vstd::prelude::*;
use vstd::arithmetic::power2::{pow2, lemma_pow2_adds, lemma_pow2_pos, lemma2_to64, lemma2_to64_rest};
use vstd::arithmetic::div_mod::lemma_fundamental_div_mod_converse;
use crate::ieee::{
    SIGN_BIT,
    INFINITY_BITS,
    NAN_BITS,
    HIDDEN_BIT,
    MIN_EXPONENT,
    negative,
    magnitude,
    is_nan,
    is_infinite,
    is_finite,
    is_zero,
    significand,
    exponent,
    normalized_significand,
    normalized_exponent,
    normalize,
    isqrt,
    isqrt_u128,
    round,
    round_pack,
    unpack,
    pow2_u128,
    lemma_pow2_monotone,
    lemma_round_coarsen,
    lemma_round_exact,
    lemma_round_whole_exact,
    lemma_round_whole_is_finite,
};

verus! {

/// A binary64 number, held as its 64-bit encoding.
#[derive(Clone, Copy, Debug)]
pub struct Num {
    pub bits: u64,
}

/// The place of a value that is not NaN in the order of the numbers: its
/// encoding read as a sign and a magnitude. Both zeros have place 0.
pub open spec fn order_key(bits: u64) -> int {
    if negative(bits) {
        -(magnitude(bits) as int)
    } else {
        magnitude(bits) as int
    }
}

/// The integer part of a finite value, rounded toward zero.
pub open spec fn truncated(bits: u64) -> int {
    let m = significand(bits);
    let e = exponent(bits);
    let whole: int = if e >= 0 {
        (m * pow2(e as nat)) as int
    } else {
        (m / pow2((-e) as nat)) as int
    };
    if negative(bits) {
        -whole
    } else {
        whole
    }
}

/// `v` held to the range from `lo` to `hi`.
pub open spec fn clamped(v: int, lo: int, hi: int) -> int {
    if v < lo {
        lo
    } else if v > hi {
        hi
    } else {
        v
    }
}

impl Num {
    /// The number with the given encoding.
    pub fn from_bits(bits: u64) -> (n: Num)
        ensures
            n.bits == bits,
    {
        Num { bits }
    }

    /// The encoding of the number.
    pub fn to_bits(self) -> (bits: u64)
        ensures
            bits == self.bits,
    {
        self.bits
    }

    pub open spec fn spec_zero() -> Num {
        Num { bits: 0 }
    }

    pub open spec fn spec_infinity() -> Num {
        Num { bits: INFINITY_BITS }
    }

    pub open spec fn spec_nan() -> Num {
        Num { bits: NAN_BITS }
    }

    /// Positive zero.
    pub fn zero() -> (n: Num)
        ensures
            n == Num::spec_zero(),
    {
        Num { bits: 0 }
    }

    /// Positive infinity.
    pub fn infinity() -> (n: Num)
        ensures
            n == Num::spec_infinity(),
    {
        Num { bits: INFINITY_BITS }
    }

    /// The NaN that every invalid operation returns.
    pub fn nan() -> (n: Num)
        ensures
            n == Num::spec_nan(),
    {
        Num { bits: NAN_BITS }
    }

    pub open spec fn spec_is_nan(self) -> bool {
        is_nan(self.bits)
    }

    pub open spec fn spec_is_finite(self) -> bool {
        is_finite(self.bits)
    }

    /// Whether the number is a NaN.
    pub fn is_nan(self) -> (b: bool)
        ensures
            b == self.spec_is_nan(),
    {
        let mag: u64 = if self.bits >= SIGN_BIT {
            self.bits - SIGN_BIT
        } else {
            self.bits
        };
        mag > INFINITY_BITS
    }

    /// Whether the number is neither infinite nor a NaN.
    pub fn is_finite(self) -> (b: bool)
        ensures
            b == self.spec_is_finite(),
    {
        let mag: u64 = if self.bits >= SIGN_BIT {
            self.bits - SIGN_BIT
        } else {
            self.bits
        };
        mag < INFINITY_BITS
    }

    /// `self < rhs`: false when either is a NaN.
    pub open spec fn spec_lt(self, rhs: Num) -> bool {
        !is_nan(self.bits) && !is_nan(rhs.bits) && order_key(self.bits) < order_key(rhs.bits)
    }

    /// `self <= rhs`: false when either is a NaN.
    pub open spec fn spec_le(self, rhs: Num) -> bool {
        !is_nan(self.bits) && !is_nan(rhs.bits) && order_key(self.bits) <= order_key(rhs.bits)
    }

    /// `self == rhs` as numbers: the two zeros are equal, a NaN equals nothing.
    pub open spec fn spec_eq(self, rhs: Num) -> bool {
        !is_nan(self.bits) && !is_nan(rhs.bits) && order_key(self.bits) == order_key(rhs.bits)
    }

    /// The place of the number in the order, for one that is not a NaN.
    fn key(self) -> (k: i128)
        ensures
            k == order_key(self.bits),
    {
        if self.bits >= SIGN_BIT {
            -((self.bits - SIGN_BIT) as i128)
        } else {
            self.bits as i128
        }
    }

    /// Whether `self < rhs`.
    pub fn lt(self, rhs: Num) -> (b: bool)
        ensures
            b == self.spec_lt(rhs),
    {
        !self.is_nan() && !rhs.is_nan() && self.key() < rhs.key()
    }

    /// Whether `self <= rhs`.
    pub fn le(self, rhs: Num) -> (b: bool)
        ensures
            b == self.spec_le(rhs),
    {
        !self.is_nan() && !rhs.is_nan() && self.key() <= rhs.key()
    }

    /// Whether `self > rhs`.
    pub fn gt(self, rhs: Num) -> (b: bool)
        ensures
            b == rhs.spec_lt(self),
    {
        rhs.lt(self)
    }

    /// Whether `self >= rhs`.
    pub fn ge(self, rhs: Num) -> (b: bool)
        ensures
            b == rhs.spec_le(self),
    {
        rhs.le(self)
    }

    /// Whether the two are equal as numbers.
    pub fn eq(self, rhs: Num) -> (b: bool)
        ensures
            b == self.spec_eq(rhs),
    {
        !self.is_nan() && !rhs.is_nan() && self.key() == rhs.key()
    }

    /// The smaller of the two; a NaN loses to a number, and of two equal
    /// numbers the first is returned.
    pub open spec fn spec_min(self, rhs: Num) -> Num {
        if is_nan(self.bits) {
            rhs
        } else if rhs.spec_lt(self) {
            rhs
        } else {
            self
        }
    }

    /// The larger of the two; a NaN loses to a number, and of two equal
    /// numbers the first is returned.
    pub open spec fn spec_max(self, rhs: Num) -> Num {
        if is_nan(self.bits) {
            rhs
        } else if self.spec_lt(rhs) {
            rhs
        } else {
            self
        }
    }

    /// The smaller of the two.
    pub fn min(self, rhs: Num) -> (n: Num)
        ensures
            n == self.spec_min(rhs),
    {
        if self.is_nan() {
            rhs
        } else if rhs.lt(self) {
            rhs
        } else {
            self
        }
    }

    /// The larger of the two.
    pub fn max(self, rhs: Num) -> (n: Num)
        ensures
            n == self.spec_max(rhs),
    {
        if self.is_nan() {
            rhs
        } else if self.lt(rhs) {
            rhs
        } else {
            self
        }
    }

    /// The number with the opposite sign; a NaN stays a NaN.
    pub open spec fn spec_neg(self) -> Num {
        if negative(self.bits) {
            Num { bits: (self.bits - SIGN_BIT) as u64 }
        } else {
            Num { bits: (self.bits + SIGN_BIT) as u64 }
        }
    }

    /// The number with the opposite sign.
    pub fn neg(self) -> (n: Num)
        ensures
            n == self.spec_neg(),
    {
        if self.bits >= SIGN_BIT {
            Num { bits: self.bits - SIGN_BIT }
        } else {
            Num { bits: self.bits + SIGN_BIT }
        }
    }

    /// The binary64 nearest to the integer `v`.
    #[verifier::opaque]
    pub open spec fn spec_from_int(v: int) -> Num {
        if v < 0 {
            Num { bits: round(true, (-v) as nat, 0, false) }
        } else {
            Num { bits: round(false, v as nat, 0, false) }
        }
    }

    /// The binary64 nearest to `v`.
    pub fn from_i128(v: i128) -> (n: Num)
        ensures
            n == Num::spec_from_int(v as int),
    {
        reveal(Num::spec_from_int);
        if v == i128::MIN {
            Num { bits: round_pack(true, 0x8000_0000_0000_0000_0000_0000_0000_0000u128, 0, false) }
        } else if v < 0 {
            Num { bits: round_pack(true, (-v) as u128, 0, false) }
        } else {
            Num { bits: round_pack(false, v as u128, 0, false) }
        }
    }

    /// The binary64 nearest to `v`.
    pub fn from_i64(v: i64) -> (n: Num)
        ensures
            n == Num::spec_from_int(v as int),
    {
        Num::from_i128(v as i128)
    }

    /// The binary64 nearest to `v`.
    pub fn from_isize(v: isize) -> (n: Num)
        ensures
            n == Num::spec_from_int(v as int),
    {
        Num::from_i64(v as i64)
    }

    /// The binary64 nearest to `v`.
    pub fn from_usize(v: usize) -> (n: Num)
        ensures
            n == Num::spec_from_int(v as int),
    {
        reveal(Num::spec_from_int);
        Num { bits: round_pack(false, v as u128, 0, false) }
    }

    /// The binary64 equal to `v`.
    pub fn from_u8(v: u8) -> (n: Num)
        ensures
            n == Num::spec_from_int(v as int),
    {
        reveal(Num::spec_from_int);
        Num { bits: round_pack(false, v as u128, 0, false) }
    }

    /// The integer nearest to the number on the side of zero, held to the
    /// range from `lo` to `hi`; a NaN gives 0.
    #[verifier::opaque]
    pub open spec fn spec_to_int(self, lo: int, hi: int) -> int {
        if is_nan(self.bits) {
            0
        } else if is_infinite(self.bits) {
            if negative(self.bits) {
                lo
            } else {
                hi
            }
        } else {
            clamped(truncated(self.bits), lo, hi)
        }
    }

    /// The number as an integer, rounded toward zero, held to the range
    /// from `lo` to `hi`.
    fn to_clamped(self, lo: i128, hi: i128) -> (v: i128)
        requires
            -0x8000_0000_0000_0000 <= lo <= 0 <= hi <= 0xffff_ffff_ffff_ffff,
        ensures
            v == self.spec_to_int(lo as int, hi as int),
            lo <= v <= hi,
    {
        reveal(Num::spec_to_int);
        if self.is_nan() {
            return 0;
        }
        let (neg, m, e) = unpack(self.bits);
        if !self.is_finite() {
            return if neg {
                lo
            } else {
                hi
            };
        }
        proof {
            lemma2_to64();
            lemma2_to64_rest();
        }
        let whole: u128 = if m == 0 {
            proof {
                if e >= 0 {
                    assert(0 * pow2(e as nat) == 0) by (nonlinear_arith);
                } else {
                    lemma_pow2_pos((-e) as nat);
                }
            }
            0
        } else if e >= 12 {
            proof {
                lemma_pow2_monotone(12, e as nat);
                assert(m * pow2(e as nat) >= 0x1_0000_0000_0000_0000) by (nonlinear_arith)
                    requires
                        m >= 0x10_0000_0000_0000,
                        pow2(e as nat) >= 0x1000,
                ;
            }
            return if neg {
                lo
            } else {
                hi
            };
        } else if e >= 0 {
            let unit: u128 = pow2_u128(e as u32);
            proof {
                lemma_pow2_monotone(e as nat, 11);
                assert(m * unit <= 0x20_0000_0000_0000 * 0x800) by (nonlinear_arith)
                    requires
                        m <= 0x20_0000_0000_0000,
                        unit <= 0x800,
                ;
            }
            m as u128 * unit
        } else if e <= -64 {
            proof {
                lemma_pow2_monotone(64, (-e) as nat);
                vstd::arithmetic::div_mod::lemma_basic_div(m as int, pow2((-e) as nat) as int);
            }
            0
        } else {
            let unit: u128 = pow2_u128((-e) as u32);
            m as u128 / unit
        };
        assert(truncated(self.bits) == if neg {
            -(whole as int)
        } else {
            whole as int
        });
        if neg {
            if whole > (-lo) as u128 {
                lo
            } else {
                -(whole as i128)
            }
        } else {
            if whole > hi as u128 {
                hi
            } else {
                whole as i128
            }
        }
    }

    /// The number as an `isize`: rounded toward zero, held to the range of
    /// `isize`, a NaN as 0.
    pub fn to_isize(self) -> (v: isize)
        ensures
            v == self.spec_to_int(isize::MIN as int, isize::MAX as int),
    {
        self.to_clamped(isize::MIN as i128, isize::MAX as i128) as isize
    }

    /// The number as a `usize`: rounded toward zero, held to the range of
    /// `usize`, a NaN as 0.
    pub fn to_usize(self) -> (v: usize)
        ensures
            v == self.spec_to_int(0, usize::MAX as int),
    {
        self.to_clamped(0, usize::MAX as i128) as usize
    }

    /// The number as a `u8`: rounded toward zero, held to the range of
    /// `u8`, a NaN as 0.
    pub fn to_u8(self) -> (v: u8)
        ensures
            v == self.spec_to_int(0, 255),
    {
        self.to_clamped(0, 255) as u8
    }

    /// Infinity with the given sign.
    pub open spec fn signed_infinity(neg: bool) -> Num {
        if neg {
            Num { bits: (SIGN_BIT + INFINITY_BITS) as u64 }
        } else {
            Num { bits: INFINITY_BITS }
        }
    }

    /// Zero with the given sign.
    pub open spec fn signed_zero(neg: bool) -> Num {
        if neg {
            Num { bits: SIGN_BIT }
        } else {
            Num { bits: 0 }
        }
    }

    /// The product, rounded: the exact product of the significands, scaled
    /// by the sum of the exponents. Infinity times zero is a NaN.
    #[verifier::opaque]
    pub open spec fn spec_mul(self, rhs: Num) -> Num {
        let a = self.bits;
        let b = rhs.bits;
        let neg = negative(a) != negative(b);
        if is_nan(a) || is_nan(b) {
            Num::spec_nan()
        } else if is_infinite(a) || is_infinite(b) {
            if is_zero(a) || is_zero(b) {
                Num::spec_nan()
            } else {
                Num::signed_infinity(neg)
            }
        } else {
            Num { bits: round(neg, significand(a) * significand(b), exponent(a) + exponent(b), false) }
        }
    }

    /// The product of the two numbers.
    pub fn mul(self, rhs: Num) -> (n: Num)
        ensures
            n == self.spec_mul(rhs),
    {
        reveal(Num::spec_mul);
        if self.is_nan() || rhs.is_nan() {
            return Num::nan();
        }
        let (sa, ma, ea) = unpack(self.bits);
        let (sb, mb, eb) = unpack(rhs.bits);
        let neg = sa != sb;
        if !self.is_finite() || !rhs.is_finite() {
            if (self.is_finite() && ma == 0) || (rhs.is_finite() && mb == 0) {
                return Num::nan();
            }
            return if neg {
                Num { bits: SIGN_BIT + INFINITY_BITS }
            } else {
                Num { bits: INFINITY_BITS }
            };
        }
        assert(ma * mb <= 0x20_0000_0000_0000 * 0x20_0000_0000_0000) by (nonlinear_arith)
            requires
                ma <= 0x20_0000_0000_0000,
                mb <= 0x20_0000_0000_0000,
        ;
        let m: u128 = ma as u128 * mb as u128;
        Num { bits: round_pack(neg, m, ea + eb, false) }
    }

    /// The quotient, rounded: the quotient of the 53-digit significands is
    /// taken to 62 more digits, and what is left of the division is the
    /// sticky flag. Zero over zero and infinity over infinity are NaNs.
    #[verifier::opaque]
    pub open spec fn spec_div(self, rhs: Num) -> Num {
        let a = self.bits;
        let b = rhs.bits;
        let neg = negative(a) != negative(b);
        if is_nan(a) || is_nan(b) {
            Num::spec_nan()
        } else if is_infinite(a) {
            if is_infinite(b) {
                Num::spec_nan()
            } else {
                Num::signed_infinity(neg)
            }
        } else if is_infinite(b) {
            Num::signed_zero(neg)
        } else if is_zero(b) {
            if is_zero(a) {
                Num::spec_nan()
            } else {
                Num::signed_infinity(neg)
            }
        } else if is_zero(a) {
            Num::signed_zero(neg)
        } else {
            let n = normalized_significand(a) * pow2(62);
            let d = normalized_significand(b);
            Num {
                bits: round(
                    neg,
                    n / d,
                    normalized_exponent(a) - normalized_exponent(b) - 62,
                    n % d != 0,
                ),
            }
        }
    }

    /// The quotient of the two numbers.
    pub fn div(self, rhs: Num) -> (n: Num)
        ensures
            n == self.spec_div(rhs),
    {
        reveal(Num::spec_div);
        if self.is_nan() || rhs.is_nan() {
            return Num::nan();
        }
        let (sa, ma, ea) = unpack(self.bits);
        let (sb, mb, eb) = unpack(rhs.bits);
        let neg = sa != sb;
        let infinite = if neg {
            Num { bits: SIGN_BIT + INFINITY_BITS }
        } else {
            Num { bits: INFINITY_BITS }
        };
        let zero = if neg {
            Num { bits: SIGN_BIT }
        } else {
            Num { bits: 0 }
        };
        if !self.is_finite() {
            return if rhs.is_finite() {
                infinite
            } else {
                Num::nan()
            };
        }
        if !rhs.is_finite() {
            return zero;
        }
        if mb == 0 {
            return if ma == 0 {
                Num::nan()
            } else {
                infinite
            };
        }
        if ma == 0 {
            return zero;
        }
        let (na, xa) = normalize(ma, ea);
        let (nb, xb) = normalize(mb, eb);
        proof {
            lemma2_to64_rest();
        }
        let scaled: u128 = na as u128 * 0x4000_0000_0000_0000u128;
        let quotient: u128 = scaled / nb as u128;
        let rest: u128 = scaled % nb as u128;
        Num { bits: round_pack(neg, quotient, xa - xb - 62, rest != 0) }
    }

    /// The significand with the sign of the value.
    pub open spec fn signed_significand(bits: u64) -> int {
        if negative(bits) {
            -(significand(bits) as int)
        } else {
            significand(bits) as int
        }
    }

    /// The sum, rounded: the two values are added exactly, in units of the
    /// smaller of their exponents. Infinity plus its opposite is a NaN; an
    /// exact zero is negative only when both terms are.
    #[verifier::opaque]
    pub open spec fn spec_add(self, rhs: Num) -> Num {
        let a = self.bits;
        let b = rhs.bits;
        if is_nan(a) || is_nan(b) {
            Num::spec_nan()
        } else if is_infinite(a) {
            if is_infinite(b) && negative(a) != negative(b) {
                Num::spec_nan()
            } else {
                self
            }
        } else if is_infinite(b) {
            rhs
        } else {
            let e = if exponent(a) <= exponent(b) {
                exponent(a)
            } else {
                exponent(b)
            };
            let sum = Num::signed_significand(a) * pow2((exponent(a) - e) as nat)
                + Num::signed_significand(b) * pow2((exponent(b) - e) as nat);
            if sum == 0 {
                Num::signed_zero(negative(a) && negative(b))
            } else if sum < 0 {
                Num { bits: round(true, (-sum) as nat, e, false) }
            } else {
                Num { bits: round(false, sum as nat, e, false) }
            }
        }
    }

    /// The sum of the two numbers.
    pub fn add(self, rhs: Num) -> (n: Num)
        ensures
            n == self.spec_add(rhs),
    {
        reveal(Num::spec_add);
        if self.is_nan() || rhs.is_nan() {
            return Num::nan();
        }
        let (sa, ma, ea) = unpack(self.bits);
        let (sb, mb, eb) = unpack(rhs.bits);
        if !self.is_finite() {
            return if !rhs.is_finite() && sa != sb {
                Num::nan()
            } else {
                self
            };
        }
        if !rhs.is_finite() {
            return rhs;
        }
        if ea >= eb {
            let n = Num { bits: add_ordered(sa, ma, ea, sb, mb, eb) };
            proof {
                lemma2_to64();
                assert(Num::signed_significand(rhs.bits) * pow2(0) == Num::signed_significand(
                    rhs.bits,
                )) by (nonlinear_arith)
                    requires
                        pow2(0) == 1,
                ;
            }
            n
        } else {
            let n = Num { bits: add_ordered(sb, mb, eb, sa, ma, ea) };
            proof {
                lemma2_to64();
                assert(Num::signed_significand(self.bits) * pow2(0) == Num::signed_significand(
                    self.bits,
                )) by (nonlinear_arith)
                    requires
                        pow2(0) == 1,
                ;
            }
            n
        }
    }

    /// The difference: the sum of the first and the opposite of the second.
    pub open spec fn spec_sub(self, rhs: Num) -> Num {
        self.spec_add(rhs.spec_neg())
    }

    /// The difference of the two numbers.
    pub fn sub(self, rhs: Num) -> (n: Num)
        ensures
            n == self.spec_sub(rhs),
    {
        self.add(rhs.neg())
    }

    /// The square root, rounded: the 53-digit significand, doubled where
    /// that makes the exponent even, is taken 60 digits further, and its
    /// integer square root is rounded, with whether it is exact as the
    /// sticky flag. The root of a negative number is a NaN; that of a zero
    /// or of infinity is the number itself.
    #[verifier::opaque]
    pub open spec fn spec_sqrt(self) -> Num {
        let a = self.bits;
        if is_nan(a) {
            Num::spec_nan()
        } else if is_zero(a) {
            self
        } else if negative(a) {
            Num::spec_nan()
        } else if is_infinite(a) {
            self
        } else {
            let m = normalized_significand(a);
            let e = normalized_exponent(a);
            let even = e % 2 == 0;
            let radicand = if even {
                m * pow2(60)
            } else {
                2 * m * pow2(60)
            };
            let halved = if even {
                (e - 60) / 2
            } else {
                (e - 61) / 2
            };
            let root = isqrt(radicand);
            Num { bits: round(false, root, halved, root * root != radicand) }
        }
    }

    /// The square root of the number.
    pub fn sqrt(self) -> (n: Num)
        ensures
            n == self.spec_sqrt(),
    {
        reveal(Num::spec_sqrt);
        if self.is_nan() {
            return Num::nan();
        }
        let (neg, m, e) = unpack(self.bits);
        if self.is_finite() && m == 0 {
            return self;
        }
        if neg {
            return Num::nan();
        }
        if !self.is_finite() {
            return self;
        }
        let (nm, ne) = normalize(m, e);
        proof {
            lemma2_to64_rest();
        }
        let lifted: i64 = ne + 2000;
        let even = lifted % 2 == 0;
        let scaled: u128 = nm as u128 * 0x1000_0000_0000_0000u128;
        let radicand: u128 = if even {
            scaled
        } else {
            2 * scaled
        };
        let halved: i64 = if even {
            (lifted - 60) / 2 - 1000
        } else {
            (lifted - 61) / 2 - 1000
        };
        let root: u64 = isqrt_u128(radicand);
        proof {
            assert(2 * nm * pow2(60) == 2 * (nm * pow2(60))) by (nonlinear_arith);
        }
        let exact = root as u128 * root as u128 == radicand;
        Num { bits: round_pack(false, root as u128, halved, !exact) }
    }
}

/// A whole number of fewer than 54 digits is a number of the library, and
/// comes back from it unchanged.
pub proof fn lemma_from_int_exact(v: int)
    requires
        -0x20_0000_0000_0000 < v < 0x20_0000_0000_0000,
    ensures
        is_finite(Num::spec_from_int(v).bits),
        truncated(Num::spec_from_int(v).bits) == v,
        negative(Num::spec_from_int(v).bits) == (v < 0),
        is_zero(Num::spec_from_int(v).bits) == (v == 0),
        forall|lo: int, hi: int| #[trigger]
            Num::spec_from_int(v).spec_to_int(lo, hi) == clamped(v, lo, hi),
{
    reveal(Num::spec_from_int);
    reveal(Num::spec_to_int);
    let bits = Num::spec_from_int(v).bits;
    if v == 0 {
        assert(bits == 0);
        lemma_pow2_pos(1074);
        vstd::arithmetic::div_mod::lemma_basic_div(0, pow2(1074) as int);
    } else {
        let m: nat = if v < 0 {
            (-v) as nat
        } else {
            v as nat
        };
        lemma_round_whole_exact(v < 0, m);
        let e = exponent(bits);
        if e == 0 {
            lemma2_to64();
            assert(m * pow2(0) == m) by (nonlinear_arith)
                requires
                    pow2(0) == 1,
            ;
        }
    }
}

/// The number for a whole number of at most 128 digits is finite, has the
/// sign of the whole number, and is a zero only for 0.
pub proof fn lemma_from_int_finite(v: int)
    requires
        -0x1_0000_0000_0000_0000_0000_0000_0000_0000 < v < 0x1_0000_0000_0000_0000_0000_0000_0000_0000,
    ensures
        is_finite(Num::spec_from_int(v).bits),
        negative(Num::spec_from_int(v).bits) == (v < 0),
        is_zero(Num::spec_from_int(v).bits) == (v == 0),
{
    reveal(Num::spec_from_int);
    let m: nat = if v < 0 {
        (-v) as nat
    } else {
        v as nat
    };
    lemma_round_whole_is_finite(v < 0, m);
}

/// Adding a zero to a finite number leaves it as it is, but for the
/// negative zero, which a positive zero turns positive.
pub proof fn lemma_add_zero(x: Num, zero: Num)
    requires
        is_finite(x.bits),
        is_zero(zero.bits),
        !(is_zero(x.bits) && negative(x.bits) && !negative(zero.bits)),
    ensures
        x.spec_add(zero) == x,
{
    reveal(Num::spec_add);
    lemma2_to64();
    let e = exponent(x.bits);
    let j = (e + 1074) as nat;
    let sig = significand(x.bits);
    assert(Num::signed_significand(zero.bits) * pow2(0) == 0) by (nonlinear_arith)
        requires
            Num::signed_significand(zero.bits) == 0,
    ;
    if sig == 0 {
        assert(Num::signed_significand(x.bits) * pow2(j) == 0) by (nonlinear_arith)
            requires
                Num::signed_significand(x.bits) == 0,
        ;
    } else {
        lemma_round_exact(x.bits, j);
        lemma_pow2_pos(j);
        assert(sig * pow2(j) > 0) by (nonlinear_arith)
            requires
                sig > 0,
                pow2(j) > 0,
        ;
        assert((-(sig as int)) * pow2(j) == -(sig * pow2(j))) by (nonlinear_arith);
    }
}

/// Zero over a finite number that is not zero is a zero: negative when the
/// signs of the two differ.
pub proof fn lemma_zero_quotient(zero: Num, x: Num)
    requires
        is_zero(zero.bits),
        is_finite(x.bits),
        !is_zero(x.bits),
    ensures
        zero.spec_div(x) == Num::signed_zero(negative(zero.bits) != negative(x.bits)),
{
    reveal(Num::spec_div);
}

/// A number times one is the number.
pub proof fn lemma_mul_one(x: Num)
    requires
        is_finite(x.bits),
    ensures
        x.spec_mul(Num::spec_from_int(1)) == x,
{
    reveal(Num::spec_mul);
    lemma_from_int_exact(1);
    lemma_round_whole_exact(false, 1);
    reveal(Num::spec_from_int);
    let one = Num::spec_from_int(1).bits;
    let s = (-exponent(one)) as nat;
    let sig = significand(x.bits);
    assert(significand(one) == pow2(s)) by {
        assert(1 * pow2(s) == pow2(s)) by (nonlinear_arith);
    }
    if sig == 0 {
        assert(sig * significand(one) == 0) by (nonlinear_arith)
            requires
                sig == 0,
        ;
    } else {
        lemma_round_exact(x.bits, s);
    }
}

/// A finite number times a zero is a zero, negative when the signs of the
/// two differ.
pub proof fn lemma_mul_zero(x: Num, zero: Num)
    requires
        is_finite(x.bits),
        is_zero(zero.bits),
    ensures
        x.spec_mul(zero) == Num::signed_zero(negative(x.bits) != negative(zero.bits)),
{
    reveal(Num::spec_mul);
    assert(significand(x.bits) * significand(zero.bits) == 0) by (nonlinear_arith)
        requires
            significand(zero.bits) == 0,
    ;
}

/// The rounded sum of two finite values, the first with the exponent that
/// is not the smaller.
fn add_ordered(sx: bool, mx: u64, ex: i64, sy: bool, my: u64, ey: i64) -> (bits: u64)
    requires
        mx < 2 * HIDDEN_BIT,
        my < 2 * HIDDEN_BIT,
        MIN_EXPONENT <= ey <= ex <= 972,
        ex > MIN_EXPONENT ==> mx >= HIDDEN_BIT,
    ensures
        bits == ({
            let x: int = if sx {
                -(mx as int)
            } else {
                mx as int
            };
            let y: int = if sy {
                -(my as int)
            } else {
                my as int
            };
            let sum = x * pow2((ex - ey) as nat) + y;
            if sum == 0 {
                Num::signed_zero(sx && sy).bits
            } else if sum < 0 {
                round(true, (-sum) as nat, ey as int, false)
            } else {
                round(false, sum as nat, ey as int, false)
            }
        }),
{
    let d: i64 = ex - ey;
    let ghost p = pow2(d as nat);
    proof {
        lemma_pow2_pos(d as nat);
        lemma2_to64();
        lemma2_to64_rest();
    }
    if d <= 64 {
        let unit: u128 = pow2_u128(d as u32);
        proof {
            lemma_pow2_monotone(d as nat, 64);
            assert(mx * unit <= 0x20_0000_0000_0000 * 0x1_0000_0000_0000_0000) by (nonlinear_arith)
                requires
                    mx <= 0x20_0000_0000_0000,
                    unit <= 0x1_0000_0000_0000_0000,
            ;
            assert((-(mx as int)) * p == -(mx * p)) by (nonlinear_arith);
        }
        let big: u128 = mx as u128 * unit;
        let small: u128 = my as u128;
        if sx == sy {
            let total: u128 = big + small;
            if total == 0 {
                if sx {
                    SIGN_BIT
                } else {
                    0
                }
            } else {
                round_pack(sx, total, ey, false)
            }
        } else if big > small {
            round_pack(sx, big - small, ey, false)
        } else if big < small {
            round_pack(sy, small - big, ey, false)
        } else {
            0
        }
    } else {
        // the second value lies far below the last place of the first: all
        // that rounding can see of it is that it is there
        let sticky = my != 0;
        let coarse: u128 = if sx == sy || my == 0 {
            8 * mx as u128
        } else {
            8 * mx as u128 - 1
        };
        proof {
            let j = (d - 3) as nat;
            let pj = pow2(j);
            lemma_pow2_adds(3, j);
            lemma_pow2_monotone(62, j);
            lemma_pow2_pos(j);
            assert(p == 8 * pj);
            assert(mx * p == (8 * mx) * pj) by (nonlinear_arith)
                requires
                    p == 8 * pj,
            ;
            assert((-(mx as int)) * p == -(mx * p)) by (nonlinear_arith);
            let fine: int = if sx == sy {
                mx * p + my
            } else {
                mx * p - my
            };
            let rest: int = if sx == sy || my == 0 {
                my as int
            } else {
                pj - my
            };
            assert(fine == pj * coarse + rest) by (nonlinear_arith)
                requires
                    mx * p == (8 * mx) * pj,
                    fine == if sx == sy {
                        mx * p + my
                    } else {
                        mx * p - my
                    },
                    coarse == if sx == sy || my == 0 {
                        8 * mx
                    } else {
                        8 * mx - 1
                    },
                    rest == if sx == sy || my == 0 {
                        my as int
                    } else {
                        pj - my
                    },
            ;
            assert(fine >= 0) by (nonlinear_arith)
                requires
                    fine == pj * coarse + rest,
                    rest >= 0,
                    pj > 0,
                    coarse >= 0,
            ;
            lemma_fundamental_div_mod_converse(fine, pj as int, coarse as int, rest);
            lemma_round_coarsen(sx, fine as nat, ey as int, false, j);
            assert(fine > 0) by (nonlinear_arith)
                requires
                    fine == pj * coarse + rest,
                    rest >= 0,
                    pj > 0,
                    coarse > 0,
            ;
        }
        round_pack(sx, coarse, ex - 3, sticky)
    }
}

} // verus!
