//! The binary64 encoding and round-to-nearest-even, in integer arithmetic.
//!
//! A finite binary64 value is `significand * 2^exponent`, with a sign. All
//! arithmetic of the renderer is defined by one rule: compute the exact
//! result as an integer scaled by a power of two, then round it with
//! [`round`]. Nothing here touches the machine's floating-point unit, so the
//! same inputs give the same bits everywhere.

use vstd::prelude::*;
use vstd::arithmetic::power2::{
    pow2,
    lemma_pow2_pos,
    lemma_pow2_adds,
    lemma_pow2_unfold,
    lemma_pow2_strictly_increases,
    lemma2_to64,
    lemma2_to64_rest,
};
use vstd::arithmetic::div_mod::{
    lemma_fundamental_div_mod,
    lemma_fundamental_div_mod_converse,
    lemma_mod_bound,
    lemma_div_denominator,
    lemma_small_mod,
    lemma_basic_div,
};

verus! {

/// The sign bit of the encoding.
pub const SIGN_BIT: u64 = 0x8000_0000_0000_0000;

/// The encoding of positive infinity: every exponent bit set, no fraction.
pub const INFINITY_BITS: u64 = 0x7ff0_0000_0000_0000;

/// The one NaN that the operations of this library produce.
pub const NAN_BITS: u64 = 0x7ff8_0000_0000_0000;

/// `2^52`: the implicit leading bit of a normal significand.
pub const HIDDEN_BIT: u64 = 0x10_0000_0000_0000;

/// The exponent of the smallest subnormal, `2^-1074`.
pub const MIN_EXPONENT: i64 = -1074;

/// Whether the sign bit is set.
pub open spec fn negative(bits: u64) -> bool {
    bits >= SIGN_BIT
}

/// The encoding without its sign bit.
pub open spec fn magnitude(bits: u64) -> u64 {
    if bits >= SIGN_BIT {
        (bits - SIGN_BIT) as u64
    } else {
        bits
    }
}

pub open spec fn is_nan(bits: u64) -> bool {
    magnitude(bits) > INFINITY_BITS
}

pub open spec fn is_infinite(bits: u64) -> bool {
    magnitude(bits) == INFINITY_BITS
}

pub open spec fn is_finite(bits: u64) -> bool {
    magnitude(bits) < INFINITY_BITS
}

pub open spec fn is_zero(bits: u64) -> bool {
    magnitude(bits) == 0
}

/// The integer significand of a finite value: the fraction bits, with the
/// implicit leading bit unless the value is subnormal.
pub open spec fn significand(bits: u64) -> nat {
    let mag = magnitude(bits);
    if mag < HIDDEN_BIT {
        mag as nat
    } else {
        (HIDDEN_BIT + mag % HIDDEN_BIT) as nat
    }
}

/// The power of two that scales the significand of a finite value.
pub open spec fn exponent(bits: u64) -> int {
    let mag = magnitude(bits);
    if mag < HIDDEN_BIT {
        MIN_EXPONENT as int
    } else {
        mag / HIDDEN_BIT - 1075
    }
}

/// The number of binary digits of `m`; zero has none.
pub open spec fn bit_length(m: nat) -> nat
    decreases m,
{
    if m == 0 {
        0
    } else {
        1 + bit_length(m / 2)
    }
}

/// The exponent of the last place that a format of `digits` binary digits
/// keeps of a positive value in `[m * 2^e, (m + 1) * 2^e)`: `digits` places
/// below its leading one, but never below `floor`, the exponent of the
/// format's subnormal grid.
pub open spec fn quantum_of(m: nat, e: int, digits: nat, floor: int) -> int {
    let q = e + bit_length(m) - digits;
    if q < floor {
        floor
    } else {
        q
    }
}

/// The multiple of `2^q` nearest to a value `v` with
/// `m * 2^e <= v < (m + 1) * 2^e`, in units of `2^q`, where `sticky` says
/// that `v` is not `m * 2^e` itself. A tie goes to the even multiple.
pub open spec fn rounded_at(m: nat, e: int, q: int, sticky: bool) -> nat {
    if q <= e {
        m * pow2((e - q) as nat)
    } else {
        let unit = pow2((q - e) as nat);
        let kept = m / unit;
        let low = m % unit;
        let half = unit / 2;
        if low > half || (low == half && (sticky || kept % 2 == 1)) {
            kept + 1
        } else {
            kept
        }
    }
}

/// The exponent of the last place that binary64 keeps of such a value: 53
/// digits below its leading one, but never below the subnormal grid.
pub open spec fn quantum(m: nat, e: int) -> int {
    quantum_of(m, e, 53, MIN_EXPONENT as int)
}

/// The significand, in units of `2^quantum(m, e)`, of the binary64 nearest
/// to such a value.
pub open spec fn round_significand(m: nat, e: int, sticky: bool) -> nat {
    rounded_at(m, e, quantum(m, e), sticky)
}

/// The magnitude bits of the binary64 nearest to such a value `v`. A
/// significand that rounds up to `2^53` carries into the exponent field, and
/// a result beyond the largest finite value is infinity.
pub open spec fn round_magnitude(m: nat, e: int, sticky: bool) -> nat {
    if m == 0 {
        0
    } else {
        let mag = (quantum(m, e) + 1074) * HIDDEN_BIT + round_significand(m, e, sticky);
        if mag >= INFINITY_BITS {
            INFINITY_BITS as nat
        } else {
            mag as nat
        }
    }
}

/// The binary64 nearest to `v` or to `-v`, as `negative` says.
pub open spec fn round(negative: bool, m: nat, e: int, sticky: bool) -> u64 {
    if negative {
        (SIGN_BIT + round_magnitude(m, e, sticky)) as u64
    } else {
        round_magnitude(m, e, sticky) as u64
    }
}

/// `2^128`, one more than the largest `u128`.
pub proof fn lemma_pow2_128()
    ensures
        pow2(128) == 0x1_0000_0000_0000_0000_0000_0000_0000_0000,
        pow2(127) == 0x8000_0000_0000_0000_0000_0000_0000_0000,
{
    lemma2_to64();
    lemma2_to64_rest();
    lemma_pow2_adds(64, 64);
    lemma_pow2_adds(63, 64);
    assert(pow2(64) * pow2(64) == 0x1_0000_0000_0000_0000_0000_0000_0000_0000) by (nonlinear_arith)
        requires
            pow2(64) == 0x1_0000_0000_0000_0000,
    ;
    assert(pow2(63) * pow2(64) == 0x8000_0000_0000_0000_0000_0000_0000_0000) by (nonlinear_arith)
        requires
            pow2(64) == 0x1_0000_0000_0000_0000,
            pow2(63) == 0x8000_0000_0000_0000,
    ;
}

/// Powers of two grow with the exponent.
pub proof fn lemma_pow2_monotone(a: nat, b: nat)
    requires
        a <= b,
    ensures
        pow2(a) <= pow2(b),
        pow2(a) > 0,
{
    lemma_pow2_pos(a);
    if a < b {
        lemma_pow2_strictly_increases(a, b);
    }
}

/// A positive number lies between the powers of two that its length names.
pub proof fn lemma_bit_length_bounds(m: nat)
    requires
        m > 0,
    ensures
        bit_length(m) >= 1,
        pow2((bit_length(m) - 1) as nat) <= m < pow2(bit_length(m)),
    decreases m,
{
    lemma2_to64();
    if m == 1 {
        assert(bit_length(1) == 1 + bit_length(0));
    } else {
        let h = m / 2;
        lemma_bit_length_bounds(h);
        let l = bit_length(h);
        lemma_pow2_unfold(l);
        lemma_pow2_unfold(l + 1);
    }
}

/// The length of a number is the only one whose powers of two enclose it.
pub proof fn lemma_bit_length_unique(m: nat, l: nat)
    requires
        l >= 1,
        pow2((l - 1) as nat) <= m < pow2(l),
    ensures
        bit_length(m) == l,
{
    lemma_pow2_pos((l - 1) as nat);
    lemma_bit_length_bounds(m);
    let k = bit_length(m);
    if k < l {
        lemma_pow2_monotone(k, (l - 1) as nat);
    } else if k > l {
        lemma_pow2_monotone(l, (k - 1) as nat);
    }
}

/// Dropping `j` low digits shortens a number by `j`, while digits remain.
pub proof fn lemma_bit_length_shift(m: nat, j: nat)
    requires
        m / pow2(j) > 0,
    ensures
        bit_length(m) == bit_length(m / pow2(j)) + j,
{
    let p = pow2(j);
    lemma_pow2_pos(j);
    let h = m / p;
    lemma_bit_length_bounds(h);
    let l = bit_length(h);
    lemma_fundamental_div_mod(m as int, p as int);
    lemma_mod_bound(m as int, p as int);
    lemma_pow2_adds((l - 1) as nat, j);
    lemma_pow2_adds(l, j);
    assert(pow2((l - 1) as nat) * p <= m) by (nonlinear_arith)
        requires
            pow2((l - 1) as nat) <= h,
            m == p * h + m % p,
            0 <= m % p,
            p > 0,
    ;
    assert(m < pow2(l) * p) by (nonlinear_arith)
        requires
            h + 1 <= pow2(l),
            m == p * h + m % p,
            m % p < p,
            p > 0,
    ;
    assert(((l + j) - 1) as nat == (l - 1) as nat + j);
    lemma_bit_length_unique(m, l + j);
}

/// `2^k` as a machine word.
pub fn pow2_u128(k: u32) -> (p: u128)
    requires
        k < 128,
    ensures
        p == pow2(k as nat),
        p > 0,
{
    proof {
        lemma_one_shl(k);
        lemma_pow2_pos(k as nat);
    }
    1u128 << k
}

proof fn lemma_one_shl(k: u32)
    requires
        k < 128,
    ensures
        (1u128 << k) == pow2(k as nat),
    decreases k,
{
    if k == 0 {
        assert(1u128 << 0u32 == 1u128) by (bit_vector);
        lemma2_to64();
    } else {
        let j: u32 = (k - 1) as u32;
        lemma_one_shl(j);
        assert((1u128 << k) == 2 * (1u128 << j)) by (bit_vector)
            requires
                j + 1 == k,
                k < 128,
        ;
        lemma_pow2_unfold(k as nat);
    }
}

/// Drops the low `step` digits of `x` if digits remain above them, and
/// counts them.
fn drop_digits(x: u128, step: u32, unit: u128) -> (r: (u128, u32))
    requires
        step < 128,
        unit == pow2(step as nat),
        x < unit * unit,
    ensures
        bit_length(x as nat) == r.1 + bit_length(r.0 as nat),
        r.0 < unit,
        r.1 <= step,
{
    if x >= unit {
        proof {
            lemma_fundamental_div_mod(x as int, unit as int);
            lemma_mod_bound(x as int, unit as int);
            assert(x / unit >= 1 && x / unit < unit) by (nonlinear_arith)
                requires
                    x == unit * (x / unit) + x % unit,
                    0 <= x % unit < unit,
                    unit <= x < unit * unit,
                    unit > 0,
            ;
            lemma_bit_length_shift(x as nat, step as nat);
        }
        (x / unit, step)
    } else {
        (x, 0)
    }
}

/// The number of binary digits of `m`.
pub fn bit_len(m: u128) -> (l: u32)
    ensures
        l == bit_length(m as nat),
        l <= 128,
        m > 0 ==> l >= 1,
{
    proof {
        lemma2_to64();
        lemma_pow2_128();
        assert(bit_length(1) == 1 + bit_length(0));
    }
    let (x, l64) = drop_digits(m, 64, 0x1_0000_0000_0000_0000);
    let (x, l32) = drop_digits(x, 32, 0x1_0000_0000);
    let (x, l16) = drop_digits(x, 16, 0x1_0000);
    let (x, l8) = drop_digits(x, 8, 0x100);
    let (x, l4) = drop_digits(x, 4, 0x10);
    let (x, l2) = drop_digits(x, 2, 4);
    let (x, l1) = drop_digits(x, 1, 2);
    l64 + l32 + l16 + l8 + l4 + l2 + l1 + x as u32
}

/// Splits an encoding into its sign, significand and exponent.
pub fn unpack(bits: u64) -> (parts: (bool, u64, i64))
    ensures
        parts.0 == negative(bits),
        parts.1 == significand(bits),
        parts.2 == exponent(bits),
        parts.1 < 2 * HIDDEN_BIT,
        MIN_EXPONENT <= parts.2 <= 972,
        parts.2 > MIN_EXPONENT ==> parts.1 >= HIDDEN_BIT,
{
    let neg = bits >= SIGN_BIT;
    let mag: u64 = if neg {
        bits - SIGN_BIT
    } else {
        bits
    };
    if mag < HIDDEN_BIT {
        (neg, mag, MIN_EXPONENT)
    } else {
        (neg, HIDDEN_BIT + mag % HIDDEN_BIT, (mag / HIDDEN_BIT) as i64 - 1075)
    }
}

/// The rounded significand of a value above the subnormal grid keeps
/// exactly `digits` digits, or one more after a carry; that of any value
/// stays within `2^digits`.
pub proof fn lemma_rounded_bounds(m: nat, e: int, sticky: bool, digits: nat, floor: int)
    requires
        m > 0,
        digits >= 1,
    ensures
        ({
            let q = quantum_of(m, e, digits, floor);
            &&& rounded_at(m, e, q, sticky) <= pow2(digits)
            &&& q > floor ==> rounded_at(m, e, q, sticky) >= pow2((digits - 1) as nat)
        }),
{
    let l = bit_length(m);
    let q = quantum_of(m, e, digits, floor);
    lemma_bit_length_bounds(m);
    if q <= e {
        let s = (e - q) as nat;
        lemma_pow2_monotone(l + s, digits);
        lemma_pow2_adds(l, s);
        lemma_pow2_pos(s);
        assert(m * pow2(s) < pow2(l) * pow2(s)) by (nonlinear_arith)
            requires
                m < pow2(l),
                pow2(s) > 0,
        ;
        if q > floor {
            assert(l + s == digits);
            lemma_pow2_adds((l - 1) as nat, s);
            assert(pow2((l - 1) as nat) * pow2(s) <= m * pow2(s)) by (nonlinear_arith)
                requires
                    pow2((l - 1) as nat) <= m,
                    pow2(s) > 0,
            ;
            assert((l - 1) as nat + s == (digits - 1) as nat);
        }
    } else {
        let s = (q - e) as nat;
        let unit = pow2(s);
        lemma_pow2_pos(s);
        lemma_fundamental_div_mod(m as int, unit as int);
        lemma_mod_bound(m as int, unit as int);
        let kept = m / unit;
        lemma_pow2_monotone(l, digits + s);
        lemma_pow2_adds(digits, s);
        assert(kept < pow2(digits)) by (nonlinear_arith)
            requires
                m < pow2(digits) * unit,
                m == unit * kept + m % unit,
                0 <= m % unit,
                unit > 0,
        ;
        if q > floor {
            assert(l == digits + s);
            lemma_pow2_adds((digits - 1) as nat, s);
            assert((l - 1) as nat == (digits - 1) as nat + s);
            assert(kept >= pow2((digits - 1) as nat)) by (nonlinear_arith)
                requires
                    pow2((digits - 1) as nat) * unit <= m,
                    m == unit * kept + m % unit,
                    m % unit < unit,
                    unit > 0,
            ;
        }
    }
}

/// The rounded significand of a binary64 that is not subnormal keeps
/// exactly 53 digits, or one more after a carry; that of any value stays
/// within `2^53`.
pub proof fn lemma_round_significand_bounds(m: nat, e: int, sticky: bool)
    requires
        m > 0,
    ensures
        round_significand(m, e, sticky) <= 2 * HIDDEN_BIT,
        quantum(m, e) > MIN_EXPONENT ==> round_significand(m, e, sticky) >= HIDDEN_BIT,
{
    lemma_rounded_bounds(m, e, sticky, 53, MIN_EXPONENT as int);
    lemma2_to64_rest();
}

/// Rounding reads only the leading digits: once two more than the format
/// keeps are kept, the `j` digits below them matter only through whether
/// any is set.
pub proof fn lemma_rounded_coarsen(m: nat, e: int, sticky: bool, j: nat, digits: nat, floor: int)
    requires
        digits >= 1,
        m / pow2(j) >= pow2(digits + 1),
    ensures
        quantum_of(m, e, digits, floor) == quantum_of(m / pow2(j), e + j, digits, floor),
        rounded_at(m, e, quantum_of(m, e, digits, floor), sticky) == rounded_at(
            m / pow2(j),
            e + j,
            quantum_of(m, e, digits, floor),
            sticky || m % pow2(j) != 0,
        ),
{
    let p = pow2(j);
    let c = m / p;
    let r0 = m % p;
    lemma_pow2_pos(j);
    lemma_pow2_pos(digits + 1);
    lemma_fundamental_div_mod(m as int, p as int);
    lemma_mod_bound(m as int, p as int);
    // the two lengths differ by j, so the rounding position is the same
    lemma_bit_length_shift(m, j);
    lemma_bit_length_bounds(c);
    let lc = bit_length(c);
    if lc <= digits + 1 {
        lemma_pow2_monotone(lc, digits + 1);
    }
    assert(lc >= digits + 2);
    let q = quantum_of(m, e, digits, floor);
    assert(q == quantum_of(c, e + j, digits, floor));
    assert(q >= e + j + 2);
    let s = (q - e) as nat;
    let sc = (q - e - j) as nat;
    let unit = pow2(s);
    let unit_c = pow2(sc);
    lemma_pow2_pos(s);
    lemma_pow2_pos(sc);
    lemma_pow2_adds(j, sc);
    assert(unit == p * unit_c);
    // the kept digits are the same
    lemma_div_denominator(m as int, p as int, unit_c as int);
    let kept = m / unit;
    assert(kept == c / unit_c);
    // the dropped digits of the fine value are those of the coarse one,
    // followed by r0
    let low = m % unit;
    let low_c = c % unit_c;
    lemma_fundamental_div_mod(m as int, unit as int);
    lemma_mod_bound(m as int, unit as int);
    lemma_fundamental_div_mod(c as int, unit_c as int);
    lemma_mod_bound(c as int, unit_c as int);
    assert(low == p * low_c + r0) by (nonlinear_arith)
        requires
            m == unit * kept + low,
            c == unit_c * kept + low_c,
            m == p * c + r0,
            unit == p * unit_c,
    ;
    // the halves
    lemma_pow2_unfold(s);
    lemma_pow2_unfold(sc);
    let half = unit / 2;
    let half_c = unit_c / 2;
    assert(half == pow2((s - 1) as nat));
    assert(half_c == pow2((sc - 1) as nat));
    lemma_pow2_adds(j, (sc - 1) as nat);
    assert((s - 1) as nat == j + (sc - 1) as nat);
    assert(half == p * half_c);
    assert(low > half <==> (low_c > half_c || (low_c == half_c && r0 > 0))) by (nonlinear_arith)
        requires
            low == p * low_c + r0,
            half == p * half_c,
            0 <= r0 < p,
            0 <= low_c,
            0 <= half_c,
    ;
    assert(low == half <==> (low_c == half_c && r0 == 0)) by (nonlinear_arith)
        requires
            low == p * low_c + r0,
            half == p * half_c,
            0 <= r0 < p,
            0 <= low_c,
            0 <= half_c,
    ;
}

/// Rounding to binary64 reads only the leading digits: once at least 55
/// of them are kept, the `j` digits below them matter only through
/// whether any is set.
pub proof fn lemma_round_coarsen(negative: bool, m: nat, e: int, sticky: bool, j: nat)
    requires
        m / pow2(j) >= 0x40_0000_0000_0000,
    ensures
        round(negative, m, e, sticky) == round(
            negative,
            m / pow2(j),
            e + j,
            sticky || m % pow2(j) != 0,
        ),
{
    lemma2_to64_rest();
    lemma_rounded_coarsen(m, e, sticky, j, 53, MIN_EXPONENT as int);
    lemma_pow2_pos(j);
    lemma_fundamental_div_mod(m as int, pow2(j) as int);
    lemma_mod_bound(m as int, pow2(j) as int);
    assert(m > 0) by (nonlinear_arith)
        requires
            m == pow2(j) * (m / pow2(j)) + m % pow2(j),
            m / pow2(j) > 0,
            pow2(j) > 0,
            m % pow2(j) >= 0,
    ;
}

/// Rounding depends on the value alone, not on how finely it is written:
/// `m * 2^j` in units of `2^(e - j)` rounds as `m` in units of `2^e`.
pub proof fn lemma_round_scale(negative: bool, m: nat, e: int, j: nat)
    ensures
        round(negative, m * pow2(j), e - j, false) == round(negative, m, e, false),
{
    let p = pow2(j);
    let fine = m * p;
    lemma_pow2_pos(j);
    if m == 0 {
        assert(0 * p == 0) by (nonlinear_arith);
    } else {
        assert(fine >= m) by (nonlinear_arith)
            requires
                fine == m * p,
                p >= 1,
        ;
        assert(fine / p == m && fine % p == 0) by {
            lemma_fundamental_div_mod_converse(fine as int, p as int, m as int, 0);
        }
        lemma_bit_length_shift(fine, j);
        let q = quantum(m, e);
        assert(quantum(fine, e - j) == q);
        if q <= e - j {
            let up = pow2((e - j - q) as nat);
            lemma_pow2_adds(j, (e - j - q) as nat);
            assert((m * p) * up == m * (p * up)) by (nonlinear_arith);
        } else if q <= e {
            let unit = pow2((q - e + j) as nat);
            let up = pow2((e - q) as nat);
            lemma_pow2_adds((e - q) as nat, (q - e + j) as nat);
            lemma_pow2_pos((q - e + j) as nat);
            lemma_pow2_unfold((q - e + j) as nat);
            lemma_pow2_pos((q - e + j - 1) as nat);
            assert(fine == unit * (m * up) + 0) by (nonlinear_arith)
                requires
                    fine == m * p,
                    p == up * unit,
            ;
            lemma_fundamental_div_mod_converse(fine as int, unit as int, (m * up) as int, 0);
        } else {
            let unit = pow2((q - e) as nat);
            let wide = pow2((q - e + j) as nat);
            lemma_pow2_adds((q - e) as nat, j);
            lemma_pow2_pos((q - e) as nat);
            lemma_pow2_unfold((q - e) as nat);
            let kept = m / unit;
            let low = m % unit;
            let half = unit / 2;
            lemma_fundamental_div_mod(m as int, unit as int);
            lemma_mod_bound(m as int, unit as int);
            assert(wide == unit * p);
            assert(fine == wide * kept + low * p) by (nonlinear_arith)
                requires
                    fine == m * p,
                    m == unit * kept + low,
                    wide == unit * p,
            ;
            assert(0 <= low * p < wide) by (nonlinear_arith)
                requires
                    0 <= low < unit,
                    wide == unit * p,
                    p > 0,
            ;
            lemma_fundamental_div_mod_converse(
                fine as int,
                wide as int,
                kept as int,
                (low * p) as int,
            );
            assert(wide == (half * p) * 2 + 0) by (nonlinear_arith)
                requires
                    wide == unit * p,
                    unit == 2 * half,
            ;
            lemma_fundamental_div_mod_converse(wide as int, 2, (half * p) as int, 0);
            assert((low * p > half * p) == (low > half) && (low * p == half * p) == (low == half))
                by (nonlinear_arith)
                requires
                    p > 0,
            ;
        }
        assert(round_significand(fine, e - j, false) == round_significand(m, e, false));
    }
}

/// A value that binary64 holds rounds to itself, however finely it is
/// written: rounding `significand * 2^j` in units of `2^(exponent - j)`
/// gives back the encoding.
pub proof fn lemma_round_exact(bits: u64, j: nat)
    requires
        is_finite(bits),
        significand(bits) > 0,
    ensures
        round(negative(bits), significand(bits) * pow2(j), exponent(bits) - j, false) == bits,
{
    let sig = significand(bits);
    let e = exponent(bits);
    let mag = magnitude(bits);
    let p = pow2(j);
    let m = sig * p;
    lemma_pow2_pos(j);
    lemma2_to64();
    lemma2_to64_rest();
    assert(m / p == sig && m % p == 0) by {
        lemma_fundamental_div_mod_converse(m as int, p as int, sig as int, 0);
    }
    assert(m >= sig) by (nonlinear_arith)
        requires
            m == sig * p,
            p >= 1,
            sig >= 0,
    ;
    lemma_bit_length_shift(m, j);
    lemma_bit_length_bounds(sig);
    let ls = bit_length(sig);
    if mag >= HIDDEN_BIT {
        lemma_bit_length_unique(sig, 53);
    } else {
        if ls > 52 {
            lemma_pow2_monotone(52, (ls - 1) as nat);
        }
    }
    let q = quantum(m, e - j);
    assert(q == e);
    if j > 0 {
        lemma_pow2_unfold(j);
        lemma_pow2_pos((j - 1) as nat);
    } else {
        assert(m * pow2(0) == sig) by (nonlinear_arith)
            requires
                m == sig * p,
                p == 1,
                pow2(0) == 1,
        ;
    }
    assert(round_significand(m, e - j, false) == sig);
    assert((e + 1074) * HIDDEN_BIT + sig == mag) by {
        if mag >= HIDDEN_BIT {
            lemma_fundamental_div_mod(mag as int, HIDDEN_BIT as int);
            assert((mag / HIDDEN_BIT - 1) * HIDDEN_BIT + HIDDEN_BIT == HIDDEN_BIT * (mag
                / HIDDEN_BIT)) by (nonlinear_arith);
        } else {
            assert(0 * HIDDEN_BIT == 0);
        }
    }
}

/// The binary64 nearest to a whole number of at most 128 digits is finite;
/// it is a zero only for the number 0.
pub proof fn lemma_round_whole_is_finite(negative: bool, m: nat)
    requires
        m < 0x1_0000_0000_0000_0000_0000_0000_0000_0000,
    ensures
        is_finite(round(negative, m, 0, false)),
        crate::ieee::negative(round(negative, m, 0, false)) == negative,
        m > 0 ==> significand(round(negative, m, 0, false)) > 0,
        m == 0 ==> magnitude(round(negative, m, 0, false)) == 0,
{
    if m > 0 {
        lemma_round_significand_bounds(m, 0, false);
        lemma_bit_length_bounds(m);
        lemma_pow2_128();
        let l = bit_length(m);
        if l > 128 {
            lemma_pow2_monotone(128, (l - 1) as nat);
        }
        let q = quantum(m, 0);
        let sig = round_significand(m, 0, false);
        assert(-53 < q <= 75);
        assert((q + 1074) * HIDDEN_BIT <= 1149 * HIDDEN_BIT) by (nonlinear_arith)
            requires
                q + 1074 <= 1149,
        ;
        assert((q + 1074) * HIDDEN_BIT >= 1022 * HIDDEN_BIT) by (nonlinear_arith)
            requires
                q + 1074 >= 1022,
        ;
        let mag = ((q + 1074) * HIDDEN_BIT + sig) as u64;
        assert(magnitude(round(negative, m, 0, false)) == mag);
        assert(mag >= HIDDEN_BIT);
    }
}

/// A whole number of fewer than 54 digits is a binary64: the nearest
/// binary64 has that number as its integer part, and nothing beside it.
pub proof fn lemma_round_whole_exact(negative: bool, m: nat)
    requires
        0 < m < 0x20_0000_0000_0000,
    ensures
        ({
            let bits = round(negative, m, 0, false);
            &&& is_finite(bits)
            &&& crate::ieee::negative(bits) == negative
            &&& exponent(bits) <= 0
            &&& significand(bits) == m * pow2((-exponent(bits)) as nat)
            &&& significand(bits) / pow2((-exponent(bits)) as nat) == m
            &&& HIDDEN_BIT <= significand(bits) < 2 * HIDDEN_BIT
            &&& -52 <= exponent(bits)
        }),
{
    lemma_round_significand_bounds(m, 0, false);
    lemma_bit_length_bounds(m);
    lemma2_to64();
    lemma2_to64_rest();
    let l = bit_length(m);
    if l > 53 {
        lemma_pow2_monotone(53, (l - 1) as nat);
    }
    let q = quantum(m, 0);
    assert(q == l - 53);
    let s = (53 - l) as nat;
    let p = pow2(s);
    lemma_pow2_pos(s);
    let sig = round_significand(m, 0, false);
    assert(sig == m * p);
    lemma_pow2_adds(l, s);
    assert(m * p < pow2(l) * p) by (nonlinear_arith)
        requires
            m < pow2(l),
            p > 0,
    ;
    assert(HIDDEN_BIT <= sig < 2 * HIDDEN_BIT);
    let field = q + 1074;
    assert(field * HIDDEN_BIT <= 1074 * HIDDEN_BIT) by (nonlinear_arith)
        requires
            field <= 1074,
    ;
    assert(field * HIDDEN_BIT >= 1022 * HIDDEN_BIT) by (nonlinear_arith)
        requires
            field >= 1022,
    ;
    let mag = (field * HIDDEN_BIT + sig) as u64;
    let bits = round(negative, m, 0, false);
    assert(magnitude(bits) == mag);
    assert(mag == HIDDEN_BIT * (field + 1) + (sig - HIDDEN_BIT)) by (nonlinear_arith)
        requires
            mag == field * HIDDEN_BIT + sig,
    ;
    lemma_fundamental_div_mod_converse(
        mag as int,
        HIDDEN_BIT as int,
        field + 1,
        sig - HIDDEN_BIT,
    );
    assert(exponent(bits) == q);
    assert(significand(bits) == sig);
    lemma_fundamental_div_mod_converse(sig as int, p as int, m as int, 0);
}

/// The significand of a positive finite value, scaled up by a power of two
/// to 53 digits, as that of a normal value is.
pub open spec fn normalized_significand(bits: u64) -> nat {
    significand(bits) * pow2((53 - bit_length(significand(bits))) as nat)
}

/// The exponent that goes with [`normalized_significand`].
pub open spec fn normalized_exponent(bits: u64) -> int {
    exponent(bits) - (53 - bit_length(significand(bits)))
}

/// Scales a positive significand up to 53 digits.
pub fn normalize(m: u64, e: i64) -> (scaled: (u64, i64))
    requires
        0 < m < 2 * HIDDEN_BIT,
        -0x1_0000 <= e <= 0x1_0000,
    ensures
        scaled.0 == m * pow2((53 - bit_length(m as nat)) as nat),
        scaled.1 == e - (53 - bit_length(m as nat)),
        HIDDEN_BIT <= scaled.0 < 2 * HIDDEN_BIT,
        bit_length(m as nat) <= 53,
{
    let len: u32 = bit_len(m as u128);
    proof {
        lemma_bit_length_bounds(m as nat);
        lemma2_to64_rest();
        if len > 53 {
            lemma_pow2_monotone(53, (len - 1) as nat);
        }
    }
    let shift: u32 = 53 - len;
    let unit: u128 = pow2_u128(shift);
    proof {
        lemma_pow2_adds(len as nat, shift as nat);
        lemma_pow2_adds((len - 1) as nat, shift as nat);
        assert((len - 1) as nat + shift as nat == 52);
        assert(m * unit < pow2(len as nat) * unit) by (nonlinear_arith)
            requires
                m < pow2(len as nat),
                unit > 0,
        ;
        assert(pow2((len - 1) as nat) * unit <= m * unit) by (nonlinear_arith)
            requires
                pow2((len - 1) as nat) <= m,
                unit > 0,
        ;
    }
    ((m as u128 * unit) as u64, e - shift as i64)
}

/// Whether `r` is the largest number whose square is at most `n`.
pub open spec fn is_isqrt(n: nat, r: nat) -> bool {
    r * r <= n < (r + 1) * (r + 1)
}

/// The integer square root: the largest `r` with `r * r <= n`.
pub open spec fn isqrt(n: nat) -> nat {
    choose|r: nat| is_isqrt(n, r)
}

/// Only one number has its square at most `n` and its successor's above.
pub proof fn lemma_isqrt_unique(n: nat, r: nat)
    requires
        r * r <= n < (r + 1) * (r + 1),
    ensures
        isqrt(n) == r,
{
    let c = isqrt(n);
    assert(is_isqrt(n, r));
    assert(is_isqrt(n, c));
    if c < r {
        assert((c + 1) * (c + 1) <= r * r) by (nonlinear_arith)
            requires
                0 <= c + 1 <= r,
        ;
    } else if c > r {
        assert((r + 1) * (r + 1) <= c * c) by (nonlinear_arith)
            requires
                0 <= r + 1 <= c,
        ;
    }
}

/// The integer square root of `n`.
pub fn isqrt_u128(n: u128) -> (r: u64)
    ensures
        r == isqrt(n as nat),
        r * r <= n < (r + 1) * (r + 1),
{
    let mut r: u128 = 0;
    let mut k: u32 = 64;
    proof {
        lemma2_to64();
        lemma_pow2_128();
    }
    while k > 0
        invariant
            k <= 64,
            r + pow2(k as nat) <= 0x1_0000_0000_0000_0000,
            r * r <= n,
            n < (r + pow2(k as nat)) * (r + pow2(k as nat)),
        decreases k,
    {
        k = k - 1;
        let half: u128 = pow2_u128(k);
        proof {
            lemma_pow2_unfold((k + 1) as nat);
        }
        let t: u128 = r + half;
        assert(t * t <= 0xffff_ffff_ffff_ffff * 0xffff_ffff_ffff_ffff) by (nonlinear_arith)
            requires
                0 <= t <= 0xffff_ffff_ffff_ffff,
        ;
        if t * t <= n {
            r = t;
        }
    }
    proof {
        lemma_isqrt_unique(n as nat, r as nat);
    }
    r as u64
}

/// The multiple of `2^q` nearest to `v`, in units of `2^q`, where
/// `m * 2^e <= v < (m + 1) * 2^e` and `sticky` says that `v` exceeds
/// `m * 2^e`.
pub fn round_at(m: u128, e: i64, q: i64, sticky: bool) -> (r: u64)
    requires
        m > 0,
        -0x2_0000_0000 <= e <= 0x2_0000_0000,
        -0x2_0000_0000 <= q <= 0x2_0000_0000,
        rounded_at(m as nat, e as int, q as int, sticky) <= 0x8000_0000_0000_0000,
    ensures
        r == rounded_at(m as nat, e as int, q as int, sticky),
{
    proof {
        lemma_pow2_128();
        lemma2_to64_rest();
    }
    if q <= e {
        proof {
            let s = (e - q) as nat;
            lemma_pow2_pos(s);
            if s > 63 {
                lemma_pow2_monotone(64, s);
                assert(m * pow2(s) >= pow2(s)) by (nonlinear_arith)
                    requires
                        m >= 1,
                        pow2(s) > 0,
                ;
            }
        }
        let s: u32 = (e - q) as u32;
        let unit: u128 = pow2_u128(s);
        (m * unit) as u64
    } else if q - e > 128 {
        proof {
            let s = (q - e) as nat;
            lemma_pow2_monotone(129, s);
            lemma_pow2_unfold(129);
            lemma_pow2_unfold(s);
            lemma_pow2_monotone(128, (s - 1) as nat);
            let unit = pow2(s);
            lemma_small_mod(m as nat, unit);
            lemma_basic_div(m as int, unit as int);
            assert(unit / 2 == pow2((s - 1) as nat));
        }
        0
    } else if q - e == 128 {
        proof {
            lemma_pow2_unfold(128);
            let unit = pow2(128);
            lemma_small_mod(m as nat, unit);
            lemma_basic_div(m as int, unit as int);
        }
        let half: u128 = 0x8000_0000_0000_0000_0000_0000_0000_0000;
        if m > half || (m == half && sticky) {
            1
        } else {
            0
        }
    } else {
        let s: u32 = (q - e) as u32;
        let unit: u128 = pow2_u128(s);
        let kept: u128 = m / unit;
        let low: u128 = m % unit;
        let half: u128 = unit / 2;
        if low > half || (low == half && (sticky || kept % 2 == 1)) {
            (kept + 1) as u64
        } else {
            kept as u64
        }
    }
}

/// Rounds `v` to binary64 and packs the encoding, where
/// `m * 2^e <= v < (m + 1) * 2^e` and `sticky` says that `v` exceeds
/// `m * 2^e`.
pub fn round_pack(negative: bool, m: u128, e: i64, sticky: bool) -> (bits: u64)
    requires
        -0x1_0000_0000 <= e <= 0x1_0000_0000,
    ensures
        bits == round(negative, m as nat, e as int, sticky),
{
    let sign: u64 = if negative {
        SIGN_BIT
    } else {
        0
    };
    if m == 0 {
        return sign;
    }
    let len: u32 = bit_len(m);
    let natural: i64 = e + len as i64 - 53;
    let q: i64 = if natural < MIN_EXPONENT {
        MIN_EXPONENT
    } else {
        natural
    };
    proof {
        lemma_round_significand_bounds(m as nat, e as int, sticky);
    }
    if q > 971 {
        assert(round_magnitude(m as nat, e as int, sticky) == INFINITY_BITS) by {
            assert((q + 1074) * HIDDEN_BIT >= 2046 * HIDDEN_BIT) by (nonlinear_arith)
                requires
                    q + 1074 >= 2046,
            ;
        }
        return sign + INFINITY_BITS;
    }
    let sig: u64 = round_at(m, e, q, sticky);
    assert((q + 1074) * HIDDEN_BIT <= 2045 * HIDDEN_BIT) by (nonlinear_arith)
        requires
            q + 1074 <= 2045,
    ;
    assert((q + 1074) * HIDDEN_BIT >= 0) by (nonlinear_arith)
        requires
            q + 1074 >= 0,
    ;
    let mag: u64 = (q + 1074) as u64 * HIDDEN_BIT + sig;
    if mag >= INFINITY_BITS {
        sign + INFINITY_BITS
    } else {
        sign + mag
    }
}

} // verus!
