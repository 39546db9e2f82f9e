//! The values of the numbers, exactly: every finite binary64 is a whole
//! multiple of `2^-1074`, so its value can be held as an integer, and what
//! rounding loses can be bounded in integers.

use vstd::prelude::*;
use vstd::arithmetic::power2::{
    pow2,
    lemma_pow2_pos,
    lemma_pow2_adds,
    lemma_pow2_unfold,
    lemma2_to64,
    lemma2_to64_rest,
};
use vstd::arithmetic::div_mod::{
    lemma_fundamental_div_mod,
    lemma_fundamental_div_mod_converse,
    lemma_mod_bound,
    lemma_div_multiples_vanish_quotient,
};
use crate::ieee::{
    HIDDEN_BIT,
    INFINITY_BITS,
    MIN_EXPONENT,
    bit_length,
    exponent,
    is_finite,
    magnitude,
    negative,
    quantum,
    round,
    round_significand,
    significand,
    normalized_exponent,
    normalized_significand,
    lemma_bit_length_bounds,
    lemma_bit_length_unique,
    lemma_pow2_monotone,
    lemma_round_significand_bounds,
    lemma_round_whole_exact,
};
use crate::math::{Num, truncated, lemma_from_int_exact};

verus! {

/// The value of the number one, in units of `2^-1074`.
pub open spec fn one() -> nat {
    pow2(1074)
}

/// The absolute value of a finite number, in units of `2^-1074`.
pub open spec fn scaled_magnitude(bits: u64) -> nat {
    significand(bits) * pow2((exponent(bits) + 1074) as nat)
}

/// The value of a finite number, in units of `2^-1074`.
pub open spec fn scaled(bits: u64) -> int {
    if negative(bits) {
        -(scaled_magnitude(bits) as int)
    } else {
        scaled_magnitude(bits) as int
    }
}

/// The value of what rounding gives is its significand in units of the
/// quantum, where the result is finite.
pub proof fn lemma_scaled_of_round(neg: bool, m: nat, e: int, sticky: bool)
    requires
        m > 0,
        (quantum(m, e) + 1074) * HIDDEN_BIT + round_significand(m, e, sticky) < INFINITY_BITS,
    ensures
        is_finite(round(neg, m, e, sticky)),
        negative(round(neg, m, e, sticky)) == neg,
        scaled_magnitude(round(neg, m, e, sticky)) == round_significand(m, e, sticky) * pow2(
            (quantum(m, e) + 1074) as nat,
        ),
{
    let q = quantum(m, e);
    let r = round_significand(m, e, sticky);
    let field = q + 1074;
    let bits = round(neg, m, e, sticky);
    lemma_round_significand_bounds(m, e, sticky);
    lemma2_to64();
    lemma2_to64_rest();
    assert(field * HIDDEN_BIT >= 0) by (nonlinear_arith)
        requires
            field >= 0,
    ;
    let mag = (field * HIDDEN_BIT + r) as u64;
    assert(magnitude(bits) == mag);
    let p = pow2(field as nat);
    lemma_pow2_pos(field as nat);
    if r < HIDDEN_BIT {
        assert(field == 0);
        assert(0 * HIDDEN_BIT == 0);
        assert(mag == r);
    } else if r < 2 * HIDDEN_BIT {
        assert(mag == HIDDEN_BIT * (field + 1) + (r - HIDDEN_BIT)) by (nonlinear_arith)
            requires
                mag == field * HIDDEN_BIT + r,
        ;
        lemma_fundamental_div_mod_converse(mag as int, HIDDEN_BIT as int, field + 1, r - HIDDEN_BIT);
        assert(exponent(bits) == q);
        assert(significand(bits) == r);
    } else {
        assert(r == 2 * HIDDEN_BIT);
        assert(mag == HIDDEN_BIT * (field + 2) + 0) by (nonlinear_arith)
            requires
                mag == field * HIDDEN_BIT + r,
                r == 2 * HIDDEN_BIT,
        ;
        lemma_fundamental_div_mod_converse(mag as int, HIDDEN_BIT as int, field + 2, 0);
        assert(exponent(bits) == q + 1);
        assert(significand(bits) == HIDDEN_BIT);
        lemma_pow2_unfold((field + 1) as nat);
        assert(HIDDEN_BIT * (2 * p) == (2 * HIDDEN_BIT) * p) by (nonlinear_arith);
    }
}

/// The integer part of a finite number is the whole number of ones in its
/// value, with its sign.
pub proof fn lemma_truncated_of_scaled(bits: u64)
    requires
        is_finite(bits),
    ensures
        truncated(bits) == if negative(bits) {
            -((scaled_magnitude(bits) / one()) as int)
        } else {
            (scaled_magnitude(bits) / one()) as int
        },
{
    let m = significand(bits);
    let e = exponent(bits);
    let s = one();
    lemma_pow2_pos(1074);
    if e >= 0 {
        let p = pow2(e as nat);
        lemma_pow2_adds(e as nat, 1074);
        assert(m * (p * s) == (m * p) * s) by (nonlinear_arith);
        lemma_fundamental_div_mod_converse((m * p * s) as int, s as int, (m * p) as int, 0);
    } else {
        let p = pow2((e + 1074) as nat);
        let d = pow2((-e) as nat);
        lemma_pow2_pos((e + 1074) as nat);
        lemma_pow2_pos((-e) as nat);
        lemma_pow2_adds((e + 1074) as nat, (-e) as nat);
        assert(s == p * d);
        lemma_div_multiples_vanish_quotient(p as int, m as int, d as int);
        assert(m * p == p * m) by (nonlinear_arith);
    }
}

/// The value of the number for a whole number of fewer than 54 digits is
/// that whole number of ones.
pub proof fn lemma_scaled_of_int(v: int)
    requires
        -0x20_0000_0000_0000 < v < 0x20_0000_0000_0000,
    ensures
        is_finite(Num::spec_from_int(v).bits),
        scaled(Num::spec_from_int(v).bits) == v * one(),
{
    reveal(Num::spec_from_int);
    let bits = Num::spec_from_int(v).bits;
    if v == 0 {
        assert(bits == 0);
        assert(0 * pow2(0) == 0) by (nonlinear_arith);
        assert(0 * one() == 0) by (nonlinear_arith);
    } else {
        let m: nat = if v < 0 {
            (-v) as nat
        } else {
            v as nat
        };
        lemma_round_whole_exact(v < 0, m);
        let e = exponent(bits);
        let down = pow2((-e) as nat);
        let up = pow2((e + 1074) as nat);
        lemma_pow2_adds((-e) as nat, (e + 1074) as nat);
        assert(down * up == one());
        assert((m * down) * up == m * (down * up)) by (nonlinear_arith);
        assert((-(m as int)) * one() == -(m * one())) by (nonlinear_arith);
    }
}

/// What rounding loses is at most half the quantum. Here the value
/// rounded is `n / d` in units of `2^e`, in a grid no finer than
/// `2^-1074`; the bound is stated without fractions, after multiplying by
/// `d`.
pub proof fn lemma_round_error(neg: bool, n: nat, d: nat, e: int)
    requires
        d > 0,
        n / d > 0,
        e >= MIN_EXPONENT,
        quantum(n / d, e) > e || n % d == 0,
        (quantum(n / d, e) + 1074) * HIDDEN_BIT + round_significand(n / d, e, n % d != 0)
            < INFINITY_BITS,
    ensures
        is_finite(round(neg, n / d, e, n % d != 0)),
        negative(round(neg, n / d, e, n % d != 0)) == neg,
        ({
            let got = d * scaled_magnitude(round(neg, n / d, e, n % d != 0));
            let want = n * pow2((e + 1074) as nat);
            let slack = d * pow2((quantum(n / d, e) + 1074) as nat);
            2 * (got - want) <= slack && 2 * (want - got) <= slack
        }),
{
    let m = n / d;
    let rem = n % d;
    let sticky = rem != 0;
    let q = quantum(m, e);
    let r = round_significand(m, e, sticky);
    lemma_scaled_of_round(neg, m, e, sticky);
    lemma_fundamental_div_mod(n as int, d as int);
    lemma_mod_bound(n as int, d as int);
    let base = pow2((e + 1074) as nat);
    let top = pow2((q + 1074) as nat);
    lemma_pow2_pos((e + 1074) as nat);
    lemma_pow2_pos((q + 1074) as nat);
    if q <= e {
        let up = pow2((e - q) as nat);
        lemma_pow2_adds((e - q) as nat, (q + 1074) as nat);
        assert(r == m * up);
        assert(d * ((m * up) * top) == n * base) by (nonlinear_arith)
            requires
                up * top == base,
                n == d * m + rem,
                rem == 0,
        ;
        assert(d * top >= 0) by (nonlinear_arith)
            requires
                top > 0,
        ;
    } else {
        let unit = pow2((q - e) as nat);
        let kept = m / unit;
        let low = m % unit;
        let half = unit / 2;
        lemma_pow2_pos((q - e) as nat);
        lemma_pow2_unfold((q - e) as nat);
        lemma_pow2_adds((q - e) as nat, (e + 1074) as nat);
        assert(unit * base == top);
        assert(unit == 2 * half);
        lemma_fundamental_div_mod(m as int, unit as int);
        lemma_mod_bound(m as int, unit as int);
        // in units of base: the value is kept * unit + low + rem / d, and
        // the result is r * unit
        if r == kept {
            assert(low < half || (low == half && rem == 0));
            assert(2 * (n - d * (kept * unit)) <= d * unit && d * (kept * unit) <= n)
                by (nonlinear_arith)
                requires
                    n == d * m + rem,
                    m == unit * kept + low,
                    0 <= rem < d,
                    unit == 2 * half,
                    low < half || (low == half && rem == 0),
                    0 <= low,
            ;
        } else {
            assert(r == kept + 1);
            assert(low > half || (low == half));
            assert(2 * (d * ((kept + 1) * unit) - n) <= d * unit && n <= d * ((kept + 1)
                * unit)) by (nonlinear_arith)
                requires
                    n == d * m + rem,
                    m == unit * kept + low,
                    0 <= rem < d,
                    unit == 2 * half,
                    low >= half,
                    low < unit,
            ;
        }
        let got = d * (r * top);
        let want = n * base;
        assert(got == (d * (r * unit)) * base) by (nonlinear_arith)
            requires
                got == d * (r * top),
                unit * base == top,
        ;
        assert(d * top == (d * unit) * base) by (nonlinear_arith)
            requires
                unit * base == top,
        ;
        assert(2 * (got - want) <= d * top && 2 * (want - got) <= d * top) by (nonlinear_arith)
            requires
                got == (d * (r * unit)) * base,
                want == n * base,
                d * top == (d * unit) * base,
                2 * (d * (r * unit) - n) <= d * unit,
                2 * (n - d * (r * unit)) <= d * unit,
                base > 0,
        ;
    }
}

/// Rounding gives the nearest number there is: no finite number is
/// nearer to the value rounded than the result. The value rounded is
/// `n / d` in units of `2^e`, in a grid no finer than `2^-1074`, and the
/// distances are stated without fractions, after multiplying by `d`.
pub proof fn lemma_round_is_nearest(neg: bool, n: nat, d: nat, e: int, x: u64)
    requires
        d > 0,
        n / d > 0,
        e >= MIN_EXPONENT,
        quantum(n / d, e) > e || n % d == 0,
        (quantum(n / d, e) + 1074) * HIDDEN_BIT + round_significand(n / d, e, n % d != 0)
            < INFINITY_BITS,
        is_finite(x),
    ensures
        ({
            let got = d * scaled_magnitude(round(neg, n / d, e, n % d != 0));
            let want = n * pow2((e + 1074) as nat);
            let other = d * scaled_magnitude(x);
            &&& got - want <= other - want || got - want <= want - other
            &&& want - got <= other - want || want - got <= want - other
        }),
{
    let m = n / d;
    let rem = n % d;
    let sticky = rem != 0;
    let q = quantum(m, e);
    let r = round_significand(m, e, sticky);
    lemma_round_error(neg, n, d, e);
    lemma_scaled_of_round(neg, m, e, sticky);
    let base = pow2((e + 1074) as nat);
    let top = pow2((q + 1074) as nat);
    let got = d * scaled_magnitude(round(neg, m, e, sticky));
    let want = n * base;
    let xm = scaled_magnitude(x);
    let other = d * xm;
    lemma_pow2_pos((e + 1074) as nat);
    lemma_pow2_pos((q + 1074) as nat);
    lemma2_to64_rest();
    if q > e {
        let unit = pow2((q - e) as nat);
        let kept = m / unit;
        let low = m % unit;
        lemma_pow2_pos((q - e) as nat);
        lemma_pow2_adds((q - e) as nat, (e + 1074) as nat);
        lemma_fundamental_div_mod(m as int, unit as int);
        lemma_mod_bound(m as int, unit as int);
        lemma_fundamental_div_mod(n as int, d as int);
        lemma_mod_bound(n as int, d as int);
        let below = d * (kept * top);
        let above = d * ((kept + 1) * top);
        assert(above - below == d * top) by (nonlinear_arith)
            requires
                below == d * (kept * top),
                above == d * ((kept + 1) * top),
        ;
        assert(below <= want < above) by (nonlinear_arith)
            requires
                below == d * (kept * top),
                above == d * ((kept + 1) * top),
                want == n * base,
                top == unit * base,
                n == d * m + rem,
                m == unit * kept + low,
                0 <= rem < d,
                0 <= low < unit,
                base > 0,
        ;
        assert(got == below || got == above);
        // no finite number lies strictly between the two neighbours
        let sx = (exponent(x) + 1074) as nat;
        let gx = significand(x);
        let sq = (q + 1074) as nat;
        lemma_pow2_pos(sx);
        if sx >= sq {
            let c = gx * pow2((sx - sq) as nat);
            lemma_pow2_adds((sx - sq) as nat, sq);
            assert(xm == c * top) by (nonlinear_arith)
                requires
                    xm == gx * pow2(sx),
                    pow2(sx) == pow2((sx - sq) as nat) * top,
                    c == gx * pow2((sx - sq) as nat),
            ;
            assert(xm <= kept * top || xm >= (kept + 1) * top) by (nonlinear_arith)
                requires
                    xm == c * top,
                    top > 0,
                    c <= kept || c >= kept + 1,
            ;
        } else {
            // a number with a finer grid than the quantum is below the
            // binade of the result
            lemma_bit_length_bounds(m);
            let l = bit_length(m);
            assert(q == e + l - 53);
            lemma_pow2_adds(52, (q - e) as nat);
            assert((l - 1) as nat == 52 + (q - e) as nat);
            assert(kept >= HIDDEN_BIT) by (nonlinear_arith)
                requires
                    pow2(52) * unit <= m,
                    m == unit * kept + low,
                    low < unit,
                    unit > 0,
                    pow2(52) == HIDDEN_BIT,
            ;
            lemma_pow2_monotone(sx + 1, sq);
            lemma_pow2_unfold(sx + 1);
            assert(xm <= kept * top) by (nonlinear_arith)
                requires
                    xm == gx * pow2(sx),
                    gx < 2 * HIDDEN_BIT,
                    2 * pow2(sx) <= top,
                    kept >= HIDDEN_BIT,
                    pow2(sx) > 0,
                    gx >= 0,
            ;
        }
        assert(other <= below || other >= above) by (nonlinear_arith)
            requires
                other == d * xm,
                below == d * (kept * top),
                above == d * ((kept + 1) * top),
                xm <= kept * top || xm >= (kept + 1) * top,
                d > 0,
        ;
    } else {
        let up = pow2((e - q) as nat);
        lemma_pow2_adds((e - q) as nat, (q + 1074) as nat);
        lemma_fundamental_div_mod(n as int, d as int);
        assert(r == m * up);
        assert(d * ((m * up) * top) == n * base) by (nonlinear_arith)
            requires
                up * top == base,
                n == d * m + rem,
                rem == 0,
        ;
        assert(got == want);
    }
}

/// Of two numbers equally near, rounding gives the one whose significand
/// is even.
pub proof fn lemma_round_tie_is_even(m: nat, e: int)
    requires
        quantum(m, e) > e,
        2 * (m % pow2((quantum(m, e) - e) as nat)) == pow2((quantum(m, e) - e) as nat),
    ensures
        round_significand(m, e, false) % 2 == 0,
{
    let unit = pow2((quantum(m, e) - e) as nat);
    let kept = m / unit;
    let low = m % unit;
    assert(2 * low == unit);
    assert(unit as int == (low as int) * 2 + 0) by (nonlinear_arith)
        requires
            2 * low == unit,
    ;
    lemma_fundamental_div_mod_converse(unit as int, 2, low as int, 0);
    assert(low == unit / 2);
    if kept % 2 == 1 {
        assert(round_significand(m, e, false) == kept + 1);
        lemma_fundamental_div_mod(kept as int, 2);
        let halved = kept as int / 2;
        assert((kept + 1) as int == (halved + 1) * 2 + 0) by (nonlinear_arith)
            requires
                kept == 2 * halved + 1,
        ;
        lemma_fundamental_div_mod_converse((kept + 1) as int, 2, kept as int / 2 + 1, 0);
        assert((kept + 1) % 2 == 0);
    } else {
        assert(round_significand(m, e, false) == kept);
    }
}

/// What a sum loses to rounding: where the exact sum of two finite
/// numbers is below `2^b` in units of `2^-1074`, the rounded sum is finite
/// and within `2^(b - 54)` of it.
pub proof fn lemma_add_error(x: Num, y: Num, b: nat)
    requires
        is_finite(x.bits),
        is_finite(y.bits),
        53 <= b <= 2000,
        -pow2(b) < scaled(x.bits) + scaled(y.bits) < pow2(b),
    ensures
        is_finite(x.spec_add(y).bits),
        2 * (scaled(x.spec_add(y).bits) - (scaled(x.bits) + scaled(y.bits))) <= pow2(
            (b - 53) as nat,
        ),
        2 * ((scaled(x.bits) + scaled(y.bits)) - scaled(x.spec_add(y).bits)) <= pow2(
            (b - 53) as nat,
        ),
{
    reveal(Num::spec_add);
    let ex = exponent(x.bits);
    let ey = exponent(y.bits);
    let e = if ex <= ey {
        ex
    } else {
        ey
    };
    let sx = Num::signed_significand(x.bits);
    let sy = Num::signed_significand(y.bits);
    let px = pow2((ex - e) as nat);
    let py = pow2((ey - e) as nat);
    let base = pow2((e + 1074) as nat);
    let sum = sx * px + sy * py;
    lemma_pow2_pos((e + 1074) as nat);
    lemma_pow2_pos((b - 53) as nat);
    lemma_pow2_adds((ex - e) as nat, (e + 1074) as nat);
    lemma_pow2_adds((ey - e) as nat, (e + 1074) as nat);
    assert(scaled(x.bits) == sx * pow2((ex + 1074) as nat)) by (nonlinear_arith)
        requires
            scaled(x.bits) == if negative(x.bits) {
                -((significand(x.bits) * pow2((ex + 1074) as nat)) as int)
            } else {
                (significand(x.bits) * pow2((ex + 1074) as nat)) as int
            },
            sx == if negative(x.bits) {
                -(significand(x.bits) as int)
            } else {
                significand(x.bits) as int
            },
    ;
    assert(scaled(y.bits) == sy * pow2((ey + 1074) as nat)) by (nonlinear_arith)
        requires
            scaled(y.bits) == if negative(y.bits) {
                -((significand(y.bits) * pow2((ey + 1074) as nat)) as int)
            } else {
                (significand(y.bits) * pow2((ey + 1074) as nat)) as int
            },
            sy == if negative(y.bits) {
                -(significand(y.bits) as int)
            } else {
                significand(y.bits) as int
            },
    ;
    let total = scaled(x.bits) + scaled(y.bits);
    assert(total == sum * base) by (nonlinear_arith)
        requires
            total == sx * pow2((ex + 1074) as nat) + sy * pow2((ey + 1074) as nat),
            pow2((ex + 1074) as nat) == px * base,
            pow2((ey + 1074) as nat) == py * base,
            sum == sx * px + sy * py,
    ;
    if sum == 0 {
        assert(total == 0) by (nonlinear_arith)
            requires
                total == sum * base,
                sum == 0,
        ;
        assert(0 * pow2(0) == 0) by (nonlinear_arith);
    } else {
        let m: nat = if sum < 0 {
            (-sum) as nat
        } else {
            sum as nat
        };
        let neg = sum < 0;
        assert(m * base < pow2(b)) by (nonlinear_arith)
            requires
                total == sum * base,
                -pow2(b) < total < pow2(b),
                m == if sum < 0 {
                    -sum
                } else {
                    sum
                },
        ;
        // the sum has few enough digits for its quantum to be small
        lemma_bit_length_bounds(m);
        let l = bit_length(m);
        lemma_pow2_adds((l - 1) as nat, (e + 1074) as nat);
        assert(pow2((l - 1) as nat) * base <= m * base) by (nonlinear_arith)
            requires
                pow2((l - 1) as nat) <= m,
                base > 0,
        ;
        if l - 1 + e + 1074 >= b {
            lemma_pow2_monotone(b, (l - 1 + e + 1074) as nat);
        }
        assert(l + e + 1074 <= b);
        let q = quantum(m, e);
        assert(q + 1074 <= b - 53);
        lemma_round_significand_bounds(m, e, false);
        assert((q + 1074) * HIDDEN_BIT <= 1947 * HIDDEN_BIT) by (nonlinear_arith)
            requires
                q + 1074 <= 1947,
        ;
        assert(m / 1 == m && m % 1 == 0);
        lemma_round_error(neg, m, 1, e);
        lemma_pow2_monotone((q + 1074) as nat, (b - 53) as nat);
        let r = round(neg, m, e, false);
        assert(1 * scaled_magnitude(r) == scaled_magnitude(r));
        assert(1 * pow2((q + 1074) as nat) == pow2((q + 1074) as nat));
        assert(total == if neg {
            -(m * base)
        } else {
            (m * base) as int
        }) by (nonlinear_arith)
            requires
                total == sum * base,
                m == if sum < 0 {
                    -sum
                } else {
                    sum
                },
                neg == (sum < 0),
        ;
    }
}

/// What a slope loses to rounding: the quotient of two whole numbers, the
/// first no larger than the second, is finite and within `2^-53` of the
/// exact quotient. The bound is stated after multiplying by `n`.
pub proof fn lemma_slope_error(delta: int, n: int)
    requires
        0 < n < 0x20_0000_0000_0000,
        -n <= delta <= n,
    ensures
        ({
            let a = Num::spec_from_int(delta).spec_div(Num::spec_from_int(n));
            &&& is_finite(a.bits)
            &&& 2 * (n * scaled(a.bits) - delta * one()) <= n * pow2(1022)
            &&& 2 * (delta * one() - n * scaled(a.bits)) <= n * pow2(1022)
        }),
{
    reveal(Num::spec_div);
    let x = Num::spec_from_int(delta);
    let y = Num::spec_from_int(n);
    let a = x.spec_div(y);
    lemma_from_int_exact(delta);
    lemma_from_int_exact(n);
    lemma_pow2_pos(1022);
    lemma_pow2_pos(1074);
    assert(n * pow2(1022) >= 0) by (nonlinear_arith)
        requires
            n > 0,
            pow2(1022) > 0,
    ;
    if delta == 0 {
        assert(0 * pow2(0) == 0) by (nonlinear_arith);
        assert(n * 0 == 0 && 0 * one() == 0) by (nonlinear_arith);
        assert(scaled(a.bits) == 0);
    } else {
        reveal(Num::spec_from_int);
        let ma: nat = if delta < 0 {
            (-delta) as nat
        } else {
            delta as nat
        };
        let neg = delta < 0;
        lemma_round_whole_exact(neg, ma);
        lemma_round_whole_exact(false, n as nat);
        lemma2_to64();
        lemma2_to64_rest();
        let ea = exponent(x.bits);
        let eb = exponent(y.bits);
        let pa = pow2((-ea) as nat);
        let pb = pow2((-eb) as nat);
        lemma_pow2_pos((-ea) as nat);
        lemma_pow2_pos((-eb) as nat);
        lemma_bit_length_unique(significand(x.bits), 53);
        lemma_bit_length_unique(significand(y.bits), 53);
        let na = normalized_significand(x.bits);
        let nb = normalized_significand(y.bits);
        assert(na == significand(x.bits)) by (nonlinear_arith)
            requires
                na == significand(x.bits) * pow2(0),
                pow2(0) == 1,
        ;
        assert(nb == significand(y.bits)) by (nonlinear_arith)
            requires
                nb == significand(y.bits) * pow2(0),
                pow2(0) == 1,
        ;
        assert(normalized_exponent(x.bits) == ea);
        assert(normalized_exponent(y.bits) == eb);
        let big = na * pow2(62);
        let e = ea - eb - 62;
        let quot = big / nb;
        let rest = big % nb;
        lemma_fundamental_div_mod(big as int, nb as int);
        lemma_mod_bound(big as int, nb as int);
        // the quotient has 62 digits or 63
        assert(big >= 0x10_0000_0000_0000 * 0x4000_0000_0000_0000) by (nonlinear_arith)
            requires
                big == na * pow2(62),
                na >= 0x10_0000_0000_0000,
                pow2(62) == 0x4000_0000_0000_0000,
        ;
        assert(quot >= 0x2000_0000_0000_0000) by (nonlinear_arith)
            requires
                big == nb * quot + rest,
                0 <= rest < nb,
                nb < 0x20_0000_0000_0000,
                big >= 0x10_0000_0000_0000 * 0x4000_0000_0000_0000,
                quot >= 0,
        ;
        lemma_bit_length_bounds(quot);
        let l = bit_length(quot);
        if l <= 61 {
            lemma_pow2_monotone(l, 61);
        }
        assert(l >= 62);
        // and is at most 2^-e, since the exact quotient is at most one
        let pe = pow2((-e) as nat);
        lemma_pow2_adds((-ea) as nat, 62);
        lemma_pow2_adds((-e) as nat, (-eb) as nat);
        assert(pa * pow2(62) == pe * pb);
        assert(quot <= pe) by (nonlinear_arith)
            requires
                big == nb * quot + rest,
                0 <= rest,
                big == na * pow2(62),
                na == ma * pa,
                nb == n * pb,
                ma <= n,
                pa * pow2(62) == pe * pb,
                pb > 0,
                n > 0,
                quot >= 0,
                pe >= 0,
        ;
        lemma_pow2_unfold((-e + 1) as nat);
        lemma_pow2_pos((-e) as nat);
        if l - 1 >= -e + 1 {
            lemma_pow2_monotone((-e + 1) as nat, (l - 1) as nat);
        }
        assert(l <= -e + 1);
        let q = quantum(quot, e);
        assert(e < q <= -52);
        lemma_round_significand_bounds(quot, e, rest != 0);
        assert((q + 1074) * HIDDEN_BIT <= 1022 * HIDDEN_BIT) by (nonlinear_arith)
            requires
                q + 1074 <= 1022,
        ;
        lemma_round_error(neg, big, nb, e);
        let got = scaled_magnitude(a.bits);
        let base = pow2((e + 1074) as nat);
        lemma_pow2_monotone((q + 1074) as nat, 1022);
        // big * base is the numerator in units of 2^-1074, scaled by pb
        lemma_pow2_adds(62, (e + 1074) as nat);
        lemma_pow2_adds((-ea) as nat, (62 + e + 1074) as nat);
        lemma_pow2_adds((-eb) as nat, 1074);
        assert(pa * (pow2(62) * base) == pb * one());
        assert(big * base == (ma * pb) * one()) by (nonlinear_arith)
            requires
                big == na * pow2(62),
                na == ma * pa,
                pa * (pow2(62) * base) == pb * one(),
        ;
        let top = pow2((q + 1074) as nat);
        assert(2 * (n * got - ma * one()) <= n * pow2(1022) && 2 * (ma * one() - n * got) <= n
            * pow2(1022)) by (nonlinear_arith)
            requires
                2 * (nb * got - big * base) <= nb * top,
                2 * (big * base - nb * got) <= nb * top,
                big * base == (ma * pb) * one(),
                nb == n * pb,
                top <= pow2(1022),
                pb > 0,
                n > 0,
                top >= 0,
        ;
        assert(delta * one() == if neg {
            -(ma * one())
        } else {
            (ma * one()) as int
        }) by (nonlinear_arith)
            requires
                ma == if delta < 0 {
                    -delta
                } else {
                    delta
                },
                neg == (delta < 0),
        ;
        assert(n * scaled(a.bits) == if neg {
            -(n * got)
        } else {
            n * got
        }) by (nonlinear_arith)
            requires
                scaled(a.bits) == if neg {
                    -(got as int)
                } else {
                    got as int
                },
        ;
    }
}

/// Among finite numbers, a larger encoding without its sign is a larger
/// absolute value.
pub proof fn lemma_magnitude_orders_value(a: u64, b: u64)
    requires
        is_finite(a),
        is_finite(b),
        magnitude(a) < magnitude(b),
    ensures
        scaled_magnitude(a) < scaled_magnitude(b),
{
    let ma = magnitude(a);
    let mb = magnitude(b);
    let h = HIDDEN_BIT as int;
    let sa = (exponent(a) + 1074) as nat;
    let sb = (exponent(b) + 1074) as nat;
    let ga = significand(a);
    let gb = significand(b);
    lemma2_to64();
    lemma_pow2_pos(sa);
    lemma_pow2_pos(sb);
    lemma_fundamental_div_mod(ma as int, h);
    lemma_fundamental_div_mod(mb as int, h);
    lemma_mod_bound(ma as int, h);
    lemma_mod_bound(mb as int, h);
    assert(ma / HIDDEN_BIT <= mb / HIDDEN_BIT) by {
        vstd::arithmetic::div_mod::lemma_div_is_ordered(ma as int, mb as int, h);
    }
    if sa == sb {
        assert(ga < gb) by {
            if ma >= HIDDEN_BIT && mb >= HIDDEN_BIT {
                assert(ma / HIDDEN_BIT == mb / HIDDEN_BIT);
            }
        }
        assert(ga * pow2(sa) < gb * pow2(sa)) by (nonlinear_arith)
            requires
                ga < gb,
                pow2(sa) > 0,
        ;
    } else {
        assert(sa < sb);
        assert(ga < 2 * h);
        assert(gb >= h);
        lemma_pow2_monotone(sa + 1, sb);
        lemma_pow2_unfold(sa + 1);
        assert(ga * pow2(sa) < gb * pow2(sb)) by (nonlinear_arith)
            requires
                ga < 2 * h,
                gb >= h,
                2 * pow2(sa) <= pow2(sb),
                pow2(sa) > 0,
                h > 0,
                ga >= 0,
        ;
    }
}

/// The order of the numbers is the order of their values: of two finite
/// numbers, the one that comes first in the order is the one whose value
/// is less, and the two are equal in the order just when their values are.
pub proof fn lemma_order_is_by_value(a: Num, b: Num)
    requires
        is_finite(a.bits),
        is_finite(b.bits),
    ensures
        a.spec_lt(b) == (scaled(a.bits) < scaled(b.bits)),
        a.spec_le(b) == (scaled(a.bits) <= scaled(b.bits)),
        a.spec_eq(b) == (scaled(a.bits) == scaled(b.bits)),
{
    let ma = magnitude(a.bits);
    let mb = magnitude(b.bits);
    if ma < mb {
        lemma_magnitude_orders_value(a.bits, b.bits);
    } else if mb < ma {
        lemma_magnitude_orders_value(b.bits, a.bits);
    }
    let sa = scaled_magnitude(a.bits);
    let sb = scaled_magnitude(b.bits);
    assert(scaled_magnitude(0) == 0) by {
        assert(0 * pow2(0) == 0) by (nonlinear_arith);
    }
    if ma > 0 {
        lemma_magnitude_orders_value(0, a.bits);
    }
    if mb > 0 {
        lemma_magnitude_orders_value(0, b.bits);
    }
    assert(ma == 0 ==> sa == 0) by {
        if ma == 0 {
            assert(significand(a.bits) == 0);
            assert(0 * pow2((exponent(a.bits) + 1074) as nat) == 0) by (nonlinear_arith);
        }
    }
    assert(mb == 0 ==> sb == 0) by {
        if mb == 0 {
            assert(significand(b.bits) == 0);
            assert(0 * pow2((exponent(b.bits) + 1074) as nat) == 0) by (nonlinear_arith);
        }
    }
    assert(ma == mb ==> sa == sb) by {
        if ma == mb {
            assert(significand(a.bits) == significand(b.bits));
            assert(exponent(a.bits) == exponent(b.bits));
        }
    }
    assert((ma < mb) == (sa < sb));
    assert((ma == mb) == (sa == sb));
}

} // verus!
