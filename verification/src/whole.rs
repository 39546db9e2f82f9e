//! Whole numbers: where the operands and the result are whole numbers of
//! fewer than 54 digits, the arithmetic of the numbers is the arithmetic of
//! the integers.

use vstd::prelude::*;
use vstd::arithmetic::power2::{pow2, lemma_pow2_adds, lemma_pow2_pos, lemma2_to64, lemma2_to64_rest};
use vstd::arithmetic::div_mod::{lemma_fundamental_div_mod_converse};
use crate::ieee::{
    exponent,
    is_finite,
    is_zero,
    isqrt,
    negative,
    normalized_exponent,
    normalized_significand,
    significand,
    lemma_bit_length_unique,
    lemma_isqrt_unique,
    lemma_round_scale,
    lemma_round_whole_exact,
};
use crate::math::{Num, lemma_add_zero, lemma_from_int_exact, lemma_mul_zero, lemma_zero_quotient};
use crate::value::{one, scaled, lemma_order_is_by_value, lemma_scaled_of_int};

verus! {

/// The largest whole number that these laws speak of is one less than
/// `2^53`.
pub open spec fn is_small(v: int) -> bool {
    -0x20_0000_0000_0000 < v < 0x20_0000_0000_0000
}

/// The number for a whole number `v`, taken apart: its exponent is not
/// positive, and its significand is `|v|` scaled up by as much.
pub proof fn lemma_parts_of_int(v: int)
    requires
        is_small(v),
    ensures
        ({
            let bits = Num::spec_from_int(v).bits;
            &&& is_finite(bits)
            &&& negative(bits) == (v < 0)
            &&& is_zero(bits) == (v == 0)
            &&& exponent(bits) <= 0
            &&& Num::signed_significand(bits) == v * pow2((-exponent(bits)) as nat)
            &&& v != 0 ==> normalized_significand(bits) == significand(bits)
            &&& v != 0 ==> normalized_exponent(bits) == exponent(bits)
        }),
{
    reveal(Num::spec_from_int);
    lemma_from_int_exact(v);
    let bits = Num::spec_from_int(v).bits;
    if v == 0 {
        assert(bits == 0);
        assert(0 * pow2(1074) == 0) by (nonlinear_arith);
    } else {
        let m: nat = if v < 0 {
            (-v) as nat
        } else {
            v as nat
        };
        lemma_round_whole_exact(v < 0, m);
        let up = pow2((-exponent(bits)) as nat);
        assert((-(m as int)) * up == -(m * up)) by (nonlinear_arith);
        lemma2_to64();
        lemma2_to64_rest();
        lemma_bit_length_unique(significand(bits), 53);
        assert(significand(bits) * pow2(0) == significand(bits)) by (nonlinear_arith)
            requires
                pow2(0) == 1,
        ;
    }
}

/// Whole numbers add exactly.
pub proof fn lemma_add_ints(a: int, b: int)
    requires
        is_small(a),
        is_small(b),
        is_small(a + b),
    ensures
        Num::spec_from_int(a).spec_add(Num::spec_from_int(b)) == Num::spec_from_int(a + b),
{
    reveal(Num::spec_add);
    let x = Num::spec_from_int(a).bits;
    let y = Num::spec_from_int(b).bits;
    lemma_parts_of_int(a);
    lemma_parts_of_int(b);
    lemma_parts_of_int(a + b);
    let ex = exponent(x);
    let ey = exponent(y);
    let e = if ex <= ey {
        ex
    } else {
        ey
    };
    let up = pow2((-e) as nat);
    lemma_pow2_pos((-e) as nat);
    lemma_pow2_adds((-ex) as nat, (ex - e) as nat);
    lemma_pow2_adds((-ey) as nat, (ey - e) as nat);
    let sum = Num::signed_significand(x) * pow2((ex - e) as nat) + Num::signed_significand(y)
        * pow2((ey - e) as nat);
    assert(sum == (a + b) * up) by (nonlinear_arith)
        requires
            sum == Num::signed_significand(x) * pow2((ex - e) as nat) + Num::signed_significand(y)
                * pow2((ey - e) as nat),
            Num::signed_significand(x) == a * pow2((-ex) as nat),
            Num::signed_significand(y) == b * pow2((-ey) as nat),
            pow2((-ex) as nat) * pow2((ex - e) as nat) == up,
            pow2((-ey) as nat) * pow2((ey - e) as nat) == up,
    ;
    reveal(Num::spec_from_int);
    if a + b == 0 {
        assert(sum == 0) by (nonlinear_arith)
            requires
                sum == (a + b) * up,
                a + b == 0,
        ;
    } else {
        let m: nat = if a + b < 0 {
            (-(a + b)) as nat
        } else {
            (a + b) as nat
        };
        assert(sum != 0 && (sum < 0) == (a + b < 0) && (if sum < 0 {
            -sum
        } else {
            sum
        }) == m * up) by (nonlinear_arith)
            requires
                sum == (a + b) * up,
                a + b != 0,
                up > 0,
                m == if a + b < 0 {
                    -(a + b)
                } else {
                    a + b
                },
        ;
        lemma_round_scale(a + b < 0, m, 0, (-e) as nat);
    }
}

/// The opposite of the number for a whole number is the number for its
/// opposite; but the opposite of zero is the negative zero.
pub proof fn lemma_neg_int(a: int)
    requires
        is_small(a),
        a != 0,
    ensures
        Num::spec_from_int(a).spec_neg() == Num::spec_from_int(-a),
{
    reveal(Num::spec_from_int);
    let m: nat = if a < 0 {
        (-a) as nat
    } else {
        a as nat
    };
    lemma_round_whole_exact(true, m);
    lemma_round_whole_exact(false, m);
}

/// Whole numbers subtract exactly.
pub proof fn lemma_sub_ints(a: int, b: int)
    requires
        is_small(a),
        is_small(b),
        is_small(a - b),
    ensures
        Num::spec_from_int(a).spec_sub(Num::spec_from_int(b)) == Num::spec_from_int(a - b),
{
    if b == 0 {
        lemma_from_int_exact(a);
        lemma_from_int_exact(0);
        reveal(Num::spec_from_int);
        lemma_add_zero(Num::spec_from_int(a), Num::spec_from_int(0).spec_neg());
    } else {
        lemma_neg_int(b);
        lemma_add_ints(a, -b);
    }
}

/// Whole numbers multiply exactly; a product that is zero has the sign
/// that the signs of its factors give.
pub proof fn lemma_mul_ints(a: int, b: int)
    requires
        is_small(a),
        is_small(b),
        is_small(a * b),
    ensures
        Num::spec_from_int(a).spec_mul(Num::spec_from_int(b)) == if a * b != 0 {
            Num::spec_from_int(a * b)
        } else {
            Num::signed_zero((a < 0) != (b < 0))
        },
{
    let x = Num::spec_from_int(a).bits;
    let y = Num::spec_from_int(b).bits;
    lemma_parts_of_int(a);
    lemma_parts_of_int(b);
    if a == 0 {
        assert(a * b == 0) by (nonlinear_arith)
            requires
                a == 0,
        ;
        reveal(Num::spec_mul);
        assert(significand(x) * significand(y) == 0) by (nonlinear_arith)
            requires
                significand(x) == 0,
        ;
    } else if b == 0 {
        assert(a * b == 0) by (nonlinear_arith)
            requires
                b == 0,
        ;
        lemma_mul_zero(Num::spec_from_int(a), Num::spec_from_int(b));
    } else {
        reveal(Num::spec_mul);
        reveal(Num::spec_from_int);
        let ex = exponent(x);
        let ey = exponent(y);
        let ma: nat = if a < 0 {
            (-a) as nat
        } else {
            a as nat
        };
        let mb: nat = if b < 0 {
            (-b) as nat
        } else {
            b as nat
        };
        let ux = pow2((-ex) as nat);
        let uy = pow2((-ey) as nat);
        lemma_pow2_adds((-ex) as nat, (-ey) as nat);
        let j = ((-ex) + (-ey)) as nat;
        assert(significand(x) == ma * ux && significand(y) == mb * uy) by (nonlinear_arith)
            requires
                Num::signed_significand(x) == a * ux,
                Num::signed_significand(y) == b * uy,
                Num::signed_significand(x) == if a < 0 {
                    -(significand(x) as int)
                } else {
                    significand(x) as int
                },
                Num::signed_significand(y) == if b < 0 {
                    -(significand(y) as int)
                } else {
                    significand(y) as int
                },
                ma == if a < 0 {
                    -a
                } else {
                    a
                },
                mb == if b < 0 {
                    -b
                } else {
                    b
                },
        ;
        let m: nat = ma * mb;
        assert(significand(x) * significand(y) == m * pow2(j)) by (nonlinear_arith)
            requires
                significand(x) == ma * ux,
                significand(y) == mb * uy,
                ux * uy == pow2(j),
                m == ma * mb,
        ;
        assert(a * b != 0 && (a * b < 0) == ((a < 0) != (b < 0)) && m == if a * b < 0 {
            -(a * b)
        } else {
            a * b
        }) by (nonlinear_arith)
            requires
                a != 0,
                b != 0,
                m == ma * mb,
                ma == if a < 0 {
                    -a
                } else {
                    a
                },
                mb == if b < 0 {
                    -b
                } else {
                    b
                },
        ;
        lemma_round_scale(a * b < 0, m, 0, j);
    }
}

/// A whole number over one that divides it is the whole quotient; a
/// quotient that is zero has the sign that the signs of the two give.
pub proof fn lemma_div_ints(c: int, b: int)
    requires
        is_small(b),
        is_small(c),
        is_small(c * b),
        b != 0,
    ensures
        Num::spec_from_int(c * b).spec_div(Num::spec_from_int(b)) == if c != 0 {
            Num::spec_from_int(c)
        } else {
            Num::signed_zero(b < 0)
        },
{
    let a = c * b;
    let x = Num::spec_from_int(a).bits;
    let y = Num::spec_from_int(b).bits;
    lemma_parts_of_int(a);
    lemma_parts_of_int(b);
    reveal(Num::spec_div);
    if c == 0 {
        assert(c * b == 0) by (nonlinear_arith)
            requires
                c == 0,
        ;
    } else {
        reveal(Num::spec_from_int);
        let mc: nat = if c < 0 {
            (-c) as nat
        } else {
            c as nat
        };
        let mb: nat = if b < 0 {
            (-b) as nat
        } else {
            b as nat
        };
        assert(a != 0 && (a < 0) == ((c < 0) != (b < 0)) && (if a < 0 {
            -a
        } else {
            a
        }) == mc * mb) by (nonlinear_arith)
            requires
                a == c * b,
                c != 0,
                b != 0,
                mc == if c < 0 {
                    -c
                } else {
                    c
                },
                mb == if b < 0 {
                    -b
                } else {
                    b
                },
        ;
        let ex = exponent(x);
        let ey = exponent(y);
        let ux = pow2((-ex) as nat);
        let uy = pow2((-ey) as nat);
        lemma_pow2_pos((-ex) as nat);
        lemma_pow2_pos((-ey) as nat);
        let na = normalized_significand(x);
        let nb = normalized_significand(y);
        assert(na == (mc * mb) * ux && nb == mb * uy) by (nonlinear_arith)
            requires
                na == significand(x),
                nb == significand(y),
                Num::signed_significand(x) == a * ux,
                Num::signed_significand(y) == b * uy,
                Num::signed_significand(x) == if a < 0 {
                    -(significand(x) as int)
                } else {
                    significand(x) as int
                },
                Num::signed_significand(y) == if b < 0 {
                    -(significand(y) as int)
                } else {
                    significand(y) as int
                },
                (if a < 0 {
                    -a
                } else {
                    a
                }) == mc * mb,
                mb == if b < 0 {
                    -b
                } else {
                    b
                },
        ;
        // -52 <= ex, ey <= 0, so the shift is positive
        lemma_round_whole_exact(a < 0, mc * mb);
        lemma_round_whole_exact(b < 0, mb);
        let j = ((-ex) + 62 - (-ey)) as nat;
        lemma_pow2_adds((-ex) as nat, 62);
        lemma_pow2_adds(j, (-ey) as nat);
        let big = na * pow2(62);
        assert(big == (mc * pow2(j)) * nb + 0) by (nonlinear_arith)
            requires
                big == na * pow2(62),
                na == (mc * mb) * ux,
                nb == mb * uy,
                ux * pow2(62) == pow2(j) * uy,
        ;
        lemma_fundamental_div_mod_converse(big as int, nb as int, (mc * pow2(j)) as int, 0);
        assert(normalized_exponent(x) - normalized_exponent(y) - 62 == 0 - j);
        lemma_round_scale(a < 0, mc, 0, j);
    }
}

/// The square root of a whole square is its whole root.
pub proof fn lemma_sqrt_int(r: int)
    requires
        0 <= r,
        is_small(r * r),
    ensures
        Num::spec_from_int(r * r).spec_sqrt() == Num::spec_from_int(r),
{
    let v = r * r;
    let x = Num::spec_from_int(v).bits;
    reveal(Num::spec_sqrt);
    if r == 0 {
        assert(r * r == 0) by (nonlinear_arith)
            requires
                r == 0,
        ;
        lemma_from_int_exact(0);
    } else {
        assert(v >= r && v > 0) by (nonlinear_arith)
            requires
                v == r * r,
                r >= 1,
        ;
        lemma_parts_of_int(v);
        reveal(Num::spec_from_int);
        lemma_round_whole_exact(false, v as nat);
        let e = exponent(x);
        let t = (-e) as nat;
        let m = normalized_significand(x);
        assert(m == v * pow2(t));
        let even = e % 2 == 0;
        let radicand = if even {
            m * pow2(60)
        } else {
            2 * m * pow2(60)
        };
        let j: nat = if even {
            ((t + 60) / 2) as nat
        } else {
            ((t + 61) / 2) as nat
        };
        lemma2_to64();
        lemma_pow2_adds(j, j);
        lemma_pow2_adds(t, 60);
        lemma_pow2_adds(1, 60);
        lemma_pow2_adds(t, 61);
        let p = pow2(j);
        lemma_pow2_pos(j);
        let root = (r * p) as nat;
        assert(radicand == v * (p * p)) by {
            if even {
                assert(t + 60 == j + j);
                assert((v * pow2(t)) * pow2(60) == v * (pow2(t) * pow2(60))) by (nonlinear_arith);
            } else {
                assert(t + 61 == j + j);
                assert(2 * (v * pow2(t)) * pow2(60) == v * (pow2(t) * (2 * pow2(60))))
                    by (nonlinear_arith);
            }
        }
        assert(root * root == radicand && radicand < (root + 1) * (root + 1)) by (nonlinear_arith)
            requires
                root == r * p,
                radicand == v * (p * p),
                v == r * r,
                root >= 0,
        ;
        lemma_isqrt_unique(radicand, root);
        assert(isqrt(radicand) == root);
        let halved = if even {
            (e - 60) / 2
        } else {
            (e - 61) / 2
        };
        assert(halved == 0 - j);
        lemma_round_scale(false, r as nat, 0, j);
    }
}

/// Whether `n` is the number for the whole number `v`: the number that
/// `v` rounds to, or, for zero, the zero of either sign.
pub open spec fn is_whole(n: Num, v: int) -> bool {
    is_small(v) && (n == Num::spec_from_int(v) || (v == 0 && is_zero(n.bits)))
}

/// The number for a whole number is that whole number.
pub proof fn lemma_whole_from_int(v: int)
    requires
        is_small(v),
    ensures
        is_whole(Num::spec_from_int(v), v),
{
}

/// A zero added to a finite number that is not zero leaves it as it is,
/// on either side.
proof fn lemma_zero_on_the_left(zero: Num, x: Num)
    requires
        is_zero(zero.bits),
        is_finite(x.bits),
        !is_zero(x.bits),
    ensures
        zero.spec_add(x) == x,
        x.spec_add(zero) == x,
{
    lemma_add_zero(x, zero);
    reveal(Num::spec_add);
    // the sum is formed from the same two terms in either order
    let ex = exponent(x.bits);
    let ez = exponent(zero.bits);
    let e = if ex <= ez {
        ex
    } else {
        ez
    };
    let tx = Num::signed_significand(x.bits) * pow2((ex - e) as nat);
    let tz = Num::signed_significand(zero.bits) * pow2((ez - e) as nat);
    assert(tz + tx == tx + tz);
}

/// Two zeros add up to a zero.
proof fn lemma_zero_plus_zero(x: Num, y: Num)
    requires
        is_zero(x.bits),
        is_zero(y.bits),
    ensures
        is_zero(x.spec_add(y).bits),
{
    reveal(Num::spec_add);
    lemma2_to64();
    assert(Num::signed_significand(x.bits) * pow2(0) + Num::signed_significand(y.bits) * pow2(0)
        == 0) by (nonlinear_arith)
        requires
            Num::signed_significand(x.bits) == 0,
            Num::signed_significand(y.bits) == 0,
    ;
}

/// Whole numbers add to the whole sum.
pub proof fn lemma_whole_add(x: Num, a: int, y: Num, b: int)
    requires
        is_whole(x, a),
        is_whole(y, b),
        is_small(a + b),
    ensures
        is_whole(x.spec_add(y), a + b),
{
    lemma_from_int_exact(a);
    lemma_from_int_exact(b);
    if x == Num::spec_from_int(a) && y == Num::spec_from_int(b) {
        lemma_add_ints(a, b);
    } else if a == 0 && b == 0 {
        lemma_zero_plus_zero(x, y);
    } else if a == 0 {
        lemma_zero_on_the_left(x, y);
    } else {
        lemma_zero_on_the_left(y, x);
    }
}

/// The opposite of a whole number is the whole opposite.
pub proof fn lemma_whole_neg(x: Num, a: int)
    requires
        is_whole(x, a),
    ensures
        is_whole(x.spec_neg(), -a),
{
    if a != 0 {
        lemma_neg_int(a);
    } else {
        lemma_from_int_exact(0);
        assert(is_zero(x.bits));
        assert(is_zero(x.spec_neg().bits));
    }
}

/// Whole numbers subtract to the whole difference.
pub proof fn lemma_whole_sub(x: Num, a: int, y: Num, b: int)
    requires
        is_whole(x, a),
        is_whole(y, b),
        is_small(a - b),
    ensures
        is_whole(x.spec_sub(y), a - b),
{
    lemma_whole_neg(y, b);
    lemma_whole_add(x, a, y.spec_neg(), -b);
}

/// Whole numbers multiply to the whole product.
pub proof fn lemma_whole_mul(x: Num, a: int, y: Num, b: int)
    requires
        is_whole(x, a),
        is_whole(y, b),
        is_small(a * b),
    ensures
        is_whole(x.spec_mul(y), a * b),
{
    lemma_from_int_exact(a);
    lemma_from_int_exact(b);
    if a != 0 && b != 0 {
        lemma_mul_ints(a, b);
        assert(a * b != 0) by (nonlinear_arith)
            requires
                a != 0,
                b != 0,
        ;
    } else {
        assert(a * b == 0) by (nonlinear_arith)
            requires
                a == 0 || b == 0,
        ;
        reveal(Num::spec_mul);
        assert(significand(x.bits) * significand(y.bits) == 0) by (nonlinear_arith)
            requires
                significand(x.bits) == 0 || significand(y.bits) == 0,
        ;
    }
}

/// A whole number over one that divides it is the whole quotient.
pub proof fn lemma_whole_div(x: Num, c: int, y: Num, b: int)
    requires
        is_whole(x, c * b),
        is_whole(y, b),
        is_small(c),
        b != 0,
    ensures
        is_whole(x.spec_div(y), c),
{
    lemma_from_int_exact(b);
    if c != 0 {
        assert(c * b != 0) by (nonlinear_arith)
            requires
                c != 0,
                b != 0,
        ;
        lemma_div_ints(c, b);
    } else {
        assert(c * b == 0) by (nonlinear_arith)
            requires
                c == 0,
        ;
        lemma_from_int_exact(0);
        lemma_zero_quotient(x, y);
    }
}

/// The square root of a whole square is the whole root.
pub proof fn lemma_whole_sqrt(x: Num, r: int)
    requires
        0 <= r,
        is_whole(x, r * r),
    ensures
        is_whole(x.spec_sqrt(), r),
{
    if r != 0 {
        assert(r * r != 0 && r * r >= r) by (nonlinear_arith)
            requires
                r >= 1,
        ;
        lemma_sqrt_int(r);
    } else {
        assert(r * r == 0) by (nonlinear_arith)
            requires
                r == 0,
        ;
        lemma_from_int_exact(0);
        assert(is_zero(x.bits));
        reveal(Num::spec_sqrt);
    }
}

/// Whole numbers are ordered as the integers are.
pub proof fn lemma_whole_order(x: Num, a: int, y: Num, b: int)
    requires
        is_whole(x, a),
        is_whole(y, b),
    ensures
        x.spec_lt(y) == (a < b),
        x.spec_le(y) == (a <= b),
        x.spec_eq(y) == (a == b),
{
    lemma_from_int_exact(a);
    lemma_from_int_exact(b);
    lemma_scaled_of_int(a);
    lemma_scaled_of_int(b);
    lemma_order_is_by_value(x, y);
    lemma_pow2_pos(1074);
    assert(0 * pow2(0) == 0) by (nonlinear_arith);
    assert(0 * one() == 0) by (nonlinear_arith);
    assert(scaled(x.bits) == a * one()) by {
        if a == 0 {
            assert(significand(x.bits) == 0);
            assert(0 * pow2((exponent(x.bits) + 1074) as nat) == 0) by (nonlinear_arith);
        }
    }
    assert(scaled(y.bits) == b * one()) by {
        if b == 0 {
            assert(significand(y.bits) == 0);
            assert(0 * pow2((exponent(y.bits) + 1074) as nat) == 0) by (nonlinear_arith);
        }
    }
    assert((a * one() < b * one()) == (a < b) && (a * one() == b * one()) == (a == b))
        by (nonlinear_arith)
        requires
            one() > 0,
    ;
}

} // verus!
