//! Points and straight lines on a canvas.

use vstd::prelude::*;
use vstd::arithmetic::power2::{pow2, lemma_pow2_adds, lemma_pow2_pos, lemma2_to64};
use crate::canvas::{Canvas, Color};
use crate::ieee::{is_finite, negative};
use crate::math::{
    Num,
    lemma_add_zero,
    lemma_from_int_exact,
    lemma_from_int_finite,
    lemma_zero_quotient,
};
use crate::value::{
    one,
    scaled,
    scaled_magnitude,
    lemma_add_error,
    lemma_scaled_of_int,
    lemma_slope_error,
    lemma_truncated_of_scaled,
};

verus! {

/// Opaque white, the color of every line.
pub open spec fn spec_white() -> Color {
    Color { b: 255, g: 255, r: 255, a: 255 }
}

/// Opaque white.
pub fn white() -> (c: Color)
    ensures
        c == spec_white(),
{
    Color { b: 255, g: 255, r: 255, a: 255 }
}

/// A point with machine coordinates, as one with mathematical ones.
pub open spec fn pt(p: (isize, isize)) -> (int, int) {
    (p.0 as int, p.1 as int)
}

/// Where on the canvas the point `(x, y)` of the centered frame lies: the
/// frame's origin is the middle of the canvas, and its `y` grows upward.
pub open spec fn point_place(canvas: &Canvas, p: (int, int)) -> (int, int) {
    (p.0 + (canvas.spec_width() as int) / 2, -(p.1 + 1) + (canvas.spec_height() as int) / 2)
}

/// Writes `color` at the point `(x, y)` of the centered frame.
pub fn draw_point(canvas: &mut Canvas, p: (isize, isize), color: Color)
    requires
        old(canvas).wf(),
        old(canvas).contains(point_place(old(canvas), pt(p)).0, point_place(old(canvas), pt(p)).1),
    ensures
        final(canvas).wf(),
        final(canvas).same_size(old(canvas)),
        final(canvas)@ == old(canvas)@.update(
            old(canvas).index_of(
                point_place(old(canvas), pt(p)).0,
                point_place(old(canvas), pt(p)).1,
            ),
            color,
        ),
        final(canvas).is_painted(
            old(canvas),
            |x: int, y: int| (x, y) == point_place(old(canvas), pt(p)),
            color,
        ),
{
    proof {
        canvas.lemma_wf();
    }
    let half_width: i128 = (canvas.width() / 2) as i128;
    let half_height: i128 = (canvas.height() / 2) as i128;
    let x: i128 = p.0 as i128 + half_width;
    let y: i128 = -(p.1 as i128 + 1) + half_height;
    canvas.set((x as usize, y as usize), color);
}

/// How far apart two coordinates are.
pub open spec fn distance(a: int, b: int) -> int {
    if a >= b {
        a - b
    } else {
        b - a
    }
}

/// Whether the line runs along `x`: its extent in `x` is strictly the
/// larger. A line as wide as it is high runs along `y`.
pub open spec fn is_horizontal(p0: (int, int), p1: (int, int)) -> bool {
    distance(p1.0, p0.0) > distance(p1.1, p0.1)
}

/// The coordinate of `p` along the axis that the line runs along.
pub open spec fn major(horizontal: bool, p: (int, int)) -> int {
    if horizontal {
        p.0
    } else {
        p.1
    }
}

/// The other coordinate of `p`.
pub open spec fn minor(horizontal: bool, p: (int, int)) -> int {
    if horizontal {
        p.1
    } else {
        p.0
    }
}

/// The endpoint that the walk along the line starts from: the one that
/// comes first along the major axis.
pub open spec fn first_end(p0: (int, int), p1: (int, int)) -> (int, int) {
    let h = is_horizontal(p0, p1);
    if major(h, p0) > major(h, p1) {
        p1
    } else {
        p0
    }
}

/// The endpoint that the walk along the line ends at.
pub open spec fn last_end(p0: (int, int), p1: (int, int)) -> (int, int) {
    let h = is_horizontal(p0, p1);
    if major(h, p0) > major(h, p1) {
        p0
    } else {
        p1
    }
}

/// The number of pixels of the line: one for each step along its major axis.
pub open spec fn line_len(p0: (int, int), p1: (int, int)) -> nat {
    let h = is_horizontal(p0, p1);
    (distance(major(h, p0), major(h, p1)) + 1) as nat
}

/// What one step along the major axis adds to the minor coordinate.
pub open spec fn slope(p0: (int, int), p1: (int, int)) -> Num {
    let h = is_horizontal(p0, p1);
    let a = first_end(p0, p1);
    let b = last_end(p0, p1);
    Num::spec_from_int(minor(h, b) - minor(h, a)).spec_div(
        Num::spec_from_int(major(h, b) - major(h, a)),
    )
}

/// `start` after `step` was added to it `k` times, each sum rounded.
pub open spec fn accumulated(start: Num, step: Num, k: nat) -> Num
    decreases k,
{
    if k == 0 {
        start
    } else {
        accumulated(start, step, (k - 1) as nat).spec_add(step)
    }
}

/// The minor coordinate of the line's pixel number `k`: the accumulated
/// value, cut off toward zero. A line of one pixel has no slope, and its
/// pixel is the endpoint itself.
pub open spec fn minor_at(p0: (int, int), p1: (int, int), k: nat) -> int {
    let h = is_horizontal(p0, p1);
    let a = first_end(p0, p1);
    if major(h, a) == major(h, last_end(p0, p1)) {
        minor(h, a)
    } else {
        accumulated(Num::spec_from_int(minor(h, a)), slope(p0, p1), k).spec_to_int(
            isize::MIN as int,
            isize::MAX as int,
        )
    }
}

/// The line's pixel number `k`, counted from the first endpoint.
pub open spec fn line_pixel(p0: (int, int), p1: (int, int), k: nat) -> (int, int) {
    let h = is_horizontal(p0, p1);
    let i = major(h, first_end(p0, p1)) + k;
    let d = minor_at(p0, p1, k);
    if h {
        (i, d)
    } else {
        (d, i)
    }
}

/// Whether `(x, y)` is one of the first `count` pixels of the line.
pub open spec fn on_line_prefix(p0: (int, int), p1: (int, int), count: nat, x: int, y: int) -> bool {
    exists|k: nat| k < count && #[trigger] line_pixel(p0, p1, k) == (x, y)
}

/// Whether `(x, y)` is a pixel of the line.
pub open spec fn on_line(p0: (int, int), p1: (int, int), x: int, y: int) -> bool {
    on_line_prefix(p0, p1, line_len(p0, p1), x, y)
}

/// Whether every one of the first `count` pixels of the line is a pixel of
/// the canvas.
pub open spec fn prefix_fits(canvas: &Canvas, p0: (int, int), p1: (int, int), count: nat) -> bool {
    forall|k: nat|
        k < count ==> canvas.contains(
            (#[trigger] line_pixel(p0, p1, k)).0,
            line_pixel(p0, p1, k).1,
        )
}

/// Whether every pixel of the line is a pixel of the canvas.
pub open spec fn line_fits(canvas: &Canvas, p0: (int, int), p1: (int, int)) -> bool {
    prefix_fits(canvas, p0, p1, line_len(p0, p1))
}

/// A line between a point and itself is that one pixel.
pub proof fn lemma_degenerate_line(p: (int, int))
    ensures
        line_len(p, p) == 1,
        line_pixel(p, p, 0) == p,
        forall|x: int, y: int| on_line(p, p, x, y) <==> (x, y) == p,
{
    assert forall|x: int, y: int| on_line(p, p, x, y) <==> (x, y) == p by {
        if (x, y) == p {
            assert(line_pixel(p, p, 0) == (x, y));
        }
    }
}

/// A line has the same pixels, in the same order, whichever endpoint is
/// named first.
pub proof fn lemma_line_symmetric(p0: (int, int), p1: (int, int))
    ensures
        line_len(p0, p1) == line_len(p1, p0),
        forall|k: nat| #[trigger] line_pixel(p0, p1, k) == line_pixel(p1, p0, k),
        forall|x: int, y: int| on_line(p0, p1, x, y) <==> on_line(p1, p0, x, y),
{
    assert(is_horizontal(p0, p1) == is_horizontal(p1, p0));
    assert forall|k: nat| #[trigger] line_pixel(p0, p1, k) == line_pixel(p1, p0, k) by {
        let h = is_horizontal(p0, p1);
        if major(h, p0) == major(h, p1) {
            assert(p0 == p1);
        } else {
            assert(first_end(p0, p1) == first_end(p1, p0));
            assert(last_end(p0, p1) == last_end(p1, p0));
        }
    }
    assert forall|x: int, y: int| on_line(p0, p1, x, y) <==> on_line(p1, p0, x, y) by {
        if on_line(p0, p1, x, y) {
            let k = choose|k: nat| k < line_len(p0, p1) && #[trigger] line_pixel(p0, p1, k) == (x, y);
            assert(line_pixel(p1, p0, k) == (x, y));
        }
        if on_line(p1, p0, x, y) {
            let k = choose|k: nat| k < line_len(p1, p0) && #[trigger] line_pixel(p1, p0, k) == (x, y);
            assert(line_pixel(p0, p1, k) == (x, y));
        }
    }
}

/// Whether the line keeps to one row or to one column.
pub open spec fn is_level(p0: (int, int), p1: (int, int)) -> bool {
    p0.0 == p1.0 || p0.1 == p1.1
}

/// Adding a positive zero any number of times leaves a whole number of
/// fewer than 54 digits as it is.
proof fn lemma_accumulated_zero(d: int, k: nat)
    requires
        -0x20_0000_0000_0000 < d < 0x20_0000_0000_0000,
    ensures
        accumulated(Num::spec_from_int(d), Num::spec_zero(), k) == Num::spec_from_int(d),
    decreases k,
{
    if k > 0 {
        lemma_accumulated_zero(d, (k - 1) as nat);
        lemma_from_int_exact(d);
        lemma_add_zero(Num::spec_from_int(d), Num::spec_zero());
    }
}

/// A line along a row or a column stays in it: every pixel has the minor
/// coordinate of the endpoints, where that is a whole number of fewer than
/// 54 digits.
pub proof fn lemma_level_line(p0: (int, int), p1: (int, int), k: nat)
    requires
        is_level(p0, p1),
        isize::MIN <= p0.0 <= isize::MAX,
        isize::MIN <= p0.1 <= isize::MAX,
        isize::MIN <= p1.0 <= isize::MAX,
        isize::MIN <= p1.1 <= isize::MAX,
        -0x20_0000_0000_0000 < minor(is_horizontal(p0, p1), p0) < 0x20_0000_0000_0000,
    ensures
        minor(is_horizontal(p0, p1), p0) == minor(is_horizontal(p0, p1), p1),
        minor_at(p0, p1, k) == minor(is_horizontal(p0, p1), p0),
        line_pixel(p0, p1, k) == if is_horizontal(p0, p1) {
            (major(true, first_end(p0, p1)) + k, p0.1)
        } else {
            (p0.0, major(false, first_end(p0, p1)) + k)
        },
{
    let h = is_horizontal(p0, p1);
    let a = first_end(p0, p1);
    let b = last_end(p0, p1);
    let d = minor(h, p0);
    assert(minor(h, p1) == d);
    if major(h, a) != major(h, b) {
        let n = major(h, b) - major(h, a);
        lemma_from_int_finite(n);
        lemma_from_int_exact(0);
        lemma_from_int_exact(d);
        let zero = Num::spec_from_int(minor(h, b) - minor(h, a));
        assert(zero.bits == 0) by {
            reveal(Num::spec_from_int);
        }
        lemma_zero_quotient(zero, Num::spec_from_int(n));
        assert(slope(p0, p1) == Num::spec_zero());
        lemma_accumulated_zero(d, k);
    }
}

/// A line along a row or a column between two pixels of the canvas lies on
/// the canvas.
pub proof fn lemma_level_line_fits(canvas: &Canvas, p0: (int, int), p1: (int, int))
    requires
        canvas.wf(),
        is_level(p0, p1),
        canvas.contains(p0.0, p0.1),
        canvas.contains(p1.0, p1.1),
        minor(is_horizontal(p0, p1), p0) < 0x20_0000_0000_0000,
    ensures
        line_fits(canvas, p0, p1),
{
    canvas.lemma_wf();
    assert forall|k: nat| k < line_len(p0, p1) implies canvas.contains(
        (#[trigger] line_pixel(p0, p1, k)).0,
        line_pixel(p0, p1, k).1,
    ) by {
        lemma_level_line(p0, p1, k);
    }
}

/// A line between a pixel of the canvas and itself lies on the canvas.
pub proof fn lemma_degenerate_line_fits(canvas: &Canvas, p: (int, int))
    requires
        canvas.contains(p.0, p.1),
    ensures
        line_fits(canvas, p, p),
{
    lemma_degenerate_line(p);
    assert forall|k: nat| k < line_len(p, p) implies canvas.contains(
        (#[trigger] line_pixel(p, p, k)).0,
        line_pixel(p, p, k).1,
    ) by {
        assert(k == 0);
    }
}

/// The coordinates below which a line is known to stay by its endpoints:
/// `2^26`.
pub open spec fn reach() -> int {
    0x400_0000
}

/// What `k` steps along a line may have lost to rounding, in units of
/// `2^-1074`, for each unit of the line's length: `2^-27` for each sum,
/// and `2^-53` for the slope.
pub open spec fn drift() -> nat {
    pow2(1047) + pow2(1021)
}

/// Fewer than `2^26` steps lose less than one.
proof fn lemma_drift_is_small(k: int)
    requires
        0 <= k < reach(),
    ensures
        k * drift() < one(),
        one() + one() + reach() * one() <= pow2(1101),
        2 * pow2(1047) == pow2(1048),
        2 * pow2(1021) == pow2(1022),
{
    lemma2_to64();
    lemma_pow2_adds(26, 1047);
    lemma_pow2_adds(26, 1021);
    lemma_pow2_adds(1, 1073);
    lemma_pow2_adds(26, 1047);
    lemma_pow2_adds(1, 1047);
    lemma_pow2_adds(1, 1021);
    lemma_pow2_adds(26, 1074);
    lemma_pow2_adds(27, 1074);
    lemma_pow2_adds(1, 1074);
    lemma_pow2_pos(1021);
    lemma_pow2_pos(1047);
    crate::ieee::lemma_pow2_monotone(1047, 1073);
    assert(pow2(26) == 0x400_0000) by {
        lemma_pow2_adds(13, 13);
        lemma_pow2_adds(8, 5);
    }
    assert(pow2(27) == 2 * pow2(26)) by {
        lemma_pow2_adds(1, 26);
    }
    assert(k * drift() <= (reach() - 1) * drift()) by (nonlinear_arith)
        requires
            0 <= k <= reach() - 1,
            drift() >= 0,
    ;
    assert((reach() - 1) * drift() < pow2(1074)) by (nonlinear_arith)
        requires
            reach() == 0x400_0000,
            drift() == pow2(1047) + pow2(1021),
            0x400_0000 * pow2(1047) == pow2(1073),
            0x400_0000 * pow2(1021) == pow2(1047),
            2 * pow2(1073) == pow2(1074),
            pow2(1047) <= pow2(1073),
            pow2(1021) > 0,
            pow2(1047) > 0,
    ;
    assert(one() + one() + reach() * one() <= pow2(1101)) by (nonlinear_arith)
        requires
            reach() == 0x400_0000,
            pow2(1101) == (2 * 0x400_0000) * one(),
            one() >= 0,
    ;
}

/// A value within `k` drifts of the point `k / n` of the way from `d0` to
/// `d1` lies less than one beyond the two, where `k` drifts are less than
/// one.
proof fn lemma_walk_bounds(d0: int, d1: int, n: int, k: int, a: int, s: int, f: int)
    requires
        0 < n,
        0 <= k <= n,
        0 < s,
        0 <= f,
        k * f < s,
        n * a - (n * d0 + k * (d1 - d0)) * s <= k * (n * f),
        (n * d0 + k * (d1 - d0)) * s - n * a <= k * (n * f),
    ensures
        d0 >= d1 ==> (d1 - 1) * s < a < (d0 + 1) * s,
        d0 <= d1 ==> (d0 - 1) * s < a < (d1 + 1) * s,
{
    let hi = if d0 >= d1 {
        d0
    } else {
        d1
    };
    let lo = if d0 >= d1 {
        d1
    } else {
        d0
    };
    let w = n * d0 + k * (d1 - d0);
    assert(n * lo <= w <= n * hi) by (nonlinear_arith)
        requires
            w == n * d0 + k * (d1 - d0),
            0 <= k <= n,
            lo <= d0 <= hi,
            lo <= d1 <= hi,
    ;
    assert((n * lo) * s <= w * s <= (n * hi) * s) by (nonlinear_arith)
        requires
            n * lo <= w <= n * hi,
            s > 0,
    ;
    assert(k * (n * f) == n * (k * f)) by (nonlinear_arith);
    assert(n * (k * f) < n * s) by (nonlinear_arith)
        requires
            k * f < s,
            n > 0,
    ;
    assert((n * hi) * s + n * s == n * ((hi + 1) * s)) by (nonlinear_arith);
    assert((n * lo) * s - n * s == n * ((lo - 1) * s)) by (nonlinear_arith);
    let upper = (hi + 1) * s;
    let lower = (lo - 1) * s;
    assert(n * a < n * upper);
    assert(n * lower < n * a);
    assert(a < upper) by (nonlinear_arith)
        requires
            n * a < n * upper,
            n > 0,
    ;
    assert(lower < a) by (nonlinear_arith)
        requires
            n * lower < n * a,
            n > 0,
    ;
}

/// After `k` of `n` steps from `d0` toward `d1`, the accumulated value is
/// within `k` drifts of the point that lies `k / n` of the way. The bound
/// is stated after multiplying by `n`.
proof fn lemma_accumulated_near(d0: int, d1: int, n: int, k: nat)
    requires
        0 <= d0 < reach(),
        0 <= d1 < reach(),
        0 < n < reach(),
        -n <= d1 - d0 <= n,
        k <= n,
    ensures
        ({
            let step = Num::spec_from_int(d1 - d0).spec_div(Num::spec_from_int(n));
            let acc = accumulated(Num::spec_from_int(d0), step, k);
            let target = (n * d0 + k * (d1 - d0)) * one();
            &&& is_finite(acc.bits)
            &&& n * scaled(acc.bits) - target <= k * (n * drift())
            &&& target - n * scaled(acc.bits) <= k * (n * drift())
        }),
    decreases k,
{
    let delta = d1 - d0;
    let step = Num::spec_from_int(delta).spec_div(Num::spec_from_int(n));
    let acc = accumulated(Num::spec_from_int(d0), step, k);
    let s = one();
    let f = drift();
    lemma_pow2_pos(1074);
    if k == 0 {
        lemma_scaled_of_int(d0);
        assert(n * scaled(acc.bits) == (n * d0 + 0 * delta) * s) by (nonlinear_arith)
            requires
                scaled(acc.bits) == d0 * s,
        ;
        assert(0 * (n * f) == 0) by (nonlinear_arith);
    } else {
        let j = (k - 1) as nat;
        lemma_accumulated_near(d0, d1, n, j);
        let before = accumulated(Num::spec_from_int(d0), step, j);
        assert(acc == before.spec_add(step));
        lemma_slope_error(delta, n);
        lemma_drift_is_small(j as int);
        let hi = if d0 >= d1 {
            d0
        } else {
            d1
        };
        let lo = if d0 >= d1 {
            d1
        } else {
            d0
        };
        let ab = scaled(before.bits);
        let a = scaled(step.bits);
        let tj = (n * d0 + j * delta) * s;
        // where the walk stood, and how large the step is
        lemma_walk_bounds(d0, d1, n, j as int, ab, s as int, f as int);
        assert((lo - 1) * s >= -s) by (nonlinear_arith)
            requires
                lo >= 0,
                s > 0,
        ;
        assert(-s < ab < (hi + 1) * s);
        vstd::arithmetic::power2::lemma_pow2_strictly_increases(1021, 1074);
        assert(-s - s < a < s + s) by (nonlinear_arith)
            requires
                2 * (n * a - delta * s) <= n * pow2(1022),
                2 * (delta * s - n * a) <= n * pow2(1022),
                -n <= delta <= n,
                pow2(1022) == 2 * pow2(1021),
                pow2(1021) < s,
                n > 0,
                s > 0,
        ;
        assert(-pow2(1101) < ab + a < pow2(1101)) by (nonlinear_arith)
            requires
                -s < ab < (hi + 1) * s,
                -s - s < a < s + s,
                hi < reach(),
                s + s + reach() * s <= pow2(1101),
                s > 0,
        ;
        lemma_add_error(before, step, 1101);
        let ak = scaled(acc.bits);
        let tk = (n * d0 + k * delta) * s;
        // the three losses add up
        let nf = n * f;
        assert(n * (ak - (ab + a)) == n * ak - n * ab - n * a) by (nonlinear_arith);
        assert(2 * (n * (ak - (ab + a))) <= n * pow2(1048) && 2 * (n * ((ab + a) - ak)) <= n
            * pow2(1048)) by (nonlinear_arith)
            requires
                2 * (ak - (ab + a)) <= pow2(1048),
                2 * ((ab + a) - ak) <= pow2(1048),
                n > 0,
        ;
        assert(n * ((ab + a) - ak) == n * ab + n * a - n * ak) by (nonlinear_arith);
        assert(n * pow2(1048) == 2 * (n * pow2(1047))) by (nonlinear_arith)
            requires
                pow2(1048) == 2 * pow2(1047),
        ;
        assert(n * pow2(1022) == 2 * (n * pow2(1021))) by (nonlinear_arith)
            requires
                pow2(1022) == 2 * pow2(1021),
        ;
        assert(nf == n * pow2(1047) + n * pow2(1021)) by (nonlinear_arith)
            requires
                nf == n * f,
                f == pow2(1047) + pow2(1021),
        ;
        assert(tk == tj + delta * s) by (nonlinear_arith)
            requires
                tj == (n * d0 + j * delta) * s,
                tk == (n * d0 + k * delta) * s,
                k == j + 1,
        ;
        assert(k * nf == j * nf + nf) by (nonlinear_arith)
            requires
                k == j + 1,
        ;
        assert(n * ak - tk <= k * nf && tk - n * ak <= k * nf);
    }
}

/// After `k` of `n` steps from `d0` toward `d1`, the accumulated value,
/// cut off toward zero, is no further from zero than the further of the
/// two, and no nearer than one short of the nearer.
proof fn lemma_accumulated_in_box(d0: int, d1: int, n: int, k: nat)
    requires
        0 <= d0 < reach(),
        0 <= d1 < reach(),
        0 < n < reach(),
        -n <= d1 - d0 <= n,
        k <= n,
    ensures
        ({
            let step = Num::spec_from_int(d1 - d0).spec_div(Num::spec_from_int(n));
            let acc = accumulated(Num::spec_from_int(d0), step, k);
            let v = acc.spec_to_int(isize::MIN as int, isize::MAX as int);
            &&& 0 <= v
            &&& v <= d0 || v <= d1
            &&& d0 - 1 <= v || d1 - 1 <= v
        }),
{
    let delta = d1 - d0;
    let step = Num::spec_from_int(delta).spec_div(Num::spec_from_int(n));
    let acc = accumulated(Num::spec_from_int(d0), step, k);
    lemma_accumulated_near(d0, d1, n, k);
    lemma_drift_is_small(k as int);
    lemma_truncated_of_scaled(acc.bits);
    reveal(Num::spec_to_int);
    let s = one();
    let f = drift();
    let a = scaled(acc.bits);
    let t = (n * d0 + k * delta) * s;
    let hi = if d0 >= d1 {
        d0
    } else {
        d1
    };
    let lo = if d0 >= d1 {
        d1
    } else {
        d0
    };
    lemma_pow2_pos(1074);
    lemma_walk_bounds(d0, d1, n, k as int, a, s as int, f as int);
    assert((lo - 1) * s < a < (hi + 1) * s);
    assert((lo - 1) * s >= -s) by (nonlinear_arith)
        requires
            lo >= 0,
            s > 0,
    ;
    let m = scaled_magnitude(acc.bits);
    let whole = m / s;
    vstd::arithmetic::div_mod::lemma_fundamental_div_mod(m as int, s as int);
    vstd::arithmetic::div_mod::lemma_mod_bound(m as int, s as int);
    if negative(acc.bits) {
        assert(whole == 0) by (nonlinear_arith)
            requires
                m == s * whole + m % s,
                0 <= m % s,
                m < s,
                whole >= 0,
                s > 0,
        ;
    } else {
        assert(lo - 1 <= whole <= hi) by (nonlinear_arith)
            requires
                m == s * whole + m % s,
                0 <= m % s < s,
                (lo - 1) * s < m < (hi + 1) * s,
                s > 0,
        ;
    }
}

/// A line between two points whose coordinates are below `2^26`, and none
/// negative, stays by them: along its major axis it runs from one to the
/// other, and across it no pixel is further out than the further endpoint,
/// nor nearer zero than one short of the nearer one, nor below zero.
pub proof fn lemma_line_stays_near(p0: (int, int), p1: (int, int), k: nat)
    requires
        0 <= p0.0 < reach(),
        0 <= p0.1 < reach(),
        0 <= p1.0 < reach(),
        0 <= p1.1 < reach(),
        k < line_len(p0, p1),
    ensures
        ({
            let p = line_pixel(p0, p1, k);
            &&& 0 <= p.0
            &&& 0 <= p.1
            &&& p.0 <= p0.0 || p.0 <= p1.0
            &&& p.1 <= p0.1 || p.1 <= p1.1
            &&& p0.0 - 1 <= p.0 || p1.0 - 1 <= p.0
            &&& p0.1 - 1 <= p.1 || p1.1 - 1 <= p.1
        }),
{
    let h = is_horizontal(p0, p1);
    let a = first_end(p0, p1);
    let b = last_end(p0, p1);
    if major(h, a) != major(h, b) {
        lemma_accumulated_in_box(minor(h, a), minor(h, b), major(h, b) - major(h, a), k);
    }
}

/// A line between two pixels of the canvas whose coordinates are below
/// `2^26` lies on the canvas.
pub proof fn lemma_line_fits(canvas: &Canvas, p0: (int, int), p1: (int, int))
    requires
        canvas.contains(p0.0, p0.1),
        canvas.contains(p1.0, p1.1),
        p0.0 < reach(),
        p0.1 < reach(),
        p1.0 < reach(),
        p1.1 < reach(),
    ensures
        line_fits(canvas, p0, p1),
{
    assert forall|k: nat| k < line_len(p0, p1) implies canvas.contains(
        (#[trigger] line_pixel(p0, p1, k)).0,
        line_pixel(p0, p1, k).1,
    ) by {
        lemma_line_stays_near(p0, p1, k);
    }
}

/// One more pixel of the line adds just that pixel to the set.
pub proof fn lemma_prefix_step(p0: (int, int), p1: (int, int), count: nat, x: int, y: int)
    ensures
        on_line_prefix(p0, p1, count + 1, x, y) <==> (on_line_prefix(p0, p1, count, x, y)
            || line_pixel(p0, p1, count) == (x, y)),
{
    if on_line_prefix(p0, p1, count + 1, x, y) {
        let k = choose|k: nat| k < count + 1 && #[trigger] line_pixel(p0, p1, k) == (x, y);
        if k < count {
            assert(on_line_prefix(p0, p1, count, x, y));
        }
    }
    if on_line_prefix(p0, p1, count, x, y) {
        let k = choose|k: nat| k < count && #[trigger] line_pixel(p0, p1, k) == (x, y);
        assert(k < count + 1 && line_pixel(p0, p1, k) == (x, y));
    }
    if line_pixel(p0, p1, count) == (x, y) {
        assert(count < count + 1 && line_pixel(p0, p1, count) == (x, y));
    }
}

/// A walk along a line: where it starts, where it ends, and its slope.
struct Walk {
    horizontal: bool,
    from: isize,
    to: isize,
    base: isize,
    step: Num,
}

impl Walk {
    /// Whether this is the walk along the line from `p0` to `p1`.
    spec fn is_for(self, p0: (int, int), p1: (int, int)) -> bool {
        let h = is_horizontal(p0, p1);
        &&& self.horizontal == h
        &&& self.from == major(h, first_end(p0, p1))
        &&& self.to == major(h, last_end(p0, p1))
        &&& self.base == minor(h, first_end(p0, p1))
        &&& self.from < self.to ==> self.step == slope(p0, p1)
        &&& self.from <= self.to
    }

    /// The walk along the line from `p0` to `p1`.
    fn along(p0: (isize, isize), p1: (isize, isize)) -> (walk: Walk)
        ensures
            walk.is_for(pt(p0), pt(p1)),
    {
        let dx: i128 = if p1.0 >= p0.0 {
            p1.0 as i128 - p0.0 as i128
        } else {
            p0.0 as i128 - p1.0 as i128
        };
        let dy: i128 = if p1.1 >= p0.1 {
            p1.1 as i128 - p0.1 as i128
        } else {
            p0.1 as i128 - p1.1 as i128
        };
        let horizontal = dx > dy;
        let (i0, d0, i1, d1) = if horizontal {
            (p0.0, p0.1, p1.0, p1.1)
        } else {
            (p0.1, p0.0, p1.1, p1.0)
        };
        let (from, base, to, aim) = if i0 > i1 {
            (i1, d1, i0, d0)
        } else {
            (i0, d0, i1, d1)
        };
        let step = if from < to {
            Num::from_i128(aim as i128 - base as i128).div(Num::from_i128(to as i128 - from as i128))
        } else {
            Num::zero()
        };
        Walk { horizontal, from, to, base, step }
    }

    /// The pixel of the walk at major coordinate `i`, where `acc` is the
    /// value accumulated so far.
    fn pixel(&self, i: isize, acc: Num) -> (p: (isize, isize))
        ensures
            self.from == self.to ==> pt(p) == (if self.horizontal {
                (i as int, self.base as int)
            } else {
                (self.base as int, i as int)
            }),
            self.from != self.to ==> pt(p) == (if self.horizontal {
                (i as int, acc.spec_to_int(isize::MIN as int, isize::MAX as int))
            } else {
                (acc.spec_to_int(isize::MIN as int, isize::MAX as int), i as int)
            }),
    {
        let d: isize = if self.from == self.to {
            self.base
        } else {
            acc.to_isize()
        };
        if self.horizontal {
            (i, d)
        } else {
            (d, i)
        }
    }
}

/// Whether the point is a pixel of the canvas.
fn holds(canvas: &Canvas, p: (isize, isize)) -> (b: bool)
    requires
        canvas.wf(),
    ensures
        b == canvas.contains(p.0 as int, p.1 as int),
{
    proof {
        canvas.lemma_wf();
    }
    p.0 >= 0 && p.1 >= 0 && (p.0 as usize) < canvas.width() && (p.1 as usize) < canvas.height()
}

/// Whether every pixel of the line from `p0` to `p1` is a pixel of the
/// canvas.
pub fn line_is_inside(canvas: &Canvas, p0: (isize, isize), p1: (isize, isize)) -> (inside: bool)
    requires
        canvas.wf(),
    ensures
        inside == line_fits(canvas, pt(p0), pt(p1)),
{
    let walk = Walk::along(p0, p1);
    let mut i: isize = walk.from;
    let mut acc: Num = Num::from_isize(walk.base);
    let mut more = true;
    let ghost a = pt(p0);
    let ghost b = pt(p1);
    while more
        invariant
            canvas.wf(),
            a == pt(p0),
            b == pt(p1),
            walk.is_for(a, b),
            walk.from <= i <= walk.to,
            more ==> acc == accumulated(
                Num::spec_from_int(walk.base as int),
                walk.step,
                (i - walk.from) as nat,
            ),
            more ==> prefix_fits(canvas, a, b, (i - walk.from) as nat),
            !more ==> i == walk.to && line_fits(canvas, a, b),
        decreases walk.to - i + if more { 1int } else { 0int },
    {
        let ghost k = (i - walk.from) as nat;
        let p = walk.pixel(i, acc);
        assert(pt(p) == line_pixel(a, b, k));
        if !holds(canvas, p) {
            assert(k < line_len(a, b));
            assert(!canvas.contains(line_pixel(a, b, k).0, line_pixel(a, b, k).1));
            return false;
        }
        assert(prefix_fits(canvas, a, b, k + 1)) by {
            assert forall|j: nat| j < k + 1 implies canvas.contains(
                (#[trigger] line_pixel(a, b, j)).0,
                line_pixel(a, b, j).1,
            ) by {
                if j < k {
                } else {
                    assert(j == k);
                }
            }
        }
        if i == walk.to {
            more = false;
        } else {
            i = i + 1;
            acc = acc.add(walk.step);
        }
    }
    true
}

/// Draws the line from `p0` to `p1` in opaque white, one pixel for each
/// step along its major axis.
pub fn draw_line(canvas: &mut Canvas, p0: (isize, isize), p1: (isize, isize))
    requires
        old(canvas).wf(),
        line_fits(old(canvas), pt(p0), pt(p1)),
    ensures
        final(canvas).wf(),
        final(canvas).is_painted(
            old(canvas),
            |x: int, y: int| on_line(pt(p0), pt(p1), x, y),
            spec_white(),
        ),
{
    let walk = Walk::along(p0, p1);
    let mut i: isize = walk.from;
    let mut acc: Num = Num::from_isize(walk.base);
    let mut more = true;
    let ghost a = pt(p0);
    let ghost b = pt(p1);
    let ghost len = line_len(a, b);
    while more
        invariant
            canvas.wf(),
            canvas.same_size(old(canvas)),
            line_fits(old(canvas), a, b),
            len == line_len(a, b),
            walk.is_for(a, b),
            walk.from <= i <= walk.to,
            more ==> acc == accumulated(
                Num::spec_from_int(walk.base as int),
                walk.step,
                (i - walk.from) as nat,
            ),
            more ==> canvas.is_painted(
                old(canvas),
                |x: int, y: int| on_line_prefix(a, b, (i - walk.from) as nat, x, y),
                spec_white(),
            ),
            !more ==> canvas.is_painted(
                old(canvas),
                |x: int, y: int| on_line_prefix(a, b, len, x, y),
                spec_white(),
            ),
        decreases walk.to - i + if more { 1int } else { 0int },
    {
        let ghost k = (i - walk.from) as nat;
        let ghost before = *canvas;
        let p = walk.pixel(i, acc);
        assert(pt(p) == line_pixel(a, b, k));
        assert(k < len);
        assert(old(canvas).contains(line_pixel(a, b, k).0, line_pixel(a, b, k).1));
        canvas.set((p.0 as usize, p.1 as usize), white());
        assert(canvas.is_painted(
            old(canvas),
            |x: int, y: int| on_line_prefix(a, b, k + 1, x, y),
            spec_white(),
        )) by {
            assert forall|x: int, y: int| canvas.contains(x, y) implies #[trigger] canvas.pixel(
                x,
                y,
            ) == if on_line_prefix(a, b, k + 1, x, y) {
                spec_white()
            } else {
                old(canvas).pixel(x, y)
            } by {
                lemma_prefix_step(a, b, k, x, y);
                if (x, y) != pt(p) {
                    assert(canvas.pixel(x, y) == before.pixel(x, y));
                }
            }
        }
        if i == walk.to {
            more = false;
            assert(k + 1 == len);
        } else {
            i = i + 1;
            acc = acc.add(walk.step);
        }
    }
}

/// Draws the line from `p0` to `p1` if all of it lies on the canvas, and
/// says whether it did; a line that does not is not drawn at all.
pub fn try_draw_line(canvas: &mut Canvas, p0: (isize, isize), p1: (isize, isize)) -> (drawn: bool)
    requires
        old(canvas).wf(),
    ensures
        final(canvas).wf(),
        drawn == line_fits(old(canvas), pt(p0), pt(p1)),
        drawn ==> final(canvas).is_painted(
            old(canvas),
            |x: int, y: int| on_line(pt(p0), pt(p1), x, y),
            spec_white(),
        ),
        !drawn ==> *final(canvas) == *old(canvas),
{
    if line_is_inside(canvas, p0, p1) {
        draw_line(canvas, p0, p1);
        true
    } else {
        false
    }
}

} // verus!
