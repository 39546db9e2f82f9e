//! The ray tracer: for every pixel, the nearest sphere that its ray meets.

use vstd::prelude::*;
use crate::canvas::{Canvas, Color};
use crate::line::{draw_point, point_place};
use crate::math::Num;
use crate::vector::{V3, dot, spec_dot};
use crate::whole::{
    is_whole,
    lemma_whole_add,
    lemma_whole_div,
    lemma_whole_from_int,
    lemma_whole_mul,
    lemma_whole_neg,
    lemma_whole_order,
    lemma_whole_sqrt,
    lemma_whole_sub,
};

verus! {

/// A sphere of one color.
#[derive(Clone, Copy, Debug)]
pub struct Sphere {
    pub center: V3,
    pub radius: Num,
    pub color: Color,
}

/// The rectangle in front of the eye that the canvas is mapped onto.
#[derive(Clone, Copy, Debug)]
pub struct Viewport {
    pub width: Num,
    pub height: Num,
    pub distance: Num,
}

impl Viewport {
    /// A viewport 16/9 wide and 1 high, at distance 1.
    pub open spec fn spec_standard() -> Viewport {
        Viewport {
            width: Num::spec_from_int(16).spec_div(Num::spec_from_int(9)),
            height: Num::spec_from_int(1),
            distance: Num::spec_from_int(1),
        }
    }

    /// A viewport 16/9 wide and 1 high, at distance 1.
    pub fn standard() -> (v: Viewport)
        ensures
            v == Viewport::spec_standard(),
    {
        Viewport {
            width: Num::from_u8(16).div(Num::from_u8(9)),
            height: Num::from_u8(1),
            distance: Num::from_u8(1),
        }
    }
}

/// Opaque black, the color of a ray that meets nothing.
pub open spec fn spec_background() -> Color {
    Color { b: 0, g: 0, r: 0, a: 255 }
}

/// Opaque black.
pub fn background() -> (c: Color)
    ensures
        c == spec_background(),
{
    Color { b: 0, g: 0, r: 0, a: 255 }
}

/// The direction of the ray through the point `(x, y)` of the centered
/// frame: `(x / width * viewport.width, y / height * viewport.height,
/// viewport.distance)`.
pub open spec fn spec_viewport_direction(width: int, height: int, viewport: Viewport, p: (int, int)) -> V3 {
    V3 {
        x: Num::spec_from_int(p.0).spec_div(Num::spec_from_int(width)).spec_mul(viewport.width),
        y: Num::spec_from_int(p.1).spec_div(Num::spec_from_int(height)).spec_mul(viewport.height),
        z: viewport.distance,
    }
}

/// The direction of the ray through the point `(x, y)` of the centered frame.
pub fn canvas_to_viewport(canvas: &Canvas, viewport: Viewport, p: (isize, isize)) -> (d: V3)
    ensures
        d == spec_viewport_direction(
            canvas.spec_width() as int,
            canvas.spec_height() as int,
            viewport,
            (p.0 as int, p.1 as int),
        ),
{
    let x = Num::from_isize(p.0);
    let y = Num::from_isize(p.1);
    let width = Num::from_usize(canvas.width());
    let height = Num::from_usize(canvas.height());
    V3 { x: x.div(width).mul(viewport.width), y: y.div(height).mul(viewport.height), z: viewport.distance }
}

/// The three coefficients of the quadratic in `t` that says where the ray
/// `o + t * d` meets the sphere:
/// `t^2 * dot(d, d) + t * 2 * dot(oc, d) + dot(oc, oc) - r^2`, with
/// `oc = o - center`.
pub open spec fn quadratic(o: V3, d: V3, sphere: Sphere) -> (Num, Num, Num) {
    let oc = o.spec_sub(sphere.center);
    (
        spec_dot(d, d),
        Num::spec_from_int(2).spec_mul(spec_dot(oc, d)),
        spec_dot(oc, oc).spec_sub(sphere.radius.spec_mul(sphere.radius)),
    )
}

/// The discriminant `b^2 - 4ac` of that quadratic.
pub open spec fn discriminant(o: V3, d: V3, sphere: Sphere) -> Num {
    let (a, b, c) = quadratic(o, d, sphere);
    b.spec_mul(b).spec_sub(Num::spec_from_int(4).spec_mul(a).spec_mul(c))
}

/// Whether the ray misses the sphere: the discriminant is negative.
pub open spec fn misses(o: V3, d: V3, sphere: Sphere) -> bool {
    discriminant(o, d, sphere).spec_lt(Num::spec_zero())
}

/// The two roots of the quadratic, the larger first: `(-b + sqrt(disc)) /
/// 2a` and `(-b - sqrt(disc)) / 2a`; both are infinity when the ray misses.
pub open spec fn spec_intersect(o: V3, d: V3, sphere: Sphere) -> (Num, Num) {
    if misses(o, d, sphere) {
        (Num::spec_infinity(), Num::spec_infinity())
    } else {
        let (a, b, c) = quadratic(o, d, sphere);
        let root = discriminant(o, d, sphere).spec_sqrt();
        let twice = Num::spec_from_int(2).spec_mul(a);
        (b.spec_neg().spec_add(root).spec_div(twice), b.spec_neg().spec_sub(root).spec_div(twice))
    }
}

/// Whether the components of `v` are the whole numbers `w`, none beyond
/// `limit` either way.
pub open spec fn is_whole_vector(v: V3, w: (int, int, int), limit: int) -> bool {
    &&& is_whole(v.x, w.0) && -limit <= w.0 <= limit
    &&& is_whole(v.y, w.1) && -limit <= w.1 <= limit
    &&& is_whole(v.z, w.2) && -limit <= w.2 <= limit
}

/// The dot product of two vectors of whole numbers.
pub open spec fn whole_dot(u: (int, int, int), v: (int, int, int)) -> int {
    u.0 * v.0 + u.1 * v.1 + u.2 * v.2
}

/// The difference of two vectors of whole numbers.
pub open spec fn whole_sub(u: (int, int, int), v: (int, int, int)) -> (int, int, int) {
    (u.0 - v.0, u.1 - v.1, u.2 - v.2)
}

/// The coefficients of the quadratic for a ray and a sphere of whole
/// numbers.
pub open spec fn whole_quadratic(
    o: (int, int, int),
    d: (int, int, int),
    c: (int, int, int),
    r: int,
) -> (int, int, int) {
    let oc = whole_sub(o, c);
    (whole_dot(d, d), 2 * whole_dot(oc, d), whole_dot(oc, oc) - r * r)
}

/// The discriminant of that quadratic.
pub open spec fn whole_discriminant(
    o: (int, int, int),
    d: (int, int, int),
    c: (int, int, int),
    r: int,
) -> int {
    let (a, b, c) = whole_quadratic(o, d, c, r);
    b * b - 4 * a * c
}

/// A product of two numbers within bounds is within the product of the
/// bounds.
proof fn lemma_product_bound(x: int, y: int, bx: int, by: int)
    requires
        -bx <= x <= bx,
        -by <= y <= by,
    ensures
        -(bx * by) <= x * y <= bx * by,
{
    assert(-(bx * by) <= x * y <= bx * by) by (nonlinear_arith)
        requires
            -bx <= x <= bx,
            -by <= y <= by,
    ;
}

/// The dot product of two vectors of whole numbers is the whole dot
/// product, where no component goes beyond 2000.
proof fn lemma_whole_dot(u: V3, uw: (int, int, int), v: V3, vw: (int, int, int))
    requires
        is_whole_vector(u, uw, 2000),
        is_whole_vector(v, vw, 2000),
    ensures
        is_whole(spec_dot(u, v), whole_dot(uw, vw)),
        -12_000_000 <= whole_dot(uw, vw) <= 12_000_000,
{
    lemma_product_bound(uw.0, vw.0, 2000, 2000);
    lemma_product_bound(uw.1, vw.1, 2000, 2000);
    lemma_product_bound(uw.2, vw.2, 2000, 2000);
    lemma_whole_mul(u.x, uw.0, v.x, vw.0);
    lemma_whole_mul(u.y, uw.1, v.y, vw.1);
    lemma_whole_mul(u.z, uw.2, v.z, vw.2);
    lemma_whole_add(u.x.spec_mul(v.x), uw.0 * vw.0, u.y.spec_mul(v.y), uw.1 * vw.1);
    lemma_whole_add(
        u.x.spec_mul(v.x).spec_add(u.y.spec_mul(v.y)),
        uw.0 * vw.0 + uw.1 * vw.1,
        u.z.spec_mul(v.z),
        uw.2 * vw.2,
    );
}

/// The coefficients and the discriminant of a ray and a sphere of whole
/// numbers are the whole ones, where no coordinate and no radius goes
/// beyond 1000.
proof fn lemma_whole_quadratic(
    o: V3,
    ow: (int, int, int),
    d: V3,
    dw: (int, int, int),
    sphere: Sphere,
    cw: (int, int, int),
    r: int,
)
    requires
        is_whole_vector(o, ow, 1000),
        is_whole_vector(d, dw, 1000),
        is_whole_vector(sphere.center, cw, 1000),
        is_whole(sphere.radius, r),
        -1000 <= r <= 1000,
    ensures
        ({
            let (a, b, c) = quadratic(o, d, sphere);
            let (aw, bw, cw2) = whole_quadratic(ow, dw, cw, r);
            &&& is_whole(a, aw)
            &&& is_whole(b, bw)
            &&& is_whole(c, cw2)
            &&& is_whole(discriminant(o, d, sphere), whole_discriminant(ow, dw, cw, r))
            &&& 0 <= aw <= 3_000_000
            &&& -24_000_000 <= bw <= 24_000_000
            &&& -1_000_000_000_000_000 <= whole_discriminant(ow, dw, cw, r) <= 1_000_000_000_000_000
        }),
{
    let oc = o.spec_sub(sphere.center);
    let ocw = whole_sub(ow, cw);
    lemma_whole_sub(o.x, ow.0, sphere.center.x, cw.0);
    lemma_whole_sub(o.y, ow.1, sphere.center.y, cw.1);
    lemma_whole_sub(o.z, ow.2, sphere.center.z, cw.2);
    assert(is_whole_vector(oc, ocw, 2000));
    assert(is_whole_vector(d, dw, 2000));
    lemma_whole_dot(d, dw, d, dw);
    lemma_whole_dot(oc, ocw, d, dw);
    lemma_whole_dot(oc, ocw, oc, ocw);
    let (a, b, c) = quadratic(o, d, sphere);
    let (aw, bw, cw2) = whole_quadratic(ow, dw, cw, r);
    lemma_product_bound(dw.0, dw.0, 1000, 1000);
    lemma_product_bound(dw.1, dw.1, 1000, 1000);
    lemma_product_bound(dw.2, dw.2, 1000, 1000);
    assert(dw.0 * dw.0 >= 0 && dw.1 * dw.1 >= 0 && dw.2 * dw.2 >= 0) by (nonlinear_arith);
    assert(ocw.0 * ocw.0 >= 0 && ocw.1 * ocw.1 >= 0 && ocw.2 * ocw.2 >= 0) by (nonlinear_arith);
    lemma_product_bound(r, r, 1000, 1000);
    assert(r * r >= 0) by (nonlinear_arith);
    // b = 2 * dot(oc, d)
    lemma_whole_from_int(2);
    lemma_whole_mul(Num::spec_from_int(2), 2, spec_dot(oc, d), whole_dot(ocw, dw));
    // c = dot(oc, oc) - r * r
    lemma_whole_mul(sphere.radius, r, sphere.radius, r);
    lemma_whole_sub(
        spec_dot(oc, oc),
        whole_dot(ocw, ocw),
        sphere.radius.spec_mul(sphere.radius),
        r * r,
    );
    // disc = b * b - 4 * a * c
    lemma_product_bound(bw, bw, 24_000_000, 24_000_000);
    lemma_whole_mul(b, bw, b, bw);
    lemma_whole_from_int(4);
    lemma_whole_mul(Num::spec_from_int(4), 4, a, aw);
    lemma_product_bound(4 * aw, cw2, 12_000_000, 12_000_000);
    lemma_whole_mul(Num::spec_from_int(4).spec_mul(a), 4 * aw, c, cw2);
    lemma_whole_sub(
        b.spec_mul(b),
        bw * bw,
        Num::spec_from_int(4).spec_mul(a).spec_mul(c),
        4 * aw * cw2,
    );
}

/// A ray of whole numbers misses a sphere of whole numbers just when the
/// whole discriminant is negative, where no coordinate and no radius goes
/// beyond 1000.
pub proof fn lemma_miss_of_whole(
    o: V3,
    ow: (int, int, int),
    d: V3,
    dw: (int, int, int),
    sphere: Sphere,
    cw: (int, int, int),
    r: int,
)
    requires
        is_whole_vector(o, ow, 1000),
        is_whole_vector(d, dw, 1000),
        is_whole_vector(sphere.center, cw, 1000),
        is_whole(sphere.radius, r),
        -1000 <= r <= 1000,
    ensures
        misses(o, d, sphere) == (whole_discriminant(ow, dw, cw, r) < 0),
{
    lemma_whole_quadratic(o, ow, d, dw, sphere, cw, r);
    lemma_whole_from_int(0);
    crate::math::lemma_from_int_exact(0);
    assert(Num::spec_from_int(0) == Num::spec_zero()) by {
        reveal(Num::spec_from_int);
    }
    lemma_whole_order(
        discriminant(o, d, sphere),
        whole_discriminant(ow, dw, cw, r),
        Num::spec_zero(),
        0,
    );
}

/// The roots for a ray and a sphere of whole numbers are those of the
/// quadratic formula, where the discriminant is a whole square and the
/// roots are whole, and no coordinate and no radius goes beyond 1000:
/// with `s * s` the discriminant, the roots are `(-b + s) / 2a` and
/// `(-b - s) / 2a`.
pub proof fn lemma_intersect_of_whole(
    o: V3,
    ow: (int, int, int),
    d: V3,
    dw: (int, int, int),
    sphere: Sphere,
    cw: (int, int, int),
    r: int,
    s: int,
    t1: int,
    t2: int,
)
    requires
        is_whole_vector(o, ow, 1000),
        is_whole_vector(d, dw, 1000),
        is_whole_vector(sphere.center, cw, 1000),
        is_whole(sphere.radius, r),
        -1000 <= r <= 1000,
        0 <= s,
        whole_discriminant(ow, dw, cw, r) == s * s,
        whole_quadratic(ow, dw, cw, r).0 != 0,
        2 * whole_quadratic(ow, dw, cw, r).0 * t1 == -whole_quadratic(ow, dw, cw, r).1 + s,
        2 * whole_quadratic(ow, dw, cw, r).0 * t2 == -whole_quadratic(ow, dw, cw, r).1 - s,
    ensures
        is_whole(spec_intersect(o, d, sphere).0, t1),
        is_whole(spec_intersect(o, d, sphere).1, t2),
{
    lemma_whole_quadratic(o, ow, d, dw, sphere, cw, r);
    lemma_miss_of_whole(o, ow, d, dw, sphere, cw, r);
    let (a, b, c) = quadratic(o, d, sphere);
    let (aw, bw, cw2) = whole_quadratic(ow, dw, cw, r);
    let disc = whole_discriminant(ow, dw, cw, r);
    assert(s * s >= 0) by (nonlinear_arith);
    assert(!misses(o, d, sphere));
    assert(s <= 1_000_000_000_000_000) by (nonlinear_arith)
        requires
            s * s <= 1_000_000_000_000_000,
            s >= 0,
    ;
    let root = discriminant(o, d, sphere).spec_sqrt();
    lemma_whole_sqrt(discriminant(o, d, sphere), s);
    lemma_whole_from_int(2);
    lemma_whole_mul(Num::spec_from_int(2), 2, a, aw);
    let twice = Num::spec_from_int(2).spec_mul(a);
    lemma_whole_neg(b, bw);
    lemma_whole_add(b.spec_neg(), -bw, root, s);
    lemma_whole_sub(b.spec_neg(), -bw, root, s);
    // the roots are no larger than what they are multiplied by to give
    assert(-2_000_000_000_000_000 <= t1 <= 2_000_000_000_000_000) by (nonlinear_arith)
        requires
            2 * aw * t1 == -bw + s,
            aw >= 1,
            -24_000_000 <= bw <= 24_000_000,
            0 <= s <= 1_000_000_000_000_000,
    ;
    assert(-2_000_000_000_000_000 <= t2 <= 2_000_000_000_000_000) by (nonlinear_arith)
        requires
            2 * aw * t2 == -bw - s,
            aw >= 1,
            -24_000_000 <= bw <= 24_000_000,
            0 <= s <= 1_000_000_000_000_000,
    ;
    assert(t1 * (2 * aw) == -bw + s && t2 * (2 * aw) == -bw - s) by (nonlinear_arith)
        requires
            2 * aw * t1 == -bw + s,
            2 * aw * t2 == -bw - s,
    ;
    lemma_whole_div(b.spec_neg().spec_add(root), t1, twice, 2 * aw);
    lemma_whole_div(b.spec_neg().spec_sub(root), t2, twice, 2 * aw);
}

/// The values of `t` at which the ray `o + t * d` meets the sphere.
pub fn intersect_ray_sphere(o: V3, d: V3, sphere: &Sphere) -> (roots: [Num; 2])
    ensures
        (roots[0], roots[1]) == spec_intersect(o, d, *sphere),
        misses(o, d, *sphere) ==> roots[0] == Num::spec_infinity() && roots[1]
            == Num::spec_infinity(),
{
    let oc = o.sub(sphere.center);
    let a = dot(d, d);
    let b = Num::from_u8(2).mul(dot(oc, d));
    let c = dot(oc, oc).sub(sphere.radius.mul(sphere.radius));
    let disc = b.mul(b).sub(Num::from_u8(4).mul(a).mul(c));
    if disc.lt(Num::zero()) {
        [Num::infinity(), Num::infinity()]
    } else {
        let root = disc.sqrt();
        let twice = Num::from_u8(2).mul(a);
        [b.neg().add(root).div(twice), b.neg().sub(root).div(twice)]
    }
}

/// Whether `start <= n < end`.
pub open spec fn spec_in_range(n: Num, start: Num, end: Num) -> bool {
    start.spec_le(n) && n.spec_lt(end)
}

/// Whether `n` lies in the range from `start` to `end`, `end` left out.
pub fn in_range(n: Num, start: Num, end: Num) -> (b: bool)
    ensures
        b == spec_in_range(n, start, end),
{
    start.le(n) && n.lt(end)
}

/// The candidates of a scene, in the order in which they are looked at:
/// candidate `2 * i` is the first root of sphere `i`, candidate `2 * i + 1`
/// its second.
pub open spec fn candidate(o: V3, d: V3, spheres: Seq<Sphere>, j: int) -> Num {
    let roots = spec_intersect(o, d, spheres[j / 2]);
    if j % 2 == 0 {
        roots.0
    } else {
        roots.1
    }
}

/// The candidate found best among the first `count`, if any is in range:
/// each candidate in range that is strictly less than the best so far takes
/// its place.
pub open spec fn best_of(
    o: V3,
    d: V3,
    t_min: Num,
    t_max: Num,
    spheres: Seq<Sphere>,
    count: nat,
) -> Option<int>
    decreases count,
{
    if count == 0 {
        None
    } else {
        let j = count - 1;
        let t = candidate(o, d, spheres, j);
        let before = best_of(o, d, t_min, t_max, spheres, j as nat);
        let bound = match before {
            Some(w) => candidate(o, d, spheres, w),
            None => Num::spec_infinity(),
        };
        if spec_in_range(t, t_min, t_max) && t.spec_lt(bound) {
            Some(j)
        } else {
            before
        }
    }
}

/// The color that the ray sees: that of the sphere with the best
/// candidate, or the background.
pub open spec fn spec_trace_ray(o: V3, d: V3, t_min: Num, t_max: Num, spheres: Seq<Sphere>) -> Color {
    match best_of(o, d, t_min, t_max, spheres, 2 * spheres.len()) {
        Some(w) => spheres[w / 2].color,
        None => spec_background(),
    }
}

/// Whether candidate `w` is the nearest in range, and the first of those
/// that are as near.
pub open spec fn is_first_nearest(
    o: V3,
    d: V3,
    t_min: Num,
    t_max: Num,
    spheres: Seq<Sphere>,
    count: nat,
    w: int,
) -> bool {
    let t = candidate(o, d, spheres, w);
    &&& 0 <= w < count
    &&& spec_in_range(t, t_min, t_max)
    &&& forall|j: int|
        0 <= j < count && spec_in_range(#[trigger] candidate(o, d, spheres, j), t_min, t_max) ==> {
            &&& !candidate(o, d, spheres, j).spec_lt(t)
            &&& j < w ==> t.spec_lt(candidate(o, d, spheres, j))
        }
}

/// The best candidate is the nearest one in range, and the first of those
/// that are as near; there is none only if no candidate is in range.
pub proof fn lemma_best_is_first_nearest(
    o: V3,
    d: V3,
    t_min: Num,
    t_max: Num,
    spheres: Seq<Sphere>,
    count: nat,
)
    ensures
        match best_of(o, d, t_min, t_max, spheres, count) {
            Some(w) => is_first_nearest(o, d, t_min, t_max, spheres, count, w),
            None => forall|j: int|
                0 <= j < count ==> !spec_in_range(
                    #[trigger] candidate(o, d, spheres, j),
                    t_min,
                    t_max,
                ),
        },
    decreases count,
{
    if count > 0 {
        let last = count - 1;
        lemma_best_is_first_nearest(o, d, t_min, t_max, spheres, last as nat);
        let t = candidate(o, d, spheres, last);
        let before = best_of(o, d, t_min, t_max, spheres, last as nat);
        match before {
            Some(w) => {
                let tw = candidate(o, d, spheres, w);
                if spec_in_range(t, t_min, t_max) && t.spec_lt(tw) {
                    assert(is_first_nearest(o, d, t_min, t_max, spheres, count, last));
                } else {
                    assert(is_first_nearest(o, d, t_min, t_max, spheres, count, w));
                }
            },
            None => {
                if spec_in_range(t, t_min, t_max) {
                    assert(t.spec_lt(Num::spec_infinity()));
                    assert(is_first_nearest(o, d, t_min, t_max, spheres, count, last));
                }
            },
        }
    }
}

/// Where two spheres have a root each in range at the same distance, and
/// nothing in range is nearer, the ray shows the first of the two, or a
/// sphere before it.
pub proof fn lemma_tie_goes_to_first(
    o: V3,
    d: V3,
    t_min: Num,
    t_max: Num,
    spheres: Seq<Sphere>,
    i: int,
    j: int,
)
    requires
        0 <= i < j < 2 * spheres.len(),
        spec_in_range(candidate(o, d, spheres, i), t_min, t_max),
        candidate(o, d, spheres, i).spec_eq(candidate(o, d, spheres, j)),
        forall|k: int|
            0 <= k < 2 * spheres.len() && spec_in_range(
                #[trigger] candidate(o, d, spheres, k),
                t_min,
                t_max,
            ) ==> !candidate(o, d, spheres, k).spec_lt(candidate(o, d, spheres, i)),
    ensures
        ({
            let best = best_of(o, d, t_min, t_max, spheres, 2 * spheres.len());
            &&& best is Some
            &&& best->0 <= i
            &&& spec_trace_ray(o, d, t_min, t_max, spheres) == spheres[best->0 / 2].color
            &&& forall|k: int|
                0 <= k < best->0 ==> !spec_in_range(
                    #[trigger] candidate(o, d, spheres, k),
                    t_min,
                    t_max,
                ) || candidate(o, d, spheres, best->0).spec_lt(candidate(o, d, spheres, k))
        }),
{
    lemma_best_is_first_nearest(o, d, t_min, t_max, spheres, 2 * spheres.len());
    let best = best_of(o, d, t_min, t_max, spheres, 2 * spheres.len());
    let ti = candidate(o, d, spheres, i);
    assert(spec_in_range(ti, t_min, t_max));
    if best is Some {
        let w = best->0;
        let tw = candidate(o, d, spheres, w);
        if w > i {
            // then tw < ti, against the last premise
            assert(tw.spec_lt(ti));
            assert(spec_in_range(tw, t_min, t_max));
            assert(false);
        }
    }
}

/// With nothing in the scene, the ray shows the background.
pub proof fn lemma_empty_scene(o: V3, d: V3, t_min: Num, t_max: Num)
    ensures
        spec_trace_ray(o, d, t_min, t_max, Seq::<Sphere>::empty()) == spec_background(),
{
}

/// The color of the nearest sphere that the ray `o + t * d` meets with
/// `t_min <= t < t_max`; of two as near, the first in `spheres`; the
/// background if there is none.
pub fn trace_ray(o: V3, d: V3, t_min: Num, t_max: Num, spheres: &[Sphere]) -> (color: Color)
    ensures
        color == spec_trace_ray(o, d, t_min, t_max, spheres@),
        spheres@.len() == 0 ==> color == spec_background(),
{
    let mut closest: Option<(Color, Num)> = None;
    let ghost mut best: Option<int> = None;
    let n: usize = spheres.len();
    let mut i: usize = 0;
    while i < n
        invariant
            i <= n,
            n == spheres@.len(),
            best == best_of(o, d, t_min, t_max, spheres@, (2 * i) as nat),
            match closest {
                Some((c, t)) => best is Some && 0 <= best->0 < 2 * i && c == spheres@[best->0
                    / 2].color && t == candidate(o, d, spheres@, best->0),
                None => best is None,
            },
        decreases n - i,
    {
        let sphere: &Sphere = &spheres[i];
        let roots = intersect_ray_sphere(o, d, sphere);
        let mut r: usize = 0;
        while r < 2
            invariant
                i < n,
                n == spheres@.len(),
                r <= 2,
                *sphere == spheres@[i as int],
                (roots[0], roots[1]) == spec_intersect(o, d, *sphere),
                best == best_of(o, d, t_min, t_max, spheres@, (2 * i + r) as nat),
                match closest {
                    Some((c, t)) => best is Some && 0 <= best->0 < 2 * i + r && c
                        == spheres@[best->0 / 2].color && t == candidate(o, d, spheres@, best->0),
                    None => best is None,
                },
            decreases 2 - r,
        {
            let t: Num = roots[r];
            let bound: Num = match closest {
                Some((_, best_t)) => best_t,
                None => Num::infinity(),
            };
            assert(t == candidate(o, d, spheres@, 2 * i + r));
            if in_range(t, t_min, t_max) && t.lt(bound) {
                closest = Some((sphere.color, t));
                proof {
                    best = Some((2 * i + r) as int);
                }
            }
            r = r + 1;
        }
        i = i + 1;
    }
    match closest {
        Some((color, _)) => color,
        None => background(),
    }
}

/// The point of the centered frame that the pixel `(x, y)` shows.
pub open spec fn frame_point(canvas: &Canvas, x: int, y: int) -> (int, int) {
    (x - (canvas.spec_width() as int) / 2, (canvas.spec_height() as int) / 2 - 1 - y)
}

/// Whether the pixel `(x, y)` shows a point of the centered frame: the
/// frame spans an even number of columns and of rows, so the last column
/// of a canvas of odd width, and the last row of one of odd height, show
/// none.
pub open spec fn in_frame(canvas: &Canvas, x: int, y: int) -> bool {
    &&& 0 <= x < 2 * ((canvas.spec_width() as int) / 2)
    &&& 0 <= y < 2 * ((canvas.spec_height() as int) / 2)
}

/// The color that the scene gives the pixel `(x, y)`.
pub open spec fn scene_color(
    canvas: &Canvas,
    viewport: Viewport,
    origin: V3,
    t_min: Num,
    t_max: Num,
    spheres: Seq<Sphere>,
    x: int,
    y: int,
) -> Color {
    spec_trace_ray(
        origin,
        spec_viewport_direction(
            canvas.spec_width() as int,
            canvas.spec_height() as int,
            viewport,
            frame_point(canvas, x, y),
        ),
        t_min,
        t_max,
        spheres,
    )
}

/// Traces the scene into the canvas: every pixel that shows a point of the
/// centered frame gets the color that the ray from `origin` through that
/// point sees.
pub fn trace_scene(
    canvas: &mut Canvas,
    viewport: Viewport,
    origin: V3,
    t_min: Num,
    t_max: Num,
    spheres: &[Sphere],
)
    requires
        old(canvas).wf(),
    ensures
        final(canvas).wf(),
        final(canvas).same_size(old(canvas)),
        forall|x: int, y: int|
            final(canvas).contains(x, y) ==> #[trigger] final(canvas).pixel(x, y) == if in_frame(
                old(canvas),
                x,
                y,
            ) {
                scene_color(old(canvas), viewport, origin, t_min, t_max, spheres@, x, y)
            } else {
                old(canvas).pixel(x, y)
            },
{
    proof {
        canvas.lemma_wf();
    }
    let half_width: isize = (canvas.width() / 2) as isize;
    let half_height: isize = (canvas.height() / 2) as isize;
    let mut x: isize = -half_width;
    while x < half_width
        invariant
            canvas.wf(),
            canvas.same_size(old(canvas)),
            half_width == (canvas.spec_width() as int) / 2,
            half_height == (canvas.spec_height() as int) / 2,
            -half_width <= x <= half_width,
            forall|px: int, py: int|
                canvas.contains(px, py) ==> #[trigger] canvas.pixel(px, py) == if in_frame(
                    old(canvas),
                    px,
                    py,
                ) && px < x + half_width {
                    scene_color(old(canvas), viewport, origin, t_min, t_max, spheres@, px, py)
                } else {
                    old(canvas).pixel(px, py)
                },
        decreases half_width - x,
    {
        let mut y: isize = -half_height;
        while y < half_height
            invariant
                canvas.wf(),
                canvas.same_size(old(canvas)),
                half_width == (canvas.spec_width() as int) / 2,
                half_height == (canvas.spec_height() as int) / 2,
                -half_width <= x < half_width,
                -half_height <= y <= half_height,
                forall|px: int, py: int|
                    canvas.contains(px, py) ==> #[trigger] canvas.pixel(px, py) == if in_frame(
                        old(canvas),
                        px,
                        py,
                    ) && (px < x + half_width || (px == x + half_width && py > half_height - 1
                        - (y as int))) {
                        scene_color(old(canvas), viewport, origin, t_min, t_max, spheres@, px, py)
                    } else {
                        old(canvas).pixel(px, py)
                    },
            decreases half_height - y,
        {
            let ghost before = *canvas;
            proof {
                canvas.lemma_wf();
            }
            let d = canvas_to_viewport(canvas, viewport, (x, y));
            let color = trace_ray(origin, d, t_min, t_max, spheres);
            draw_point(canvas, (x, y), color);
            proof {
                let place = point_place(&before, (x as int, y as int));
                assert(frame_point(old(canvas), place.0, place.1) == (x as int, y as int));
                assert forall|px: int, py: int| canvas.contains(px, py) implies #[trigger] canvas.pixel(
                    px,
                    py,
                ) == if in_frame(old(canvas), px, py) && (px < x + half_width || (px == x
                    + half_width && py > half_height - 1 - (y as int + 1))) {
                    scene_color(old(canvas), viewport, origin, t_min, t_max, spheres@, px, py)
                } else {
                    old(canvas).pixel(px, py)
                } by {
                    if (px, py) != place {
                        assert(canvas.pixel(px, py) == before.pixel(px, py));
                    }
                }
            }
            y = y + 1;
        }
        x = x + 1;
    }
}

} // verus!
