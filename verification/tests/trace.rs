use gfx::canvas::{Canvas, Color};
use gfx::math::Num;
use gfx::trace::{background, canvas_to_viewport, in_range, intersect_ray_sphere, trace_ray, trace_scene, Sphere, Viewport};
use gfx::vector::{dot, V3};

fn num(x: f64) -> Num {
    Num::from_bits(x.to_bits())
}

fn val(n: Num) -> f64 {
    f64::from_bits(n.to_bits())
}

fn v3(x: f64, y: f64, z: f64) -> V3 {
    V3::from_array([num(x), num(y), num(z)])
}

fn ball(center: (f64, f64, f64), radius: f64, color: Color) -> Sphere {
    Sphere { center: v3(center.0, center.1, center.2), radius: num(radius), color }
}

const RED: Color = Color { b: 0, g: 0, r: 255, a: 255 };
const GREEN: Color = Color { b: 0, g: 255, r: 0, a: 255 };
const WHITE: Color = Color { b: 255, g: 255, r: 255, a: 255 };
const BLACK: Color = Color { b: 0, g: 0, r: 0, a: 255 };

fn same(got: Num, want: f64) -> bool {
    if want.is_nan() {
        got.is_nan()
    } else {
        got.to_bits() == want.to_bits()
    }
}

// The roots found with the machine's own arithmetic.
fn expected_roots(o: [f64; 3], d: [f64; 3], c: [f64; 3], r: f64) -> [f64; 2] {
    let dot3 = |a: [f64; 3], b: [f64; 3]| a[0] * b[0] + a[1] * b[1] + a[2] * b[2];
    let oc = [o[0] + (-c[0]), o[1] + (-c[1]), o[2] + (-c[2])];
    let a = dot3(d, d);
    let b = 2.0 * dot3(oc, d);
    let cc = dot3(oc, oc) - r * r;
    let disc = b * b - 4.0 * a * cc;
    if disc < 0.0 {
        [f64::INFINITY; 2]
    } else {
        [(-b + disc.sqrt()) / (2.0 * a), (-b - disc.sqrt()) / (2.0 * a)]
    }
}

fn expected_color(o: [f64; 3], d: [f64; 3], t_min: f64, t_max: f64, spheres: &[([f64; 3], f64, Color)]) -> Color {
    let mut closest: Option<(Color, f64)> = None;
    for (c, r, color) in spheres {
        for t in expected_roots(o, d, *c, *r) {
            let bound = closest.map_or(f64::INFINITY, |(_, t)| t);
            if (t_min..t_max).contains(&t) && t < bound {
                closest = Some((*color, t));
            }
        }
    }
    closest.map_or(BLACK, |(c, _)| c)
}

#[test]
fn vector_operations() {
    let a = v3(1.0, 2.0, 3.0);
    let b = v3(0.5, -4.0, 10.0);
    let s = a.add(b);
    assert_eq!((val(s.x), val(s.y), val(s.z)), (1.5, -2.0, 13.0));
    let d = a.sub(b);
    assert_eq!((val(d.x), val(d.y), val(d.z)), (0.5, 6.0, -7.0));
    let n = a.neg();
    assert_eq!((val(n.x), val(n.y), val(n.z)), (-1.0, -2.0, -3.0));
    let k = a.scaled(num(2.5));
    assert_eq!((val(k.x), val(k.y), val(k.z)), (2.5, 5.0, 7.5));
    assert_eq!(val(dot(a, b)), 0.5 - 8.0 + 30.0);
    let z = v3(0.0, 0.0, 0.0).neg();
    assert_eq!(z.x.to_bits(), (-0.0f64).to_bits());
}

#[test]
fn ray_through_the_center_has_roots_four_and_six() {
    let s = ball((0.0, 0.0, 5.0), 1.0, RED);
    let roots = intersect_ray_sphere(v3(0.0, 0.0, 0.0), v3(0.0, 0.0, 1.0), &s);
    assert_eq!(val(roots[0]), 6.0);
    assert_eq!(val(roots[1]), 4.0);
    // a direction twice as long meets the sphere at half the parameter
    let roots = intersect_ray_sphere(v3(0.0, 0.0, 0.0), v3(0.0, 0.0, 2.0), &s);
    assert_eq!(val(roots[0]), 3.0);
    assert_eq!(val(roots[1]), 2.0);
}

#[test]
fn tangent_ray_has_two_equal_roots() {
    let s = ball((1.0, 0.0, 5.0), 1.0, RED);
    let roots = intersect_ray_sphere(v3(0.0, 0.0, 0.0), v3(0.0, 0.0, 1.0), &s);
    assert_eq!(val(roots[0]), 5.0);
    assert_eq!(val(roots[1]), 5.0);
}

#[test]
fn ray_that_misses_has_infinite_roots() {
    let s = ball((0.0, 0.0, 5.0), 1.0, RED);
    for d in [(1.0, 0.0, 0.0), (0.0, 1.0, 0.0), (1.0, 1.0, 1.0), (0.3, 0.0, 1.0)] {
        let roots = intersect_ray_sphere(v3(0.0, 0.0, 0.0), v3(d.0, d.1, d.2), &s);
        assert_eq!(roots[0].to_bits(), f64::INFINITY.to_bits());
        assert_eq!(roots[1].to_bits(), f64::INFINITY.to_bits());
    }
}

#[test]
fn roots_match_the_machine_arithmetic() {
    let mut state: u64 = 0x6a09_e667_f3bc_c908;
    for _ in 0..20_000 {
        let mut next = || {
            state ^= state << 13;
            state ^= state >> 7;
            state ^= state << 17;
            (state % 20_001) as f64 / 1000.0 - 10.0
        };
        let o = [next(), next(), next()];
        let d = [next(), next(), next()];
        let c = [next(), next(), next()];
        let r = next().abs();
        let s = ball((c[0], c[1], c[2]), r, RED);
        let got = intersect_ray_sphere(v3(o[0], o[1], o[2]), v3(d[0], d[1], d[2]), &s);
        let want = expected_roots(o, d, c, r);
        assert!(same(got[0], want[0]) && same(got[1], want[1]), "{:?} {:?} {:?} {}", o, d, c, r);
    }
}

#[test]
fn range_keeps_its_start_and_leaves_its_end() {
    assert!(in_range(num(1.0), num(1.0), num(2.0)));
    assert!(in_range(num(1.5), num(1.0), num(2.0)));
    assert!(!in_range(num(2.0), num(1.0), num(2.0)));
    assert!(!in_range(num(0.5), num(1.0), num(2.0)));
    assert!(!in_range(num(f64::INFINITY), num(1.0), num(f64::INFINITY)));
    assert!(!in_range(num(f64::NAN), num(1.0), num(f64::INFINITY)));
    assert!(in_range(num(1e300), num(1.0), num(f64::INFINITY)));
}

#[test]
fn empty_scene_is_background() {
    assert_eq!(background(), BLACK);
    let none: Vec<Sphere> = Vec::new();
    for d in [(0.0, 0.0, 1.0), (1.0, 2.0, 3.0), (-0.5, 0.25, 1.0)] {
        let c = trace_ray(v3(0.0, 0.0, 0.0), v3(d.0, d.1, d.2), num(1.0), num(f64::INFINITY), &none);
        assert_eq!(c, BLACK);
    }
    let mut canvas = Canvas::new(6, 4).unwrap();
    canvas.fill(WHITE);
    trace_scene(&mut canvas, Viewport::standard(), v3(0.0, 0.0, 0.0), num(1.0), num(f64::INFINITY), &none);
    for y in 0..4 {
        for x in 0..6 {
            assert_eq!(canvas.get((x, y)), BLACK);
        }
    }
}

#[test]
fn nearest_sphere_wins() {
    let o = v3(0.0, 0.0, 0.0);
    let d = v3(0.0, 0.0, 1.0);
    let near = ball((0.0, 0.0, 3.0), 1.0, RED);
    let far = ball((0.0, 0.0, 8.0), 1.0, GREEN);
    assert_eq!(trace_ray(o, d, num(1.0), num(f64::INFINITY), &[near, far]), RED);
    assert_eq!(trace_ray(o, d, num(1.0), num(f64::INFINITY), &[far, near]), RED);
    // a range that starts behind the near sphere leaves only the far one
    assert_eq!(trace_ray(o, d, num(5.0), num(f64::INFINITY), &[near, far]), GREEN);
    // the far root of the near sphere is still in a range that starts inside it
    assert_eq!(trace_ray(o, d, num(3.0), num(f64::INFINITY), &[near, far]), RED);
    // and a range that ends before both leaves nothing
    assert_eq!(trace_ray(o, d, num(0.0), num(2.0), &[near, far]), BLACK);
    assert_eq!(trace_ray(o, d, num(0.0), num(2.0 + 1e-9), &[near, far]), RED);
}

#[test]
fn equal_distance_goes_to_the_first_sphere() {
    let o = v3(0.0, 0.0, 0.0);
    let d = v3(0.0, 0.0, 1.0);
    let a = ball((0.0, 0.0, 5.0), 1.0, RED);
    let b = ball((0.0, 0.0, 5.0), 1.0, GREEN);
    assert_eq!(trace_ray(o, d, num(1.0), num(f64::INFINITY), &[a, b]), RED);
    assert_eq!(trace_ray(o, d, num(1.0), num(f64::INFINITY), &[b, a]), GREEN);
    // different spheres, same nearest root
    let c = ball((0.0, 0.0, 6.0), 2.0, WHITE);
    assert_eq!(trace_ray(o, d, num(1.0), num(f64::INFINITY), &[a, c]), RED);
    assert_eq!(trace_ray(o, d, num(1.0), num(f64::INFINITY), &[c, a]), WHITE);
}

#[test]
fn standard_viewport_is_sixteen_ninths_by_one() {
    let v = Viewport::standard();
    assert_eq!(val(v.width), 16.0 / 9.0);
    assert_eq!(val(v.height), 1.0);
    assert_eq!(val(v.distance), 1.0);
}

#[test]
fn viewport_direction_scales_the_point() {
    let canvas = Canvas::new(1280, 720).unwrap();
    let d = canvas_to_viewport(&canvas, Viewport::standard(), (320, -180));
    assert_eq!(val(d.x), 320.0 / 1280.0 * (16.0 / 9.0));
    assert_eq!(val(d.y), -180.0 / 720.0 * 1.0);
    assert_eq!(val(d.z), 1.0);
    let d = canvas_to_viewport(&canvas, Viewport::standard(), (0, 0));
    assert_eq!((val(d.x), val(d.y), val(d.z)), (0.0, 0.0, 1.0));
}

#[test]
fn sphere_filling_the_view_colors_every_pixel() {
    let mut canvas = Canvas::new(4, 4).unwrap();
    let s = ball((0.0, 0.0, 3.0), 2.5, GREEN);
    trace_scene(&mut canvas, Viewport::standard(), v3(0.0, 0.0, 0.0), num(0.0), num(f64::INFINITY), &[s]);
    for y in 0..4 {
        for x in 0..4 {
            assert_eq!(canvas.get((x, y)), GREEN, "({}, {})", x, y);
        }
    }
}

#[test]
fn odd_canvas_keeps_its_last_column_and_row() {
    let mut canvas = Canvas::new(5, 3).unwrap();
    canvas.fill(WHITE);
    let none: Vec<Sphere> = Vec::new();
    trace_scene(&mut canvas, Viewport::standard(), v3(0.0, 0.0, 0.0), num(1.0), num(f64::INFINITY), &none);
    for y in 0..3 {
        for x in 0..5 {
            let want = if x < 4 && y < 2 { BLACK } else { WHITE };
            assert_eq!(canvas.get((x, y)), want, "({}, {})", x, y);
        }
    }
}

#[test]
fn scene_matches_the_machine_arithmetic() {
    let (w, h) = (64usize, 36usize);
    let mut seen_white = false;
    let mut seen_red = false;
    let mut seen_black = false;
    for z in [10.0f64, 6.5, 3.0, 2.2] {
        let scene = [([0.0, 0.0, 2.0], 0.5, WHITE), ([0.0, 1.0, z], 2.0, RED)];
        let spheres: Vec<Sphere> = scene.iter().map(|(c, r, col)| ball((c[0], c[1], c[2]), *r, *col)).collect();
        let mut canvas = Canvas::new(w, h).unwrap();
        trace_scene(&mut canvas, Viewport::standard(), v3(0.0, 0.0, 0.0), num(1.0), num(f64::INFINITY), &spheres);
        for x in -(w as isize) / 2..(w as isize) / 2 {
            for y in -(h as isize) / 2..(h as isize) / 2 {
                let d = [x as f64 / w as f64 * (16.0 / 9.0), y as f64 / h as f64 * 1.0, 1.0];
                let want = expected_color([0.0; 3], d, 1.0, f64::INFINITY, &scene);
                let px = (x + w as isize / 2) as usize;
                let py = (-(y + 1) + h as isize / 2) as usize;
                assert_eq!(canvas.get((px, py)), want, "({}, {})", x, y);
                seen_white |= want == WHITE;
                seen_red |= want == RED;
                seen_black |= want == BLACK;
            }
        }
    }
    assert!(seen_white && seen_red && seen_black);
}
