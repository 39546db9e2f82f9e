use gfx::canvas::{Canvas, Color};
use gfx::graph::{draw_frame_time_graph, graph_is_inside, graph_points, try_draw_frame_time_graph, FrameHistory, Interval, HISTORY_CAPACITY, MARGIN};
use gfx::math::Num;

const WHITE: Color = Color { b: 255, g: 255, r: 255, a: 255 };

fn num(x: f64) -> Num {
    Num::from_bits(x.to_bits())
}

fn val(n: Num) -> f64 {
    f64::from_bits(n.to_bits())
}

fn span(start: f64, end: f64) -> Interval {
    Interval { start: num(start), end: num(end) }
}

fn history_of(samples: &[f64]) -> FrameHistory {
    let mut h = FrameHistory::new();
    for s in samples {
        h.push(num(*s));
    }
    h
}

fn expected_map(x: f64, from: (f64, f64), to: (f64, f64)) -> f64 {
    to.0 + (x - from.0) * ((to.1 - to.0) / (from.1 - from.0))
}

// The vertices found with the machine's own arithmetic.
fn expected_points(origin: (usize, usize), size: (usize, usize), samples: &[f64]) -> Vec<(isize, isize)> {
    let ms: Vec<f64> = samples.iter().map(|x| x * 1000.0).collect();
    let least = ms.iter().cloned().fold(f64::MAX, f64::min);
    let greatest = ms.iter().cloned().fold(f64::MIN, f64::max);
    let min_x = (origin.0 + MARGIN) as f64;
    let max_x = (origin.0 + size.0 - MARGIN) as f64;
    let min_y = (origin.1 + MARGIN) as f64;
    let max_y = (origin.1 + size.1 - MARGIN) as f64;
    samples
        .iter()
        .rev()
        .enumerate()
        .map(|(i, s)| {
            (
                expected_map(i as f64, (0.0, (HISTORY_CAPACITY - 1) as f64), (max_x, min_x)) as isize,
                expected_map(s * 1000.0, (least, greatest), (max_y, min_y)) as isize,
            )
        })
        .collect()
}

fn interpolate(i0: isize, d0: isize, i1: isize, d1: isize) -> Vec<isize> {
    if i0 == i1 {
        return vec![d0];
    }
    let mut values = Vec::new();
    let a = (d1 - d0) as f64 / (i1 - i0) as f64;
    let mut d = d0 as f64;
    for _ in i0..=i1 {
        values.push(d as isize);
        d += a;
    }
    values
}

fn expected_line(p0: (isize, isize), p1: (isize, isize)) -> Vec<(isize, isize)> {
    let (mut x0, mut y0) = p0;
    let (mut x1, mut y1) = p1;
    let mut pixels = Vec::new();
    if (x1 - x0).abs() > (y1 - y0).abs() {
        if x0 > x1 {
            std::mem::swap(&mut x0, &mut x1);
            std::mem::swap(&mut y0, &mut y1);
        }
        for (x, y) in (x0..=x1).zip(interpolate(x0, y0, x1, y1)) {
            pixels.push((x, y));
        }
    } else {
        if y0 > y1 {
            std::mem::swap(&mut x0, &mut x1);
            std::mem::swap(&mut y0, &mut y1);
        }
        for (y, x) in (y0..=y1).zip(interpolate(y0, x0, y1, x1)) {
            pixels.push((x, y));
        }
    }
    pixels
}

fn border(origin: (usize, usize), size: (usize, usize)) -> Vec<(isize, isize)> {
    let (l, t) = (origin.0 as isize, origin.1 as isize);
    let (r, b) = ((origin.0 + size.0) as isize, (origin.1 + size.1) as isize);
    let mut pixels = Vec::new();
    pixels.extend(expected_line((l, t), (r, t)));
    pixels.extend(expected_line((l, b), (r, b)));
    pixels.extend(expected_line((l, t), (l, b)));
    pixels.extend(expected_line((r, t), (r, b)));
    pixels
}

fn sorted(mut pixels: Vec<(isize, isize)>) -> Vec<(isize, isize)> {
    pixels.sort();
    pixels.dedup();
    pixels
}

fn lit(canvas: &Canvas) -> Vec<(isize, isize)> {
    let mut pixels = Vec::new();
    for y in 0..canvas.height() {
        for x in 0..canvas.width() {
            if canvas.get((x, y)) == WHITE {
                pixels.push((x as isize, y as isize));
            }
        }
    }
    pixels.sort();
    pixels
}

#[test]
fn map_carries_a_value_between_ranges() {
    assert_eq!(val(gfx::graph::map(num(5.0), span(0.0, 10.0), span(0.0, 100.0))), 50.0);
    assert_eq!(val(gfx::graph::map(num(0.0), span(0.0, 10.0), span(0.0, 100.0))), 0.0);
    assert_eq!(val(gfx::graph::map(num(10.0), span(0.0, 10.0), span(0.0, 100.0))), 100.0);
    assert_eq!(val(gfx::graph::map(num(2.5), span(0.0, 10.0), span(100.0, 0.0))), 75.0);
    assert_eq!(val(gfx::graph::map(num(-1.0), span(-1.0, 1.0), span(10.0, 20.0))), 10.0);
    assert_eq!(val(gfx::graph::map(num(3.0), span(1.0, 2.0), span(0.0, 1.0))), 2.0);
}

#[test]
fn map_of_an_empty_range_is_not_a_number() {
    assert!(gfx::graph::map(num(1.0), span(1.0, 1.0), span(0.0, 100.0)).is_nan());
    assert_eq!(val(gfx::graph::map(num(2.0), span(1.0, 1.0), span(0.0, 100.0))), f64::INFINITY);
}

#[test]
fn map_matches_the_machine_arithmetic() {
    let mut state: u64 = 0xbb67_ae85_84ca_a73b;
    for _ in 0..20_000 {
        let mut next = || {
            state ^= state << 13;
            state ^= state >> 7;
            state ^= state << 17;
            (state % 2_000_001) as f64 / 977.0 - 1000.0
        };
        let (x, a, b, c, d) = (next(), next(), next(), next(), next());
        let got = gfx::graph::map(num(x), span(a, b), span(c, d));
        let want = expected_map(x, (a, b), (c, d));
        assert!(got.to_bits() == want.to_bits() || (got.is_nan() && want.is_nan()));
    }
}

#[test]
fn history_keeps_the_newest_five_hundred() {
    let mut h = FrameHistory::new();
    assert_eq!(h.len(), 0);
    for i in 0..HISTORY_CAPACITY {
        h.push(num(i as f64));
        assert_eq!(h.len(), i + 1);
    }
    assert_eq!(val(h.get(0)), 0.0);
    assert_eq!(val(h.get(499)), 499.0);
    h.push(num(500.0));
    assert_eq!(h.len(), HISTORY_CAPACITY);
    assert_eq!(val(h.get(0)), 1.0);
    assert_eq!(val(h.get(499)), 500.0);
    for i in 0..1000 {
        h.push(num(1000.0 + i as f64));
    }
    assert_eq!(h.len(), HISTORY_CAPACITY);
    assert_eq!(val(h.get(0)), 1500.0);
    assert_eq!(val(h.get(499)), 1999.0);
}

#[test]
fn empty_history_draws_only_the_border() {
    let mut canvas = Canvas::new(120, 90).unwrap();
    let h = FrameHistory::new();
    assert!(graph_is_inside(&canvas, (5, 7), (100, 60), &h));
    draw_frame_time_graph(&mut canvas, (5, 7), (100, 60), &h);
    assert_eq!(lit(&canvas), sorted(border((5, 7), (100, 60))));
    assert_eq!(lit(&canvas).len(), 2 * 101 + 2 * 61 - 4);
}

#[test]
fn one_sample_draws_only_the_border() {
    let mut canvas = Canvas::new(120, 90).unwrap();
    let h = history_of(&[0.016]);
    assert_eq!(graph_points((5, 7), (100, 60), &h).len(), 1);
    assert!(try_draw_frame_time_graph(&mut canvas, (5, 7), (100, 60), &h));
    assert_eq!(lit(&canvas), sorted(border((5, 7), (100, 60))));
}

#[test]
fn two_samples_draw_one_segment() {
    let mut canvas = Canvas::new(400, 300).unwrap();
    let samples = [0.010, 0.020];
    let h = history_of(&samples);
    let points = graph_points((0, 50), (300, 200), &h);
    assert_eq!(points, expected_points((0, 50), (300, 200), &samples));
    assert_eq!(points, vec![(290, 60), (289, 240)]);
    draw_frame_time_graph(&mut canvas, (0, 50), (300, 200), &h);
    let mut want = border((0, 50), (300, 200));
    want.extend(expected_line(points[0], points[1]));
    assert_eq!(lit(&canvas), sorted(want));
    let segment = sorted(expected_line(points[0], points[1]));
    assert_eq!(segment.len(), 181);
    assert_eq!(lit(&canvas).len(), sorted(border((0, 50), (300, 200))).len() + segment.len());
}

#[test]
fn equal_samples_are_plotted_at_the_top_row() {
    // with no spread in the durations the vertical place is not a number,
    // and is cut off to zero
    let samples = [0.016, 0.016, 0.016];
    let h = history_of(&samples);
    let points = graph_points((0, 50), (300, 200), &h);
    assert_eq!(points, expected_points((0, 50), (300, 200), &samples));
    assert_eq!(points, vec![(290, 0), (289, 0), (288, 0)]);
    let mut canvas = Canvas::new(400, 300).unwrap();
    assert!(try_draw_frame_time_graph(&mut canvas, (0, 50), (300, 200), &h));
    assert_eq!(canvas.get((290, 0)), WHITE);
    assert_eq!(canvas.get((288, 0)), WHITE);
}

#[test]
fn graph_matches_the_machine_arithmetic() {
    let mut state: u64 = 0x3c6e_f372_fe94_f82b;
    for round in 0..12 {
        let count = [2usize, 3, 17, 100, 499, 500, 501, 640, 5, 9, 250, 333][round];
        let mut samples: Vec<f64> = Vec::new();
        for _ in 0..count {
            state ^= state << 13;
            state ^= state >> 7;
            state ^= state << 17;
            samples.push(0.001 + (state % 40_000) as f64 / 1_000_000.0);
        }
        let h = history_of(&samples);
        let kept = &samples[samples.len().saturating_sub(HISTORY_CAPACITY)..];
        let origin = (3 * round, 50 + round);
        let size = (300, 200);
        let points = graph_points(origin, size, &h);
        assert_eq!(points, expected_points(origin, size, kept));
        let mut canvas = Canvas::new(400, 300).unwrap();
        assert!(try_draw_frame_time_graph(&mut canvas, origin, size, &h));
        let mut want = border(origin, size);
        for pair in points.windows(2) {
            want.extend(expected_line(pair[0], pair[1]));
        }
        assert_eq!(lit(&canvas), sorted(want));
    }
}

#[test]
fn graph_leaving_the_canvas_is_not_drawn() {
    let mut canvas = Canvas::new(100, 100).unwrap();
    canvas.set((3, 3), WHITE);
    let before: Vec<u32> = canvas.data().to_vec();
    let h = history_of(&[0.010, 0.020, 0.015]);
    // too wide, too high, too small for the margin, and beyond any coordinate
    for (origin, size) in [((0usize, 0usize), (100usize, 50usize)), ((0, 0), (50, 100)), ((60, 0), (40, 40)), ((0, 0), (5, 50)), ((0, 0), (50, 5)), ((usize::MAX, 0), (usize::MAX, 10)), ((0, 0), (usize::MAX, 20))] {
        assert!(!graph_is_inside(&canvas, origin, size, &h));
        assert!(!try_draw_frame_time_graph(&mut canvas, origin, size, &h));
        assert_eq!(canvas.data(), &before[..]);
    }
    // durations so close that the scale between the ranges is infinite
    // send a vertex off the canvas
    let odd = history_of(&[0.0, 5e-324]);
    assert!(!try_draw_frame_time_graph(&mut canvas, (0, 0), (50, 50), &odd));
    assert_eq!(canvas.data(), &before[..]);
    assert!(try_draw_frame_time_graph(&mut canvas, (0, 0), (50, 50), &h));
}
