use gfx::canvas::{Canvas, Color};
use gfx::line::{draw_line, draw_point, line_is_inside, try_draw_line, white};

const BLACK: Color = Color { b: 0, g: 0, r: 0, a: 0 };
const WHITE: Color = Color { b: 255, g: 255, r: 255, a: 255 };

fn interpolate(i0: isize, d0: isize, i1: isize, d1: isize) -> Vec<isize> {
    if i0 == i1 {
        return vec![d0];
    }
    let mut values = Vec::new();
    let a = (d1 - d0) as f64 / (i1 - i0) as f64;
    let mut d = d0 as f64;
    for _ in i0..=i1 {
        values.push(d as isize);
        d += a;
    }
    values
}

// The pixels of a line, found with the machine's own arithmetic.
fn expected_pixels(p0: (isize, isize), p1: (isize, isize)) -> Vec<(isize, isize)> {
    let (mut x0, mut y0) = p0;
    let (mut x1, mut y1) = p1;
    let mut pixels = Vec::new();
    if (x1 - x0).abs() > (y1 - y0).abs() {
        if x0 > x1 {
            std::mem::swap(&mut x0, &mut x1);
            std::mem::swap(&mut y0, &mut y1);
        }
        for (x, y) in (x0..=x1).zip(interpolate(x0, y0, x1, y1)) {
            pixels.push((x, y));
        }
    } else {
        if y0 > y1 {
            std::mem::swap(&mut x0, &mut x1);
            std::mem::swap(&mut y0, &mut y1);
        }
        for (y, x) in (y0..=y1).zip(interpolate(y0, x0, y1, x1)) {
            pixels.push((x, y));
        }
    }
    pixels
}

fn lit(canvas: &Canvas) -> Vec<(isize, isize)> {
    let mut pixels = Vec::new();
    for y in 0..canvas.height() {
        for x in 0..canvas.width() {
            let c = canvas.get((x, y));
            if c == WHITE {
                pixels.push((x as isize, y as isize));
            } else {
                assert_eq!(c, BLACK);
            }
        }
    }
    pixels.sort();
    pixels
}

fn sorted(mut pixels: Vec<(isize, isize)>) -> Vec<(isize, isize)> {
    pixels.sort();
    pixels.dedup();
    pixels
}

#[test]
fn white_is_opaque_white() {
    assert_eq!(white(), WHITE);
}

#[test]
fn draw_point_centers_and_flips() {
    let mut canvas = Canvas::new(8, 6).unwrap();
    let red = Color { b: 0, g: 0, r: 255, a: 255 };
    draw_point(&mut canvas, (0, 0), red);
    assert_eq!(canvas.get((4, 2)), red);
    draw_point(&mut canvas, (-4, 2), red);
    assert_eq!(canvas.get((0, 0)), red);
    draw_point(&mut canvas, (3, -3), red);
    assert_eq!(canvas.get((7, 5)), red);
    let mut count = 0;
    for y in 0..6 {
        for x in 0..8 {
            if canvas.get((x, y)) == red {
                count += 1;
            }
        }
    }
    assert_eq!(count, 3);
}

#[test]
fn degenerate_line_is_one_pixel() {
    for p in [(0isize, 0isize), (3, 4), (15, 11), (7, 0)] {
        let mut canvas = Canvas::new(16, 12).unwrap();
        draw_line(&mut canvas, p, p);
        assert_eq!(lit(&canvas), vec![p]);
    }
}

#[test]
fn line_is_the_same_from_either_end() {
    let ends = [((0isize, 0isize), (15isize, 11isize)), ((2, 9), (13, 1)), ((5, 0), (5, 11)), ((0, 7), (15, 7)), ((1, 1), (11, 11)), ((14, 2), (3, 10)), ((0, 0), (10, 1)), ((0, 0), (3, 10))];
    for (p0, p1) in ends {
        let mut forward = Canvas::new(16, 12).unwrap();
        let mut backward = Canvas::new(16, 12).unwrap();
        draw_line(&mut forward, p0, p1);
        draw_line(&mut backward, p1, p0);
        assert_eq!(lit(&forward), lit(&backward));
        assert_eq!(forward.data(), backward.data());
    }
}

#[test]
fn diagonal_line_walks_along_y() {
    let mut canvas = Canvas::new(8, 8).unwrap();
    draw_line(&mut canvas, (6, 1), (1, 6));
    assert_eq!(lit(&canvas), sorted(vec![(6, 1), (5, 2), (4, 3), (3, 4), (2, 5), (1, 6)]));
}

#[test]
fn shallow_line_has_one_pixel_per_column() {
    let mut canvas = Canvas::new(12, 4).unwrap();
    draw_line(&mut canvas, (0, 0), (10, 1));
    // the accumulated tenth stays below one at the last column
    let want: Vec<(isize, isize)> = (0..=10).map(|x| (x, 0)).collect();
    assert_eq!(lit(&canvas), sorted(want));
    let mut canvas = Canvas::new(12, 4).unwrap();
    draw_line(&mut canvas, (0, 0), (4, 2));
    assert_eq!(lit(&canvas), sorted(vec![(0, 0), (1, 0), (2, 1), (3, 1), (4, 2)]));
}

#[test]
fn lines_match_the_machine_arithmetic() {
    let (w, h) = (61isize, 47isize);
    let mut state: u64 = 0x853c_49e6_748f_ea9b;
    for _ in 0..3000 {
        let mut next = || {
            state ^= state << 13;
            state ^= state >> 7;
            state ^= state << 17;
            state
        };
        let p0 = ((next() % w as u64) as isize, (next() % h as u64) as isize);
        let p1 = ((next() % w as u64) as isize, (next() % h as u64) as isize);
        let mut canvas = Canvas::new(w as usize, h as usize).unwrap();
        assert!(line_is_inside(&canvas, p0, p1));
        draw_line(&mut canvas, p0, p1);
        assert_eq!(lit(&canvas), sorted(expected_pixels(p0, p1)), "{:?} to {:?}", p0, p1);
    }
}

#[test]
fn long_lines_match_the_machine_arithmetic() {
    let mut state: u64 = 0xda94_2042_e4dd_58b5;
    for _ in 0..40 {
        let mut next = || {
            state ^= state << 13;
            state ^= state >> 7;
            state ^= state << 17;
            state
        };
        let (w, h) = (1280isize, 720isize);
        let p0 = ((next() % w as u64) as isize, (next() % h as u64) as isize);
        let p1 = ((next() % w as u64) as isize, (next() % h as u64) as isize);
        let mut canvas = Canvas::new(w as usize, h as usize).unwrap();
        assert!(try_draw_line(&mut canvas, p0, p1));
        for (x, y) in expected_pixels(p0, p1) {
            assert_eq!(canvas.get((x as usize, y as usize)), WHITE);
        }
        let lit_count = canvas.data().iter().filter(|w| **w != 0).count();
        assert_eq!(lit_count, sorted(expected_pixels(p0, p1)).len());
    }
}

#[test]
fn line_leaving_the_canvas_is_not_drawn() {
    let mut canvas = Canvas::new(10, 10).unwrap();
    canvas.set((1, 1), WHITE);
    let before: Vec<u32> = canvas.data().to_vec();
    for (p0, p1) in [((0isize, 0isize), (10isize, 3isize)), ((-1, 5), (5, 5)), ((3, 3), (3, 10)), ((4, -2), (4, 2)), ((20, 20), (20, 20)), ((isize::MIN, 0), (isize::MAX, 0))] {
        assert!(!line_is_inside(&canvas, p0, p1));
        assert!(!try_draw_line(&mut canvas, p0, p1));
        assert_eq!(canvas.data(), &before[..]);
    }
    assert!(line_is_inside(&canvas, (0, 0), (9, 9)));
    assert!(try_draw_line(&mut canvas, (0, 0), (9, 9)));
    assert_eq!(lit(&canvas).len(), 10);
}
