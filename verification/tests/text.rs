use gfx::canvas::{Canvas, Color};
use gfx::single::Single;
use gfx::text::{coverage_color, draw_coverage, sample_place, try_draw_coverage};

fn single(x: f32) -> Single {
    Single::from_bits(x.to_bits())
}

fn gray(n: u8) -> Color {
    Color { b: n, g: n, r: n, a: n }
}

#[test]
fn coverage_becomes_a_level_of_gray() {
    assert_eq!(coverage_color(single(0.0)), gray(0));
    assert_eq!(coverage_color(single(1.0)), gray(255));
    assert_eq!(coverage_color(single(0.5)), gray(127));
    assert_eq!(coverage_color(single(0.999_999_94)), gray(254));
    assert_eq!(coverage_color(single(2.0)), gray(255));
    assert_eq!(coverage_color(single(-0.25)), gray(0));
    assert_eq!(coverage_color(single(f32::NAN)), gray(0));
    for i in 0..=4096u32 {
        let v = i as f32 / 4096.0;
        assert_eq!(coverage_color(single(v)), gray((255.0 * v) as u8), "{}", v);
    }
}

#[test]
fn sample_place_adds_corner_and_ascent() {
    assert_eq!(sample_place((10, -12), single(14.3), (3, 5)), (13, 7));
    assert_eq!(sample_place((0, 0), single(0.0), (0, 0)), (0, 0));
    assert_eq!(sample_place((-5, -30), single(14.3), (2, 1)), (0, 0));
    assert_eq!(sample_place((7, 2), single(0.999), (1, 1)), (8, 3));
    let mut state: u64 = 0xa54f_f53a_5f1d_36f1;
    for _ in 0..20_000 {
        let mut next = || {
            state ^= state << 13;
            state ^= state >> 7;
            state ^= state << 17;
            state
        };
        let corner = ((next() % 4000) as i32 - 2000, (next() % 4000) as i32 - 2000);
        let at = ((next() % 64) as u32, (next() % 64) as u32);
        let ascent = (next() % 100_000) as f32 / 1000.0;
        let want = (
            (corner.0 as f32 + at.0 as f32) as usize,
            (ascent + corner.1 as f32 + at.1 as f32) as usize,
        );
        assert_eq!(sample_place(corner, single(ascent), at), want);
    }
    let want = ((i32::MAX as f32 + u32::MAX as f32) as usize, (3.0e38f32 + i32::MIN as f32 + 7.0) as usize);
    assert_eq!(sample_place((i32::MAX, i32::MIN), single(3.0e38), (u32::MAX, 7)), want);
}

#[test]
fn coverage_is_written_at_its_place() {
    let mut canvas = Canvas::new(20, 20).unwrap();
    draw_coverage(&mut canvas, (10, -12), single(14.3), (3, 5), single(0.5));
    assert_eq!(canvas.get((13, 7)), gray(127));
    let lit = canvas.data().iter().filter(|w| **w != 0).count();
    assert_eq!(lit, 1);
    assert!(try_draw_coverage(&mut canvas, (0, 0), single(2.0), (19, 17), single(1.0)));
    assert_eq!(canvas.get((19, 19)), gray(255));
}

#[test]
fn coverage_off_the_canvas_is_not_written() {
    let mut canvas = Canvas::new(20, 20).unwrap();
    let before: Vec<u32> = canvas.data().to_vec();
    assert!(!try_draw_coverage(&mut canvas, (18, 0), single(0.0), (2, 0), single(1.0)));
    assert!(!try_draw_coverage(&mut canvas, (0, 0), single(14.3), (0, 6), single(1.0)));
    assert_eq!(canvas.data(), &before[..]);
}
