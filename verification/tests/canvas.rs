use gfx::canvas::{clamp, set_intensity, AllocationError, Canvas, Color, BYTES_PER_PIXEL};
use gfx::math::Num;

fn num(x: f64) -> Num {
    Num::from_bits(x.to_bits())
}

fn rgba(r: u8, g: u8, b: u8, a: u8) -> Color {
    Color { b, g, r, a }
}

#[test]
fn new_canvas_is_zeroed() {
    let canvas = Canvas::new(7, 5).unwrap();
    assert_eq!(canvas.width(), 7);
    assert_eq!(canvas.height(), 5);
    assert_eq!(canvas.data().len(), 35);
    for y in 0..5 {
        for x in 0..7 {
            assert_eq!(canvas.get((x, y)), rgba(0, 0, 0, 0));
        }
    }
    assert!(canvas.data().iter().all(|w| *w == 0));
}

#[test]
fn new_canvas_rejects_zero_dimensions() {
    assert_eq!(Canvas::new(0, 5).unwrap_err(), AllocationError::ZeroSized);
    assert_eq!(Canvas::new(5, 0).err(), Some(AllocationError::ZeroSized));
    assert_eq!(Canvas::new(0, 0).err(), Some(AllocationError::ZeroSized));
}

#[test]
fn new_canvas_rejects_sizes_beyond_one_allocation() {
    assert_eq!(Canvas::new(usize::MAX, 2).err(), Some(AllocationError::TooLarge));
    assert_eq!(Canvas::new(2, usize::MAX).err(), Some(AllocationError::TooLarge));
    assert_eq!(Canvas::new(usize::MAX, usize::MAX).err(), Some(AllocationError::TooLarge));
    let limit = isize::MAX as usize / BYTES_PER_PIXEL;
    assert_eq!(Canvas::new(limit + 1, 1).err(), Some(AllocationError::TooLarge));
    assert_eq!(Canvas::new(limit / 2 + 1, 2).err(), Some(AllocationError::TooLarge));
}

#[test]
fn set_then_get_returns_the_color() {
    let mut canvas = Canvas::new(4, 3).unwrap();
    for y in 0..3usize {
        for x in 0..4usize {
            let c = rgba((x * 10) as u8, (y * 20) as u8, (x + y) as u8, 200 + x as u8);
            canvas.set((x, y), c);
            assert_eq!(canvas.get((x, y)), c);
        }
    }
    for y in 0..3usize {
        for x in 0..4usize {
            let c = rgba((x * 10) as u8, (y * 20) as u8, (x + y) as u8, 200 + x as u8);
            assert_eq!(canvas.get((x, y)), c);
        }
    }
}

#[test]
fn set_writes_one_word_in_row_major_order() {
    let mut canvas = Canvas::new(4, 3).unwrap();
    canvas.set((1, 2), rgba(0x11, 0x22, 0x33, 0x44));
    let words = canvas.data();
    for (i, w) in words.iter().enumerate() {
        if i == 1 + 4 * 2 {
            assert_eq!(*w, 0x4411_2233);
        } else {
            assert_eq!(*w, 0);
        }
    }
}

#[test]
fn word_has_bytes_blue_green_red_alpha() {
    let c = rgba(0xaa, 0xbb, 0xcc, 0xdd);
    assert_eq!(c.to_word(), 0xddaa_bbcc);
    assert_eq!(c.to_word().to_le_bytes(), [0xcc, 0xbb, 0xaa, 0xdd]);
    assert_eq!(Color::from_word(0xddaa_bbcc), c);
    assert_eq!(Color::from_word(0), rgba(0, 0, 0, 0));
    assert_eq!(Color::from_word(u32::MAX), rgba(255, 255, 255, 255));
    for w in [1u32, 0x100, 0x1_0000, 0x100_0000, 0x1234_5678, 0xfedc_ba98] {
        assert_eq!(Color::from_word(w).to_word(), w);
    }
}

#[test]
fn fill_writes_every_pixel() {
    let mut canvas = Canvas::new(5, 4).unwrap();
    canvas.set((2, 2), rgba(9, 9, 9, 9));
    canvas.fill(rgba(0, 0, 0, 255));
    for y in 0..4 {
        for x in 0..5 {
            assert_eq!(canvas.get((x, y)), rgba(0, 0, 0, 255));
        }
    }
}

#[test]
fn clamp_holds_to_the_range() {
    assert_eq!(clamp(num(0.5), num(0.0), num(1.0)).to_bits(), 0.5f64.to_bits());
    assert_eq!(clamp(num(-3.0), num(0.0), num(1.0)).to_bits(), 0.0f64.to_bits());
    assert_eq!(clamp(num(7.0), num(0.0), num(1.0)).to_bits(), 1.0f64.to_bits());
    assert_eq!(clamp(num(f64::INFINITY), num(0.0), num(1.0)).to_bits(), 1.0f64.to_bits());
    assert!(clamp(num(f64::NAN), num(0.0), num(1.0)).is_nan());
}

#[test]
fn set_intensity_scales_and_truncates() {
    let c = rgba(200, 100, 51, 77);
    assert_eq!(set_intensity(c, num(0.5)), rgba(100, 50, 25, 77));
    assert_eq!(set_intensity(c, num(1.0)), c);
    assert_eq!(set_intensity(c, num(0.0)), rgba(0, 0, 0, 77));
    assert_eq!(set_intensity(c, num(2.5)), c);
    assert_eq!(set_intensity(c, num(-1.0)), rgba(0, 0, 0, 77));
    assert_eq!(set_intensity(c, num(f64::NAN)), rgba(0, 0, 0, 77));
    assert_eq!(set_intensity(rgba(255, 255, 255, 255), num(0.999)), rgba(254, 254, 254, 255));
    assert_eq!(set_intensity(rgba(3, 3, 3, 0), num(1.0 / 3.0)), rgba(1, 1, 1, 0));
}

#[test]
fn set_intensity_agrees_with_the_rounded_product() {
    let mut state: u64 = 0x2545_f491_4f6c_dd1d;
    for _ in 0..20_000 {
        state ^= state << 13;
        state ^= state >> 7;
        state ^= state << 17;
        let i = match state % 3 {
            0 => f64::from_bits(state),
            1 => (state >> 11) as f64 / (1u64 << 53) as f64,
            _ => ((state >> 40) % 300) as f64 / 255.0,
        };
        let c = rgba((state >> 8) as u8, (state >> 16) as u8, (state >> 24) as u8, (state >> 32) as u8);
        let f = if i < 0.0 {
            0.0
        } else if i > 1.0 {
            1.0
        } else {
            i
        };
        let want = rgba((c.r as f64 * f) as u8, (c.g as f64 * f) as u8, (c.b as f64 * f) as u8, c.a);
        assert_eq!(set_intensity(c, num(i)), want, "{:?} at {:e}", c, i);
    }
}
