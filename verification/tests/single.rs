use gfx::single::Single;

fn single(x: f32) -> Single {
    Single::from_bits(x.to_bits())
}

fn same(got: Single, want: f32) -> bool {
    if want.is_nan() {
        got.is_nan()
    } else {
        got.to_bits() == want.to_bits()
    }
}

struct Sampler {
    state: u64,
}

impl Sampler {
    fn next(&mut self) -> u64 {
        self.state ^= self.state << 13;
        self.state ^= self.state >> 7;
        self.state ^= self.state << 17;
        self.state
    }

    fn value(&mut self) -> f32 {
        let a = self.next();
        match a % 3 {
            0 => f32::from_bits((a >> 32) as u32),
            1 => ((a >> 20) % 4_000_001) as f32 / 1000.0 - 2000.0,
            _ => f32::from_bits(((a >> 32) as u32 & 0x807f_ffff) | ((((a >> 8) % 60) as u32 + 100) << 23)),
        }
    }
}

fn special_singles() -> Vec<f32> {
    vec![
        0.0,
        -0.0,
        1.0,
        -1.0,
        0.5,
        255.0,
        0.999_999_94,
        1.0 / 3.0,
        14.3,
        f32::MAX,
        f32::MIN,
        f32::MIN_POSITIVE,
        f32::from_bits(1),
        f32::from_bits(0x007f_ffff),
        f32::EPSILON,
        f32::INFINITY,
        f32::NEG_INFINITY,
        f32::NAN,
        16_777_216.0,
        16_777_218.0,
        -7.25,
    ]
}

#[test]
fn widening_is_exact() {
    let mut s = Sampler { state: 0x0123_4567_89ab_cdef };
    let mut values = special_singles();
    for _ in 0..50_000 {
        values.push(s.value());
    }
    for x in values {
        let wide = single(x).widen();
        let want = x as f64;
        if want.is_nan() {
            assert!(wide.is_nan());
        } else {
            assert_eq!(wide.to_bits(), want.to_bits(), "{:e}", x);
        }
    }
}

#[test]
fn single_sums_and_products_match_hardware() {
    let mut s = Sampler { state: 0x1111_2222_3333_4444 };
    let mut pairs: Vec<(f32, f32)> = Vec::new();
    for x in special_singles() {
        for y in special_singles() {
            pairs.push((x, y));
        }
    }
    for _ in 0..50_000 {
        pairs.push((s.value(), s.value()));
    }
    for (x, y) in pairs {
        assert!(same(single(x).add(single(y)), x + y), "{:e} + {:e}", x, y);
        assert!(same(single(x).mul(single(y)), x * y), "{:e} * {:e}", x, y);
    }
}

#[test]
fn single_conversions_match_hardware() {
    let mut s = Sampler { state: 0x9999_8888_7777_6666 };
    let mut ints: Vec<i64> = vec![0, 1, -1, 255, 16_777_216, 16_777_217, 16_777_219, -16_777_217, i32::MAX as i64, i32::MIN as i64, u32::MAX as i64];
    for _ in 0..20_000 {
        let a = s.next();
        ints.push(((a >> 32) >> (a % 32)) as i64);
    }
    for v in ints {
        assert!(same(Single::from_i32(v as i32), v as i32 as f32), "{}", v);
        assert!(same(Single::from_u32(v as u32), v as u32 as f32), "{}", v);
    }
    let mut values = special_singles();
    values.push(254.99998);
    values.push(255.99998);
    values.push(-0.5);
    values.push(1.8446744e19);
    values.push(1.8446743e19);
    for _ in 0..20_000 {
        values.push(s.value());
    }
    for x in values {
        assert_eq!(single(x).to_usize(), x as usize, "{:e}", x);
        assert_eq!(single(x).to_u8(), x as u8, "{:e}", x);
    }
}
