use gfx::math::Num;

fn num(x: f64) -> Num {
    Num::from_bits(x.to_bits())
}

fn same(got: Num, want: f64) -> bool {
    if want.is_nan() {
        got.is_nan()
    } else {
        got.to_bits() == want.to_bits()
    }
}

struct Sampler {
    state: u64,
}

impl Sampler {
    fn next(&mut self) -> u64 {
        self.state ^= self.state << 13;
        self.state ^= self.state >> 7;
        self.state ^= self.state << 17;
        self.state
    }

    // A mix of arbitrary encodings, values of moderate size, and values
    // close to one another.
    fn pair(&mut self) -> (f64, f64) {
        let a = self.next();
        let b = self.next();
        match self.next() % 4 {
            0 => (f64::from_bits(a), f64::from_bits(b)),
            1 => {
                let x = (a % 2_000_001) as f64 / 1000.0 - 1000.0;
                let y = (b % 2_000_001) as f64 / 997.0 - 1000.0;
                (x, y)
            }
            2 => {
                let x = f64::from_bits(a);
                let y = f64::from_bits(a.wrapping_add(b % 64).wrapping_sub(32));
                (x, if b % 2 == 0 { y } else { -y })
            }
            _ => {
                let x = f64::from_bits(a & 0x800f_ffff_ffff_ffff | ((b % 80) << 52));
                let y = f64::from_bits(b & 0x800f_ffff_ffff_ffff | ((a % 80) << 52));
                (x, y)
            }
        }
    }
}

fn special_values() -> Vec<f64> {
    vec![
        0.0,
        -0.0,
        1.0,
        -1.0,
        2.0,
        0.5,
        3.0,
        0.1,
        1.0 / 3.0,
        255.0,
        1000.0,
        f64::MAX,
        f64::MIN,
        f64::MIN_POSITIVE,
        f64::from_bits(1),
        f64::from_bits(0x000f_ffff_ffff_ffff),
        f64::EPSILON,
        f64::INFINITY,
        f64::NEG_INFINITY,
        f64::NAN,
        1e308,
        1e-308,
        4503599627370496.0,
        9007199254740992.0,
        9007199254740993.0,
        -7.25,
    ]
}

#[test]
fn add_matches_hardware_on_special_values() {
    for x in special_values() {
        for y in special_values() {
            assert!(same(num(x).add(num(y)), x + y), "{:e} + {:e}", x, y);
            assert!(same(num(x).sub(num(y)), x - y), "{:e} - {:e}", x, y);
        }
    }
}

#[test]
fn mul_and_div_match_hardware_on_special_values() {
    for x in special_values() {
        for y in special_values() {
            assert!(same(num(x).mul(num(y)), x * y), "{:e} * {:e}", x, y);
            assert!(same(num(x).div(num(y)), x / y), "{:e} / {:e}", x, y);
        }
    }
}

#[test]
fn sqrt_matches_hardware_on_special_values() {
    for x in special_values() {
        assert!(same(num(x).sqrt(), x.sqrt()), "sqrt {:e}", x);
    }
}

#[test]
fn add_matches_hardware_on_samples() {
    let mut s = Sampler { state: 0x9e37_79b9_7f4a_7c15 };
    for _ in 0..60_000 {
        let (x, y) = s.pair();
        assert!(same(num(x).add(num(y)), x + y), "{:e} + {:e}", x, y);
        assert!(same(num(x).sub(num(y)), x - y), "{:e} - {:e}", x, y);
    }
}

#[test]
fn mul_matches_hardware_on_samples() {
    let mut s = Sampler { state: 0x1234_5678_9abc_def1 };
    for _ in 0..60_000 {
        let (x, y) = s.pair();
        assert!(same(num(x).mul(num(y)), x * y), "{:e} * {:e}", x, y);
    }
}

#[test]
fn div_matches_hardware_on_samples() {
    let mut s = Sampler { state: 0x0fed_cba9_8765_4321 };
    for _ in 0..60_000 {
        let (x, y) = s.pair();
        assert!(same(num(x).div(num(y)), x / y), "{:e} / {:e}", x, y);
    }
}

#[test]
fn sqrt_matches_hardware_on_samples() {
    let mut s = Sampler { state: 0x5555_aaaa_1234_4321 };
    for _ in 0..60_000 {
        let (x, y) = s.pair();
        assert!(same(num(x).sqrt(), x.sqrt()), "sqrt {:e}", x);
        assert!(same(num(y).sqrt(), y.sqrt()), "sqrt {:e}", y);
    }
}

#[test]
fn comparisons_match_hardware() {
    let mut s = Sampler { state: 0x7777_1111_2222_3333 };
    let mut pairs: Vec<(f64, f64)> = Vec::new();
    for x in special_values() {
        for y in special_values() {
            pairs.push((x, y));
        }
    }
    for _ in 0..20_000 {
        pairs.push(s.pair());
    }
    for (x, y) in pairs {
        assert_eq!(num(x).lt(num(y)), x < y, "{:e} < {:e}", x, y);
        assert_eq!(num(x).le(num(y)), x <= y, "{:e} <= {:e}", x, y);
        assert_eq!(num(x).gt(num(y)), x > y, "{:e} > {:e}", x, y);
        assert_eq!(num(x).ge(num(y)), x >= y, "{:e} >= {:e}", x, y);
        assert_eq!(num(x).eq(num(y)), x == y, "{:e} == {:e}", x, y);
        assert!(same(num(x).neg(), -x) || x.is_nan());
        if x != y || x.is_nan() || y.is_nan() {
            assert!(same(num(x).min(num(y)), x.min(y)), "min {:e} {:e}", x, y);
            assert!(same(num(x).max(num(y)), x.max(y)), "max {:e} {:e}", x, y);
        }
    }
}

#[test]
fn conversions_from_integers_match_hardware() {
    let mut s = Sampler { state: 0x3141_5926_5358_9793 };
    let mut values: Vec<i64> = vec![0, 1, -1, 255, i64::MAX, i64::MIN, 1 << 53, (1 << 53) + 1, (1 << 54) + 2, -((1 << 53) + 1)];
    for _ in 0..20_000 {
        let v = s.next();
        values.push((v >> (v % 64)) as i64);
        values.push(-((v >> (v % 63 + 1)) as i64));
    }
    for v in values {
        assert!(same(Num::from_i64(v), v as f64), "{}", v);
        assert!(same(Num::from_isize(v as isize), v as isize as f64), "{}", v);
        assert!(same(Num::from_usize(v as usize), v as usize as f64), "{}", v);
        assert!(same(Num::from_u8(v as u8), v as u8 as f64), "{}", v);
    }
}

#[test]
fn conversions_to_integers_match_hardware() {
    let mut s = Sampler { state: 0x2718_2818_2845_9045 };
    let mut values: Vec<f64> = special_values();
    values.push(254.99999999999997);
    values.push(255.5);
    values.push(256.0);
    values.push(-0.9);
    values.push(9223372036854775807.0);
    values.push(-9223372036854775808.0);
    values.push(18446744073709551615.0);
    values.push(1.8446744073709552e19);
    values.push(1.844674407370955e19);
    for _ in 0..20_000 {
        let (x, y) = s.pair();
        values.push(x);
        values.push(y);
    }
    for x in values {
        assert_eq!(num(x).to_isize(), x as isize, "{:e}", x);
        assert_eq!(num(x).to_usize(), x as usize, "{:e}", x);
        assert_eq!(num(x).to_u8(), x as u8, "{:e}", x);
    }
}
