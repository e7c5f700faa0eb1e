use audioplayer::float::number::{Double, Single};

fn s(x: f32) -> Single {
    Single { bits: x.to_bits() }
}

fn d(x: f64) -> Double {
    Double { bits: x.to_bits() }
}

struct Noise {
    state: u64,
}

impl Noise {
    fn next(&mut self) -> u64 {
        self.state ^= self.state << 13;
        self.state ^= self.state >> 7;
        self.state ^= self.state << 17;
        self.state
    }
}

fn same_single(ours: Single, theirs: f32) -> bool {
    ours.bits == theirs.to_bits() || (f32::from_bits(ours.bits).is_nan() && theirs.is_nan())
}

fn same_double(ours: Double, theirs: f64) -> bool {
    ours.bits == theirs.to_bits() || (f64::from_bits(ours.bits).is_nan() && theirs.is_nan())
}

fn singles() -> Vec<f32> {
    let mut all = vec![
        0.0,
        -0.0,
        1.0,
        -1.0,
        0.5,
        2.0,
        3.0,
        0.1,
        -0.1,
        1.0e-45,
        -1.0e-45,
        1.1754944e-38,
        1.1754942e-38,
        3.4028235e38,
        -3.4028235e38,
        f32::INFINITY,
        f32::NEG_INFINITY,
        f32::NAN,
        16777215.0,
        16777216.0,
        8388608.5,
    ];
    let mut noise = Noise { state: 0x1234_5678_9abc_def1 };
    for _ in 0..200 {
        all.push(f32::from_bits(noise.next() as u32));
        all.push((noise.next() % 2001) as f32 / 1000.0 - 1.0);
    }
    all
}

fn doubles() -> Vec<f64> {
    let mut all = vec![
        0.0,
        -0.0,
        1.0,
        -1.0,
        0.5,
        2.0,
        3.0,
        0.1,
        -0.1,
        5.0e-324,
        -5.0e-324,
        2.2250738585072014e-308,
        2.225073858507201e-308,
        1.7976931348623157e308,
        -1.7976931348623157e308,
        f64::INFINITY,
        f64::NEG_INFINITY,
        f64::NAN,
        9007199254740991.0,
        9007199254740992.0,
        44100.0,
        48000.0,
        18446744073709551615.0,
    ];
    let mut noise = Noise { state: 0x0fed_cba9_8765_4321 };
    for _ in 0..200 {
        all.push(f64::from_bits(noise.next()));
        all.push((noise.next() % 1_000_000_007) as f64 / 1000.0);
    }
    all
}

#[test]
fn single_arithmetic_agrees_with_the_machine() {
    for &a in &singles() {
        for &b in &singles() {
            assert!(same_single(s(a).add(s(b)), a + b), "{a} + {b}");
            assert!(same_single(s(a).sub(s(b)), a - b), "{a} - {b}");
            assert!(same_single(s(a).mul(s(b)), a * b), "{a} * {b}");
            assert!(same_single(s(a).div(s(b)), a / b), "{a} / {b}");
            assert_eq!(s(a).lt(s(b)), a < b);
            assert_eq!(s(a).le(s(b)), a <= b);
            if a != b {
                assert!(same_single(s(a).min(s(b)), a.min(b)));
                assert!(same_single(s(a).max(s(b)), a.max(b)));
            }
        }
    }
}

#[test]
fn double_arithmetic_agrees_with_the_machine() {
    for &a in &doubles() {
        for &b in &doubles() {
            assert!(same_double(d(a).add(d(b)), a + b), "{a} + {b}");
            assert!(same_double(d(a).sub(d(b)), a - b), "{a} - {b}");
            assert!(same_double(d(a).mul(d(b)), a * b), "{a} * {b}");
            assert!(same_double(d(a).div(d(b)), a / b), "{a} / {b}");
            assert_eq!(d(a).lt(d(b)), a < b);
            assert_eq!(d(a).le(d(b)), a <= b);
        }
    }
}

#[test]
fn conversions_agree_with_the_machine() {
    for &a in &singles() {
        assert!(same_double(s(a).to_double(), a as f64));
        assert_eq!(s(a).to_usize(), a as usize);
        assert!(same_single(s(a).neg(), -a));
    }
    for &a in &doubles() {
        assert!(same_single(d(a).to_single(), a as f32));
        assert_eq!(d(a).to_u64(), a as u64);
        assert_eq!(d(a).to_u32(), a as u32);
        assert_eq!(d(a).to_usize(), a as usize);
        assert_eq!(d(a).ceil_to_usize(), a.ceil() as usize);
        assert!(same_double(d(a).rem_one(), a % 1.0), "{a} % 1");
        assert_eq!(d(a).finite(), a.is_finite());
    }
    let mut noise = Noise { state: 0x1111_2222_3333_4445 };
    for i in 0..64 {
        for n in [noise.next() >> i, 1u64 << i, (1u64 << i) - 1] {
            assert!(same_single(Single::from_integer(n), n as f32));
            assert!(same_double(Double::from_integer(n), n as f64));
        }
    }
}

#[test]
fn clamping_keeps_what_is_inside() {
    for &a in &singles() {
        assert!(same_single(s(a).clamp(s(0.25), s(2.0)), a.clamp(0.25, 2.0)));
    }
    assert_eq!(s(-0.0).clamp(s(0.0), s(2.0)).bits, (-0.0f32).to_bits());
}
