use robot_arm::single::Single;

fn of(x: f32) -> Single {
    Single { bits: x.to_bits() }
}

fn same(r: Single, x: f32) -> bool {
    if x.is_nan() {
        f32::from_bits(r.bits).is_nan()
    } else {
        r.bits == x.to_bits()
    }
}

/// Encodings that sit at the edges of the format.
fn edges() -> Vec<u32> {
    let bodies: Vec<u32> = vec![
        0, 1, 2, 3, 0x7F_FFFF, 0x80_0000, 0x80_0001, 0xFF_FFFF, 0x100_0000, 0x3380_0000,
        0x3380_0001, 0x3400_0000, 0x3E80_0000, 0x3F00_0000, 0x3F33_3333, 0x3F7F_FFFF, 0x3F80_0000,
        0x3F80_0001, 0x3F99_999A, 0x3FC0_0000, 0x3FE6_6666, 0x4000_0000, 0x4020_0000, 0x4049_0FDB,
        0x42B4_0000, 0x4334_0000, 0x4B7F_FFFF, 0x4B80_0000, 0x477F_FF00, 0x4780_0000, 0x7EFF_FFFF,
        0x7F00_0000, 0x7F7F_FFFE, 0x7F7F_FFFF, 0x7F80_0000, 0x7F80_0001, 0x7FC0_0000, 0x7FFF_FFFF,
    ];
    let mut all: Vec<u32> = Vec::new();
    for b in bodies {
        all.push(b);
        all.push(b | 0x8000_0000);
    }
    all
}

/// A fixed stream of encodings spread over the whole format.
fn stream(n: usize) -> Vec<u32> {
    let mut state: u64 = 0x9E37_79B9_7F4A_7C15;
    let mut all: Vec<u32> = Vec::new();
    for _ in 0..n {
        state = state.wrapping_mul(6364136223846793005).wrapping_add(1442695040888963407);
        all.push((state >> 32) as u32);
    }
    all
}

fn check_pair(x: f32, y: f32) {
    let a = of(x);
    let b = of(y);
    assert!(same(a.plus(b), x + y), "{} + {}", x, y);
    assert!(same(a.minus(b), x - y), "{} - {}", x, y);
    assert!(same(a.times(b), x * y), "{} * {}", x, y);
    assert!(same(a.over(b), x / y), "{} / {}", x, y);
    assert_eq!(a.below(b), x < y);
}

#[test]
fn edge_values_agree_with_the_machine() {
    for p in edges() {
        for q in edges() {
            check_pair(f32::from_bits(p), f32::from_bits(q));
        }
    }
}

#[test]
fn random_values_agree_with_the_machine() {
    let all = stream(40_000);
    for pair in all.windows(2) {
        check_pair(f32::from_bits(pair[0]), f32::from_bits(pair[1]));
    }
}

#[test]
fn near_values_agree_with_the_machine() {
    let all = stream(60_000);
    for pair in all.windows(2) {
        let near = (pair[0] % 0x8000_0000) ^ (pair[1] % 0x0F00_0000);
        check_pair(f32::from_bits(pair[0]), f32::from_bits(near));
        check_pair(f32::from_bits(pair[0]), f32::from_bits(near | 0x8000_0000));
    }
}

#[test]
fn counts_saturate() {
    for p in edges() {
        assert_eq!(Single { bits: p }.count(), f32::from_bits(p) as u16);
    }
    for p in stream(40_000) {
        let near = 0x3F00_0000 + p % 0x0A00_0000;
        assert_eq!(Single { bits: near }.count(), f32::from_bits(near) as u16);
    }
    assert_eq!(of(-3.5).count(), 0);
    assert_eq!(of(599.99).count(), 599);
    assert_eq!(of(65535.9).count(), 65535);
    assert_eq!(of(1.0e9).count(), 65535);
    assert_eq!(of(f32::NAN).count(), 0);
    assert_eq!(of(f32::NEG_INFINITY).count(), 0);
    assert_eq!(of(f32::INFINITY).count(), 65535);
}

#[test]
fn ratios_are_quotients() {
    for den in 1u32..200 {
        for num in 0u32..300 {
            assert_eq!(Single::ratio(num, den).bits, (num as f32 / den as f32).to_bits());
        }
    }
    assert_eq!(Single::ratio(9, 5).bits, 1.8f32.to_bits());
    assert_eq!(Single::ratio(13176795, 4194304).bits, std::f32::consts::PI.to_bits());
}

#[test]
fn clamping_keeps_what_lies_between() {
    let low = of(0.0);
    let high = of(180.0);
    for x in [-1.0f32, -0.0, 0.0, 1.0e-40, 90.0, 180.0, 180.00002, f32::INFINITY] {
        assert_eq!(of(x).clamped(low, high).bits, x.clamp(0.0, 180.0).to_bits());
    }
    assert!(f32::from_bits(of(f32::NAN).clamped(low, high).bits).is_nan());
    assert_eq!(of(2.5).negated().bits, (-2.5f32).to_bits());
}
