use sdestimator::binary64::Binary64;

/// Numbers of every kind: zeros, the smallest and the largest ones, infinities, what is no
/// number, and ordinary ones.
const SPECIAL: [u64; 24] = [
    0x0000_0000_0000_0000,
    0x8000_0000_0000_0000,
    0x0000_0000_0000_0001,
    0x8000_0000_0000_0001,
    0x000f_ffff_ffff_ffff,
    0x0010_0000_0000_0000,
    0x0010_0000_0000_0001,
    0x3fe0_0000_0000_0000,
    0x3fef_ae14_7ae1_47ae,
    0x3fef_ffff_ffff_ffff,
    0x3ff0_0000_0000_0000,
    0xbff0_0000_0000_0000,
    0x3ff0_0000_0000_0001,
    0x4004_0000_0000_0000,
    0xc004_0000_0000_0000,
    0x4059_0000_0000_0000,
    0x4330_0000_0000_0001,
    0x433f_ffff_ffff_ffff,
    0x43ef_ffff_ffff_ffff,
    0x43f0_0000_0000_0000,
    0x7fef_ffff_ffff_ffff,
    0x7ff0_0000_0000_0000,
    0xfff0_0000_0000_0000,
    0x7ff8_0000_0000_0000,
];

fn same(ours: Binary64, native: f64) -> bool {
    if native.is_nan() {
        f64::from_bits(ours.bits).is_nan()
    } else {
        ours.bits == native.to_bits()
    }
}

fn check_pair(a: u64, b: u64) {
    let (x, y) = (Binary64 { bits: a }, Binary64 { bits: b });
    let (u, v) = (f64::from_bits(a), f64::from_bits(b));
    assert!(same(x.plus(y), u + v), "{u:e} + {v:e}");
    assert!(same(x.minus(y), u - v), "{u:e} - {v:e}");
    assert!(same(x.times(y), u * v), "{u:e} * {v:e}");
    assert!(same(x.over(y), u / v), "{u:e} / {v:e}");
    assert_eq!(x.less(y), u < v, "{u:e} < {v:e}");
    assert_eq!(x.at_least(y), u >= v, "{u:e} >= {v:e}");
    if u != v {
        assert!(same(x.floor_at(y), u.max(v)) || v.is_nan(), "max of {u:e} and {v:e}");
        assert!(same(x.cap_at(y), u.min(v)) || v.is_nan(), "min of {u:e} and {v:e}");
    }
}

fn check_single(a: u64) {
    let x = Binary64 { bits: a };
    let u = f64::from_bits(a);
    assert!(same(x.round(), u.round()), "round {u:e}");
    assert_eq!(x.to_integer(), u as u64, "integer part of {u:e}");
    assert!(same(x.negate(), -u), "-{u:e}");
    assert!(same(Binary64::from_integer(a), a as f64), "from {a}");
    let (low, high) = (Binary64 { bits: 0 }, Binary64 { bits: 100f64.to_bits() });
    assert!(same(x.clamp_to(low, high), u.clamp(0.0, 100.0)), "clamp {u:e}");
    assert_eq!(x.within(low, high), (0.0..=100.0).contains(&u), "range of {u:e}");
}

struct Random {
    state: u64,
}

impl Random {
    fn next(&mut self) -> u64 {
        self.state ^= self.state << 13;
        self.state ^= self.state >> 7;
        self.state ^= self.state << 17;
        self.state
    }
}

#[test]
fn special_numbers_agree_with_the_hardware() {
    for a in SPECIAL {
        check_single(a);
        for b in SPECIAL {
            check_pair(a, b);
        }
    }
}

#[test]
fn random_patterns_agree_with_the_hardware() {
    let mut random = Random { state: 0x9e37_79b9_7f4a_7c15 };
    for _ in 0..60_000 {
        let a = random.next();
        let b = random.next();
        check_single(a);
        check_pair(a, b);
    }
}

#[test]
fn numbers_of_similar_size_agree_with_the_hardware() {
    let mut random = Random { state: 0x0123_4567_89ab_cdef };
    for _ in 0..60_000 {
        let a = random.next();
        let shift = (random.next() % 140) << 52;
        let b = (a ^ (random.next() >> 12)).wrapping_add(shift);
        check_pair(a, b);
        check_pair(b, a ^ 0x8000_0000_0000_0000);
    }
}

#[test]
fn sums_with_ties_agree_with_the_hardware() {
    let mut random = Random { state: 77 };
    for _ in 0..60_000 {
        // Few digits each, so that results often lie half-way between two numbers.
        let a = ((random.next() % 64 + 990) << 52) | ((random.next() % 16) << 48);
        let b = ((random.next() % 64 + 990) << 52) | (random.next() % 4);
        check_pair(a, b);
        check_pair(a, b | 0x8000_0000_0000_0000);
        check_single(a);
        check_single(b);
    }
}

#[test]
fn small_integers_and_halves_agree_with_the_hardware() {
    for n in 0..2000u64 {
        let half = (n as f64) / 2.0;
        check_single(half.to_bits());
        check_single((-half).to_bits());
        check_single((half / 100.0).to_bits());
        assert!(same(Binary64::from_integer(n), n as f64));
    }
}

#[test]
fn subnormal_results_agree_with_the_hardware() {
    let mut random = Random { state: 4242 };
    for _ in 0..60_000 {
        let a = random.next() % 0x0300_0000_0000_0000;
        let b = random.next() % 0x4100_0000_0000_0000;
        check_pair(a, b);
        check_pair(b, a);
        let c = (random.next() % 0x0080_0000_0000_0000) | 0x1f80_0000_0000_0000;
        let d = (random.next() % 0x0080_0000_0000_0000) | 0x1f80_0000_0000_0000;
        check_pair(c, d);
    }
}
