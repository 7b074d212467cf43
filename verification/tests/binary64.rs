//! The arithmetic on binary64 numbers, against that of the processor.
use macfand::binary64::Binary64;

fn b(x: f64) -> Binary64 {
    Binary64::from_bits(x.to_bits())
}

fn f(x: Binary64) -> f64 {
    f64::from_bits(x.to_bits())
}

/// Bit patterns spread over the whole format, from a linear congruential sequence.
fn spread(n: usize) -> Vec<u64> {
    let mut x: u64 = 0x9e37_79b9_7f4a_7c15;
    let mut r = Vec::new();
    for _ in 0..n {
        x = x.wrapping_mul(6364136223846793005).wrapping_add(1442695040888963407);
        r.push(x ^ (x >> 29));
    }
    r
}

fn edges() -> Vec<f64> {
    let mut r = vec![
        0.0,
        1.0,
        1.5,
        2.0,
        3.0,
        0.1,
        0.5,
        0.25,
        1.0 / 3.0,
        2000.0,
        6200.0,
        74.0,
        25.0,
        1000.0,
        1e9,
        1e15,
        4503599627370496.0,
        9007199254740991.0,
        9007199254740992.0,
        9007199254740994.0,
        1e300,
        1e-300,
        f64::MAX,
        f64::MIN_POSITIVE,
        f64::EPSILON,
        1.0 + f64::EPSILON,
        1.0 - f64::EPSILON / 2.0,
        f64::from_bits(1),
        f64::from_bits(2),
        f64::from_bits(3),
        f64::from_bits(0x000f_ffff_ffff_ffff),
        f64::from_bits(0x0010_0000_0000_0001),
        f64::from_bits(0x7fef_ffff_ffff_fffe),
        f64::INFINITY,
        f64::NAN,
    ];
    for i in 0..r.len() {
        r.push(-r[i]);
    }
    r
}

fn agree(ours: Binary64, theirs: f64, what: &str) {
    let same = (f(ours).is_nan() && theirs.is_nan()) || ours.to_bits() == theirs.to_bits();
    assert!(same, "{what}: {:e} is not {theirs:e}", f(ours));
}

fn pair(x: f64, y: f64) {
    agree(b(x).plus(b(y)), x + y, &format!("{x:e} + {y:e}"));
    agree(b(x).minus(b(y)), x - y, &format!("{x:e} - {y:e}"));
    agree(b(x).times(b(y)), x * y, &format!("{x:e} * {y:e}"));
    agree(b(x).over(b(y)), x / y, &format!("{x:e} / {y:e}"));
    assert_eq!(b(x).lt(b(y)), x < y, "{x:e} < {y:e}");
    assert_eq!(b(x).le(b(y)), x <= y, "{x:e} <= {y:e}");
    let (larger, smaller) = (f(b(x).larger(b(y))), f(b(x).smaller(b(y))));
    assert!(larger == x.max(y) || (larger.is_nan() && x.max(y).is_nan()), "{x:e} max {y:e}");
    assert!(smaller == x.min(y) || (smaller.is_nan() && x.min(y).is_nan()), "{x:e} min {y:e}");
}

#[test]
fn arithmetic_agrees_at_the_edges_of_the_format() {
    for &x in &edges() {
        for &y in &edges() {
            pair(x, y);
        }
    }
}

#[test]
fn arithmetic_agrees_over_the_whole_format() {
    let bits = spread(60_000);
    for w in bits.chunks(2) {
        pair(f64::from_bits(w[0]), f64::from_bits(w[1]));
    }
}

#[test]
fn arithmetic_agrees_where_exponents_are_close() {
    // Sums that cancel, carry and tie: exponents within a hundred of each other.
    let bits = spread(60_000);
    for w in bits.chunks(3) {
        let e = 0x3ff + (w[2] % 100);
        let x = f64::from_bits((w[0] & 0x800f_ffff_ffff_ffff) | (0x3ff << 52));
        let y = f64::from_bits((w[1] & 0x800f_ffff_ffff_ffff) | (e << 52));
        pair(x, y);
        pair(y, x);
        // Few significant bits, so that ties are common.
        let short = 0xfff0_0000_0000_0007u64;
        pair(f64::from_bits(x.to_bits() & short), f64::from_bits(y.to_bits() & short));
    }
}

#[test]
fn arithmetic_agrees_where_results_are_subnormal() {
    let bits = spread(30_000);
    for w in bits.chunks(2) {
        let x = f64::from_bits((w[0] & 0x800f_ffff_ffff_ffff) | ((0x1ff + (w[0] >> 60)) << 52));
        let y = f64::from_bits((w[1] & 0x800f_ffff_ffff_ffff) | ((0x1f0 + (w[1] >> 60)) << 52));
        pair(x, y);
        let z = f64::from_bits(w[0] & 0x800f_ffff_ffff_ffff);
        pair(z, y);
        pair(z, f64::from_bits(w[1] & 0x801f_ffff_ffff_ffff));
    }
}

#[test]
fn whole_numbers_are_converted_as_by_the_processor() {
    let mut list: Vec<u64> = spread(20_000);
    for k in 0..64 {
        for d in 0..3 {
            list.push((1u64 << k).wrapping_add(d).wrapping_sub(1));
        }
    }
    list.push(u64::MAX);
    for n in list {
        agree(Binary64::from_u64(n), n as f64, "from_u64");
        agree(Binary64::from_u64(n >> 10), (n >> 10) as f64, "from_u64");
        agree(Binary64::from_i64(n as i64), n as i64 as f64, "from_i64");
        agree(Binary64::from_u32(n as u32), n as u32 as f64, "from_u32");
    }
}

#[test]
fn rounding_to_a_whole_number_agrees() {
    let mut list = edges();
    for n in 0..2000 {
        list.push(n as f64 * 0.25);
        list.push(-(n as f64) * 0.25);
        list.push(n as f64 + 0.5 - 1e-9);
    }
    list.extend([4294967294.5, 4294967295.0, 4294967295.5, 4294967296.0, 0.49999999999999994]);
    for bits in spread(20_000) {
        list.push(f64::from_bits((bits & 0x000f_ffff_ffff_ffff) | ((0x3f0 + (bits >> 58)) << 52)));
    }
    for x in list {
        assert_eq!(b(x).whole_u32(), x.round() as u32, "{x:e}");
    }
}

#[test]
fn holding_between_bounds_agrees() {
    for &x in &edges() {
        for (low, high) in [(0.0, 1.0), (-200.0, 200.0), (2000.0, 6200.0), (5.0, 5.0)] {
            let ours = f(b(x).held(b(low), b(high)));
            let theirs = x.clamp(low, high);
            assert!(ours == theirs || (ours.is_nan() && theirs.is_nan()), "{x:e}");
        }
    }
}

#[test]
fn kinds_of_numbers_are_told_apart() {
    for x in edges() {
        assert_eq!(b(x).is_nan(), x.is_nan());
        assert_eq!(b(x).is_finite(), x.is_finite());
        assert_eq!(b(x).negated().to_bits() ^ x.to_bits(), 1 << 63);
    }
}
