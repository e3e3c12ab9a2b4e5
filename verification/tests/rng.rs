use evogait::rng::XorShift64;

fn next_f64(rng: &mut XorShift64) -> f64 {
    (rng.next_u53() as f64) / ((1u64 << 53) as f64)
}

fn gauss(rng: &mut XorShift64) -> f64 {
    let mut u1 = next_f64(rng);
    let u2 = next_f64(rng);
    if u1 < 1e-12 {
        u1 = 1e-12;
    }
    (-2.0 * u1.ln()).sqrt() * (2.0 * std::f64::consts::PI * u2).cos()
}

#[test]
fn rng_is_deterministic_per_seed() {
    let mut a = XorShift64::new(42);
    let mut b = XorShift64::new(42);
    for _ in 0..16 {
        assert_eq!(a.next_u64(), b.next_u64());
    }
    let mut c = XorShift64::new(7);
    let g: Vec<f64> = (0..200).map(|_| gauss(&mut c)).collect();
    let mean = g.iter().sum::<f64>() / g.len() as f64;
    assert!(mean.abs() < 0.25, "gauss mean near 0, got {mean:.3}");
}

#[test]
fn xorshift_first_output_matches_formula() {
    let mut r = XorShift64::new(1);
    let mut x: u64 = 1;
    x ^= x << 13;
    x ^= x >> 7;
    x ^= x << 17;
    assert_eq!(r.next_u64(), x);
    assert_eq!(x, 0x40822041);
}

#[test]
fn zero_seed_is_replaced() {
    let mut z = XorShift64::new(0);
    let mut s = XorShift64::new(0x9E3779B97F4A7C15);
    for _ in 0..8 {
        let v = z.next_u64();
        assert_ne!(v, 0);
        assert_eq!(v, s.next_u64());
    }
}

#[test]
fn unit53_is_top_bits_and_below_one() {
    let mut a = XorShift64::new(99);
    let mut b = XorShift64::new(99);
    for _ in 0..100 {
        let u = a.next_u53();
        assert_eq!(u, b.next_u64() >> 11);
        assert!(u < (1u64 << 53));
    }
}
