use competitive::num::{gcd, lcm, Complex, GF};

#[test]
fn test_modular() {
    let x: GF = GF::new(12345678);
    let y: GF = GF::new(87654321);
    assert_eq!(y.mul(x).mul(x.recip()), y);
}

#[test]
fn gcd_lcm_values() {
    assert_eq!(gcd(57, 3), 3);
    assert_eq!(gcd(0, 5), 5);
    assert_eq!(gcd(5, 0), 5);
    assert_eq!(gcd(12, 8), 4);
    assert_eq!(lcm(12, 8), 24);
    assert_eq!(lcm(1, 9), 9);
    assert_eq!(lcm(0, 9), 0);
}

#[test]
fn complex_ops() {
    let a = Complex::new(3, 4);
    assert_eq!(a.norm_sqr(), 25);
    assert_eq!(a.conj(), Complex::new(3, -4));
    assert_eq!(Complex::i(), Complex::new(0, 1));
    let b = Complex::new(2, 0);
    assert_eq!(b.inv(), Complex::new(0, 0));
    let c = Complex::new(1, 0);
    assert_eq!(c.inv(), Complex::new(1, 0));
}

#[test]
fn modular_field_ops() {
    let a = GF::new(1_000_000_006);
    assert_eq!(a.add(GF::new(2)).as_i64(), 1);
    assert_eq!(GF::new(3).sub(GF::new(5)).as_i64(), 1_000_000_005);
    assert_eq!(GF::new(-4).as_i64(), 1_000_000_003);
    assert_eq!(GF::new(2).pow(50).as_i64(), ((1u64 << 50) % 1_000_000_007) as i64);
    assert_eq!(GF::new(7).div(GF::new(7)).as_i64(), 1);
}
