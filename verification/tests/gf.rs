type GF = competitive::gf::GF<1000000007>;

#[test]
fn test_gf() {
    // operator test
    let _ = GF::new(0);
    let x: GF = GF::new(0);
    let x = x.neg();

    let x = GF::new(1).add(x);
    let x = x.add(GF::new(1));
    let mut x = x.add(x);
    x = x.add(GF::new(1));

    let x = GF::new(1).sub(x);
    let x = x.sub(GF::new(1));
    let mut x = x.sub(x);
    x = x.sub(GF::new(1));

    let x = GF::new(1).mul(x);
    let x = x.mul(GF::new(1));
    let mut x = x.mul(x);
    x = x.mul(GF::new(1));

    let x = GF::new(1).div(x);
    let x = x.div(GF::new(1));
    let mut x = x.div(x);
    x = x.div(GF::new(1));
    let _ = x;

    // basic tests
    let x: GF = GF::new(12345678);
    let y: GF = GF::new(87654321);
    assert_eq!(y.mul(x).mul(x.recip()), y);

    assert_eq!(GF::new(2).pow(50).0, (1u64 << 50) % 1000000007)
}

#[test]
fn gf_negative_inputs_reduce() {
    // Construction uses floored modulo, so negative inputs wrap into
    // range.
    assert_eq!(GF::new(-1).0, 1000000006);
    assert_eq!(GF::new(-1000000007).0, 0);
    assert_eq!(GF::new(1000000008).0, 1);
    assert_eq!(GF::new(0).neg().0, 0);
    assert_eq!(GF::new(3).neg().0, 1000000004);
}

#[test]
fn gf_recip_round_trip() {
    // x * x^-1 == 1 for a spread of nonzero values.
    for &v in [1i64, 2, 12345678, 999999999, 1000000006].iter() {
        let x = GF::new(v);
        assert_eq!(x.mul(x.recip()).0, 1);
    }
    // inverting zero silently yields zero
    assert_eq!(GF::new(0).recip().0, 0);
}

#[test]
fn gf_pow_edges() {
    assert_eq!(GF::new(5).pow(0).0, 1);
    assert_eq!(GF::new(5).pow(1).0, 5);
    assert_eq!(GF::new(2).pow(100).as_u64(), 976371285);
}
