use competitive::number::{comb, comb_memo, fact, gen_fact_table, multicomb, pow_mod};

type GF = competitive::gf::GF<1000000007>;

#[test]
fn fact_values() {
    assert_eq!(fact(0), 1);
    assert_eq!(fact(1), 1);
    assert_eq!(fact(5), 120);
    assert_eq!(fact(20), 2432902008176640000);
}

#[test]
fn comb_values() {
    assert_eq!(comb(5, 2), 10);
    assert_eq!(comb(5, 0), 1);
    assert_eq!(comb(5, 5), 1);
    assert_eq!(comb(10, 3), 120);
    assert_eq!(comb(57, 28), 15_033_633_249_770_520);
    assert_eq!(multicomb(3, 2), 6);
    assert_eq!(multicomb(1, 0), 1);
}

#[test]
fn fact_table_and_comb_memo() {
    let table = gen_fact_table::<1000000007>(10);
    assert_eq!(table[0].0, 1);
    assert_eq!(table[5].0, 120);
    assert_eq!(table[9].0, 362880);
    assert_eq!(comb_memo::<1000000007>(5, 2).0, 10);
    assert_eq!(comb_memo::<1000000007>(2, 5).0, 0);
    assert_eq!(comb_memo::<1000000007>(100, 50).0, {
        // C(100, 50) mod P, built up by the factorial recurrence
        let t = gen_fact_table::<1000000007>(101);
        t[100].div(t[50].mul(t[50])).0
    });
}

#[test]
fn pow_mod_values() {
    assert_eq!(pow_mod(2, 10, 1000), 24);
    assert_eq!(pow_mod(3, 0, 7), 1);
    assert_eq!(pow_mod(10, 5, 1), 0);
    assert_eq!(pow_mod(2, 50, 1_000_000_007), (1u64 << 50) % 1_000_000_007);
}

#[test]
fn gf_helper_matches_pow_mod() {
    // the field's exponentiation and the standalone routine agree
    for e in 0..20u64 {
        assert_eq!(GF::new(3).pow(e).0, pow_mod(3, e, 1_000_000_007));
    }
}
