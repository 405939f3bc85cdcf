use competitive::inf::MaybeInf::{self, Inf, NegInf, NonInf};
use std::cmp::{max, min};

#[test]
fn test_inf() {
    let mut t: MaybeInf = Inf;
    t = min(t, NonInf(123));
    assert_eq!(t, NonInf(123));
    t = min(t, Inf);
    assert_eq!(t, NonInf(123));
    t = min(t, NegInf);
    assert_eq!(t, NegInf);
    t = max(t, NonInf(123));
    assert_eq!(t, NonInf(123));
    t = max(t, Inf);
    assert_eq!(t, Inf);

    t = Inf.neg();
    assert_eq!(t, NegInf);

    assert_eq!(NonInf(123).add_num(456), NonInf(579));

    t = NonInf(0);
    t = t.add_num(100);
    assert_eq!(t, NonInf(100));
    t = t.add(NonInf(100));
    assert_eq!(t, NonInf(200));
    t = t.add(Inf);
    assert_eq!(t, Inf);
    t = NonInf(0);
    t = t.add(NegInf);
    assert_eq!(t, NegInf);

    t = NonInf(0);
    t = t.sub_num(100);
    assert_eq!(t, NonInf(-100));
    t = t.sub(NonInf(100));
    assert_eq!(t, NonInf(-200));
    t = t.sub(Inf);
    assert_eq!(t, NegInf);
    t = NonInf(0);
    t = t.sub(NegInf);
    assert_eq!(t, Inf);

    t = NonInf(1);
    t = t.mul_num(100);
    assert_eq!(t, NonInf(100));
    t = t.mul(NonInf(100));
    assert_eq!(t, NonInf(10000));
    t = t.mul(Inf);
    assert_eq!(t, Inf);
    t = NonInf(1);
    t = t.mul(NegInf);
    assert_eq!(t, NegInf);
}

#[test]
fn inf_accessors() {
    assert_eq!(NonInf(5).unwrap(), 5);
    assert_eq!(NonInf(5).unwrap_or(9), 5);
    assert_eq!(Inf.unwrap_or(9), 9);
    assert_eq!(NegInf.unwrap_or(9), 9);
    assert_eq!(NonInf(5).option(), Some(5));
    assert_eq!(Inf.option(), None);
    assert_eq!(NegInf.option(), None);
}

#[test]
fn inf_signs() {
    assert_eq!(NegInf.mul(NegInf), Inf);
    assert_eq!(NegInf.mul(NonInf(2)), NegInf);
    assert_eq!(NegInf.mul(NonInf(-2)), Inf);
    assert_eq!(Inf.mul(NonInf(-2)), NegInf);
    assert_eq!(NonInf(-3).mul(Inf), NegInf);
    assert_eq!(NonInf(3).neg(), NonInf(-3));
}
