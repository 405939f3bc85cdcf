use competitive::io::Scanner;

#[test]
fn scanner_tokens() {
    let mut sc = Scanner::new(b"1 -42  7\n300\t9");
    assert_eq!(sc.next(), 1);
    assert_eq!(sc.next(), -42);
    assert_eq!(sc.next(), 7);
    assert_eq!(sc.next(), 300);
    assert_eq!(sc.next(), 9);
}

#[test]
fn scanner_vectors() {
    let mut sc = Scanner::new(b"3 10 20 30 5 6");
    assert_eq!(sc.next_vec_len(), vec![10, 20, 30]);
    assert_eq!(sc.next_vec(2), vec![5, 6]);
}

#[test]
fn scanner_extremes() {
    let mut sc = Scanner::new(b"9223372036854775807 -9223372036854775808 0");
    assert_eq!(sc.next(), i64::MAX);
    assert_eq!(sc.next(), i64::MIN);
    assert_eq!(sc.next(), 0);
}
