use competitive::util::{tf, yn, Echo, Mat, MatS};

fn echo_str(v: impl Echo) -> String {
    v.echo()
}

#[test]
fn test_echo() {
    assert_eq!(echo_str(1_i64), "1");
    assert_eq!(echo_str((1i64, 2i64, 3i64)), "1 2 3");
    assert_eq!(echo_str(vec![1i64, 2, 3]), "1 2 3");

    assert_eq!(echo_str(tf(true, "YES", "NO")), "YES");
    assert_eq!(echo_str(tf(false, "YES", "NO")), "NO");

    assert_eq!(echo_str(yn(true)), "Yes");
    assert_eq!(echo_str(yn(false)), "No");

    let m = vec![vec![1i64, 2, 3], vec![4, 5, 6], vec![7, 8, 9]];
    assert_eq!(echo_str(Mat(m)), "1 2 3\n4 5 6\n7 8 9");

    let m = vec![
        vec!['a', 'b', 'c'],
        vec!['d', 'e', 'f'],
        vec!['g', 'h', 'i'],
    ];
    assert_eq!(echo_str(MatS(m)), "abc\ndef\nghi");
}

#[test]
fn echo_pairs_and_empty() {
    assert_eq!(echo_str((7i64, -8i64)), "7 -8");
    assert_eq!(echo_str(Vec::<i64>::new()), "");
    assert_eq!(echo_str(MatS(vec![])), "");
}
