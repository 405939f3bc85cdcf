use competitive::display::{AtCoder, Mat, Vertical};

#[test]
fn test_num() {
    assert_eq!(AtCoder(123_u8).to_string(), "123");
    assert_eq!(AtCoder(123_u16).to_string(), "123");
    assert_eq!(AtCoder(123_u32).to_string(), "123");
    assert_eq!(AtCoder(123_u64).to_string(), "123");
    assert_eq!(AtCoder(123_u128).to_string(), "123");
    assert_eq!(AtCoder(123_usize).to_string(), "123");

    assert_eq!(AtCoder(-123_i8 as i64).to_string(), "-123");
    assert_eq!(AtCoder(-123_i16).to_string(), "-123");
    assert_eq!(AtCoder(-123_i32).to_string(), "-123");
    assert_eq!(AtCoder(-123_i64).to_string(), "-123");
    assert_eq!(AtCoder(-123_i128).to_string(), "-123");
    assert_eq!(AtCoder(-123_isize).to_string(), "-123");
}

#[test]
fn test_str() {
    assert_eq!(AtCoder('A').to_string(), "A");
    assert_eq!(AtCoder("Hello").to_string(), "Hello");
    assert_eq!(AtCoder("World".to_string()).to_string(), "World");
}

#[test]
fn test_bool() {
    assert_eq!(AtCoder(true).to_string(), "Yes");
    assert_eq!(AtCoder(false).to_string(), "No");
}

#[test]
fn test_vec() {
    assert_eq!(AtCoder(vec![1i64, 2, 3]).to_string(), "1 2 3");
}

#[test]
fn test_vertical() {
    assert_eq!(AtCoder(Vertical(vec![1i64, 2, 3])).to_string(), "1\n2\n3");
}

#[test]
fn test_mat() {
    assert_eq!(
        AtCoder(Mat(vec![vec![1i64, 2, 3], vec![4, 5, 6], vec![7, 8, 9]])).to_string(),
        "1 2 3\n4 5 6\n7 8 9"
    );

    assert_eq!(
        AtCoder(Mat(vec![
            vec!['a', 'b', 'c'],
            vec!['d', 'e', 'f'],
            vec!['g', 'h', 'i']
        ]))
        .to_string(),
        "abc\ndef\nghi"
    );
}

#[test]
fn test_option() {
    assert_eq!(AtCoder(Option::<i64>::None).to_string(), "-1");
    assert_eq!(AtCoder(Some(vec![1i64, 2, 3])).to_string(), "1 2 3");
}

#[test]
fn test_result() {
    let t: Result<Vec<i64>, &str> = Ok(vec![1, 2, 3]);
    assert_eq!(AtCoder(t).to_string(), "1 2 3");
    let t: Result<Vec<i64>, &str> = Err("Impossible");
    assert_eq!(AtCoder(t).to_string(), "Impossible");
}

#[test]
fn number_rendering_edges() {
    assert_eq!(AtCoder(0u64).to_string(), "0");
    assert_eq!(AtCoder(0i64).to_string(), "0");
    assert_eq!(AtCoder(u64::MAX).to_string(), "18446744073709551615");
    assert_eq!(AtCoder(i64::MIN).to_string(), "-9223372036854775808");
    assert_eq!(AtCoder(10i64).to_string(), "10");
    assert_eq!(AtCoder(Vertical(Vec::<i64>::new())).to_string(), "");
}
