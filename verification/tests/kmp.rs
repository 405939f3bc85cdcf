use competitive::kmp::{kmp_find, kmp_find_all, KMP};

#[test]
fn test_kmp() {
    assert_eq!(kmp_find_all(b"abcdefabcdef", b"abc"), &[0, 6]);
    assert_eq!(kmp_find_all(b"abcdefabcdef", b"xxx"), &[]);
    assert_eq!(kmp_find_all(b"aaaaaa", b"aaa"), &[0, 1, 2, 3]);
}

#[test]
fn kmp_find_first() {
    assert_eq!(kmp_find(b"abcdefabcdef", b"abc"), Some(0));
    assert_eq!(kmp_find(b"abcdefabcdef", b"def"), Some(3));
    assert_eq!(kmp_find(b"abcdefabcdef", b"xxx"), None);
    assert_eq!(kmp_find(b"", b"a"), None);
    assert_eq!(kmp_find(b"mississippi", b"issi"), Some(1));
}

#[test]
fn kmp_reuse_matcher() {
    let m = KMP::new(b"aba");
    assert_eq!(m.find(b"xxabay"), Some(2));
    assert_eq!(m.find_all(b"ababa"), &[0, 2]);
    assert_eq!(m.find(b"bb"), None);
}
