use parasect::util::text::{decimal, str_contains, str_replace, str_split};

#[test]
fn decimal_text_of_numbers() {
    assert_eq!(decimal(0), "0");
    assert_eq!(decimal(7), "7");
    assert_eq!(decimal(-120), "-120");
    assert_eq!(decimal(i64::MAX), "9223372036854775807");
    assert_eq!(decimal(i64::MIN), "-9223372036854775808");
}

#[test]
fn replace_matches_std() {
    for (s, p, r) in [("a$Xb$X", "$X", "1"), ("aaa", "aa", "b"), ("abc", "", "-"), ("", "", "x"), ("xyz", "q", "r")] {
        assert_eq!(str_replace(s, p, r), s.replace(p, r));
    }
}

#[test]
fn split_matches_std() {
    for (s, p) in [("a$Xb$X", "$X"), ("aaa", "aa"), ("", "x"), ("xyz", "q"), ("$X", "$X")] {
        let expected: Vec<String> = s.split(p).map(|x| x.to_string()).collect();
        assert_eq!(str_split(s, p), expected);
    }
}

#[test]
fn contains_matches_std() {
    for (s, p) in [("a$Xb", "$X"), ("abc", ""), ("", ""), ("ab", "abc"), ("abc", "bd")] {
        assert_eq!(str_contains(s, p), s.contains(p));
    }
}
