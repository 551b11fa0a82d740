use rbac_proxy::text::{
    decimal_text, padded_signed_text, padded_text, same_text, split_once_text, split_text,
    words_of,
};

#[test]
fn split_matches_std() {
    for (s, sep) in [("a,b,,c", ","), ("", ","), (",", ","), ("a\r\nb\r\n", "\r\n"), ("aaa", "aa"), ("x", "xyz")] {
        let expected: Vec<String> = s.split(sep).map(|p| p.to_string()).collect();
        assert_eq!(split_text(s, sep), expected, "splitting {:?} on {:?}", s, sep);
    }
}

#[test]
fn split_once_matches_splitn() {
    assert_eq!(split_once_text("Host: a: b", ": "), Some(("Host".to_string(), "a: b".to_string())));
    assert_eq!(split_once_text("Host:a", ": "), None);
    assert_eq!(split_once_text("", ": "), None);
    assert_eq!(split_once_text(": ", ": "), Some((String::new(), String::new())));
}

#[test]
fn words_match_split_whitespace() {
    let s = " a\tb\u{3000}c  \n d ";
    let expected: Vec<String> = s.split_whitespace().map(|p| p.to_string()).collect();
    assert_eq!(words_of(s), expected);
    assert_eq!(words_of("   "), Vec::<String>::new());
}

#[test]
fn numbers_are_written_like_format() {
    for n in [0u64, 7, 10, 99, 1331, u64::MAX] {
        assert_eq!(decimal_text(n), format!("{}", n));
        assert_eq!(padded_text(n, 4), format!("{:04}", n));
    }
    for n in [0i64, 5, -5, -123, i64::MIN, i64::MAX] {
        assert_eq!(padded_signed_text(n, 4), format!("{:04}", n));
        assert_eq!(padded_signed_text(n, 0), format!("{}", n));
    }
}

#[test]
fn same_text_compares_contents() {
    assert!(same_text("abc", "abc"));
    assert!(!same_text("abc", "abd"));
}
