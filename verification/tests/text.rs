use foxguard::bytes::slice_bytes;
use foxguard::paths::{components, file_name, is_absolute, join_path, normalize, PathPart};
use foxguard::text::{
    after_last, at_most, contains, decimal_string, eq_ignore_ascii_case, lines, parse_u64, replace,
    split, split_once, strip_prefix, to_ascii_lowercase, trim, words, Spacing,
};

#[test]
fn texts_are_taken_apart_as_the_standard_library_does() {
    for s in ["", "a", "a\n", "a\r\nb", "\n\n", "a\rb\n", " x "] {
        assert_eq!(lines(s), s.lines().map(str::to_string).collect::<Vec<_>>(), "{s:?}");
        assert_eq!(trim(s), s.trim());
        assert_eq!(split(s, '\n'), s.split('\n').map(str::to_string).collect::<Vec<_>>());
    }
    for s in ["a b", " a  b\u{a0}c ", "\u{3000}x\u{85}"] {
        assert_eq!(
            words(s, Spacing::Unicode),
            s.split_whitespace().map(str::to_string).collect::<Vec<_>>()
        );
        assert_eq!(trim(s), s.trim());
    }
    assert_eq!(split_once("a=b=c", '='), Some(("a".to_string(), "b=c".to_string())));
    assert_eq!(split_once("abc", '='), None);
    assert_eq!(strip_prefix("file://x", "file://").as_deref(), Some("x"));
    assert_eq!(replace("aaa", "aa", "b"), "aaa".replace("aa", "b"));
    assert!(contains("abc", ""));
    assert!(eq_ignore_ascii_case("CodeQL", "codeql"));
    assert_eq!(to_ascii_lowercase("ÄB"), "ÄB".to_ascii_lowercase());
    assert_eq!(after_last("a.b.c", '.').as_deref(), Some("c"));
    assert_eq!(after_last("abc", '.'), None);
}

#[test]
fn numbers_are_written_and_read_back() {
    for n in [0, 9, 10, 4711, u64::MAX] {
        assert_eq!(decimal_string(n), n.to_string());
        assert_eq!(parse_u64(&n.to_string()), Some(n));
    }
    for s in ["", "+", "+7", "-7", "7x", "18446744073709551616", "007"] {
        assert_eq!(parse_u64(s), s.parse::<u64>().ok(), "{s:?}");
    }
}

#[test]
fn texts_are_ordered_by_code_point() {
    for (a, b) in [("", "a"), ("a", "ab"), ("b", "ab"), ("é", "z"), ("x", "x")] {
        assert_eq!(at_most(a, b), a <= b);
        assert_eq!(at_most(b, a), b <= a);
    }
    assert_eq!(slice_bytes("aéb", 1, 3), "é");
}

#[test]
fn paths_are_taken_apart_and_normalised() {
    assert_eq!(
        components("/a/./b/../c"),
        vec![
            PathPart::Root,
            PathPart::Name("a".to_string()),
            PathPart::Name("b".to_string()),
            PathPart::Parent,
            PathPart::Name("c".to_string()),
        ]
    );
    assert_eq!(normalize("/a/./b/../c"), Some(vec!["a".to_string(), "c".to_string()]));
    assert_eq!(normalize("../a"), None);
    assert_eq!(file_name("a/b/"), Some("b".to_string()));
    assert_eq!(file_name("a/.."), None);
    assert!(is_absolute("/a"));
    assert!(!is_absolute("a"));
    assert_eq!(join_path("/a", "b"), "/a/b");
    assert_eq!(join_path("/a", "/b"), "/b");
}
