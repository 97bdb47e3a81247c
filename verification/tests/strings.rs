use ollamamq::strings::{normalize_base_url, str_eq, str_lt};

#[test]
fn lexicographic_order_basic() {
    assert!(str_lt("alice", "bob"));
    assert!(!str_lt("bob", "alice"));
    assert!(!str_lt("alice", "alice"));
    assert!(str_lt("", "a"));
    assert!(!str_lt("a", ""));
    assert!(str_lt("abc", "abd"));
    assert!(str_lt("ab", "abc"));
    assert!(!str_lt("abc", "ab"));
}

#[test]
fn lexicographic_order_matches_str_order() {
    let words = ["", "a", "adam", "alice", "bob", "carol", "zoe", "zz", "Ω"];
    for x in words.iter() {
        for y in words.iter() {
            assert_eq!(str_lt(x, y), x < y, "order of {:?} and {:?}", x, y);
        }
    }
}

#[test]
fn string_equality() {
    assert!(str_eq("alice", "alice"));
    assert!(!str_eq("alice", "bob"));
    assert!(!str_eq("alice", "alic"));
    assert!(str_eq("", ""));
    assert!(!str_eq("", "x"));
}

#[test]
fn base_url_trailing_slashes_are_stripped() {
    assert_eq!(normalize_base_url("http://localhost:11434/").as_str(), "http://localhost:11434");
    assert_eq!(normalize_base_url("http://localhost:11434").as_str(), "http://localhost:11434");
    assert_eq!(normalize_base_url("http://h///").as_str(), "http://h");
    assert_eq!(normalize_base_url("///").as_str(), "");
    assert_eq!(normalize_base_url("").as_str(), "");
}
