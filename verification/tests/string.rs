use quantum_stdlib::{String, StringError};

#[test]
fn new_string_is_empty() {
    let s = String::new();
    assert!(s.is_empty());
    assert_eq!(s.len(), 0);
}

#[test]
fn from_bytes_accepts_utf8() {
    let s = String::from_bytes(b"hello").unwrap();
    assert_eq!(s.len(), 5);
    assert_eq!(s.as_bytes(), b"hello");
}

#[test]
fn from_bytes_rejects_invalid_utf8() {
    let err = String::from_bytes(&[0xFF, 0xFE]).unwrap_err();
    assert_eq!(err, StringError::InvalidUtf8);
}

#[test]
fn from_str_holds_the_encoding() {
    let s = String::from_str("hello");
    assert_eq!(s.len(), 5);
    assert_eq!(s.as_bytes(), b"hello");
    let accented = String::from_str("caf\u{e9}");
    assert_eq!(accented.len(), 5);
}

#[test]
fn as_str_round_trips_valid_utf8() {
    let s = String::from_str("hello");
    assert_eq!(s.as_str().unwrap(), "hello");
    let bad = String::from_bytes(b"ok").unwrap();
    assert_eq!(bad.as_str().unwrap(), "ok");
}

#[test]
fn push_str_appends_bytes() {
    let mut s = String::from_str("hello");
    s.push_str(&String::from_str(" world"));
    assert_eq!(s.as_str().unwrap(), "hello world");
}

#[test]
fn push_char_appends_one_character() {
    let mut s = String::from_str("hello");
    s.push_char('!');
    assert_eq!(s.as_str().unwrap(), "hello!");
    s.push_char('\u{e9}');
    assert_eq!(s.as_str().unwrap(), "hello!\u{e9}");
    assert_eq!(s.len(), 8);
}

#[test]
fn contains_finds_substrings() {
    let s = String::from_str("hello world");
    assert!(s.contains(&String::from_str("world")));
    assert!(s.contains(&String::from_str("hello")));
    assert!(s.contains(&String::from_str("o w")));
    assert!(!s.contains(&String::from_str("foo")));
    assert!(!s.contains(&String::from_str("hello world plus")));
}

#[test]
fn find_gives_the_first_byte_position() {
    let s = String::from_str("hello world");
    assert_eq!(s.find(&String::from_str("world")), Some(6));
    assert_eq!(s.find(&String::from_str("o")), Some(4));
    assert_eq!(s.find(&String::from_str("foo")), None);
}

#[test]
fn substring_slices_by_byte_range() {
    let s = String::from_str("hello");
    let sub = s.substring(1, 4).unwrap();
    assert_eq!(sub.as_str().unwrap(), "ell");
    let whole = s.substring(0, 5).unwrap();
    assert_eq!(whole.as_str().unwrap(), "hello");
    let empty = s.substring(2, 2).unwrap();
    assert!(empty.is_empty());
}

#[test]
fn substring_rejects_bad_ranges() {
    let s = String::from_str("hello");
    assert_eq!(s.substring(4, 2).unwrap_err(), StringError::InvalidIndices);
    assert_eq!(s.substring(0, 6).unwrap_err(), StringError::InvalidIndices);
    assert_eq!(s.substring(9, 9).unwrap_err(), StringError::InvalidIndices);
}

#[test]
fn uppercase_and_lowercase_convert() {
    let s = String::from_str("hello");
    assert_eq!(s.to_uppercase().as_str().unwrap(), "HELLO");
    let t = String::from_str("HELLO");
    assert_eq!(t.to_lowercase().as_str().unwrap(), "hello");
    let mixed = String::from_str("MiXeD 123");
    assert_eq!(mixed.to_uppercase().as_str().unwrap(), "MIXED 123");
    assert_eq!(mixed.to_lowercase().as_str().unwrap(), "mixed 123");
}

#[test]
fn trim_strips_surrounding_whitespace() {
    let s = String::from_str("  hello  ");
    assert_eq!(s.trim().as_str().unwrap(), "hello");
    let t = String::from_str("\t x \n");
    assert_eq!(t.trim().as_str().unwrap(), "x");
    let clean = String::from_str("clean");
    assert_eq!(clean.trim().as_str().unwrap(), "clean");
}

#[test]
fn split_by_delimiter() {
    let s = String::from_str("hello,world,foo");
    let parts = s.split(&String::from_str(","));
    assert_eq!(parts.len(), 3);
    assert_eq!(parts[0].as_str().unwrap(), "hello");
    assert_eq!(parts[1].as_str().unwrap(), "world");
    assert_eq!(parts[2].as_str().unwrap(), "foo");
}

#[test]
fn split_with_empty_or_absent_delimiter_gives_the_whole() {
    let s = String::from_str("hello");
    let by_empty = s.split(&String::new());
    assert_eq!(by_empty.len(), 1);
    assert_eq!(by_empty[0].as_str().unwrap(), "hello");
    let by_absent = s.split(&String::from_str("zz"));
    assert_eq!(by_absent.len(), 1);
    assert_eq!(by_absent[0].as_str().unwrap(), "hello");
}

#[test]
fn split_keeps_empty_pieces_at_the_edges() {
    let s = String::from_str(",a,,b,");
    let parts = s.split(&String::from_str(","));
    assert_eq!(parts.len(), 5);
    assert_eq!(parts[0].as_str().unwrap(), "");
    assert_eq!(parts[1].as_str().unwrap(), "a");
    assert_eq!(parts[2].as_str().unwrap(), "");
    assert_eq!(parts[3].as_str().unwrap(), "b");
    assert_eq!(parts[4].as_str().unwrap(), "");
}

#[test]
fn repeat_concatenates_copies() {
    let s = String::from_str("ab");
    assert_eq!(s.repeat(3).as_str().unwrap(), "ababab");
    assert_eq!(s.repeat(0).len(), 0);
    assert_eq!(s.repeat(1).as_str().unwrap(), "ab");
}

#[test]
fn replace_substitutes_every_occurrence() {
    let s = String::from_str("hello world");
    let replaced = s.replace(&String::from_str("world"), &String::from_str("there"));
    assert_eq!(replaced.as_str().unwrap(), "hello there");
    let multi = String::from_str("a-b-c");
    let dots = multi.replace(&String::from_str("-"), &String::from_str("."));
    assert_eq!(dots.as_str().unwrap(), "a.b.c");
    let untouched = s.replace(&String::from_str("zz"), &String::from_str("x"));
    assert_eq!(untouched.as_str().unwrap(), "hello world");
    let by_empty = s.replace(&String::new(), &String::from_str("x"));
    assert_eq!(by_empty.as_str().unwrap(), "hello world");
}

#[test]
fn starts_with_and_ends_with_check_the_edges() {
    let s = String::from_str("hello world");
    assert!(s.starts_with(&String::from_str("hello")));
    assert!(!s.starts_with(&String::from_str("world")));
    assert!(s.ends_with(&String::from_str("world")));
    assert!(!s.ends_with(&String::from_str("hello")));
    assert!(s.starts_with(&String::new()));
    assert!(s.ends_with(&String::new()));
    assert!(!s.starts_with(&String::from_str("hello world plus")));
    assert!(!s.ends_with(&String::from_str("a much longer suffix")));
}
