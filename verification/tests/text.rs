use mcfly_history::text::{chars_of, contains_chars, occurs_at_index, starts_with_chars, str_contains, str_starts_with};

#[test]
fn chars_of_keeps_every_character() {
    assert_eq!(chars_of("git"), vec!['g', 'i', 't']);
    assert_eq!(chars_of(""), Vec::<char>::new());
    assert_eq!(chars_of("né"), vec!['n', 'é']);
}

#[test]
fn contains_finds_a_piece_anywhere() {
    assert!(str_contains("git commit", "git"));
    assert!(str_contains("git commit", "mit"));
    assert!(str_contains("git commit", "t c"));
    assert!(!str_contains("git commit", "push"));
    assert!(!str_contains("git", "git commit"));
}

#[test]
fn contains_takes_the_empty_piece() {
    assert!(str_contains("make", ""));
    assert!(str_contains("", ""));
    assert!(!str_contains("", "a"));
}

#[test]
fn contains_tells_upper_from_lower_case() {
    assert!(!str_contains("make", "MAKE"));
    assert!(str_contains("Make", "M"));
    assert!(!str_contains("Make", "m"));
}

#[test]
fn contains_takes_wildcard_characters_literally() {
    assert!(!str_contains("make", "m%e"));
    assert!(!str_contains("make", "m_ke"));
    assert!(str_contains("100%", "%"));
}

#[test]
fn starts_with_looks_at_the_front_only() {
    assert!(str_starts_with("#mcfly: ls", "#mcfly:"));
    assert!(!str_starts_with("echo #mcfly:", "#mcfly:"));
    assert!(str_starts_with("ls", ""));
    assert!(!str_starts_with("l", "ls"));
}

#[test]
fn occurs_at_index_checks_one_position() {
    let s = chars_of("abcabc");
    let p = chars_of("bc");
    assert!(!occurs_at_index(&s, &p, 0));
    assert!(occurs_at_index(&s, &p, 1));
    assert!(occurs_at_index(&s, &p, 4));
    assert!(contains_chars(&s, &p));
    assert!(!starts_with_chars(&s, &p));
}
