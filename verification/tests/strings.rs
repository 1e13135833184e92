use rgitstats::strings::{chars_of, find_char, has_prefix, some_string, trim_range};

#[test]
fn test_some_string() {
    assert_eq!(some_string("".to_string()), None);
    assert_eq!(some_string("value".to_string()), Some("value".to_string()))
}

#[test]
fn some_string_keeps_white_space() {
    assert_eq!(some_string(" ".to_string()), Some(" ".to_string()));
}

#[test]
fn chars_of_counts_characters_not_bytes() {
    assert_eq!(chars_of(""), Vec::<char>::new());
    assert_eq!(chars_of("a(é)"), vec!['a', '(', 'é', ')']);
}

#[test]
fn has_prefix_cases() {
    assert!(has_prefix(&chars_of("merged"), &chars_of("merge")));
    assert!(has_prefix(&chars_of("merge"), &chars_of("merge")));
    assert!(has_prefix(&chars_of("merge"), &chars_of("")));
    assert!(!has_prefix(&chars_of("merg"), &chars_of("merge")));
    assert!(!has_prefix(&chars_of("emerge"), &chars_of("merge")));
}

#[test]
fn find_char_gives_the_first_position() {
    let text = chars_of("a:b:c");
    assert_eq!(find_char(&text, text.len(), ':'), Some(1));
    assert_eq!(find_char(&text, 1, ':'), None);
    assert_eq!(find_char(&text, 0, 'a'), None);
    assert_eq!(find_char(&text, text.len(), '('), None);
}

#[test]
fn trim_range_drops_white_space_at_both_ends() {
    let text = chars_of("x  a b \t\u{a0}y");
    assert_eq!(trim_range(&text, 1, 9), (3, 6));
    assert_eq!(trim_range(&text, 3, 6), (3, 6));
    assert_eq!(trim_range(&text, 1, 3), (3, 3));
    assert_eq!(trim_range(&text, 4, 4), (4, 4));
}
