use mintcheck::scan::{find_keyword_exec, find_matching_brace, keyword_at_exec};

#[test]
fn keyword_is_not_found_inside_a_character() {
    let text = "\u{e9}";
    assert!(!keyword_at_exec(text.as_bytes(), 1, b""));
    assert!(keyword_at_exec(text.as_bytes(), 0, b""));
}

#[test]
fn keyword_needs_identifier_boundaries() {
    assert!(!keyword_at_exec(b"uint256 x", 0, b"uint"));
    assert!(!keyword_at_exec(b"mycontract", 2, b"contract"));
    assert!(keyword_at_exec(b"a contract", 2, b"contract"));
    assert!(!keyword_at_exec(b"contract", 9, b"contract"));
}

#[test]
fn keyword_search_from_inside_a_character_finds_nothing() {
    let text = "\u{e9} contract X";
    assert_eq!(find_keyword_exec(text.as_bytes(), b"contract", 1), None);
    assert_eq!(find_keyword_exec(text.as_bytes(), b"contract", 0), Some(3));
    assert_eq!(find_keyword_exec(text.as_bytes(), b"contract", 2), Some(3));
    assert_eq!(find_keyword_exec(text.as_bytes(), b"contract", 99), None);
}

#[test]
fn matching_brace_is_where_the_counts_first_balance() {
    let text = b"{ a { b } { } c } d }";
    assert_eq!(find_matching_brace(text, 0), Some(16));
    assert_eq!(find_matching_brace(text, 4), Some(8));
    assert_eq!(find_matching_brace(b"{ { }", 0), None);
}
