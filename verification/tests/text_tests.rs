use llm_scratch_rs::text::{
    decimal_string, lines, padded_string, parse_usize, replace_char, split_at_char, split_whitespace, trim_start,
};

fn owned(list: &[&str]) -> Vec<String> {
    list.iter().map(|s| s.to_string()).collect()
}

#[test]
fn splitting_follows_the_standard_library() {
    for s in ["", "a", "a b", " a  b ", "\n", "a\nb", "x "] {
        assert_eq!(split_at_char(s, ' '), s.split(' ').map(String::from).collect::<Vec<_>>());
        assert_eq!(split_whitespace(s), s.split_whitespace().map(String::from).collect::<Vec<_>>());
        assert_eq!(lines(s), s.lines().map(String::from).collect::<Vec<_>>());
        assert_eq!(trim_start(s), s.trim_start());
    }
    assert_eq!(lines("a\r\nb"), owned(&["a", "b"]));
    assert_eq!(split_whitespace("a\u{3000}b\u{85}c"), owned(&["a", "b", "c"]));
}

#[test]
fn numbers_are_spelled_and_read() {
    assert_eq!(decimal_string(0), "0");
    assert_eq!(decimal_string(1024), "1024");
    assert_eq!(padded_string(7, 3), "007");
    assert_eq!(padded_string(12345, 3), "12345");
    assert_eq!(parse_usize("+42"), Some(42));
    assert_eq!(parse_usize(""), None);
    assert_eq!(parse_usize("+"), None);
    assert_eq!(parse_usize("-1"), None);
    assert_eq!(parse_usize("99999999999999999999999"), None);
    assert_eq!(replace_char("▁a▁b", '▁', ' '), " a b");
}
