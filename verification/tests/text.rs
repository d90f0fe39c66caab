use lezeh::text::{
    ends_with_str, join_strings, lines_of, replace_str, split_once_char, split_str, trim_char,
    trim_str, usize_text,
};

#[test]
fn splitting_and_joining_give_the_text_back() {
    for text in ["a,b,,c", "", ",", "abc"] {
        let pieces = split_str(text, ',');
        assert_eq!(pieces, text.split(',').map(String::from).collect::<Vec<_>>());
        assert_eq!(join_strings(&pieces, ","), text);
    }
}

#[test]
fn lines_follow_str_lines() {
    for text in ["a\nb", "a\r\nb\n", "", "\n", "x\r", "a\n\nb"] {
        assert_eq!(lines_of(text), text.lines().map(String::from).collect::<Vec<_>>());
    }
}

#[test]
fn trimming_replacing_and_numbers() {
    assert_eq!(trim_str("  a b \t"), "a b");
    assert_eq!(trim_char("''x''", '\''), "x");
    assert_eq!(replace_str("1,000.00", ".00", ""), "1,000");
    assert!(ends_with_str("1.00", ".00"));
    assert!(!ends_with_str("00", ".00"));
    assert_eq!(split_once_char("a:b:c", ':'), Some(("a".to_owned(), "b:c".to_owned())));
    assert_eq!(split_once_char("abc", ':'), None);
    assert_eq!(usize_text(0), "0");
    assert_eq!(usize_text(1907), "1907");
}
