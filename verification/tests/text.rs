use crusts::text::{
    chars_of, contains_str, join_strings, lines_of, parse_usize, replace_all_chars,
    replace_first_chars, split_chars, string_from_chars, trim_chars,
};

fn chars(s: &str) -> Vec<char> {
    s.chars().collect()
}

fn text(v: &Vec<char>) -> String {
    string_from_chars(v, 0, v.len())
}

#[test]
fn replace_all_is_left_to_right_and_not_overlapping() {
    assert_eq!(text(&replace_all_chars(&chars("aaaa"), &chars("aa"), &chars("b"))), "bb");
    assert_eq!(text(&replace_all_chars(&chars("x.c.c"), &chars(".c"), &chars(".o"))), "x.o.o");
    assert_eq!(text(&replace_all_chars(&chars("abc"), &chars("zz"), &chars("y"))), "abc");
}

#[test]
fn replace_first_changes_one_occurrence() {
    assert_eq!(
        text(&replace_first_chars(&chars("unsafe unsafe"), &chars("unsafe"), &chars(""))),
        " unsafe"
    );
    assert_eq!(text(&replace_first_chars(&chars("safe"), &chars("unsafe"), &chars(""))), "safe");
}

#[test]
fn lines_follow_std() {
    for s in ["", "a", "a\n", "a\r\nb", "\n\n", "a\r", "x\n\ry", "é\nü\r\n"] {
        let expected: Vec<String> = s.lines().map(|l| l.to_string()).collect();
        assert_eq!(lines_of(s), expected, "lines of {:?}", s);
    }
}

#[test]
fn split_follows_std() {
    for s in ["", ",", "a,b", "a,,b,", "abc"] {
        let expected: Vec<String> = s.split(',').map(|l| l.to_string()).collect();
        let got: Vec<String> = split_chars(&chars(s), ',').iter().map(|f| text(f)).collect();
        assert_eq!(got, expected);
    }
}

#[test]
fn trim_follows_std() {
    for s in ["", "  ", " a b ", "\u{3000}x\u{a0}", "\t\n y\r"] {
        let v = chars(s);
        assert_eq!(trim_chars(&v, 0, v.len()), s.trim());
    }
}

#[test]
fn parse_usize_follows_std() {
    for s in ["0", "+7", "42", "", "+", "-1", "1a", "18446744073709551615", "18446744073709551616", "007"] {
        assert_eq!(parse_usize(&chars(s)), s.parse::<usize>().ok(), "parse {:?}", s);
    }
}

#[test]
fn contains_and_join() {
    assert!(contains_str("pub unsafe fn", "unsafe"));
    assert!(!contains_str("pub fn", "unsafe"));
    assert!(contains_str("abc", ""));
    assert_eq!(chars_of("héllo"), chars("héllo"));
    let parts = vec!["a".to_string(), "b".to_string(), "c".to_string()];
    assert_eq!(join_strings(&parts, " \\\n"), "a \\\nb \\\nc");
    assert_eq!(join_strings(&vec![], "-"), "");
}

