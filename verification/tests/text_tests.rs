use geo::text::{parse_isize, push_decimal, split_whitespace, word_is};

fn chars(s: &str) -> Vec<char> {
    s.chars().collect()
}

#[test]
fn split_whitespace_finds_maximal_runs() {
    let t = chars("  ab c\t\n d\u{2003}ef  ");
    assert_eq!(split_whitespace(&t), vec![(2, 4), (5, 6), (9, 10), (11, 13)]);
    assert!(split_whitespace(&chars("")).is_empty());
    assert!(split_whitespace(&chars(" \u{85}\u{a0}\u{3000} ")).is_empty());
    assert_eq!(split_whitespace(&chars("x")), vec![(0, 1)]);
    // U+200B (zero width space) is not whitespace
    assert_eq!(split_whitespace(&chars("a\u{200b}b")), vec![(0, 3)]);
    let text = "solid  name\nendsolid";
    let expected: Vec<&str> = text.split_whitespace().collect();
    let t = chars(text);
    let got: Vec<String> = split_whitespace(&t).iter().map(|&(s, e)| t[s..e].iter().collect()).collect();
    assert_eq!(got, expected);
}

#[test]
fn word_is_compares_whole_words() {
    let t = chars("facet normal");
    assert!(word_is(&t, (0, 5), &['f', 'a', 'c', 'e', 't']));
    assert!(!word_is(&t, (0, 4), &['f', 'a', 'c', 'e', 't']));
    assert!(!word_is(&t, (6, 12), &['f', 'a', 'c', 'e', 't']));
}

#[test]
fn parse_isize_agrees_with_std() {
    for s in [
        "0", "1", "-1", "+7", "42", "-", "+", "", "1a", " 1", "1/2", "--1", "007",
        "9223372036854775807", "9223372036854775808", "-9223372036854775808",
        "-9223372036854775809", "2147483648", "99999999999999999999999",
    ] {
        assert_eq!(parse_isize(&chars(s)), s.parse::<isize>().ok(), "{}", s);
    }
}

#[test]
fn push_decimal_writes_base_ten() {
    let mut out = b"x=".to_vec();
    push_decimal(&mut out, 0);
    out.push(b' ');
    push_decimal(&mut out, 1920);
    out.push(b' ');
    push_decimal(&mut out, u32::MAX);
    assert_eq!(out, b"x=0 1920 4294967295".to_vec());
}
