use shenhe::numbers::parse_i32;
use shenhe::tokens::{chars_are_blank, split_tokens, trim_end};

fn tokens_of(text: &str) -> Vec<String> {
    let chars: Vec<char> = text.chars().collect();
    split_tokens(&chars).into_iter().map(|t| t.into_iter().collect()).collect()
}

#[test]
fn split_tokens_cuts_at_runs_of_white_space() {
    assert_eq!(tokens_of("a b"), vec!["a", "b"]);
    assert_eq!(tokens_of("  a \t\n b  "), vec!["a", "b"]);
    assert_eq!(tokens_of("one"), vec!["one"]);
    assert_eq!(tokens_of(""), Vec::<String>::new());
    assert_eq!(tokens_of(" \u{a0}\u{3000}\r\n"), Vec::<String>::new());
    assert_eq!(tokens_of("x\u{a0}y\u{3000}z\u{2028}w"), vec!["x", "y", "z", "w"]);
    assert_eq!(tokens_of("in someone's pocket,"), vec!["in", "someone's", "pocket,"]);
}

#[test]
fn split_tokens_agrees_with_split_whitespace() {
    let samples = [
        "",
        " ",
        "a",
        " a",
        "a ",
        "I think this is in someone's pocket, but I'm not ascertained.",
        "\u{9}\u{a}\u{b}\u{c}\u{d}\u{20}\u{85}\u{a0}\u{1680}x\u{2000}\u{2001}\u{2002}\u{2003}y",
        "\u{2004}\u{2005}\u{2006}\u{2007}\u{2008}\u{2009}\u{200a}z\u{2028}\u{2029}\u{202f}\u{205f}\u{3000}",
        "zero\u{200b}width\u{feff}is no space",
        "大家 好，世界！",
    ];
    for sample in samples {
        let expected: Vec<String> = sample.split_whitespace().map(|t| t.to_string()).collect();
        assert_eq!(tokens_of(sample), expected, "{:?}", sample);
    }
}

#[test]
fn trim_end_removes_trailing_white_space_only() {
    let cases = [("a b \t\n", "a b"), ("  a", "  a"), ("", ""), (" \u{3000} ", ""), ("x\u{a0}", "x"), ("x.", "x.")];
    for (input, expected) in cases {
        let mut chars: Vec<char> = input.chars().collect();
        trim_end(&mut chars);
        assert_eq!(chars.into_iter().collect::<String>(), expected);
        assert_eq!(input.trim_end(), expected);
    }
}

#[test]
fn chars_are_blank_means_white_space_only() {
    for (input, expected) in [("", true), (" ", true), ("\n\t \u{a0}", true), (" a ", false), ("。", false)] {
        let chars: Vec<char> = input.chars().collect();
        assert_eq!(chars_are_blank(&chars), expected, "{:?}", input);
        assert_eq!(input.trim().is_empty(), expected);
    }
}

#[test]
fn parse_i32_reads_signed_decimals() {
    assert_eq!(parse_i32("0"), Some(0));
    assert_eq!(parse_i32("7"), Some(7));
    assert_eq!(parse_i32("+5"), Some(5));
    assert_eq!(parse_i32("-5"), Some(-5));
    assert_eq!(parse_i32("-0"), Some(0));
    assert_eq!(parse_i32("0042"), Some(42));
    assert_eq!(parse_i32("2147483647"), Some(i32::MAX));
    assert_eq!(parse_i32("-2147483648"), Some(i32::MIN));
    assert_eq!(parse_i32("000000000000000000002147483647"), Some(i32::MAX));
}

#[test]
fn parse_i32_refuses_everything_else() {
    for text in [
        "", "+", "-", "+-1", "--1", "1-", "12a", "a12", " 1", "1 ", "1.0", "0x10", "1_000", "１２",
        "٣", "2147483648", "-2147483649", "99999999999999999999", "-99999999999999999999",
    ] {
        assert_eq!(parse_i32(text), None, "{:?}", text);
    }
}

#[test]
fn parse_i32_agrees_with_from_str() {
    for text in [
        "", "0", "-0", "+0", "1", "-1", "+1", "10", "2147483646", "2147483647", "2147483648",
        "-2147483647", "-2147483648", "-2147483649", "4294967296", "00", "-00012", "+", "-", "a",
        "1a", " 1", "1\n",
    ] {
        assert_eq!(parse_i32(text), text.parse::<i32>().ok(), "{:?}", text);
    }
}
