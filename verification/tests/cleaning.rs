use shenhe::cleaner::stem_bounds;
use shenhe::text::{char_is_decoration, char_is_whitespace, chars_to_string, push_chars, push_str_chars, str_chars};
use shenhe::{Clean, Cleaner};

#[test]
fn test_clean_word() {
    let test_cases = vec![
        (
            ", Hello, World，大家！!*•-&",
            true,
            "hello, world，大家！",
            ", ",
            "!*•-&",
        ),
        (
            "Hello, World，大家！!*•-&",
            false,
            "Hello, World，大家！",
            "",
            "!*•-&",
        ),
    ];
    for (word, lowercase, expected_cleaned_word, expected_prefix, expected_suffix) in test_cases {
        let (cleaned_word, prefix, suffix) = Cleaner::clean_word(word, lowercase);
        assert_eq!(cleaned_word, expected_cleaned_word);
        assert_eq!(prefix, expected_prefix);
        assert_eq!(suffix, expected_suffix);
    }
}

#[test]
fn clean_word_of_empty_input_is_three_empty_strings() {
    for lowercase in [false, true] {
        let (core, prefix, suffix) = Cleaner::clean_word("", lowercase);
        assert_eq!(core, "");
        assert_eq!(prefix, "");
        assert_eq!(suffix, "");
    }
}

#[test]
fn clean_word_of_decoration_only_has_an_empty_core() {
    let (core, prefix, suffix) = Cleaner::clean_word("-- *•", true);
    assert_eq!(core, "");
    assert_eq!(prefix, "-- *•");
    assert_eq!(suffix, "");
}

#[test]
fn clean_word_without_decoration_keeps_the_token() {
    let (core, prefix, suffix) = Cleaner::clean_word("Pocket", false);
    assert_eq!(core, "Pocket");
    assert_eq!(prefix, "");
    assert_eq!(suffix, "");
}

#[test]
fn clean_word_lowercases_the_core_only() {
    let (core, prefix, suffix) = Cleaner::clean_word("(SOCIABLE)", true);
    assert_eq!(core, "sociable");
    assert_eq!(prefix, "(");
    assert_eq!(suffix, ")");
    let (core, prefix, suffix) = Cleaner::clean_word("\"ÉTÉ?\"", true);
    assert_eq!(core, "été");
    assert_eq!(prefix, "\"");
    assert_eq!(suffix, "?\"");
}

#[test]
fn clean_word_keeps_decoration_inside_the_core() {
    let (core, prefix, suffix) = Cleaner::clean_word("<span>unreasonable</span>", true);
    assert_eq!(core, "span>unreasonable</span");
    assert_eq!(prefix, "<");
    assert_eq!(suffix, ">");
    let (core, _, _) = Cleaner::clean_word("someone's", true);
    assert_eq!(core, "someone's");
}

#[test]
fn clean_word_never_strips_full_width_punctuation() {
    let (core, prefix, suffix) = Cleaner::clean_word("，大家！", false);
    assert_eq!(core, "，大家！");
    assert_eq!(prefix, "");
    assert_eq!(suffix, "");
    let (core, prefix, suffix) = Cleaner::clean_word("“quoted”—", false);
    assert_eq!(core, "“quoted”—");
    assert_eq!(prefix, "");
    assert_eq!(suffix, "");
}

#[test]
fn clean_word_round_trips() {
    let tokens = [
        "",
        "word",
        "...",
        ", Hello, World，大家！!*•-&",
        "(a)",
        "a)",
        "(a",
        "•",
        " spaced out ",
        "x",
        "!",
        "ＡＢＣ。",
    ];
    for token in tokens {
        let (core, prefix, suffix) = Cleaner::clean_word(token, false);
        assert_eq!(format!("{}{}{}", prefix, core, suffix), token);
        let (lower, lower_prefix, lower_suffix) = Cleaner::clean_word(token, true);
        assert_eq!(lower, core.to_lowercase());
        assert_eq!(lower_prefix, prefix);
        assert_eq!(lower_suffix, suffix);
        assert!(prefix.chars().all(char_is_decoration));
        assert!(suffix.chars().all(char_is_decoration));
        if let Some(first) = core.chars().next() {
            assert!(!char_is_decoration(first));
        }
        if let Some(last) = core.chars().last() {
            assert!(!char_is_decoration(last));
        }
    }
}

#[test]
fn decoration_is_space_ascii_punctuation_and_bullet() {
    for c in (0u32..=0x10FFFF).filter_map(char::from_u32) {
        let expected = c == ' ' || c.is_ascii_punctuation() || c == '•';
        assert_eq!(char_is_decoration(c), expected, "{:?}", c);
    }
}

#[test]
fn decoration_stops_at_the_edges_of_its_ranges() {
    for c in [' ', '!', '/', ':', '@', '[', '`', '{', '~', '•', '&', '*', '-', ',', '.'] {
        assert!(char_is_decoration(c), "{:?}", c);
    }
    for c in ['\u{1f}', '0', '9', 'A', 'Z', 'a', 'z', '\u{7f}', '\t', '\n', '，', '！', '。', '–', '…'] {
        assert!(!char_is_decoration(c), "{:?}", c);
    }
}

#[test]
fn whitespace_is_the_unicode_white_space() {
    for c in (0u32..=0x10FFFF).filter_map(char::from_u32) {
        assert_eq!(char_is_whitespace(c), c.is_whitespace(), "{:?}", c);
    }
}

#[test]
fn stem_bounds_delimit_prefix_stem_and_suffix() {
    let chars: Vec<char> = "--ab-cd!".chars().collect();
    assert_eq!(stem_bounds(&chars), (2, 7));
    let chars: Vec<char> = "***".chars().collect();
    assert_eq!(stem_bounds(&chars), (3, 3));
    let chars: Vec<char> = Vec::new();
    assert_eq!(stem_bounds(&chars), (0, 0));
    let chars: Vec<char> = "abc".chars().collect();
    assert_eq!(stem_bounds(&chars), (0, 3));
}

#[test]
fn strings_and_character_vectors_convert_both_ways() {
    let text = "naïve • 大家";
    let chars = str_chars(text);
    assert_eq!(chars, text.chars().collect::<Vec<char>>());
    assert_eq!(chars_to_string(&chars, 0, chars.len()), text);
    assert_eq!(chars_to_string(&chars, 6, 7), "•");
    assert_eq!(chars_to_string(&chars, 3, 3), "");
    let mut out = vec!['a'];
    push_str_chars(&mut out, "bç");
    push_chars(&mut out, &vec!['d', 'é']);
    assert_eq!(out, vec!['a', 'b', 'ç', 'd', 'é']);
}
