use cache_key_normalizer::text::{
    chars_of, join_chars, split_chars_on, is_white_space_char, lower_char, string_of, trim_chars, upper_char, words_of,
};

#[test]
fn white_space_matches_std_for_every_char() {
    for n in 0..=0x10FFFFu32 {
        if let Some(c) = char::from_u32(n) {
            assert_eq!(is_white_space_char(c), c.is_whitespace(), "{:#x}", n);
        }
    }
}

#[test]
fn ascii_case_matches_std_for_every_char() {
    for n in 0..=0x10FFFFu32 {
        if let Some(c) = char::from_u32(n) {
            assert_eq!(lower_char(c), c.to_ascii_lowercase());
            assert_eq!(upper_char(c), c.to_ascii_uppercase());
        }
    }
}

#[test]
fn trim_and_words_match_std() {
    let samples = [
        "",
        "   ",
        " a ",
        "\t\n a b \r\n",
        "\u{85}x\u{2028}",
        "\u{a0}\u{1680}y z\u{3000}",
        "no-space",
        " en-US,  en ",
    ];
    for s in samples {
        let v = chars_of(s);
        assert_eq!(string_of(&trim_chars(&v)), s.trim());
        let words: Vec<String> = words_of(&v).iter().map(|w| w.iter().collect()).collect();
        let expected: Vec<String> = s.split_whitespace().map(|w| w.to_string()).collect();
        assert_eq!(words, expected);
    }
}

#[test]
fn chars_round_trip() {
    for s in ["", "abc", "é/ü?ß=✓", "\u{10ffff}"] {
        assert_eq!(string_of(&chars_of(s)), s);
    }
}

#[test]
fn split_then_join_gives_text_back() {
    for s in ["", "&", "a&&b&", "no-separator", "&x&"] {
        let v = chars_of(s);
        let parts = split_chars_on(&v, '&');
        let expected: Vec<Vec<char>> = s.split('&').map(|p| p.chars().collect()).collect();
        assert_eq!(parts, expected);
        assert_eq!(string_of(&join_chars(&parts, &vec!['&'])), s);
    }
}
