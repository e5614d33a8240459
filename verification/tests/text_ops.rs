use jra_scraper::text::{
    decimal_string, is_space_char, last_part, parse_unsigned_str, replace, same_text, trim,
};

#[test]
fn trim_drops_surrounding_white_space() {
    assert_eq!(trim("  58.0kg \n"), "58.0kg");
    assert_eq!(trim("\u{a0}\u{3000}a b\u{3000}"), "a b");
    assert_eq!(trim(" \t "), "");
    assert_eq!(trim(""), "");
}

#[test]
fn trim_twice_is_trim_once() {
    let once = trim(" \u{2003}x y\t");
    assert_eq!(trim(&once), once);
}

#[test]
fn is_space_char_follows_unicode_white_space() {
    for c in [' ', '\t', '\n', '\u{85}', '\u{a0}', '\u{1680}', '\u{2009}', '\u{3000}'] {
        assert!(is_space_char(c));
        assert!(c.is_whitespace());
    }
    for c in ['a', '0', '\u{200b}', '時'] {
        assert!(!is_space_char(c));
        assert!(!c.is_whitespace());
    }
}

#[test]
fn replace_swaps_each_occurrence() {
    assert_eq!(replace("15時40分", '時', ":"), "15:40分");
    assert_eq!(replace("1,234,567", ',', ""), "1234567");
    assert_eq!(replace("abc", 'x', "yy"), "abc");
    assert_eq!(replace("a,b", ',', "--"), "a--b");
}

#[test]
fn replace_leaves_none_of_the_character() {
    let out = replace(",,a,,", ',', "");
    assert!(!out.contains(','));
}

#[test]
fn last_part_takes_the_text_after_the_last_separator() {
    assert_eq!(last_part("grade_icon g1", ' '), "g1");
    assert_eq!(last_part("g2", ' '), "g2");
    assert_eq!(last_part("a b ", ' '), "");
    assert_eq!(last_part("", ' '), "");
}

#[test]
fn parse_unsigned_str_reads_like_str_parse() {
    assert_eq!(parse_unsigned_str("12", 255), Some(12));
    assert_eq!(parse_unsigned_str("+7", 255), Some(7));
    assert_eq!(parse_unsigned_str("007", 255), Some(7));
    assert_eq!(parse_unsigned_str("255", 255), Some(255));
    assert_eq!(parse_unsigned_str("256", 255), None);
    assert_eq!(parse_unsigned_str("", 255), None);
    assert_eq!(parse_unsigned_str("+", 255), None);
    assert_eq!(parse_unsigned_str("-1", 255), None);
    assert_eq!(parse_unsigned_str("1,200", 65535), None);
    assert_eq!(parse_unsigned_str("除外", 255), None);
    assert_eq!(parse_unsigned_str("4294967295", 4294967295), Some(4294967295));
    assert_eq!(parse_unsigned_str("4294967296", 4294967295), None);
    for s in ["12", "+7", "256", "", "+", "-1", "1,200", " 3", "３"] {
        assert_eq!(parse_unsigned_str(s, 255).map(|v| v as u8), s.parse::<u8>().ok());
    }
}

#[test]
fn decimal_string_writes_to_string() {
    assert_eq!(decimal_string(0), "0");
    assert_eq!(decimal_string(2024), "2024");
    assert_eq!(decimal_string(65535), 65535u16.to_string());
}

#[test]
fn decimal_string_reads_back() {
    for n in [0u64, 9, 10, 2024, 65535] {
        assert_eq!(parse_unsigned_str(&decimal_string(n), 65535), Some(n));
    }
}

#[test]
fn same_text_compares_characters() {
    assert!(same_text("除外", "除外"));
    assert!(!same_text("除外", "取消"));
    assert!(!same_text("a", "ab"));
}

#[test]
fn replace_with_text_holding_the_character_keeps_it() {
    assert_eq!(replace("a,b", ',', ",,"), "a,,b");
}
