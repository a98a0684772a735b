use blitzmd::letters::byte_count;
use blitzmd::letters::contains_chars;
use blitzmd::letters::find_chars;
use blitzmd::letters::is_alphanumeric;
use blitzmd::letters::to_lower;
use blitzmd::letters::width_of;
use blitzmd::number::parse_number;
use blitzmd::number::push_decimal;
use blitzmd::text::chars_of;
use blitzmd::text::concatenated;
use blitzmd::text::is_white_space;
use blitzmd::text::normalize_whitespace;
use blitzmd::text::same_text;
use blitzmd::text::starts_with;
use blitzmd::text::trimmed;

fn every_char() -> Vec<char> {
    (0..=0x10ffffu32).filter_map(char::from_u32).collect()
}

#[test]
fn white_space_is_that_of_the_standard_library() {
    for c in every_char() {
        assert_eq!(is_white_space(c), c.is_whitespace(), "{c:?}");
    }
}

#[test]
fn letters_and_digits_are_those_of_the_standard_library() {
    for c in every_char() {
        assert_eq!(is_alphanumeric(c), c.is_alphanumeric(), "{c:?}");
    }
    assert!(is_alphanumeric('é') && is_alphanumeric('漢') && !is_alphanumeric('—'));
}

#[test]
fn widths_are_those_of_the_standard_library() {
    for c in every_char() {
        assert_eq!(width_of(c), c.len_utf8(), "{c:?}");
    }
    assert_eq!(byte_count("aé漢😀"), 10);
}

#[test]
fn lower_case_follows_unicode() {
    assert_eq!(to_lower("ABC xyz 123 [\\]^_`{|}~@"), "abc xyz 123 [\\]^_`{|}~@");
    assert_eq!(to_lower("ÉCOLE"), "école");
    assert_eq!(to_lower("İ"), "i\u{307}");
    assert_eq!(to_lower("ΟΔΟΣ"), "οδος");
    for b in 0..128u8 {
        let s = (b as char).to_string();
        assert_eq!(to_lower(&s), s.to_lowercase());
    }
}

#[test]
fn white_space_is_normalized() {
    for s in ["", " ", "a", " a ", "a  b", "\ta\n\u{a0}b\r\n c\u{3000}", "one two"] {
        let once = normalize_whitespace(s);
        assert_eq!(once, s.split_whitespace().collect::<Vec<_>>().join(" "));
        assert_eq!(normalize_whitespace(&once), once);
    }
    assert_eq!(normalize_whitespace(" \n a\t\tb "), "a b");
}

#[test]
fn texts_are_trimmed() {
    for s in ["", "  ", "a", "\u{2003} a b \n", "a\u{85}"] {
        assert_eq!(trimmed(s), s.trim());
    }
}

#[test]
fn texts_are_compared_and_joined() {
    assert!(same_text("né", "né") && !same_text("ne", "né") && !same_text("n", "né"));
    assert!(starts_with("https://x", "https://") && !starts_with("http", "https") && starts_with("x", ""));
    assert_eq!(concatenated("a", "é"), "aé");
}

#[test]
fn texts_are_found() {
    let hay = chars_of("abcabd");
    assert_eq!(find_chars(&hay, &chars_of("abd"), 0), Some(3));
    assert_eq!(find_chars(&hay, &chars_of("ab"), 1), Some(3));
    assert_eq!(find_chars(&hay, &chars_of("abx"), 0), None);
    assert!(contains_chars(&hay, &chars_of("")) && contains_chars(&hay, &chars_of("cab")));
    assert!(!contains_chars(&chars_of("a"), &hay));
}

#[test]
fn numbers_are_written_and_read_back() {
    for n in [0u64, 1, 9, 10, 42, 100, 65535, 4294967295, u64::MAX] {
        let mut out = String::new();
        push_decimal(&mut out, n as u128);
        assert_eq!(out, n.to_string());
        let digits = chars_of(&out);
        assert_eq!(parse_number(&digits, 0, digits.len(), 10, u64::MAX), Some(n));
    }
    let mut out = "x".to_string();
    push_decimal(&mut out, u128::MAX);
    assert_eq!(out, format!("x{}", u128::MAX));
}

#[test]
fn numbers_are_read_in_a_base() {
    let digits = chars_of("x+fF");
    assert_eq!(parse_number(&digits, 1, 4, 16, 1000), Some(255));
    assert_eq!(parse_number(&digits, 1, 4, 16, 254), None);
    assert_eq!(parse_number(&digits, 1, 4, 10, 1000), None);
    assert_eq!(parse_number(&digits, 1, 2, 10, 1000), None);
    assert_eq!(parse_number(&digits, 2, 2, 10, 1000), None);
}
