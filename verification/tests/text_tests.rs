use chomplex::text::{is_digit, is_whitespace, str_starts_with};

#[test]
fn is_whitespace_agrees_with_std_on_every_char() {
    for c in (0u32..=0x10FFFF).filter_map(char::from_u32) {
        assert_eq!(is_whitespace(c), c.is_whitespace(), "{:?}", c);
    }
}

#[test]
fn is_digit_is_ascii_decimal() {
    for c in (0u32..0x3000).filter_map(char::from_u32) {
        assert_eq!(is_digit(c), c.is_digit(10), "{:?}", c);
    }
}

#[test]
fn str_starts_with_matches_prefixes() {
    assert!(str_starts_with("###abc", "###"));
    assert!(str_starts_with("abc", ""));
    assert!(!str_starts_with("##", "###"));
    assert!(!str_starts_with("a#b", "a#c"));
    assert!(str_starts_with("héllo", "hé"));
}

#[test]
fn warm_up_get_number_reads_digits_up_to_white_space() {
    assert_eq!(chomplex::warm_up::get_number("42 + 1", 0), "Number: 42");
    assert_eq!(chomplex::warm_up::get_number("x 123\n", 2), "Number: 123");
    assert_eq!(chomplex::warm_up::get_number(" ", 0), "Number: ");
    // "é" is two bytes, so the digits start at byte 3
    assert_eq!(chomplex::warm_up::get_number("é 7\t", 3), "Number: 7");
}

#[test]
fn warm_up_eat_whitespace_stops_at_the_first_other_character() {
    chomplex::warm_up::eat_whitespace("   40", 0);
    chomplex::warm_up::eat_whitespace("40", 0);
    // bytes 0x20 0xC2 0xA0: the byte 0xC2 read as a character is not white space
    chomplex::warm_up::eat_whitespace(" \u{a0}", 0);
}
