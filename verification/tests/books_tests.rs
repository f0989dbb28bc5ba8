use noosphere::books::{clean_page_input, digits_number, is_digit_char, read_page_entry, PageEntry};

fn shown(e: &PageEntry) -> String {
    match e {
        PageEntry::Cleared => String::new(),
        PageEntry::Reached(t) => t.clone(),
        PageEntry::Partial(_, t) => t.clone(),
    }
}

#[test]
fn digit_chars_are_ascii_digits() {
    for u in 0u32..0x3000 {
        if let Some(c) = char::from_u32(u) {
            assert_eq!(is_digit_char(c), c.is_ascii_digit());
        }
    }
}

#[test]
fn cleaning_keeps_five_digits_without_leading_zeros() {
    assert_eq!(clean_page_input("00123abc4567"), "123");
    assert_eq!(clean_page_input("abc"), "");
    assert_eq!(clean_page_input("000"), "");
    assert_eq!(clean_page_input("98765432"), "98765");
    assert_eq!(clean_page_input("0a0b7"), "7");
    assert_eq!(clean_page_input("1 2 3"), "123");
    assert_eq!(clean_page_input("\u{663}\u{664}5"), "5");
    assert_eq!(clean_page_input("00000123"), "");
    assert_eq!(clean_page_input("10000"), "10000");
}

#[test]
fn cleaning_is_idempotent() {
    for raw in ["00123abc4567", "", "x0x", "9999999", "007", "١٢٣45"] {
        let once = clean_page_input(raw);
        assert_eq!(clean_page_input(&once), once);
    }
}

#[test]
fn digits_denote_their_number() {
    assert_eq!(digits_number(""), 0);
    assert_eq!(digits_number("7"), 7);
    assert_eq!(digits_number("12345"), 12345);
    assert_eq!(digits_number("99999"), 99999);
}

#[test]
fn empty_entry_clears_the_field() {
    assert_eq!(read_page_entry("", 300), PageEntry::Cleared);
    assert_eq!(read_page_entry("abc", 300), PageEntry::Cleared);
    assert_eq!(read_page_entry("0", 10), PageEntry::Cleared);
}

#[test]
fn page_before_the_end_is_shown_as_typed() {
    assert_eq!(read_page_entry("50", 300), PageEntry::Partial(50, "50".to_string()));
    assert_eq!(read_page_entry("07", 10), PageEntry::Partial(7, "7".to_string()));
    assert_eq!(read_page_entry("299", 300), PageEntry::Partial(299, "299".to_string()));
}

#[test]
fn page_at_or_past_the_end_shows_the_length() {
    assert_eq!(read_page_entry("300", 300), PageEntry::Reached("300".to_string()));
    assert_eq!(read_page_entry("999", 300), PageEntry::Reached("300".to_string()));
    assert_eq!(read_page_entry("5", -3), PageEntry::Reached("-3".to_string()));
    assert_eq!(read_page_entry("1", 0), PageEntry::Reached("0".to_string()));
    assert_eq!(read_page_entry("123456", 200000), PageEntry::Partial(12345, "12345".to_string()));
}

#[test]
fn shown_text_typed_again_gives_the_same_entry() {
    for length in [1, 10, 300, 99999, 100000, i32::MAX, -3, i32::MIN] {
        for raw in ["", "42", "00300", "5000000", "x9y", "1"] {
            let first = read_page_entry(raw, length);
            let again = read_page_entry(&shown(&first), length);
            assert_eq!(again, first, "raw {:?}, length {}", raw, length);
        }
    }
}

#[test]
fn shown_text_of_length_zero_is_cleaned_away() {
    let first = read_page_entry("3", 0);
    assert_eq!(first, PageEntry::Reached("0".to_string()));
    assert_eq!(read_page_entry(&shown(&first), 0), PageEntry::Cleared);
}

#[test]
fn six_digit_length_is_never_reached() {
    assert_eq!(read_page_entry("999999", 123456), PageEntry::Partial(99999, "99999".to_string()));
    assert_eq!(read_page_entry("99999", 100000), PageEntry::Partial(99999, "99999".to_string()));
}
