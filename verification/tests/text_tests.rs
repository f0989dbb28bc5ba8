use noosphere::text::{is_white_space_char, label_at, signed_numeral, trimmed, unsigned_numeral};

#[test]
fn white_space_matches_std_for_every_char() {
    for u in 0u32..=0x10FFFF {
        if let Some(c) = char::from_u32(u) {
            assert_eq!(is_white_space_char(c), c.is_whitespace(), "code point {:#x}", u);
        }
    }
}

#[test]
fn trimmed_matches_std_trim() {
    let cases = [
        "",
        "   ",
        "buy milk",
        "  buy milk  ",
        "\t\n read \r\n",
        "\u{3000}wide space\u{2029}",
        "inner  spaces stay",
        "\u{85}x\u{a0}",
        "é",
    ];
    for c in cases {
        assert_eq!(trimmed(c), c.trim());
    }
}

#[test]
fn trimmed_drops_outer_space_only() {
    assert_eq!(trimmed("  call  mum \t"), "call  mum");
    assert_eq!(trimmed(" \t\n"), "");
}

#[test]
fn trim_twice_is_trim_once() {
    for c in ["  a b  ", "\u{2000}x\u{3000}", "", "plain"] {
        let once = trimmed(c);
        assert_eq!(trimmed(&once), once);
    }
}

#[test]
fn unsigned_numerals() {
    assert_eq!(unsigned_numeral(0), "0");
    assert_eq!(unsigned_numeral(7), "7");
    assert_eq!(unsigned_numeral(10), "10");
    assert_eq!(unsigned_numeral(1234567890), "1234567890");
    assert_eq!(unsigned_numeral(u64::MAX), u64::MAX.to_string());
}

#[test]
fn signed_numerals() {
    assert_eq!(signed_numeral(0), "0");
    assert_eq!(signed_numeral(300), "300");
    assert_eq!(signed_numeral(-42), "-42");
    assert_eq!(signed_numeral(i32::MIN), i32::MIN.to_string());
    assert_eq!(signed_numeral(i32::MAX), i32::MAX.to_string());
}

#[test]
fn labels_are_numbered_from_one() {
    assert_eq!(label_at(0, "Buy milk"), "1) Buy milk");
    assert_eq!(label_at(9, "x"), "10) x");
    assert_eq!(label_at(99, ""), "100) ");
}
