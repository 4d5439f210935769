use hn_decypher::decrypt::{decrypt, DecryptError};
use hn_decypher::int_parse::{parse_decimal_i32, IntParseFailure};
use hn_decypher::text::is_whitespace;

/// The game's encryption: each character becomes `code * 1822 + 32767 + passcode`,
/// the numbers joined by single spaces.
fn encrypt(text: &str, passcode: u16) -> String {
    text.chars()
        .map(|c| format!("{}", c as i64 * 1822 + 32767 + passcode as i64))
        .collect::<Vec<_>>()
        .join(" ")
}

#[test]
fn decrypt_reads_back_what_was_encrypted() {
    let encrypted = encrypt("Hello, world!", 4065);
    assert_eq!(decrypt(&encrypted, 4065).unwrap(), "Hello, world!");
}

#[test]
fn decrypt_trims_surrounding_whitespace() {
    let encrypted = encrypt("  padded text\n", 100);
    assert_eq!(decrypt(&encrypted, 100).unwrap(), "padded text");
}

#[test]
fn decrypt_accepts_passcodes_slightly_below() {
    let encrypted = encrypt("secret", 5000);
    assert_eq!(decrypt(&encrypted, 5000 - 1821).unwrap(), "secret");
    // one further below, every character moves up by one code
    assert_eq!(decrypt(&encrypted, 5000 - 1822).unwrap(), "tfdsfu");
}

#[test]
fn decrypt_exact_value() {
    // 'A' is 65: 65 * 1822 + 32767 + 0 = 151197
    assert_eq!(decrypt("151197", 0).unwrap(), "A");
    // any remainder below 1822 still gives 'A'
    assert_eq!(decrypt("152000", 0).unwrap(), "A");
    assert_eq!(decrypt("  151197\t151197\n", 0).unwrap(), "AA");
}

#[test]
fn decrypt_non_ascii_characters() {
    let encrypted = encrypt("héllo ☃ 𝄞", 4065);
    assert_eq!(decrypt(&encrypted, 4065).unwrap(), "héllo ☃ 𝄞");
}

#[test]
fn decrypt_empty_input() {
    assert_eq!(decrypt("", 4065).unwrap(), "");
    assert_eq!(decrypt(" \n\t ", 4065).unwrap(), "");
}

#[test]
fn decrypt_parse_error() {
    match decrypt("151197 abc 151197", 0) {
        Err(DecryptError::ParseIntError(item, kind)) => {
            assert_eq!(item, "abc");
            assert_eq!(kind, IntParseFailure::InvalidDigit);
        }
        other => panic!("unexpected {:?}", other),
    }
    match decrypt("99999999999", 0) {
        Err(DecryptError::ParseIntError(item, kind)) => {
            assert_eq!(item, "99999999999");
            assert_eq!(kind, IntParseFailure::PosOverflow);
        }
        other => panic!("unexpected {:?}", other),
    }
    match decrypt("-99999999999", 0) {
        Err(DecryptError::ParseIntError(_, kind)) => assert_eq!(kind, IntParseFailure::NegOverflow),
        other => panic!("unexpected {:?}", other),
    }
    match decrypt("+", 0) {
        Err(DecryptError::ParseIntError(_, kind)) => assert_eq!(kind, IntParseFailure::InvalidDigit),
        other => panic!("unexpected {:?}", other),
    }
}

#[test]
fn decrypt_error_from_item_and_failure() {
    match DecryptError::from(("12x", IntParseFailure::InvalidDigit)) {
        DecryptError::ParseIntError(item, kind) => {
            assert_eq!(item, "12x");
            assert_eq!(kind, IntParseFailure::InvalidDigit);
        }
        other => panic!("unexpected {:?}", other),
    }
}

#[test]
fn decrypt_first_failure_decides() {
    match decrypt("-5 abc", 0) {
        Err(DecryptError::UnsignedConversionError { encoded, decoded, .. }) => {
            assert_eq!(encoded, -5);
            // (-5 - 32767) / 1822 rounds toward zero
            assert_eq!(decoded, -17);
        }
        other => panic!("unexpected {:?}", other),
    }
}

#[test]
fn decrypt_char_conversion_error() {
    // 0xD800 is a surrogate code: 55296 * 1822 + 32767
    match decrypt("100782079", 0) {
        Err(DecryptError::CharConversionError(v)) => assert_eq!(v, 0xD800),
        other => panic!("unexpected {:?}", other),
    }
}

#[test]
fn decrypt_wraps_like_i32() {
    // -2147483648 - 32767 wraps to 2147450881, which is 1178622 * 1822 + 1597
    match decrypt("-2147483648", 0) {
        Err(DecryptError::CharConversionError(v)) => assert_eq!(v, 1178622),
        other => panic!("unexpected {:?}", other),
    }
}

#[test]
fn parse_decimal_matches_std() {
    let samples = [
        "", "+", "-", "0", "-0", "+0", "7", "+42", "-42", "2147483647", "2147483648",
        "-2147483648", "-2147483649", "0012", "1x", "x1", "+-1", "-+1", "99999999999x",
        "١٢", "１", " 1", "12 ",
    ];
    for s in samples {
        let chars: Vec<char> = s.chars().collect();
        let ours = parse_decimal_i32(&chars);
        let theirs = s.parse::<i32>();
        match (ours, theirs) {
            (Ok(a), Ok(b)) => assert_eq!(a, b, "{:?}", s),
            (Err(k), Err(e)) => {
                let expected = match e.kind() {
                    std::num::IntErrorKind::Empty => IntParseFailure::Empty,
                    std::num::IntErrorKind::InvalidDigit => IntParseFailure::InvalidDigit,
                    std::num::IntErrorKind::PosOverflow => IntParseFailure::PosOverflow,
                    std::num::IntErrorKind::NegOverflow => IntParseFailure::NegOverflow,
                    other => panic!("unexpected kind {:?}", other),
                };
                assert_eq!(k, expected, "{:?}", s);
            }
            (a, b) => panic!("mismatch on {:?}: {:?} {:?}", s, a, b),
        }
    }
}

#[test]
fn whitespace_matches_std() {
    for code in 0..=0x10FFFFu32 {
        if let Some(c) = char::from_u32(code) {
            assert_eq!(is_whitespace(c), c.is_whitespace(), "{:x}", code);
        }
    }
}
