use color_hex::HexError;
use color_hex::TokenTreeIter;
use color_hex::color_from_hex;

#[test]
fn too_few_digits() {
    assert_eq!(color_from_hex("\"\""), Err(HexError::TooFewBytes));
    assert_eq!(color_from_hex("\"#\""), Err(HexError::TooFewBytes));
    assert_eq!(color_from_hex("\"0102\""), Err(HexError::TooFewBytes));
    assert_eq!(color_from_hex("\"  01 02  \""), Err(HexError::TooFewBytes));
}

#[test]
fn five_digits() {
    assert_eq!(color_from_hex("\"01234\""), Err(HexError::OddHexDigitCount));
}

#[test]
fn seven_digits() {
    assert_eq!(color_from_hex("\"0123456\""), Err(HexError::OddHexDigitCount));
}

#[test]
fn nine_digits() {
    assert_eq!(color_from_hex("\"012345678\""), Err(HexError::OddHexDigitCount));
}

#[test]
fn ten_digits() {
    assert_eq!(color_from_hex("\"0123456789\""), Err(HexError::TooManyBytes));
}

#[test]
fn twelve_digits() {
    assert_eq!(color_from_hex("\"0123456789ab\""), Err(HexError::TooManyBytes));
}

#[test]
fn invalid_character() {
    assert_eq!(
        color_from_hex("\"01020g\""),
        Err(HexError::InvalidHexCharacter('g'))
    );
    assert_eq!(
        color_from_hex("\"##123456\""),
        Err(HexError::InvalidHexCharacter('#'))
    );
}

#[test]
fn invalid_non_ascii_character() {
    assert_eq!(
        color_from_hex("\"0102\u{e9}3\""),
        Err(HexError::InvalidNonAsciiCharacter)
    );
}

#[test]
fn invalid_character_after_ten_digits() {
    // The fifth byte is complete before the scan reaches the bad character.
    assert_eq!(
        color_from_hex("\"0123456789x\""),
        Err(HexError::TooManyBytes)
    );
}

#[test]
fn not_quoted() {
    assert_eq!(color_from_hex("010203"), Err(HexError::MalformedQuoting));
    assert_eq!(color_from_hex(""), Err(HexError::MalformedQuoting));
    assert_eq!(color_from_hex("\""), Err(HexError::MalformedQuoting));
    assert_eq!(color_from_hex("42"), Err(HexError::MalformedQuoting));
}

#[test]
fn scanner_nibbles() {
    let mut it = TokenTreeIter::new("\"0f A\"").unwrap();
    assert_eq!(it.next_hex_val(), Ok(Some(0)));
    assert_eq!(it.next_hex_val(), Ok(Some(15)));
    assert_eq!(it.next_hex_val(), Ok(Some(10)));
    assert_eq!(it.next_hex_val(), Ok(None));
}

#[test]
fn scanner_bytes() {
    let mut it = TokenTreeIter::new("\"#f0 0d\"").unwrap();
    assert_eq!(it.next_byte(), Ok(Some(0xF0)));
    assert_eq!(it.next_byte(), Ok(Some(0x0D)));
    assert_eq!(it.next_byte(), Ok(None));

    let mut odd = TokenTreeIter::new("\"abc\"").unwrap();
    assert_eq!(odd.next_byte(), Ok(Some(0xAB)));
    assert_eq!(odd.next_byte(), Err(HexError::OddHexDigitCount));
}

#[test]
fn scanner_rejects_unquoted() {
    assert!(matches!(
        TokenTreeIter::new("010203"),
        Err(HexError::MalformedQuoting)
    ));
}
