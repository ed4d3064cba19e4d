use color_hex::color_from_hex;

#[test]
fn test_const() {
    let data = color_from_hex("\"010203\"").unwrap();
    assert_eq!(data, vec![1, 2, 3]);
}

#[test]
fn test_character_cases() {
    assert_eq!(
        color_from_hex("\"a1 b2 c3 d4\"").unwrap(),
        vec![0xA1, 0xB2, 0xC3, 0xD4]
    );
    assert_eq!(
        color_from_hex("\"E5 E6 90 92\"").unwrap(),
        vec![0xE5, 0xE6, 0x90, 0x92]
    );
    assert_eq!(color_from_hex("\"0a0B 0C\"").unwrap(), vec![10, 11, 12]);
    assert_eq!(
        color_from_hex("\"a2  \tb9 c4 D 3\"").unwrap(),
        vec![0xA2, 0xB9, 0xC4, 0xD3]
    );
}

#[test]
fn test_hash() {
    assert_eq!(color_from_hex("\"#2d2d2d\"").unwrap(), vec![0x2d, 0x2d, 0x2d]);
}

#[test]
fn rgba_four_bytes() {
    assert_eq!(
        color_from_hex("\"4c4c4cff\"").unwrap(),
        vec![0x4C, 0x4C, 0x4C, 0xFF]
    );
}

#[test]
fn case_invariance() {
    assert_eq!(
        color_from_hex("\"AaBbCcDd\"").unwrap(),
        color_from_hex("\"aabbccdd\"").unwrap()
    );
}

#[test]
fn whitespace_invariance() {
    let plain = color_from_hex("\"010203\"").unwrap();
    assert_eq!(color_from_hex("\"01 02 03\"").unwrap(), plain);
    assert_eq!(color_from_hex("\"01\n02\r03\"").unwrap(), plain);
    assert_eq!(color_from_hex("\" 0 1 0 2 0 3 \"").unwrap(), plain);
}

#[test]
fn hash_invariance() {
    assert_eq!(
        color_from_hex("\"#2d2d2d\"").unwrap(),
        color_from_hex("\"2d2d2d\"").unwrap()
    );
}

#[test]
fn round_trip() {
    let bytes = color_from_hex("\"a1b2c3d4\"").unwrap();
    let mut text = String::from("\"");
    for b in &bytes {
        text.push_str(&format!("{:02x}", b));
    }
    text.push('"');
    assert_eq!(color_from_hex(&text).unwrap(), bytes);

    let rgb = color_from_hex("\"#0FA2d4\"").unwrap();
    let mut upper = String::from("\"");
    for b in &rgb {
        upper.push_str(&format!("{:02X}", b));
    }
    upper.push('"');
    assert_eq!(color_from_hex(&upper).unwrap(), rgb);
}
