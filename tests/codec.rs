use gsm7::{
    build_gsm_ext_table, build_gsm_table, decode, encode, encode_with_config, encoded_len,
    is_gsm7_compatible, Gsm7Config,
};

#[test]
fn test_encode_decode_roundtrip() {
    let test_cases = [
        "Hello World!",
        "Hello {world} €!",
        "Greek letters: ΔΦΓΛΩΠΨΣΘΞ",
        "Special chars: @£$¥èé",
        "Extension chars: {[]}\\~€|^",
        "Numbers: 0123456789",
        "Punctuation: !\"#¤%&'()*+,-./:;<=>?¡¿§",
    ];

    for text in &test_cases {
        let encoded = encode(text).unwrap();
        let decoded = decode(&encoded).unwrap();
        assert_eq!(decoded, *text, "Failed roundtrip for: {}", text);
    }

    // á, â, ã, ç, ê and ë are not in the alphabet: the default replacement,
    // U+FFFD, is not either, so each of them is written as a space.
    let text = "GSM 7-bit test: àáâãäåæçèéêë";
    let encoded = encode(text).unwrap();
    let decoded = decode(&encoded).unwrap();
    assert_eq!(decoded, "GSM 7-bit test: à   äåæ èé  ");
}

#[test]
fn test_unsupported_character() {
    // The default replacement U+FFFD has no code, so the crab becomes a space.
    let encoded = encode("Hello 🦀 World").unwrap();
    let decoded = decode(&encoded).unwrap();
    assert_eq!(decoded, "Hello   World");
}

#[test]
fn test_empty_string() {
    let encoded = encode("").unwrap();
    assert!(encoded.is_empty());
    let decoded = decode(&encoded).unwrap();
    assert!(decoded.is_empty());
}

#[test]
fn test_encoded_len() {
    assert_eq!(encoded_len("Hello").unwrap(), 5);
    // six single-byte characters and the two-byte escape form of €
    assert_eq!(encoded_len("Hello €").unwrap(), 8);
    assert_eq!(encoded_len("{[]}").unwrap(), 8);
}

#[test]
fn test_is_gsm7_compatible() {
    assert!(is_gsm7_compatible("Hello World!"));
    assert!(is_gsm7_compatible("Hello {world} €!"));
    assert!(!is_gsm7_compatible("Hello 🦀 World"));
}

#[test]
fn test_non_strict_mode() {
    let config = Gsm7Config {
        strict: false,
        replacement_char: '?',
        max_input_length: 0,
        validate_input: false,
    };

    let encoded = encode_with_config("Hello 🦀 World", &config).unwrap();
    let decoded = decode(&encoded).unwrap();
    assert_eq!(decoded, "Hello ? World");
}

#[test]
fn test_invalid_byte_replaced() {
    let invalid_data = vec![0x48, 0x65, 0x6C, 0x6C, 0x6F, 0x81, 0x20, 0x57];
    let decoded = decode(&invalid_data).unwrap();
    assert_eq!(decoded, "Hello\u{FFFD} W");
}

#[test]
fn test_multiple_invalid_bytes() {
    let invalid_data = vec![0x48, 0x81, 0x65, 0x82, 0x6C, 0x83];
    let decoded = decode(&invalid_data).unwrap();
    assert_eq!(decoded, "H\u{FFFD}e\u{FFFD}l\u{FFFD}");
}

#[test]
fn test_invalid_escape_sequence() {
    let invalid_data = [0x1B, 0xFF];
    let decoded = decode(&invalid_data).unwrap();
    assert_eq!(decoded, "\u{FFFD}");
}

#[test]
fn test_malformed_data() {
    let invalid_data = [0x48, 0x65, 0x6C, 0x6C, 0x6F, 0x1B];
    let decoded = decode(&invalid_data).unwrap();
    assert_eq!(decoded, "Hello\u{FFFD}");
}

#[test]
fn test_all_basic_characters() {
    for i in 0x20..=0x7F {
        if let Some(ch) = build_gsm_table().get(&i).and_then(|&opt_ch| opt_ch) {
            let text = ch.to_string();
            let encoded = encode(&text).unwrap();
            let decoded = decode(&encoded).unwrap();
            assert_eq!(decoded, text, "Failed for character: {} (0x{:02X})", ch, i);
        }
    }
}

#[test]
fn test_all_extension_characters() {
    let ext_table = build_gsm_ext_table();
    for &ch in ext_table.values() {
        let text = ch.to_string();
        let encoded = encode(&text).unwrap();
        let decoded = decode(&encoded).unwrap();
        assert_eq!(decoded, text, "Failed for extension character: {}", ch);
    }
}
