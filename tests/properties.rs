use gsm7::{
    build_gsm_ext_table, build_gsm_table, decode, decode_with_config, encode, encode_with_config,
    encoded_len, is_gsm7_compatible, Gsm7Config, Gsm7Error, DEFAULT_REPLACEMENT,
};

fn config(strict: bool, replacement_char: char, max_input_length: usize, validate_input: bool) -> Gsm7Config {
    Gsm7Config { strict, replacement_char, max_input_length, validate_input }
}

#[test]
fn default_and_strict_presets() {
    let d = Gsm7Config::default();
    assert!(!d.strict);
    assert_eq!(d.replacement_char, '\u{FFFD}');
    assert_eq!(d.max_input_length, 0);
    assert!(!d.validate_input);
    let s = Gsm7Config::strict();
    assert!(s.strict);
    assert_eq!(s.replacement_char, DEFAULT_REPLACEMENT);
    assert_eq!(s.max_input_length, 0);
    assert!(!s.validate_input);
}

#[test]
fn exact_bytes_of_a_mixed_text() {
    assert_eq!(encode("A@é€\n").unwrap(), vec![0x41, 0x00, 0x05, 0x1B, 0x65, 0x0A]);
    assert_eq!(decode(&[0x41, 0x00, 0x05, 0x1B, 0x65, 0x0A]).unwrap(), "A@é€\n");
}

#[test]
fn round_trip_every_table_character() {
    let base = build_gsm_table();
    for b in 0u8..0x80 {
        if let Some(c) = base[&b] {
            let text = c.to_string();
            let bytes = encode_with_config(&text, &Gsm7Config::strict()).unwrap();
            assert_eq!(bytes, vec![b]);
            assert_eq!(decode_with_config(&bytes, &Gsm7Config::strict()).unwrap(), text);
        }
    }
    for (&b, &c) in build_gsm_ext_table().iter() {
        let text = c.to_string();
        let bytes = encode(&text).unwrap();
        assert_eq!(bytes, vec![0x1B, b]);
        assert_eq!(decode(&bytes).unwrap(), text);
    }
}

#[test]
fn table_sizes() {
    let base = build_gsm_table();
    assert_eq!(base.len(), 128);
    assert_eq!(base[&0x1B], None);
    assert_eq!(base.values().filter(|c| c.is_some()).count(), 127);
    let ext = build_gsm_ext_table();
    assert_eq!(ext.len(), 10);
    assert_eq!(ext[&0x0A], '\x0C');
    assert_eq!(ext[&0x65], '€');
}

#[test]
fn length_matches_encoding() {
    for text in ["", "Hello", "Hello €", "{[]}", "ΔΦΓ ~ |^ \\ end"] {
        assert_eq!(encoded_len(text).unwrap(), encode(text).unwrap().len());
    }
    assert_eq!(encoded_len("a{b").unwrap(), 4);
}

#[test]
fn encoded_len_reports_first_unmapped() {
    assert_eq!(
        encoded_len("ab\u{1F980}c\u{00E1}"),
        Err(Gsm7Error::UnsupportedCharacter { character: '\u{1F980}', code: 0x1F980 })
    );
    assert!(!is_gsm7_compatible("\u{00E1}"));
    assert!(is_gsm7_compatible(""));
}

#[test]
fn lenient_decoding_never_fails() {
    let lenient = config(false, '?', 0, true);
    let inputs: [&[u8]; 6] = [&[], &[0x1B], &[0x1B, 0xFF], &[0xFF, 0x80], &[0x1B, 0x1B, 0x1B], &[0x00, 0x7F, 0x1B]];
    for data in inputs {
        assert!(decode_with_config(data, &lenient).is_ok());
        assert!(decode(data).is_ok());
    }
    assert_eq!(decode_with_config(&[0x1B, 0x1B, 0x1B], &lenient).unwrap(), "??");
}

#[test]
fn escape_at_end() {
    let data = [0x48, 0x69, 0x1B];
    match decode_with_config(&data, &Gsm7Config::strict()) {
        Err(Gsm7Error::MalformedData { reason }) => assert_eq!(reason, "Escape byte at end of input"),
        other => panic!("unexpected {:?}", other),
    }
    assert_eq!(decode_with_config(&data, &config(false, '#', 0, false)).unwrap(), "Hi#");
    assert_eq!(decode(&[0x1B]).unwrap(), "\u{FFFD}");
}

#[test]
fn out_of_range_bytes_in_both_modes() {
    let data = [0x41, 0x80, 0xFF, 0x42];
    assert_eq!(decode_with_config(&data, &Gsm7Config::strict()).unwrap(), "A\u{FFFD}\u{FFFD}B");
    assert_eq!(decode_with_config(&data, &config(true, '*', 0, true)).unwrap(), "A**B");
    assert_eq!(decode_with_config(&data, &config(false, '*', 0, false)).unwrap(), "A**B");
}

#[test]
fn invalid_escape_in_strict_mode() {
    let data = [0x41, 0x1B, 0xFF];
    assert_eq!(
        decode_with_config(&data, &Gsm7Config::strict()),
        Err(Gsm7Error::InvalidEscapeSequence { code: 0xFF })
    );
    assert_eq!(
        decode_with_config(&data, &config(true, '?', 0, true)),
        Err(Gsm7Error::InvalidEscapeSequence { code: 0xFF })
    );
    assert_eq!(decode_with_config(&data, &config(false, '?', 0, true)).unwrap(), "A?");
}

#[test]
fn strict_error_is_the_first_fault() {
    let data = [0x1B, 0x00, 0x1B];
    assert_eq!(
        decode_with_config(&data, &Gsm7Config::strict()),
        Err(Gsm7Error::InvalidEscapeSequence { code: 0x00 })
    );
}

#[test]
fn unsupported_character_strict_and_lenient() {
    assert_eq!(
        encode_with_config("Hello 🦀 World", &Gsm7Config::strict()),
        Err(Gsm7Error::UnsupportedCharacter { character: '🦀', code: 0x1F980 })
    );
    let lenient = config(false, '?', 0, false);
    let bytes = encode_with_config("Hello 🦀 World", &lenient).unwrap();
    assert_eq!(decode(&bytes).unwrap(), "Hello ? World");
}

#[test]
fn replacement_from_the_extension_table() {
    let bytes = encode_with_config("a\u{00E1}", &config(false, '€', 0, false)).unwrap();
    assert_eq!(bytes, vec![0x61, 0x1B, 0x65]);
}

#[test]
fn extension_characters_take_two_bytes() {
    let text = "{[]}\\~€|^";
    let bytes = encode(text).unwrap();
    assert_eq!(bytes.len(), 2 * text.chars().count());
    assert_eq!(bytes.len(), 18);
    assert_eq!(decode(&bytes).unwrap(), text);
}

#[test]
fn length_limit_in_both_directions() {
    let limited = config(false, '?', 5, false);
    assert!(matches!(
        encode_with_config("Hello World", &limited),
        Err(Gsm7Error::MalformedData { .. })
    ));
    assert!(matches!(
        decode_with_config(&[0x41; 11], &limited),
        Err(Gsm7Error::MalformedData { .. })
    ));
    assert_eq!(encode_with_config("Hello", &limited).unwrap().len(), 5);
    assert_eq!(decode_with_config(&[0x41; 5], &limited).unwrap(), "AAAAA");
    // the limit counts characters when encoding, not bytes
    assert!(encode_with_config("ΔΔΔΔΔ", &limited).is_ok());
}

#[test]
fn empty_input() {
    assert!(encode("").unwrap().is_empty());
    assert!(decode(&[]).unwrap().is_empty());
    assert!(encode_with_config("", &Gsm7Config::strict()).unwrap().is_empty());
    assert_eq!(encoded_len("").unwrap(), 0);
}
