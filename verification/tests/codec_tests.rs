use ulid_sql::codec::{Identifier, InputForm, UlidError, classify_input, is_hex_format,
    parse_canonical, parse_hex};

const SAMPLE_CANONICAL: &str = "01J5KERCT1VJCKV1VEVZZ3NFY4";
const SAMPLE_HEX: &str = "019166ec3341dc993d876edffe3abfc4";
const SAMPLE_BITS: u128 = 0x019166ec3341dc993d876edffe3abfc4;

#[test]
fn parse_canonical_literal() {
    let id = parse_canonical(SAMPLE_CANONICAL).unwrap();
    assert_eq!(id.bits, SAMPLE_BITS);
}

#[test]
fn parse_canonical_is_case_insensitive() {
    let upper = parse_canonical("01J5KERCT1VJCKV1VEVZZ3NFY4").unwrap();
    let lower = parse_canonical("01j5kerct1vjckv1vevzz3nfy4").unwrap();
    let mixed = parse_canonical("01j5KErct1VJckv1vevZZ3nfy4").unwrap();
    assert_eq!(upper, lower);
    assert_eq!(upper, mixed);
    assert_eq!(upper.to_bytes(), lower.to_bytes());
}

#[test]
fn canonical_round_trip() {
    for bits in [0u128, 1, 31, 32, 255, SAMPLE_BITS, u128::MAX - 1, u128::MAX] {
        let id = Identifier { bits };
        let text = id.to_canonical();
        assert_eq!(text.len(), 26);
        assert_eq!(parse_canonical(&text).unwrap(), id);
    }
}

#[test]
fn hex_round_trip() {
    for bits in [0u128, 1, 15, 16, SAMPLE_BITS, u128::MAX] {
        let id = Identifier { bits };
        let text = id.to_hex();
        assert_eq!(text.len(), 32);
        assert_eq!(parse_hex(&text).unwrap(), id);
        let prefixed = format!("0x{}", text);
        assert_eq!(parse_hex(&prefixed).unwrap(), id);
    }
}

#[test]
fn bytes_round_trip() {
    for bits in [0u128, 1, 256, SAMPLE_BITS, u128::MAX] {
        let id = Identifier { bits };
        let bytes = id.to_bytes();
        assert_eq!(bytes.len(), 16);
        assert_eq!(Identifier::from_bytes(&bytes), id);
    }
}

#[test]
fn sample_bytes_are_big_endian() {
    let id = parse_canonical(SAMPLE_CANONICAL).unwrap();
    let expected: Vec<u8> = vec![
        1, 145, 102, 236, 51, 65, 220, 153, 61, 135, 110, 223, 254, 58, 191, 196,
    ];
    assert_eq!(id.to_bytes(), expected);
    assert_eq!(id.to_hex(), SAMPLE_HEX);
}

#[test]
fn extreme_values_print_as_expected() {
    assert_eq!(Identifier { bits: 0 }.to_canonical(), "00000000000000000000000000");
    assert_eq!(Identifier { bits: u128::MAX }.to_canonical(), "7ZZZZZZZZZZZZZZZZZZZZZZZZZ");
    assert_eq!(Identifier { bits: 0 }.to_hex(), "00000000000000000000000000000000");
    assert_eq!(Identifier { bits: u128::MAX }.to_hex(), "ffffffffffffffffffffffffffffffff");
}

#[test]
fn canonical_rejects_wrong_length() {
    assert_eq!(parse_canonical(""), Err(UlidError::MalformedIdentifier));
    // 25 characters
    assert_eq!(
        parse_canonical("1J5KERCT1VJCKV1VEVZZ3NFY4"),
        Err(UlidError::MalformedIdentifier)
    );
    // 27 characters
    assert_eq!(
        parse_canonical("01J5KERCT1VJCKV1VEVZZ3NFY42"),
        Err(UlidError::MalformedIdentifier)
    );
}

#[test]
fn canonical_rejects_foreign_characters() {
    // I, L, O and U are not in the alphabet
    assert_eq!(
        parse_canonical("01J5KERCT1VJCKV1VEVZZ3NFI4"),
        Err(UlidError::MalformedIdentifier)
    );
    assert_eq!(
        parse_canonical("0LJ5KERCT1VJCKV1VEVZZ3NFY4"),
        Err(UlidError::MalformedIdentifier)
    );
    assert_eq!(
        parse_canonical("01J5KERCT1VJCKV1VEVZZ3NFU4"),
        Err(UlidError::MalformedIdentifier)
    );
    assert_eq!(
        parse_canonical("01J5KERCT1VJCKV1VEVZZ3NF-4"),
        Err(UlidError::MalformedIdentifier)
    );
    assert_eq!(
        parse_canonical("01J5KERCT1VJCKV1VEVZZ3NF\u{e9}4"),
        Err(UlidError::MalformedIdentifier)
    );
}

#[test]
fn canonical_rejects_overflowing_first_character() {
    // The first character may only encode the digits 0 through 7.
    assert_eq!(parse_canonical("7ZZZZZZZZZZZZZZZZZZZZZZZZZ").unwrap().bits, u128::MAX);
    assert_eq!(
        parse_canonical("8ZZZZZZZZZZZZZZZZZZZZZZZZZ"),
        Err(UlidError::MalformedIdentifier)
    );
    assert_eq!(
        parse_canonical("ZZZZZZZZZZZZZZZZZZZZZZZZZZ"),
        Err(UlidError::MalformedIdentifier)
    );
}

#[test]
fn hex_rejects_wrong_length() {
    // 30 digits
    assert_eq!(
        parse_hex("9166ec3341dc993d876edffe3abfc4"),
        Err(UlidError::MalformedHex)
    );
    // 34 digits
    assert_eq!(
        parse_hex("00019166ec3341dc993d876edffe3abfc4"),
        Err(UlidError::MalformedHex)
    );
    assert_eq!(
        parse_hex("0x9166ec3341dc993d876edffe3abfc4"),
        Err(UlidError::MalformedHex)
    );
    assert_eq!(parse_hex(""), Err(UlidError::MalformedHex));
    assert_eq!(parse_hex("0x"), Err(UlidError::MalformedHex));
}

#[test]
fn hex_rejects_foreign_characters() {
    assert_eq!(
        parse_hex("019166ec3341dc993d876edffe3abfg4"),
        Err(UlidError::MalformedHex)
    );
    assert_eq!(
        parse_hex("019166ec3341dc993d876edffe3abf\u{e9}4"),
        Err(UlidError::MalformedHex)
    );
}

#[test]
fn hex_accepts_either_case_and_marker() {
    let plain = parse_hex("019166EC3341DC993D876EDFFE3ABFC4").unwrap();
    assert_eq!(plain.bits, SAMPLE_BITS);
    let upper_marker = parse_hex("0X019166EC3341DC993D876EDFFE3ABFC4").unwrap();
    assert_eq!(upper_marker.bits, SAMPLE_BITS);
}

#[test]
fn ordering_matches_between_text_and_bytes() {
    let samples = [
        0u128,
        1,
        2,
        31,
        32,
        255,
        256,
        SAMPLE_BITS,
        SAMPLE_BITS + 1,
        u128::MAX - 1,
        u128::MAX,
    ];
    for &a in samples.iter() {
        for &b in samples.iter() {
            let ia = Identifier { bits: a };
            let ib = Identifier { bits: b };
            let text_lt = ia.to_canonical() < ib.to_canonical();
            let bytes_lt = ia.to_bytes() < ib.to_bytes();
            assert_eq!(text_lt, bytes_lt);
            assert_eq!(text_lt, a < b);
        }
    }
}

#[test]
fn sniffing_follows_the_rule() {
    assert_eq!(
        classify_input("0x019166ec3341dc993d876edffe3abfc4"),
        InputForm::HexForm
    );
    assert_eq!(
        classify_input("019166ec3341dc993d876edffe3abfc4"),
        InputForm::HexForm
    );
    assert_eq!(classify_input(SAMPLE_CANONICAL), InputForm::CanonicalForm);
    assert_eq!(classify_input(""), InputForm::CanonicalForm);
    assert_eq!(classify_input("not an identifier"), InputForm::CanonicalForm);

    assert!(is_hex_format("0x"));
    assert!(is_hex_format("0xzz"));
    assert!(!is_hex_format("0X019166EC3341DC993D876EDFFE3ABFC4"));
    assert!(!is_hex_format(SAMPLE_CANONICAL));

    // A canonical text that itself starts with the characters `0x` is
    // claimed by the sniffing rule for hexadecimal.
    assert_eq!(classify_input("0x000000000000000000000000"), InputForm::HexForm);
}
