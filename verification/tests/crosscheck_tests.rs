//! Holds the codec to the crates the surrounding tooling uses for the same
//! transforms.

use ulid_sql::codec::{Identifier, parse_canonical, parse_hex};

const SAMPLES: [u128; 8] = [
    0,
    1,
    255,
    0x0123456789abcdef,
    0x019166ec3341dc993d876edffe3abfc4,
    1 << 127,
    u128::MAX - 1,
    u128::MAX,
];

#[test]
fn canonical_matches_ulid_crate() {
    for &bits in SAMPLES.iter() {
        let ours = Identifier { bits }.to_canonical();
        let theirs = ulid::Ulid(bits).to_string();
        assert_eq!(ours, theirs);
    }
}

#[test]
fn parsing_matches_ulid_crate() {
    for &bits in SAMPLES.iter() {
        let text = ulid::Ulid(bits).to_string();
        let ours = parse_canonical(&text).unwrap();
        assert_eq!(ours.bits, bits);
        let lower = text.to_lowercase();
        assert_eq!(parse_canonical(&lower).unwrap().bits, bits);
        assert_eq!(ulid::Ulid::from_string(&lower).unwrap().0, bits);
    }
}

#[test]
fn bytes_match_ulid_crate() {
    for &bits in SAMPLES.iter() {
        let ours = Identifier { bits }.to_bytes();
        let theirs = ulid::Ulid(bits).to_bytes();
        assert_eq!(ours.as_slice(), theirs.as_slice());
        assert_eq!(Identifier::from_bytes(&theirs.to_vec()).bits, bits);
    }
}

#[test]
fn hex_matches_hex_crate() {
    for &bits in SAMPLES.iter() {
        let id = Identifier { bits };
        assert_eq!(id.to_hex(), hex::encode(id.to_bytes()));
        let decoded = hex::decode(id.to_hex()).unwrap();
        assert_eq!(decoded, id.to_bytes());
        assert_eq!(parse_hex(&hex::encode(id.to_bytes())).unwrap(), id);
    }
}
