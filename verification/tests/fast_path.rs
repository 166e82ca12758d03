use brc_engine::swar::{find_semicolon, load_u64_le, parse_number, scan_city_slow};
use brc_engine::table::{city_hash8_prefix, create_hash, key_hash};

#[test]
fn word_load_is_little_endian() {
    let bytes = b"q;3.4\nAB";
    let w = load_u64_le(bytes);
    assert_eq!(w, u64::from_le_bytes(*bytes));
    assert_eq!(w & 0xff, b'q' as u64);
    assert_eq!((w >> 8) & 0xff, b';' as u64);
}

#[test]
fn semicolon_search_finds_first_byte() {
    assert_eq!(find_semicolon(u64::from_le_bytes(*b";abcdefg")), 0);
    assert_eq!(find_semicolon(u64::from_le_bytes(*b"abc;efgh")), 3);
    assert_eq!(find_semicolon(u64::from_le_bytes(*b"ab;de;gh")), 2);
    assert_eq!(find_semicolon(u64::from_le_bytes(*b"abcdefg;")), 7);
    assert_eq!(find_semicolon(u64::from_le_bytes(*b"abcdefgh")), -1);
    assert_eq!(find_semicolon(0), -1);
}

#[test]
fn word_decoder_matches_token_shapes() {
    assert_eq!(parse_number(u64::from_le_bytes(*b"0.0\nxxxx")), (0, 4));
    assert_eq!(parse_number(u64::from_le_bytes(*b"9.9\nxxxx")), (99, 4));
    assert_eq!(parse_number(u64::from_le_bytes(*b"12.3\nxxx")), (123, 5));
    assert_eq!(parse_number(u64::from_le_bytes(*b"-5.0\nxxx")), (-50, 5));
    assert_eq!(parse_number(u64::from_le_bytes(*b"99.9\nxxx")), (999, 5));
    assert_eq!(parse_number(u64::from_le_bytes(*b"-99.9\nxx")), (-999, 6));
    assert_eq!(parse_number(u64::from_le_bytes(*b"-10.2\nxx")), (-102, 6));
}

#[test]
fn byte_wise_station_scan() {
    let (name, consumed) = scan_city_slow(b"Paris;1.0");
    assert_eq!(name, b"Paris");
    assert_eq!(consumed, 6);
    let (name, consumed) = scan_city_slow(b"NoSeparator");
    assert_eq!(name, b"NoSeparator");
    assert_eq!(consumed, b"NoSeparator".len());
}

#[test]
fn hash_packs_key_prefix() {
    // a key of at most 8 bytes hashes to its padded little-endian bytes
    assert_eq!(city_hash8_prefix(b"ab"), u64::from_le_bytes(*b"ab\0\0\0\0\0\0"));
    assert_eq!(create_hash(u64::from_le_bytes(*b"ab\0\0\0\0\0\0"), 2).0, u64::from_le_bytes(*b"ab\0\0\0\0\0\0"));
    // longer keys keep the first eight bytes
    assert_eq!(city_hash8_prefix(b"abcdefghij"), u64::from_le_bytes(*b"abcdefgh"));
    // equal keys hash equal, and these two differ
    assert_eq!(key_hash(b"Hamburg").0, key_hash(b"Hamburg").0);
    assert_ne!(key_hash(b"Hamburg").0, key_hash(b"Berlin").0);
}
