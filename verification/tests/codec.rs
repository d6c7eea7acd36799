use std::time::{SystemTime, UNIX_EPOCH};

use zest::ascii::{parse_dec, u64_to_dec};
use zest::util::{iter_to_json_string, url_decode, url_encode, DecodeError};

fn rand(max: u32) -> usize {
    let start = SystemTime::now();

    let since_the_epoch = start.duration_since(UNIX_EPOCH).expect("Time went backwards");

    (since_the_epoch.subsec_nanos() % max) as usize
}

fn generate_random_string() -> String {
    let ascii_characters = 0x0020..0x007F;
    let cyrillic_letters = 0x0400..0x04FF;
    let currency_symbols = 0x20A0..0x20CF;

    let characters: Vec<char> = ascii_characters
        .chain(cyrillic_letters)
        .chain(currency_symbols)
        .filter_map(char::from_u32)
        .collect();

    let char_table_len = characters.len() as u32;
    let string_len = rand(100) + 1;

    let s: String = (0..string_len).map(|_| characters[rand(char_table_len)]).collect();
    s
}

#[test]
fn util_url_encode_and_decode() {
    for _ in 0..1000 {
        let original = generate_random_string();
        let encoded = url_encode(&original.as_bytes().to_vec());
        let decoded = url_decode(&encoded).unwrap();

        assert_eq!(original.as_bytes().to_vec(), decoded);
    }
}

#[test]
fn url_decoding_url_encode_and_decode() {
    for _ in 0..1000 {
        let original = generate_random_string();
        let encoded = url_encode(&original.as_bytes().to_vec());
        let decoded = url_decode(&encoded).unwrap();

        assert_eq!(original.as_bytes().to_vec(), decoded);
    }
}

#[test]
fn make_json_from_iter() {
    let items = vec![b"Hello".to_vec(), b"World".to_vec()];

    assert_eq!(iter_to_json_string(&items), b"[\"Hello\",\"World\"]".to_vec());
}

#[test]
fn encode_exact_escapes() {
    assert_eq!(url_encode(&b"a b%".to_vec()), b"a%20b%25".to_vec());
    assert_eq!(url_encode(&b"AZaz09-._~".to_vec()), b"AZaz09-._~".to_vec());
    assert_eq!(url_encode(&vec![0u8, 255u8]), b"%00%FF".to_vec());
}

#[test]
fn decode_exact_escapes() {
    assert_eq!(url_decode(&b"a%20b%25".to_vec()).unwrap(), b"a b%".to_vec());
    assert_eq!(url_decode(&b"%41%6a".to_vec()).unwrap(), b"Aj".to_vec());
}

#[test]
fn decode_round_trips_non_ascii_bytes() {
    let raw: Vec<u8> = (0u8..=255u8).collect();
    let encoded = url_encode(&raw);
    assert_eq!(url_decode(&encoded).unwrap(), raw);
}

#[test]
fn decode_rejects_malformed_escapes() {
    assert_eq!(url_decode(&b"%g1".to_vec()).unwrap_err(), DecodeError::InvalidEscape);
    assert_eq!(url_decode(&b"abc%".to_vec()).unwrap_err(), DecodeError::InvalidEscape);
    assert_eq!(url_decode(&b"abc%1".to_vec()).unwrap_err(), DecodeError::InvalidEscape);
}

#[test]
fn make_json_of_nothing_is_empty_array() {
    let items: Vec<Vec<u8>> = Vec::new();
    assert_eq!(iter_to_json_string(&items), b"[]".to_vec());
}

#[test]
fn decode_accepts_plus_prefixed_escape_payload() {
    // u8::from_str_radix tolerates a leading plus in the two escape bytes
    assert_eq!(url_decode(&b"%+5".to_vec()).unwrap(), vec![5u8]);
    assert_eq!(url_decode(&b"%5+".to_vec()).unwrap_err(), DecodeError::InvalidEscape);
}

#[test]
fn decimal_parsing_matches_parse() {
    assert_eq!(parse_dec(&b"123".to_vec()), Some(123));
    assert_eq!(parse_dec(&b"+7".to_vec()), Some(7));
    assert_eq!(parse_dec(&b"0".to_vec()), Some(0));
    assert_eq!(parse_dec(&b"".to_vec()), None);
    assert_eq!(parse_dec(&b"+".to_vec()), None);
    assert_eq!(parse_dec(&b"12a".to_vec()), None);
    assert_eq!(parse_dec(&b"-3".to_vec()), None);
    assert_eq!(parse_dec(&b"18446744073709551615".to_vec()), Some(u64::MAX));
    assert_eq!(parse_dec(&b"18446744073709551616".to_vec()), None);

    assert_eq!(u64_to_dec(0), b"0".to_vec());
    assert_eq!(u64_to_dec(524288), b"524288".to_vec());
    assert_eq!(u64_to_dec(u64::MAX), b"18446744073709551615".to_vec());
}
