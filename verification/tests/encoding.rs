use combinations::alphabet::{symbol_of, value_of, BASE64_CHARS, SEPARATOR};
use combinations::encoding::{from_base64_string, to_base64_string};

fn token(n: i64) -> String {
    String::from_utf8(to_base64_string(n)).unwrap()
}

#[test]
fn alphabet_is_digits_lowercase_uppercase_plus_minus() {
    let expected = "0123456789abcdefghijklmnopqrstuvwxyzABCDEFGHIJKLMNOPQRSTUVWXYZ+-";
    assert_eq!(expected.as_bytes(), &BASE64_CHARS[..]);
    for v in 0..64u8 {
        assert_eq!(symbol_of(v), expected.as_bytes()[v as usize]);
    }
}

#[test]
fn separator_is_a_backslash() {
    assert_eq!(SEPARATOR, b'\\');
}

#[test]
fn value_of_inverts_symbol_of() {
    for v in 0..64u8 {
        assert_eq!(value_of(symbol_of(v)), Some(v));
    }
}

#[test]
fn value_of_refuses_other_bytes() {
    let symbols: Vec<u8> = BASE64_CHARS.to_vec();
    let mut refused = 0;
    for c in 0..=255u8 {
        if !symbols.contains(&c) {
            assert_eq!(value_of(c), None);
            refused += 1;
        }
    }
    assert_eq!(refused, 256 - 64);
    assert_eq!(value_of(b'\\'), None);
    assert_eq!(value_of(b'/'), None);
    assert_eq!(value_of(b'='), None);
    assert_eq!(value_of(0), None);
}

#[test]
fn zero_is_one_symbol() {
    assert_eq!(to_base64_string(0), vec![b'0']);
}

#[test]
fn single_digit_tokens() {
    assert_eq!(token(9), "9");
    assert_eq!(token(10), "a");
    assert_eq!(token(35), "z");
    assert_eq!(token(36), "A");
    assert_eq!(token(61), "Z");
    assert_eq!(token(62), "+");
    assert_eq!(token(63), "-");
}

#[test]
fn tokens_are_most_significant_digit_first() {
    assert_eq!(token(64), "10");
    assert_eq!(token(65), "11");
    assert_eq!(token(4095), "--");
    assert_eq!(token(4096), "100");
    assert_eq!(token(262143), "---");
    assert_eq!(token(123456789), "7mYQl");
}

#[test]
fn tokens_of_large_numbers() {
    assert_eq!(token((1i64 << 60) - 1), "----------");
    assert_eq!(token(1i64 << 60), "10000000000");
    assert_eq!(token(i64::MAX), "7----------");
}

#[test]
fn tokens_are_not_padded() {
    assert_eq!(to_base64_string(1).len(), 1);
    assert_eq!(to_base64_string(63).len(), 1);
    assert_eq!(to_base64_string(64).len(), 2);
    assert_eq!(to_base64_string(4095).len(), 2);
    assert_eq!(to_base64_string(4096).len(), 3);
}

#[test]
fn decoding_an_encoding_gives_the_number_back() {
    for n in 0..70_000i64 {
        assert_eq!(from_base64_string(&to_base64_string(n)), Some(n));
    }
    for n in [262143, 262144, 123456789, (1i64 << 60) - 1, 1i64 << 60, i64::MAX - 1, i64::MAX] {
        assert_eq!(from_base64_string(&to_base64_string(n)), Some(n));
    }
}

#[test]
fn encoding_is_injective_over_three_digits() {
    let mut seen = std::collections::HashSet::new();
    for n in 0..(64i64 * 64 * 64) {
        assert!(seen.insert(to_base64_string(n)));
    }
    assert_eq!(seen.len(), 64 * 64 * 64);
}

#[test]
fn decoding_known_tokens() {
    assert_eq!(from_base64_string(b"0"), Some(0));
    assert_eq!(from_base64_string(b"-"), Some(63));
    assert_eq!(from_base64_string(b"10"), Some(64));
    assert_eq!(from_base64_string(b"7mYQl"), Some(123456789));
    assert_eq!(from_base64_string(b"7----------"), Some(i64::MAX));
}

#[test]
fn decoding_refuses_what_is_no_token() {
    assert_eq!(from_base64_string(b""), None);
    assert_eq!(from_base64_string(b"00"), None);
    assert_eq!(from_base64_string(b"01"), None);
    assert_eq!(from_base64_string(b"0a"), None);
    assert_eq!(from_base64_string(b"a!"), None);
    assert_eq!(from_base64_string(b"a\\"), None);
    assert_eq!(from_base64_string(b" 1"), None);
    assert_eq!(from_base64_string(b"1/"), None);
}

#[test]
fn decoding_refuses_what_does_not_fit() {
    assert_eq!(from_base64_string(b"80000000000"), None);
    assert_eq!(from_base64_string(b"-----------"), None);
    assert_eq!(from_base64_string(b"100000000000"), None);
}
