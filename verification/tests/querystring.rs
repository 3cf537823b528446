use ehttpd_querystring::querystring::{DecodeError, QueryString};
use ehttpd_querystring::querystringext::{AccessError, FromQueryText, IntParseError};

/// Decodes `raw` and compares the resulting fields against `expected`.
fn check(raw: &[u8], expected: &[(&[u8], &[u8])]) {
    let query = QueryString::decode(raw).expect("failed to decode query string?!");
    assert_eq!(query.len(), expected.len(), "invalid decoded query string?!");
    for (key, value) in expected {
        let got = query.get(key).map(|v| v.as_slice());
        assert_eq!(got, Some(*value), "invalid decoded query string?!");
    }
}

#[test]
fn test() {
    check(
        b"?code=M696be062-f150-bb19-9944-0c3a0ca60b48&state=99f4bd624dbe53d0ae330eabda904ac4",
        &[
            (b"code", b"M696be062-f150-bb19-9944-0c3a0ca60b48"),
            (b"state", b"99f4bd624dbe53d0ae330eabda904ac4"),
        ],
    );
    check(
        b"?q=tree+-swing&l=commderiv&d=taken-20000101-20051231&ct=0&lol&mt=all&adv=1&&",
        &[
            (b"q", b"tree+-swing"),
            (b"l", b"commderiv"),
            (b"d", b"taken-20000101-20051231"),
            (b"ct", b"0"),
            (b"mt", b"all"),
            (b"adv", b"1"),
            (b"lol", b""),
        ],
    );
    check(b"?%2FVolume=%2FData%2F%0A", &[(b"/Volume", b"/Data/\x0A")]);
    check(b"?", &[]);
}

#[test]
fn target_without_question_mark_is_all_base_path() {
    let query = QueryString::decode(b"just/a/plain/path").unwrap();
    assert_eq!(query.url(), b"just/a/plain/path");
    assert_eq!(query.len(), 0);

    let query = QueryString::decode(b"key0&&key1").unwrap();
    assert_eq!(query.url(), b"key0&&key1");
    assert_eq!(query.len(), 0);
}

#[test]
fn split_happens_at_first_question_mark_only() {
    let query = QueryString::decode(b"a?b?c").unwrap();
    assert_eq!(query.url(), b"a");
    assert_eq!(query.len(), 1);
    assert_eq!(query.get(b"b?c").map(|v| v.as_slice()), Some(&b""[..]));
}

#[test]
fn percent_decode_without_escapes_is_identity() {
    assert_eq!(QueryString::percent_decode(b"hello, world"), Ok(b"hello, world".to_vec()));
    assert_eq!(QueryString::percent_decode(b""), Ok(Vec::new()));
}

#[test]
fn percent_decode_inverts_percent_encode() {
    let all_bytes: Vec<u8> = (0u8..=255).collect();
    let mut encoded = String::new();
    for byte in &all_bytes {
        encoded.push_str(&format!("%{:02X}", byte));
    }
    assert_eq!(QueryString::percent_decode(encoded.as_bytes()), Ok(all_bytes));
}

#[test]
fn percent_decode_accepts_lower_case_hex() {
    assert_eq!(QueryString::percent_decode(b"%2f%4A"), Ok(b"/J".to_vec()));
}

#[test]
fn empty_key_pairs_are_dropped() {
    check(b"?&", &[]);
    check(b"?key0&&key1", &[(b"key0", b""), (b"key1", b"")]);
    check(b"?=value0&key1=value1&", &[(b"key1", b"value1")]);
    let query = QueryString::decode(b"&").unwrap();
    assert_eq!(query.url(), b"&");
    assert_eq!(query.len(), 0);
}

#[test]
fn later_duplicate_key_wins() {
    check(b"?a=1&a=2", &[(b"a", b"2")]);
}

#[test]
fn malformed_escapes_fail() {
    assert_eq!(QueryString::decode(b"?k=%").unwrap_err(), DecodeError::TruncatedEscape);
    assert_eq!(QueryString::decode(b"?k=%2").unwrap_err(), DecodeError::TruncatedEscape);
    assert_eq!(QueryString::decode(b"?k=%zz").unwrap_err(), DecodeError::InvalidHexDigit(b'z'));
    assert_eq!(QueryString::decode(b"?k=%2z").unwrap_err(), DecodeError::InvalidHexDigit(b'z'));
    assert_eq!(QueryString::decode(b"?k%").unwrap_err(), DecodeError::TruncatedEscape);
}

#[test]
fn percent_decode_byte_maps_hex_digit_pairs() {
    assert_eq!(QueryString::percent_decode_byte(b'4', b'1'), Ok(0x41));
    assert_eq!(QueryString::percent_decode_byte(b'f', b'F'), Ok(0xFF));
    assert_eq!(QueryString::percent_decode_byte(b'0', b'0'), Ok(0x00));
    assert_eq!(
        QueryString::percent_decode_byte(b'z', b'1'),
        Err(DecodeError::InvalidHexDigit(b'z'))
    );
    assert_eq!(
        QueryString::percent_decode_byte(b'1', b'z'),
        Err(DecodeError::InvalidHexDigit(b'z'))
    );
}

#[test]
fn get_str_decodes_utf8_values() {
    let query = QueryString::decode(b"?k=%C3%A9").unwrap();
    assert_eq!(query.get_str::<()>(b"k"), Ok(Some("\u{e9}")));
    assert_eq!(query.get_str::<()>(b"missing"), Ok(None));
}

#[test]
fn get_str_rejects_invalid_utf8() {
    let query = QueryString::decode(b"?k=%FF").unwrap();
    assert_eq!(query.get_str::<()>(b"k"), Err(AccessError::InvalidUtf8));
}

#[test]
fn get_as_parses_present_values_only() {
    let query = QueryString::decode(b"?ct=0").unwrap();
    assert_eq!(query.get_as::<i32>(b"ct"), Ok(Some(0)));
    assert_eq!(query.get_as::<i32>(b"missing"), Ok(None));

    let query = QueryString::decode(b"?ct=abc").unwrap();
    assert_eq!(
        query.get_as::<i32>(b"ct"),
        Err(AccessError::ParseFailure(IntParseError::InvalidDigit))
    );
}

#[test]
fn parse_text_handles_signs_and_bounds() {
    assert_eq!(<i32 as FromQueryText>::parse_text("2147483647"), Ok(2147483647));
    assert_eq!(<i32 as FromQueryText>::parse_text("-2147483648"), Ok(-2147483648));
    assert_eq!(<i32 as FromQueryText>::parse_text("+5"), Ok(5));
    assert_eq!(<i32 as FromQueryText>::parse_text("-0"), Ok(0));
    assert_eq!(<i32 as FromQueryText>::parse_text("007"), Ok(7));
    assert_eq!(<i32 as FromQueryText>::parse_text("2147483648"), Err(IntParseError::OutOfRange));
    assert_eq!(
        <i32 as FromQueryText>::parse_text("-2147483649"),
        Err(IntParseError::OutOfRange)
    );
    assert_eq!(
        <i32 as FromQueryText>::parse_text("99999999999999999999"),
        Err(IntParseError::OutOfRange)
    );
    assert_eq!(<i32 as FromQueryText>::parse_text(""), Err(IntParseError::Empty));
    assert_eq!(<i32 as FromQueryText>::parse_text("+"), Err(IntParseError::Empty));
    assert_eq!(<i32 as FromQueryText>::parse_text("-"), Err(IntParseError::Empty));
    assert_eq!(<i32 as FromQueryText>::parse_text("1a"), Err(IntParseError::InvalidDigit));
    assert_eq!(<i32 as FromQueryText>::parse_text(" 1"), Err(IntParseError::InvalidDigit));
}

#[test]
fn fields_exposes_every_pair_once() {
    let query = QueryString::decode(b"?a=1&b=2&a=3").unwrap();
    let pairs = query.fields();
    assert_eq!(pairs.len(), 2);
    for (key, value) in pairs {
        assert_eq!(query.get(key), Some(value));
    }
}

#[test]
fn url_is_borrowed_base_path() {
    let query = QueryString::decode(b"path/to/resource?x=1").unwrap();
    assert_eq!(query.url(), b"path/to/resource");
    assert_eq!(query.get(b"x").map(|v| v.as_slice()), Some(&b"1"[..]));
}

#[test]
fn escaped_keys_are_decoded() {
    check(b"?%61=%62", &[(b"a", b"b")]);
    check(b"?a%3Db=c", &[(b"a=b", b"c")]);
}
