use bittorrent_starter_rust::bencode::BencodeValue;
use bittorrent_starter_rust::de::from_bytes;
use bittorrent_starter_rust::de::from_str;
use bittorrent_starter_rust::de::DecodeError;
use bittorrent_starter_rust::render::render;
use bittorrent_starter_rust::ser::to_bytes;
use bittorrent_starter_rust::ser::to_string;

#[test]
fn test_int() {
    let j = "i5e";
    let expected = BencodeValue::Integer(5);
    assert_eq!(expected, from_str(j).unwrap());
}

#[test]
fn test_negative_int() {
    let j = "i-5e";
    let expected = BencodeValue::Integer(-5);
    assert_eq!(expected, from_str(j).unwrap());
}

#[test]
fn test_str() {
    let j = "4:spam";
    let expected = BencodeValue::String("spam".as_bytes().to_vec());
    assert_eq!(expected, from_str(j).unwrap());
}

#[test]
fn test_list() {
    let j = "li5ei6ee";
    let expected = BencodeValue::List(vec![BencodeValue::Integer(5), BencodeValue::Integer(6)]);
    assert_eq!(expected, from_str(j).unwrap());
}

#[test]
fn test_ser() {
    let s = BencodeValue::String(hex::decode("68656c6c6f").unwrap());
    let expected = "5:hello";
    assert_eq!(to_string(&s), expected);

    let i = BencodeValue::Integer(5);
    let expected = "i5e";
    assert_eq!(to_string(&i), expected);

    let l = BencodeValue::List(vec![
        BencodeValue::Integer(5),
        BencodeValue::String(hex::decode("68656c6c6f").unwrap()),
    ]);
    let expected = "li5e5:helloe";
    assert_eq!(to_string(&l), expected);

    let d = BencodeValue::Dictionary(vec![(
        hex::decode("68656c6c6f").unwrap(),
        BencodeValue::Integer(5),
    )]);
    let expected = "d5:helloi5ee";
    assert_eq!(to_string(&d), expected);
}

#[test]
fn test_de() {
    let s = from_str("5:tahir").unwrap();
    let expected = BencodeValue::String(hex::decode("7461686972").unwrap());
    assert_eq!(s, expected);

    let i = from_str("i5e").unwrap();
    let expected = BencodeValue::Integer(5);
    assert_eq!(i, expected);

    let l = from_str("le").unwrap();
    let expected = BencodeValue::List(vec![]);
    assert_eq!(l, expected);

    let l = from_str("li5e5:helloe").unwrap();
    let expected = BencodeValue::List(vec![
        BencodeValue::Integer(5),
        BencodeValue::String(hex::decode("68656c6c6f").unwrap()),
    ]);
    assert_eq!(l, expected);

    let d = from_str("d5:helloi5ee").unwrap();
    let expected = BencodeValue::Dictionary(vec![(
        hex::decode("68656c6c6f").unwrap(),
        BencodeValue::Integer(5),
    )]);
    assert_eq!(d, expected);
}

#[test]
fn test_struct() {
    // A two-field record with sorted keys encodes field by field.
    let test = BencodeValue::Dictionary(vec![
        ("int".as_bytes().to_vec(), BencodeValue::Integer(1)),
        (
            "seq".as_bytes().to_vec(),
            BencodeValue::List(vec![
                BencodeValue::String("a".as_bytes().to_vec()),
                BencodeValue::String("b".as_bytes().to_vec()),
            ]),
        ),
    ]);
    let expected = "d3:inti1e3:seql1:a1:bee";
    assert_eq!(to_bytes(&test), expected.as_bytes().to_vec());
}

#[test]
fn round_trip_decode_of_encode() {
    let v = BencodeValue::Dictionary(vec![
        (
            "a".as_bytes().to_vec(),
            BencodeValue::List(vec![
                BencodeValue::Integer(-42),
                BencodeValue::String(vec![0u8, 255u8, 7u8]),
            ]),
        ),
        ("b".as_bytes().to_vec(), BencodeValue::Integer(i64::MAX)),
        ("c".as_bytes().to_vec(), BencodeValue::Integer(i64::MIN)),
        ("d".as_bytes().to_vec(), BencodeValue::Dictionary(vec![])),
    ]);
    let bytes = to_bytes(&v);
    assert_eq!(from_bytes(&bytes).unwrap(), v);
}

#[test]
fn round_trip_encode_of_decode() {
    let canonical = "d1:ald2:xyi0eee2:abi-7e2:zz0:e".as_bytes();
    let v = from_bytes(canonical).unwrap();
    assert_eq!(to_bytes(&v), canonical.to_vec());
}

#[test]
fn decode_rejects_malformed_input() {
    assert_eq!(from_str("").unwrap_err(), DecodeError::UnexpectedEof);
    assert_eq!(from_str("i-e").unwrap_err(), DecodeError::ExpectedDigit);
    assert_eq!(from_str("4x").unwrap_err(), DecodeError::ExpectedColon);
    assert_eq!(from_str("i05e").unwrap_err(), DecodeError::ExpectedEnd);
    assert_eq!(from_str("i-0e").unwrap_err(), DecodeError::NegativeZero);
    assert_eq!(
        from_str("i9223372036854775808e").unwrap_err(),
        DecodeError::IntegerOverflow
    );
    assert_eq!(from_str("i-9223372036854775808e").unwrap(), BencodeValue::Integer(i64::MIN));
    assert_eq!(from_str("5:abc").unwrap_err(), DecodeError::LengthOverrun);
    assert_eq!(from_str("xabc").unwrap_err(), DecodeError::InvalidType);
    assert_eq!(from_str("i5ee").unwrap_err(), DecodeError::TrailingBytes);
    assert_eq!(from_str("li5e").unwrap_err(), DecodeError::UnexpectedEof);
}

#[test]
fn deserializer_cursor_methods() {
    let mut de = bittorrent_starter_rust::de::Deserializer::from_str("i5e4:spam");
    assert_eq!(de.peek_byte().unwrap(), b'i');
    assert_eq!(de.parse_signed().unwrap(), 5);
    assert_eq!(de.parse_bytes().unwrap(), b"spam".to_vec());
    assert_eq!(de.peek_byte().unwrap_err(), DecodeError::UnexpectedEof);

    let mut de = bittorrent_starter_rust::de::Deserializer::from_bytes(b"ab");
    assert_eq!(de.next_byte().unwrap(), b'a');
    assert_eq!(de.next_byte().unwrap(), b'b');
    assert_eq!(de.next_byte().unwrap_err(), DecodeError::UnexpectedEof);

    let mut de = bittorrent_starter_rust::de::Deserializer::from_str("5:ab");
    assert_eq!(de.parse_signed().unwrap_err(), DecodeError::ExpectedInteger);
}

#[test]
fn decode_reports_consumed_length() {
    let (v, n) = bittorrent_starter_rust::de::decode("i5eli1ee".as_bytes()).unwrap();
    assert_eq!(v, BencodeValue::Integer(5));
    assert_eq!(n, 3);
    let (v, n) = bittorrent_starter_rust::de::decode("3:abcrest".as_bytes()).unwrap();
    assert_eq!(v, BencodeValue::String("abc".as_bytes().to_vec()));
    assert_eq!(n, 5);
}

#[test]
fn decode_empty_string_value() {
    assert_eq!(from_str("0:").unwrap(), BencodeValue::String(vec![]));
    assert_eq!(from_str("i0e").unwrap(), BencodeValue::Integer(0));
}

#[test]
fn render_is_json_like() {
    assert_eq!(render(&from_str("5:hello").unwrap()), "\"hello\"");
    assert_eq!(render(&from_str("i-42e").unwrap()), "-42");
    assert_eq!(render(&from_str("li5e5:helloe").unwrap()), "[5,\"hello\"]");
    assert_eq!(render(&from_str("d5:helloi5ee").unwrap()), "{\"hello\":5}");
    assert_eq!(render(&from_str("le").unwrap()), "[]");
    assert_eq!(render(&from_str("de").unwrap()), "{}");
}

#[test]
fn encoder_emits_keys_in_stored_order() {
    let d = BencodeValue::Dictionary(vec![
        ("a".as_bytes().to_vec(), BencodeValue::Integer(1)),
        ("b".as_bytes().to_vec(), BencodeValue::Integer(2)),
        ("c".as_bytes().to_vec(), BencodeValue::Integer(3)),
    ]);
    assert_eq!(to_bytes(&d), "d1:ai1e1:bi2e1:ci3ee".as_bytes().to_vec());
}
