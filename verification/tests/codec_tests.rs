use acornbencode::common::{bencode_value, BencodeValue, ParseError};
use acornbencode::dictionary::insert_sorted;
use acornbencode::encoder::{encode_to_bytes, encode_to_string, encode_to_writer, encode_value, ToBencode};
use acornbencode::parser::parse_bencode;

#[test]
fn roundtrip_of_parsed_values() {
    // parse(encode(v)) yields v back with nothing left over.
    let inputs: [&[u8]; 7] = [
        b"i42e",
        b"i-42e",
        b"4:spam",
        b"0:",
        b"le",
        b"d3:cow3:moo4:spam4:eggse",
        b"d4:listli1ei2ei3eee",
    ];
    for input in inputs {
        let (rest, value) = parse_bencode(input).unwrap();
        assert_eq!(rest, b"");
        let encoded = encode_to_bytes(&value).unwrap();
        assert_eq!(encoded, input.to_vec());
        let (rest2, value2) = parse_bencode(&encoded).unwrap();
        assert_eq!(rest2, b"");
        assert_eq!(value2, value);
    }
}

#[test]
fn idempotent_canonicalization() {
    // encode(parse(encode(v)).value) == encode(v), also where the first
    // parse normalized an unsorted dictionary.
    let (_, v) = parse_bencode(b"d4:spam4:eggs3:cow3:mooe").unwrap();
    let first = encode_to_bytes(&v).unwrap();
    let (_, reparsed) = parse_bencode(&first).unwrap();
    let second = encode_to_bytes(&reparsed).unwrap();
    assert_eq!(first, second);
    assert_eq!(first, b"d3:cow3:moo4:spam4:eggse".to_vec());
}

#[test]
fn leading_zero_rejection() {
    assert!(parse_bencode(b"04:spam").is_err());
    assert!(parse_bencode(b"i01e").is_err());
    assert!(parse_bencode(b"i00123e").is_err());
    assert_eq!(
        parse_bencode(b"0:"),
        Ok((&b""[..], BencodeValue::ByteString(Vec::new())))
    );
    assert_eq!(parse_bencode(b"i0e"), Ok((&b""[..], BencodeValue::Integer(0))));
}

#[test]
fn negative_zero_rejection() {
    assert!(parse_bencode(b"i-0e").is_err());
}

#[test]
fn binary_safety() {
    let (rest, value) = parse_bencode(b"4:\x00\x01\x02\x03").unwrap();
    assert_eq!(rest, b"");
    assert_eq!(value, BencodeValue::ByteString(vec![0x00, 0x01, 0x02, 0x03]));
}

#[test]
fn key_sorting_on_encode() {
    // Both key orders on the wire produce the same canonical encoding.
    let (_, a) = parse_bencode(b"d4:spam4:eggs3:cow3:mooe").unwrap();
    let (_, b) = parse_bencode(b"d3:cow3:moo4:spam4:eggse").unwrap();
    assert_eq!(a, b);
    assert_eq!(
        encode_to_bytes(&a).unwrap(),
        b"d3:cow3:moo4:spam4:eggse".to_vec()
    );
    assert_eq!(
        encode_to_bytes(&b).unwrap(),
        b"d3:cow3:moo4:spam4:eggse".to_vec()
    );
}

#[test]
fn insertion_order_does_not_matter() {
    let mut first: Vec<(Vec<u8>, BencodeValue)> = Vec::new();
    insert_sorted(
        &mut first,
        b"spam".to_vec(),
        BencodeValue::ByteString(b"eggs".to_vec()),
    );
    insert_sorted(
        &mut first,
        b"cow".to_vec(),
        BencodeValue::ByteString(b"moo".to_vec()),
    );
    let mut second: Vec<(Vec<u8>, BencodeValue)> = Vec::new();
    insert_sorted(
        &mut second,
        b"cow".to_vec(),
        BencodeValue::ByteString(b"moo".to_vec()),
    );
    insert_sorted(
        &mut second,
        b"spam".to_vec(),
        BencodeValue::ByteString(b"eggs".to_vec()),
    );
    assert_eq!(first, second);
    assert_eq!(
        encode_to_bytes(&BencodeValue::Dictionary(first)).unwrap(),
        b"d3:cow3:moo4:spam4:eggse".to_vec()
    );
}

#[test]
fn partial_consumption() {
    let (rest, value) = parse_bencode(b"4:spamextra").unwrap();
    assert_eq!(value, BencodeValue::ByteString(b"spam".to_vec()));
    assert_eq!(rest, b"extra");
}

#[test]
fn nested_structures() {
    let (rest, value) = parse_bencode(b"d4:listli1ei2ei3eee").unwrap();
    assert_eq!(rest, b"");
    assert_eq!(
        value,
        BencodeValue::Dictionary(vec![(
            b"list".to_vec(),
            BencodeValue::List(vec![
                BencodeValue::Integer(1),
                BencodeValue::Integer(2),
                BencodeValue::Integer(3),
            ]),
        )])
    );
}

#[test]
fn malformed_markers() {
    assert!(parse_bencode(b"4spam").is_err());
    assert!(parse_bencode(b"di1ei2ee").is_err());
    assert!(parse_bencode(b"li1ei2e").is_err());
}

#[test]
fn error_kinds() {
    // A leading zero in a magnitude field, at the field's start.
    assert_eq!(parse_bencode(b"i01e"), Err(ParseError::MalformedLength(1)));
    // A declared length beyond the remaining bytes, at the bytes' start.
    assert_eq!(parse_bencode(b"10:hello"), Err(ParseError::TruncatedInput(3)));
    // A list whose close marker is missing, at the input's end.
    assert_eq!(parse_bencode(b"li1e"), Err(ParseError::TruncatedInput(4)));
    // No grammar's leading marker.
    assert_eq!(parse_bencode(b"X"), Err(ParseError::InvalidMarker(0)));
    // A dictionary key that is not a byte string.
    assert_eq!(parse_bencode(b"di1ei2ee"), Err(ParseError::InvalidKey(1)));
    // An integer whose close marker is missing.
    assert_eq!(parse_bencode(b"i42"), Err(ParseError::TruncatedInput(3)));
    // Empty input.
    assert_eq!(parse_bencode(b""), Err(ParseError::TruncatedInput(0)));
}

#[test]
fn dispatcher_entry_point() {
    assert_eq!(
        bencode_value(b"i7etail"),
        Ok((&b"tail"[..], BencodeValue::Integer(7)))
    );
    assert!(bencode_value(b"?").is_err());
}

#[test]
fn encode_value_appends() {
    let mut out = b"head:".to_vec();
    encode_value(&BencodeValue::Integer(-7), &mut out).unwrap();
    assert_eq!(out, b"head:i-7e".to_vec());
}

#[test]
fn encode_to_string_ascii() {
    let value = BencodeValue::List(vec![
        BencodeValue::Integer(42),
        BencodeValue::ByteString(b"spam".to_vec()),
    ]);
    assert_eq!(encode_to_string(&value).unwrap(), "li42e4:spame");
}

#[test]
fn encode_to_string_lossy() {
    // Invalid UTF-8 bytes become replacement characters instead of an error.
    let value = BencodeValue::ByteString(vec![0xC0, 0x7F]);
    assert_eq!(encode_to_string(&value).unwrap(), "2:\u{FFFD}\u{7F}");
}

#[test]
fn encode_to_writer_collects_bytes() {
    let value = BencodeValue::ByteString(vec![0x00, 0xFF]);
    let mut sink: Vec<u8> = Vec::new();
    encode_to_writer(&value, &mut sink).unwrap();
    assert_eq!(sink, b"2:\x00\xFF".to_vec());
}

#[test]
fn integer_type_limits_on_encode() {
    assert_eq!(
        BencodeValue::Integer(i64::MAX).to_bencode().unwrap(),
        b"i9223372036854775807e"
    );
    assert_eq!(
        BencodeValue::Integer(i64::MIN).to_bencode().unwrap(),
        b"i-9223372036854775808e"
    );
    assert_eq!(9000u64.to_bencode().unwrap(), b"i9000e");
    assert!(matches!(
        u64::MAX.to_bencode(),
        Err(acornbencode::encoder::EncodingError::CustomError(_))
    ));
    assert_eq!(7u32.to_bencode().unwrap(), b"i7e");
    assert_eq!(7u16.to_bencode().unwrap(), b"i7e");
    assert_eq!(7i64.to_bencode().unwrap(), b"i7e");
    assert_eq!((-7isize).to_bencode().unwrap(), b"i-7e");
}

#[test]
fn byte_sequences_to_bencode() {
    assert_eq!(vec![0u8, 1u8].to_bencode().unwrap(), b"2:\x00\x01");
    assert_eq!(b"ab".as_slice().to_bencode().unwrap(), b"2:ab");
    assert_eq!(String::from("hi").to_bencode().unwrap(), b"2:hi");
}
