use acornbencode::common::BencodeValue;
use acornbencode::encoder::ToBencode;
use std::collections::BTreeMap;

#[test]
fn test_encode_integer() {
    assert_eq!(42.to_bencode().unwrap(), b"i42e");
    assert_eq!((-42).to_bencode().unwrap(), b"i-42e");
    assert_eq!(0.to_bencode().unwrap(), b"i0e");
}

#[test]
fn test_encode_string() {
    assert_eq!("spam".to_bencode().unwrap(), b"4:spam");
    assert_eq!("".to_bencode().unwrap(), b"0:");
}

#[test]
fn test_encode_bytes() {
    let binary_data = BencodeValue::ByteString(vec![0x00, 0x01, 0x02, 0x03]);
    let expected = b"4:\x00\x01\x02\x03";
    assert_eq!(binary_data.to_bencode().unwrap(), expected);

    // Test with binary data that's not valid UTF-8
    let invalid_utf8 = BencodeValue::ByteString(vec![0xC0, 0x7F]);
    let expected = b"2:\xC0\x7F";
    assert_eq!(invalid_utf8.to_bencode().unwrap(), expected);
}

#[test]
fn test_encode_list() {
    let list = vec![1, 2, 3];
    assert_eq!(list.to_bencode().unwrap(), b"li1ei2ei3ee");

    let empty_list: Vec<i32> = vec![];
    assert_eq!(empty_list.to_bencode().unwrap(), b"le");
}

#[test]
fn test_encode_dictionary() {
    let mut dict = BTreeMap::new();
    dict.insert("cow", "moo");
    dict.insert("spam", "eggs");

    // Keys are sorted lexicographically in the output
    assert_eq!(dict.to_bencode().unwrap(), b"d3:cow3:moo4:spam4:eggse");
}

#[test]
fn test_encode_byte_dictionary() {
    let mut dict = BTreeMap::new();
    dict.insert(b"cow".as_slice(), BencodeValue::ByteString(b"moo".to_vec()));
    dict.insert(
        b"spam".as_slice(),
        BencodeValue::ByteString(b"eggs".to_vec()),
    );

    // Keys are sorted lexicographically in the output
    assert_eq!(dict.to_bencode().unwrap(), b"d3:cow3:moo4:spam4:eggse");

    // Test with binary data that's not valid UTF-8
    let mut binary_dict = BTreeMap::new();
    binary_dict.insert(
        b"bin".as_slice(),
        BencodeValue::ByteString(vec![0xC0, 0x7F]),
    );

    let encoded = binary_dict.to_bencode().unwrap();
    assert_eq!(encoded, b"d3:bin2:\xC0\x7Fe");
}

#[test]
fn test_encode_nested_structures() {
    let inner_dict = BencodeValue::Dictionary(vec![(
        b"key".to_vec(),
        BencodeValue::ByteString(b"value".to_vec()),
    )]);

    let mut dict = BTreeMap::new();
    dict.insert(b"dict".as_slice(), inner_dict);
    dict.insert(
        b"list".as_slice(),
        BencodeValue::List(vec![
            BencodeValue::Integer(1),
            BencodeValue::Integer(2),
            BencodeValue::Integer(3),
        ]),
    );

    assert_eq!(
        dict.to_bencode().unwrap(),
        b"d4:dictd3:key5:valuee4:listli1ei2ei3eee"
    );
}

#[test]
fn test_encode_bencode_value() {
    let integer = BencodeValue::Integer(42);
    assert_eq!(integer.to_bencode().unwrap(), b"i42e");

    let string = BencodeValue::ByteString(b"spam".to_vec());
    assert_eq!(string.to_bencode().unwrap(), b"4:spam");

    let list = BencodeValue::List(vec![
        BencodeValue::Integer(1),
        BencodeValue::Integer(2),
        BencodeValue::Integer(3),
    ]);
    assert_eq!(list.to_bencode().unwrap(), b"li1ei2ei3ee");

    let dict = BencodeValue::Dictionary(vec![(
        b"key".to_vec(),
        BencodeValue::ByteString(b"value".to_vec()),
    )]);
    assert_eq!(dict.to_bencode().unwrap(), b"d3:key5:valuee");
}

#[test]
fn test_encode_binary_data() {
    // Test with non-UTF8 data as a byte string
    let binary_data = BencodeValue::ByteString(vec![0xC0, 0x7F]);
    assert_eq!(binary_data.to_bencode().unwrap(), b"2:\xC0\x7F");

    // Test with a mix of printable and non-printable characters
    let mixed_data = BencodeValue::ByteString(vec![b'h', b'i', 0, 1, 2, 3]);
    assert_eq!(mixed_data.to_bencode().unwrap(), b"6:hi\x00\x01\x02\x03");
}

#[test]
fn test_encode_empty_dictionaries() {
    let empty: BTreeMap<&[u8], BencodeValue> = BTreeMap::new();
    assert_eq!(empty.to_bencode().unwrap(), b"de");
    let empty_text: BTreeMap<&str, &str> = BTreeMap::new();
    assert_eq!(empty_text.to_bencode().unwrap(), b"de");
}
