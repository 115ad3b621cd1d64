use acornbencode::common::BencodeValue;
use acornbencode::dictionary::dictionary;

#[test]
fn test_empty_dictionary() {
    let result = dictionary(b"de");
    let expected: Vec<(Vec<u8>, BencodeValue)> = Vec::new();
    assert_eq!(result, Ok((&b""[..], expected)));
}

#[test]
fn test_dictionary_with_integers() {
    let result = dictionary(b"d3:onei1e3:twoi2e5:threei3ee");
    // Pairs come out sorted by key bytes: "one" < "three" < "two".
    let expected = vec![
        (b"one".to_vec(), BencodeValue::Integer(1)),
        (b"three".to_vec(), BencodeValue::Integer(3)),
        (b"two".to_vec(), BencodeValue::Integer(2)),
    ];
    assert_eq!(result, Ok((&b""[..], expected)));
}

#[test]
fn test_dictionary_with_strings() {
    let result = dictionary(b"d4:spam4:eggs3:bar3:baze");
    let expected = vec![
        (b"bar".to_vec(), BencodeValue::ByteString(b"baz".to_vec())),
        (b"spam".to_vec(), BencodeValue::ByteString(b"eggs".to_vec())),
    ];
    assert_eq!(result, Ok((&b""[..], expected)));
}

#[test]
fn test_mixed_dictionary() {
    let result = dictionary(b"d3:fooi42e3:bar4:spame");
    let expected = vec![
        (b"bar".to_vec(), BencodeValue::ByteString(b"spam".to_vec())),
        (b"foo".to_vec(), BencodeValue::Integer(42)),
    ];
    assert_eq!(result, Ok((&b""[..], expected)));
}

#[test]
fn test_nested_dictionary() {
    let result = dictionary(b"d3:food3:bari1e3:bazi2eee");

    let inner_dict = vec![
        (b"bar".to_vec(), BencodeValue::Integer(1)),
        (b"baz".to_vec(), BencodeValue::Integer(2)),
    ];

    let expected = vec![(b"foo".to_vec(), BencodeValue::Dictionary(inner_dict))];

    assert_eq!(result, Ok((&b""[..], expected)));
}

#[test]
fn test_dictionary_with_list() {
    let result = dictionary(b"d4:listli1ei2ei3eee");

    let list_values = vec![
        BencodeValue::Integer(1),
        BencodeValue::Integer(2),
        BencodeValue::Integer(3),
    ];

    let expected = vec![(b"list".to_vec(), BencodeValue::List(list_values))];

    assert_eq!(result, Ok((&b""[..], expected)));
}

#[test]
fn test_complex_dictionary() {
    let mut result = Vec::new();
    result.push(b'd');
    result.extend_from_slice(b"4:info");
    result.push(b'd');
    result.extend_from_slice(b"4:name"); // info_name_key
    result.extend_from_slice(b"6:sample"); // bytes_info_name_value
    result.extend_from_slice(b"4:size"); // bytes_info_size_key
    result.extend_from_slice(b"i1024e"); //bytes_info_size_value
    result.push(b'e');
    result.extend_from_slice(b"5:files"); // bytes_files_key
    result.extend_from_slice(b"l6:file_1e"); // bytes_files_value
    result.extend_from_slice(b"8:checksum"); // bytes_checksum_key
    result.extend_from_slice(b"i12345e"); // bytes_checksum_value
    result.push(b'e');
    let result = dictionary(&result);

    // Create info dict with name and size
    let expected_info_dict = vec![
        (b"name".to_vec(), BencodeValue::ByteString(b"sample".to_vec())),
        (b"size".to_vec(), BencodeValue::Integer(1024)),
    ];

    // Top-level keys sorted: "checksum" < "files" < "info".
    let expected = vec![
        (b"checksum".to_vec(), BencodeValue::Integer(12345)),
        (
            b"files".to_vec(),
            BencodeValue::List(vec![BencodeValue::ByteString(b"file_1".to_vec())]),
        ),
        (b"info".to_vec(), BencodeValue::Dictionary(expected_info_dict)),
    ];

    assert_eq!(result, Ok((&b""[..], expected)));
}

#[test]
fn test_dictionary_with_remaining_input() {
    let result = dictionary(b"d3:fooi42eeextra");

    let expected = vec![(b"foo".to_vec(), BencodeValue::Integer(42))];

    assert_eq!(result, Ok((&b"extra"[..], expected)));
}

#[test]
fn test_invalid_dictionaries() {
    // Missing end marker
    assert!(dictionary(b"d3:fooi42e").is_err());

    // Missing start marker
    assert!(dictionary(b"3:fooi42ee").is_err());

    // Invalid key (must be a byte string)
    assert!(dictionary(b"di1ei2ee").is_err());

    // Invalid value
    assert!(dictionary(b"d3:fooXe").is_err());

    // Incomplete key-value pair
    assert!(dictionary(b"d3:fooe").is_err());
}

#[test]
fn test_duplicate_keys_last_wins() {
    let result = dictionary(b"d1:ai1e1:ai2ee");
    let expected = vec![(b"a".to_vec(), BencodeValue::Integer(2))];
    assert_eq!(result, Ok((&b""[..], expected)));
}
