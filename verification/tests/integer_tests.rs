use acornbencode::integer::integer;

#[test]
fn test_valid_integers() {
    assert_eq!(integer(b"i42e"), Ok((&b""[..], 42)));
    assert_eq!(integer(b"i0e"), Ok((&b""[..], 0)));
    assert_eq!(integer(b"i123456789e"), Ok((&b""[..], 123456789)));
    assert_eq!(integer(b"i-42e"), Ok((&b""[..], -42)));
    assert_eq!(integer(b"i-1e"), Ok((&b""[..], -1)));
}

#[test]
fn test_integers_with_remaining_input() {
    assert_eq!(integer(b"i42eextra"), Ok((&b"extra"[..], 42)));
    assert_eq!(integer(b"i-10edata"), Ok((&b"data"[..], -10)));
}

#[test]
fn test_invalid_integers() {
    // Invalid format (missing end marker)
    assert!(integer(b"i42").is_err());

    // Invalid format (missing start marker)
    assert!(integer(b"42e").is_err());

    // Invalid format (missing both markers)
    assert!(integer(b"42").is_err());

    // Leading zeros not allowed
    assert!(integer(b"i01e").is_err());
    assert!(integer(b"i00123e").is_err());

    // Negative zero not allowed
    assert!(integer(b"i-0e").is_err());

    // Non-digit characters
    assert!(integer(b"iabce").is_err());
    assert!(integer(b"i1a2e").is_err());
}

#[test]
fn test_integer_limits() {
    assert_eq!(
        integer(b"i9223372036854775807e"),
        Ok((&b""[..], i64::MAX))
    );
    assert_eq!(
        integer(b"i-9223372036854775807e"),
        Ok((&b""[..], -i64::MAX))
    );
    // The magnitude of the most negative value is out of range.
    assert!(integer(b"i-9223372036854775808e").is_err());
    assert!(integer(b"i9223372036854775808e").is_err());
    assert!(integer(b"i99999999999999999999999e").is_err());
}
