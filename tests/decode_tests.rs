use rrlp::decode::{decode_bytes, decode_with_max};
use rrlp::length::{read_length, write_length};
use rrlp::{decode, encode, Decode, Error, MAX_LENGTH};

#[test]
fn decode_single_byte() {
    // A zero byte is not the canonical encoding of the integer zero (that is 0x80).
    assert_eq!(decode::<u8>(&[0x00]), Err(Error::NonMinimalEncoding));
    assert_eq!(decode::<u8>(&[0x7f]).unwrap(), 0x7f);
    assert_eq!(decode::<u8>(&[0x80]).unwrap(), 0);
    assert_eq!(decode::<u8>(&[0x81, 0xff]).unwrap(), 0xff);
    // As byte strings the same inputs give their bytes.
    assert_eq!(decode_bytes(&[0x00], MAX_LENGTH).unwrap(), (vec![0x00], 1));
    assert_eq!(decode_bytes(&[0x7f], MAX_LENGTH).unwrap(), (vec![0x7f], 1));
    assert_eq!(decode_bytes(&[0x81, 0xff], MAX_LENGTH).unwrap(), (vec![0xff], 2));
}

#[test]
fn round_trip_values() {
    for n in [0u64, 1, 0x7f, 0x80, 0xff, 0x100, 1024, u64::MAX] {
        assert_eq!(decode::<u64>(&encode(&n)).unwrap(), n);
    }
    for n in [0u8, 1, 0x7f, 0x80, 0xff] {
        assert_eq!(decode::<u8>(&encode(&n)).unwrap(), n);
    }
    let s = "a".repeat(1024);
    assert_eq!(decode::<String>(&encode(&s)).unwrap(), s);
    let v = vec!["cat".to_string(), "dog".to_string(), "".to_string()];
    assert_eq!(decode::<Vec<String>>(&encode(&v)).unwrap(), v);
    let nested: Vec<Vec<u64>> = vec![vec![], vec![1, 2, 1024], vec![0; 56]];
    assert_eq!(decode::<Vec<Vec<u64>>>(&encode(&nested)).unwrap(), nested);
}

#[test]
fn decode_is_canonical() {
    let inputs: Vec<Vec<u8>> = vec![
        vec![0xc0],
        vec![0x83, b'd', b'o', b'g'],
        vec![0xc8, 0x83, b'c', b'a', b't', 0x83, b'd', b'o', b'g'],
    ];
    let v: Vec<String> = decode(&inputs[2]).unwrap();
    assert_eq!(encode(&v), inputs[2]);
    let s: String = decode(&inputs[1]).unwrap();
    assert_eq!(encode(&s), inputs[1]);
    let e: Vec<u8> = decode(&inputs[0]).unwrap();
    assert_eq!(encode(&e), inputs[0]);
}

#[test]
fn rejects_non_minimal_lengths() {
    // Long form for a length below 56.
    let mut buf = vec![0xb8, 0x05];
    buf.extend_from_slice(b"hello");
    assert_eq!(decode::<String>(&buf), Err(Error::NonMinimalEncoding));
    // Leading zero in the length bytes.
    let mut buf = vec![0xb9, 0x00, 0x38];
    buf.extend(vec![b'a'; 56]);
    assert_eq!(decode::<String>(&buf), Err(Error::NonMinimalEncoding));
    // Long-form list of length below 56.
    assert_eq!(decode::<Vec<u8>>(&[0xf8, 0x00]), Err(Error::NonMinimalEncoding));
    // A single byte below 0x80 with a prefix.
    assert_eq!(decode_bytes(&[0x81, 0x05], MAX_LENGTH), Err(Error::NonMinimalEncoding));
    // An integer with a leading zero byte.
    assert_eq!(decode::<u64>(&[0x82, 0x00, 0x01]), Err(Error::NonMinimalEncoding));
}

#[test]
fn rejects_truncated_input() {
    assert_eq!(decode::<String>(&[]), Err(Error::InputTooShort));
    assert_eq!(decode::<String>(&[0x83, b'd', b'o']), Err(Error::InputTooShort));
    assert_eq!(decode::<String>(&[0xb8]), Err(Error::InputTooShort));
    assert_eq!(decode::<String>(&[0xb9, 0x04]), Err(Error::InputTooShort));
    assert_eq!(decode::<Vec<u8>>(&[0xc2, 0x01]), Err(Error::InputTooShort));
    assert_eq!(decode_bytes(&[0x81], MAX_LENGTH), Err(Error::InputTooShort));
}

#[test]
fn rejects_trailing_bytes() {
    assert_eq!(decode::<u8>(&[0x80, 0x00]), Err(Error::UnexpectedTrailing));
    assert_eq!(decode::<Vec<u8>>(&[0xc0, 0xc0]), Err(Error::UnexpectedTrailing));
    // Streaming decode reports how much was consumed instead.
    assert_eq!(<u8 as Decode>::decode_from(&[0x80, 0x00], MAX_LENGTH).unwrap(), (0, 1));
}

#[test]
fn rejects_other_errors() {
    // Payload longer than the ceiling.
    assert_eq!(decode_with_max::<String>(&[0x83, b'd', b'o', b'g'], 2), Err(Error::ValueTooLong));
    assert_eq!(decode_with_max::<String>(&[0x83, b'd', b'o', b'g'], 3).unwrap(), "dog");
    // Kind mismatches.
    assert_eq!(decode::<String>(&[0xc0]), Err(Error::UnexpectedList));
    assert_eq!(decode::<u8>(&[0xc0]), Err(Error::UnexpectedList));
    assert_eq!(decode::<Vec<u8>>(&[0x80]), Err(Error::UnexpectedString));
    // Invalid UTF-8.
    assert_eq!(decode::<String>(&[0x81, 0xff]), Err(Error::InvalidUtf8));
    // An item of a list that runs past the list's end.
    assert_eq!(decode::<Vec<String>>(&[0xc1, 0x82, 0x61, 0x62]), Err(Error::InvalidLength));
    // An integer wider than its type.
    assert_eq!(decode::<u8>(&[0x82, 0x01, 0x00]), Err(Error::InvalidLength));
}

#[test]
fn length_prefix_codec() {
    let mut out = vec![];
    write_length(false, 3, &mut out);
    write_length(true, 0, &mut out);
    write_length(false, 56, &mut out);
    write_length(true, 1024, &mut out);
    assert_eq!(out, vec![0x83, 0xc0, 0xb8, 0x38, 0xf9, 0x04, 0x00]);

    let h = read_length(&[0xb8, 0x38], 100);
    assert_eq!(h, Err(Error::InputTooShort));
    let mut buf = vec![0xf8, 0x38];
    buf.extend(vec![0x80; 56]);
    let h = read_length(&buf, 100).unwrap();
    assert!(h.list);
    assert_eq!(h.offset, 2);
    assert_eq!(h.len, 56);
    let h = read_length(&[0x05], 100).unwrap();
    assert!(!h.list);
    assert_eq!((h.offset, h.len), (0, 1));
}

#[test]
fn error_messages() {
    assert_eq!(Error::InputTooShort.message(), "RLP input too short");
    assert_eq!(Error::InvalidUtf8.message(), "Invalid UTF-8 while decoding a String");
}

#[test]
fn truncated_prefixes_rejected() {
    let v = vec!["cat".to_string(); 20];
    let enc = encode(&v);
    for k in 0..enc.len() {
        assert_eq!(decode::<Vec<String>>(&enc[..k]), Err(Error::InputTooShort));
    }
    let s = "a".repeat(1024);
    let enc = encode(&s);
    for k in [0, 1, 2, 3, 500, enc.len() - 1] {
        assert_eq!(decode::<String>(&enc[..k]), Err(Error::InputTooShort));
    }
}
