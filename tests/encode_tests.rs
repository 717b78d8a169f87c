use rrlp::encode;

#[test]
fn test_single_bytes() {
    // Zero encodes to 0x80
    let result: Vec<u8> = encode(&0u8);
    assert_eq!(result, vec![0x80]);

    // Values < 0x80 encode as themselves
    let result: Vec<u8> = encode(&0x7fu8);
    assert_eq!(result, vec![0x7f]);
    let result: Vec<u8> = encode(&0x10u8);
    assert_eq!(result, vec![0x10]);

    // Values >= 0x80 encode as 0x81 + value
    let result: Vec<u8> = encode(&0x80u8);
    assert_eq!(result, vec![0x81, 0x80]);
    let result: Vec<u8> = encode(&0xffu8);
    assert_eq!(result, vec![0x81, 0xff]);
}

#[test]
fn test_short_strings() {
    let result: Vec<u8> = encode("dog");
    assert_eq!(result, vec![0x83, b'd', b'o', b'g']);
    let result: Vec<u8> = encode(&String::from("dog"));
    assert_eq!(result, vec![0x83, b'd', b'o', b'g']);

    // UTF-8 strings
    let result: Vec<u8> = encode("中文");
    assert_eq!(result, vec![0x86, 0xe4, 0xb8, 0xad, 0xe6, 0x96, 0x87]);

    // String at boundary (55 bytes)
    let s = "abcdefghijklmnopqrstuvwxyzabcdefghijklmnopqrstuvwxyzabc";
    let mut expected = vec![0x80 + s.len() as u8];
    expected.extend_from_slice(s.as_bytes());
    let result: Vec<u8> = encode(s);
    assert_eq!(result, expected);
}

#[test]
fn test_long_strings() {
    // 56 bytes (minimum long string)
    let s = "abcdefghijklmnopqrstuvwxyzabcdefghijklmnopqrstuvwxyzabcd";
    let mut expected = vec![0xb8, 0x38];
    expected.extend_from_slice(s.as_bytes());
    let result: Vec<u8> = encode(s);
    assert_eq!(result, expected);

    // Much longer string (1024 bytes)
    let s = "a".repeat(1024);
    let mut expected = vec![0xb9, 0x04, 0x00];
    expected.extend_from_slice(s.as_bytes());
    let result: Vec<u8> = encode(&s);
    assert_eq!(result, expected);
}

#[test]
fn test_short_lists() {
    // Empty list
    let empty: Vec<u8> = vec![];
    let result: Vec<u8> = encode(&empty);
    assert_eq!(result, vec![0xc0]);

    let empty: Vec<Vec<u8>> = vec![];
    let result: Vec<u8> = encode(&empty);
    assert_eq!(result, vec![0xc0]);

    // Single element lists
    let single = vec!["a"];
    let result: Vec<u8> = encode(&single);
    assert_eq!(result, vec![0xc1, 0x61]);

    // Single empty string in list
    let empty_str = vec![""];
    let result: Vec<u8> = encode(&empty_str);
    assert_eq!(result, vec![0xc1, 0x80]);

    // Three short strings
    let v = vec!["cat", "dog", "pig"];
    let result: Vec<u8> = encode(&v);
    assert_eq!(
        result,
        vec![0xcc, 0x83, b'c', b'a', b't', 0x83, b'd', b'o', b'g', 0x83, b'p', b'i', b'g']
    );
}

#[test]
fn test_long_lists() {
    // A list with 56 single byte elements (zero)
    let v: Vec<u8> = vec![0; 56];
    let mut expected = vec![0xf8, 56];
    expected.extend(vec![0x80; 56]);
    let result: Vec<u8> = encode(&v);
    assert_eq!(result, expected);

    let long_string = "Lorem ipsum dolor sit amet, consectetur adipisicing elit";
    let mut expected = vec![0xb8, 0x38];
    expected.extend_from_slice(long_string.as_bytes());
    let result: Vec<u8> = encode(long_string);
    assert_eq!(result, expected);

    // List of strings making > 55 bytes
    let v = vec!["cat".to_string(); 20];
    let output: Vec<u8> = encode(&v);
    assert_eq!(output[0], 0xf8);
    assert!(output.len() > 55);
}

#[test]
fn encode_integers_minimal_big_endian() {
    assert_eq!(encode(&0u64), vec![0x80]);
    assert_eq!(encode(&127u64), vec![0x7f]);
    assert_eq!(encode(&128u64), vec![0x81, 0x80]);
    assert_eq!(encode(&1024u64), vec![0x82, 0x04, 0x00]);
    assert_eq!(
        encode(&u64::MAX),
        vec![0x88, 0xff, 0xff, 0xff, 0xff, 0xff, 0xff, 0xff, 0xff]
    );
}

#[test]
fn encode_byte_arrays_and_slices() {
    assert_eq!(encode(&[0x05u8]), vec![0x05]);
    assert_eq!(encode(&[0x80u8]), vec![0x81, 0x80]);
    let empty: [u8; 0] = [];
    assert_eq!(encode(&empty), vec![0x80]);
    let bytes: &[u8] = &[1, 2, 3];
    assert_eq!(encode(bytes), vec![0x83, 1, 2, 3]);
}

#[test]
fn encode_nested_lists() {
    // [ [], [[]], [ [], [[]] ] ]
    let a: Vec<Vec<u8>> = vec![];
    let b: Vec<Vec<u8>> = vec![vec![]];
    let v: Vec<Vec<Vec<Vec<u8>>>> = vec![vec![], vec![a.clone()], vec![a, b]];
    assert_eq!(encode(&v), vec![0xc7, 0xc0, 0xc1, 0xc0, 0xc3, 0xc0, 0xc1, 0xc0]);
}
