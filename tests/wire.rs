use packet_decoder::cursor::ByteCursor;
use packet_decoder::wire::{read_string, read_string_byte_prefix, read_varint, read_varint_u32};

#[test]
fn test_varint() {
    let data = vec![0x01];
    let mut cursor = ByteCursor::new(data.as_slice());
    assert_eq!(read_varint(&mut cursor), Some(1));

    let data = vec![0x7F];
    let mut cursor = ByteCursor::new(data.as_slice());
    assert_eq!(read_varint(&mut cursor), Some(127));

    let data = vec![0x80, 0x01];
    let mut cursor = ByteCursor::new(data.as_slice());
    assert_eq!(read_varint(&mut cursor), Some(128));
}

#[test]
fn varint_empty_input_fails() {
    let data: Vec<u8> = vec![];
    let mut cursor = ByteCursor::new(data.as_slice());
    assert_eq!(read_varint(&mut cursor), None);
}

#[test]
fn varint_six_groups_fail() {
    let data = vec![0x80, 0x80, 0x80, 0x80, 0x80, 0x01];
    let mut cursor = ByteCursor::new(data.as_slice());
    assert_eq!(read_varint(&mut cursor), None);
}

#[test]
fn varint_unterminated_fails() {
    let data = vec![0x80, 0x80];
    let mut cursor = ByteCursor::new(data.as_slice());
    assert_eq!(read_varint(&mut cursor), None);
}

#[test]
fn varint_round_trip_values() {
    let cases: Vec<(i32, Vec<u8>)> = vec![
        (0, vec![0x00]),
        (300, vec![0xAC, 0x02]),
        (16384, vec![0x80, 0x80, 0x01]),
        (2147483647, vec![0xFF, 0xFF, 0xFF, 0xFF, 0x07]),
    ];
    for (n, bytes) in cases {
        let mut data = bytes.clone();
        data.push(0x55);
        let mut cursor = ByteCursor::new(data.as_slice());
        assert_eq!(read_varint(&mut cursor), Some(n));
        assert_eq!(cursor.position(), bytes.len());
        assert_eq!(cursor.remaining(), 1);
    }
}

#[test]
fn varint_negative_bit_pattern() {
    let data = vec![0xFF, 0xFF, 0xFF, 0xFF, 0x0F];
    let mut cursor = ByteCursor::new(data.as_slice());
    assert_eq!(read_varint(&mut cursor), Some(-1));
    let mut cursor = ByteCursor::new(data.as_slice());
    assert_eq!(read_varint_u32(&mut cursor), Some(u32::MAX));
}

#[test]
fn varint_u32_small() {
    let data = vec![0xAC, 0x02];
    let mut cursor = ByteCursor::new(data.as_slice());
    assert_eq!(read_varint_u32(&mut cursor), Some(300));
}

#[test]
fn string_reads_declared_bytes() {
    let data = vec![0x02, b'h', b'i', b'!'];
    let mut cursor = ByteCursor::new(data.as_slice());
    assert_eq!(read_string(&mut cursor), Some("hi".to_string()));
    assert_eq!(cursor.position(), 3);
}

#[test]
fn string_multibyte_utf8() {
    let data = vec![0x02, 0xC3, 0xA9];
    let mut cursor = ByteCursor::new(data.as_slice());
    assert_eq!(read_string(&mut cursor), Some("é".to_string()));
}

#[test]
fn string_truncated_fails() {
    let data = vec![10, b'a', b'b', b'c'];
    let mut cursor = ByteCursor::new(data.as_slice());
    assert_eq!(read_string(&mut cursor), None);
}

#[test]
fn string_invalid_utf8_fails() {
    let data = vec![0x02, 0xC3, 0x28];
    let mut cursor = ByteCursor::new(data.as_slice());
    assert_eq!(read_string(&mut cursor), None);
}

#[test]
fn string_negative_length_fails() {
    let data = vec![0xFF, 0xFF, 0xFF, 0xFF, 0x0F, b'a'];
    let mut cursor = ByteCursor::new(data.as_slice());
    assert_eq!(read_string(&mut cursor), None);
}

#[test]
fn string_empty() {
    let data = vec![0x00];
    let mut cursor = ByteCursor::new(data.as_slice());
    assert_eq!(read_string(&mut cursor), Some(String::new()));
}

#[test]
fn byte_prefixed_string() {
    let data = vec![0x03, b'a', b'b', b'c', 0x09];
    let mut cursor = ByteCursor::new(data.as_slice());
    assert_eq!(read_string_byte_prefix(&mut cursor), Some("abc".to_string()));
    assert_eq!(cursor.position(), 4);
}

#[test]
fn byte_prefixed_string_uses_one_byte_length() {
    // 0x81 is a full length of 129, not a continued variable-length number.
    let mut data = vec![0x81];
    data.extend(std::iter::repeat(b'x').take(129));
    let mut cursor = ByteCursor::new(data.as_slice());
    assert_eq!(read_string_byte_prefix(&mut cursor), Some("x".repeat(129)));
}

#[test]
fn byte_prefixed_string_truncated_fails() {
    let data = vec![0x05, b'a'];
    let mut cursor = ByteCursor::new(data.as_slice());
    assert_eq!(read_string_byte_prefix(&mut cursor), None);
    let data: Vec<u8> = vec![];
    let mut cursor = ByteCursor::new(data.as_slice());
    assert_eq!(read_string_byte_prefix(&mut cursor), None);
}
