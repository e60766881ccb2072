use packet_decoder::nbt::{parse_nbt, NbtError, NbtTag};

fn named(tag: u8, name: &str) -> Vec<u8> {
    let mut v = vec![tag, 0, name.len() as u8];
    v.extend_from_slice(name.as_bytes());
    v
}

#[test]
fn empty_input_is_empty_compound() {
    let c = parse_nbt(&[]).unwrap();
    assert!(c.tags.is_empty());
}

#[test]
fn end_marker_only_is_empty_compound() {
    let c = parse_nbt(&[0]).unwrap();
    assert!(c.tags.is_empty());
}

#[test]
fn scalar_values_big_endian() {
    let mut data = named(1, "b");
    data.push(0xFF);
    data.extend(named(2, "s"));
    data.extend([0x01, 0x02]);
    data.extend(named(3, "i"));
    data.extend([0xFF, 0xFF, 0xFF, 0xFE]);
    data.extend(named(4, "l"));
    data.extend([0, 0, 0, 1, 0, 0, 0, 0]);
    data.extend(named(5, "f"));
    data.extend(1.5f32.to_be_bytes());
    data.extend(named(6, "d"));
    data.extend((-2.25f64).to_be_bytes());
    data.push(0);
    let c = parse_nbt(&data).unwrap();
    assert_eq!(c.tags.len(), 6);
    let names: Vec<&str> = c.tags.iter().map(|(n, _)| n.as_str()).collect();
    assert_eq!(names, vec!["b", "s", "i", "l", "f", "d"]);
    assert!(matches!(c.tags[0].1, NbtTag::Byte(-1)));
    assert!(matches!(c.tags[1].1, NbtTag::Short(258)));
    assert!(matches!(c.tags[2].1, NbtTag::Int(-2)));
    assert!(matches!(c.tags[3].1, NbtTag::Long(4294967296)));
    match &c.tags[4].1 {
        NbtTag::Float(bits) => assert_eq!(f32::from_bits(*bits), 1.5),
        other => panic!("unexpected {:?}", other),
    }
    match &c.tags[5].1 {
        NbtTag::Double(bits) => assert_eq!(f64::from_bits(*bits), -2.25),
        other => panic!("unexpected {:?}", other),
    }
}

#[test]
fn arrays_and_strings() {
    let mut data = named(7, "ba");
    data.extend([0, 0, 0, 3, 1, 0xFF, 7]);
    data.extend(named(8, "str"));
    data.extend([0, 2, b'o', b'k']);
    data.extend(named(11, "ia"));
    data.extend([0, 0, 0, 2, 0, 0, 1, 0, 0xFF, 0xFF, 0xFF, 0xFF]);
    data.extend(named(12, "la"));
    data.extend([0, 0, 0, 1, 0x80, 0, 0, 0, 0, 0, 0, 0]);
    data.push(0);
    let c = parse_nbt(&data).unwrap();
    match &c.tags[0].1 {
        NbtTag::ByteArray(v) => assert_eq!(v, &vec![1i8, -1, 7]),
        other => panic!("unexpected {:?}", other),
    }
    match &c.tags[1].1 {
        NbtTag::String(s) => assert_eq!(s, "ok"),
        other => panic!("unexpected {:?}", other),
    }
    match &c.tags[2].1 {
        NbtTag::IntArray(v) => assert_eq!(v, &vec![256, -1]),
        other => panic!("unexpected {:?}", other),
    }
    match &c.tags[3].1 {
        NbtTag::LongArray(v) => assert_eq!(v, &vec![i64::MIN]),
        other => panic!("unexpected {:?}", other),
    }
}

#[test]
fn list_of_three_compounds() {
    let mut data = named(9, "items");
    data.extend([10, 0, 0, 0, 3]);
    for k in [11u8, 22, 33] {
        data.extend(named(3, "n"));
        data.extend([0, 0, 0, k]);
        data.push(0);
    }
    data.push(0);
    let c = parse_nbt(&data).unwrap();
    assert_eq!(c.tags.len(), 1);
    assert_eq!(c.tags[0].0, "items");
    let items = match &c.tags[0].1 {
        NbtTag::List(items) => items,
        other => panic!("unexpected {:?}", other),
    };
    assert_eq!(items.len(), 3);
    let mut seen = Vec::new();
    for item in items {
        match item {
            NbtTag::Compound(inner) => {
                assert_eq!(inner.tags.len(), 1);
                assert_eq!(inner.tags[0].0, "n");
                match inner.tags[0].1 {
                    NbtTag::Int(v) => seen.push(v),
                    ref other => panic!("unexpected {:?}", other),
                }
            }
            other => panic!("unexpected {:?}", other),
        }
    }
    assert_eq!(seen, vec![11, 22, 33]);
}

#[test]
fn empty_list_of_end_type() {
    let mut data = named(9, "none");
    data.extend([0, 0, 0, 0, 0]);
    data.push(0);
    let c = parse_nbt(&data).unwrap();
    assert!(matches!(&c.tags[0].1, NbtTag::List(v) if v.is_empty()));
}

#[test]
fn duplicate_names_kept_in_order() {
    let mut data = named(1, "x");
    data.push(1);
    data.extend(named(1, "x"));
    data.push(2);
    data.push(0);
    let c = parse_nbt(&data).unwrap();
    assert_eq!(c.tags.len(), 2);
    assert!(matches!(c.tags[0].1, NbtTag::Byte(1)));
    assert!(matches!(c.tags[1].1, NbtTag::Byte(2)));
}

#[test]
fn unknown_tag_fails() {
    let mut data = named(99, "q");
    data.push(0);
    assert_eq!(parse_nbt(&data).unwrap_err(), NbtError::UnknownTag(99));
}

#[test]
fn unknown_list_element_tag_fails() {
    let mut data = named(9, "q");
    data.extend([13, 0, 0, 0, 1, 0]);
    assert_eq!(parse_nbt(&data).unwrap_err(), NbtError::UnknownTag(13));
}

#[test]
fn truncated_fails() {
    let mut data = named(3, "i");
    data.extend([0, 0]);
    assert_eq!(parse_nbt(&data).unwrap_err(), NbtError::Truncated);
    let data = named(1, "b");
    assert_eq!(parse_nbt(&data).unwrap_err(), NbtError::Truncated);
}

#[test]
fn missing_end_marker_fails() {
    let mut data = named(1, "b");
    data.push(5);
    assert_eq!(parse_nbt(&data).unwrap_err(), NbtError::Truncated);
}

#[test]
fn negative_count_fails() {
    let mut data = named(11, "ia");
    data.extend([0xFF, 0xFF, 0xFF, 0xFF]);
    data.push(0);
    assert_eq!(parse_nbt(&data).unwrap_err(), NbtError::Truncated);
}

#[test]
fn array_longer_than_data_fails() {
    let mut data = named(7, "ba");
    data.extend([0, 0, 0, 9, 1, 2]);
    assert_eq!(parse_nbt(&data).unwrap_err(), NbtError::Truncated);
}

#[test]
fn invalid_utf8_name_fails() {
    let data = vec![1, 0, 1, 0xFF, 5, 0];
    assert_eq!(parse_nbt(&data).unwrap_err(), NbtError::InvalidUtf8);
}

#[test]
fn repeated_decode_is_equal() {
    let mut data = named(10, "inner");
    data.extend(named(8, "s"));
    data.extend([0, 1, b'z']);
    data.push(0);
    data.push(0);
    let first = parse_nbt(&data);
    let second = parse_nbt(&data);
    assert_eq!(format!("{:?}", first), format!("{:?}", second));
    assert!(first.is_ok());
}

#[test]
fn trailing_bytes_after_end_are_ignored() {
    let data = vec![1, 0, 1, b'a', 4, 0, 0xEE, 0xEE];
    let c = parse_nbt(&data).unwrap();
    assert_eq!(c.tags.len(), 1);
}

#[test]
fn default_compound_is_empty() {
    let c = packet_decoder::nbt::NbtCompound::default();
    assert!(c.tags.is_empty());
}
