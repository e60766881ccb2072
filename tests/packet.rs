use packet_decoder::packet::{decode_cca_entity_sync, ComponentData, PacketError};
use packet_decoder::nbt::NbtTag;

fn type_id(s: &str) -> Vec<u8> {
    let mut v = vec![s.len() as u8];
    v.extend_from_slice(s.as_bytes());
    v
}

fn framed(body: &[u8]) -> Vec<u8> {
    let mut v = (body.len() as u16).to_be_bytes().to_vec();
    v.extend_from_slice(body);
    v
}

#[test]
fn unparsable_component_kept_raw_and_next_parsed() {
    let mut data = vec![0x05];
    data.extend(type_id("a:x"));
    data.extend(framed(&[99, 0, 0]));
    data.extend(type_id("b:y"));
    data.extend(framed(&[3, 0, 1, b'v', 0, 0, 0, 42, 0]));
    let p = decode_cca_entity_sync(&data).unwrap();
    assert_eq!(p.entity_id, 5);
    assert_eq!(p.components.len(), 2);
    assert_eq!(p.components[0].component_type, "a:x");
    match &p.components[0].data {
        ComponentData::Nbt(raw) => assert_eq!(raw, &vec![99, 0, 0]),
        other => panic!("unexpected {:?}", other),
    }
    assert_eq!(p.components[1].component_type, "b:y");
    match &p.components[1].data {
        ComponentData::ParsedNbt(c) => {
            assert_eq!(c.tags.len(), 1);
            assert_eq!(c.tags[0].0, "v");
            assert!(matches!(c.tags[0].1, NbtTag::Int(42)));
        }
        other => panic!("unexpected {:?}", other),
    }
}

#[test]
fn missing_framing_takes_remaining_bytes() {
    let mut data = vec![0x80, 0x01];
    data.extend(type_id("c:z"));
    data.push(0x07);
    let p = decode_cca_entity_sync(&data).unwrap();
    assert_eq!(p.entity_id, 128);
    assert_eq!(p.components.len(), 1);
    assert_eq!(p.components[0].component_type, "c:z");
    match &p.components[0].data {
        ComponentData::Unknown(rest) => assert_eq!(rest, &vec![0x07]),
        other => panic!("unexpected {:?}", other),
    }
}

#[test]
fn framing_longer_than_data_takes_remaining_bytes() {
    let mut data = vec![0x01];
    data.extend(type_id("a:x"));
    data.extend(framed(&[0]));
    data.extend(type_id("d:w"));
    data.extend([0x00, 0x09, 1, 2]);
    let p = decode_cca_entity_sync(&data).unwrap();
    assert_eq!(p.components.len(), 2);
    assert!(matches!(&p.components[0].data, ComponentData::ParsedNbt(c) if c.tags.is_empty()));
    match &p.components[1].data {
        ComponentData::Unknown(rest) => assert_eq!(rest, &vec![0x00, 0x09, 1, 2]),
        other => panic!("unexpected {:?}", other),
    }
}

#[test]
fn empty_framed_body_is_empty_tree() {
    let mut data = vec![0x02];
    data.extend(type_id("e:v"));
    data.extend(framed(&[]));
    let p = decode_cca_entity_sync(&data).unwrap();
    assert_eq!(p.components.len(), 1);
    assert!(matches!(&p.components[0].data, ComponentData::ParsedNbt(c) if c.tags.is_empty()));
}

#[test]
fn identifier_only_has_no_components() {
    let p = decode_cca_entity_sync(&[0x2A]).unwrap();
    assert_eq!(p.entity_id, 42);
    assert!(p.components.is_empty());
}

#[test]
fn missing_entity_id_fails() {
    assert_eq!(decode_cca_entity_sync(&[]).unwrap_err(), PacketError::MissingEntityId);
    assert_eq!(decode_cca_entity_sync(&[0x80]).unwrap_err(), PacketError::MissingEntityId);
}

#[test]
fn missing_component_type_fails() {
    let data = vec![0x01, 0x05, b'a'];
    assert_eq!(decode_cca_entity_sync(&data).unwrap_err(), PacketError::MissingComponentType);
}
