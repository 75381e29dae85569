use packetize::arrayvec::{decode_array, encode_array};
use packetize::packet_stream::{
    find_ident_in_attrs, ids_by_packets, packets_filtered_with_suffix, path_has_lifetime, AttrDecl,
    PacketDecl,
};
use packetize::packetize::{
    decode_derive, encode_derive, matches_variant, DecodeBody, EncodeBody, FieldsShape, ItemShape,
};
use packetize::traits::{Decode, Encode};

fn plain(name: &str) -> PacketDecl {
    PacketDecl { name: name.to_string(), has_lifetime: false, change_state_to: None, enforced_id: None }
}

#[test]
fn ids_without_enforced_ones_count_from_zero() {
    let packets = vec![plain("AC2s"), plain("BS2c"), plain("CC2s"), plain("DC2s")];
    let positions = packets_filtered_with_suffix(&packets, "C2s");
    assert_eq!(positions, vec![0, 2, 3]);
    assert_eq!(ids_by_packets(&packets, &positions), Ok(vec![0, 1, 2]));
}

#[test]
fn derived_encoder_and_decoder_agree() {
    let shapes = [
        ItemShape::Enum(1),
        ItemShape::Enum(4),
        ItemShape::Struct(FieldsShape::Named(2)),
        ItemShape::Struct(FieldsShape::Named(0)),
        ItemShape::Struct(FieldsShape::Unnamed(3)),
        ItemShape::Struct(FieldsShape::Unit),
        ItemShape::Other,
    ];
    let expected = [
        (Ok(EncodeBody::Nothing), Ok(DecodeBody::FirstVariant)),
        (Ok(EncodeBody::RawBytes), Ok(DecodeBody::RawBytes)),
        (Ok(EncodeBody::NamedFields(2)), Ok(DecodeBody::NamedFields(2))),
        (Ok(EncodeBody::Nothing), Ok(DecodeBody::EmptyBraces)),
        (Ok(EncodeBody::IndexedFields(3)), Ok(DecodeBody::TupleFields(3))),
        (Ok(EncodeBody::Nothing), Ok(DecodeBody::EmptyBraces)),
        (Err(()), Err(())),
    ];
    for (shape, (enc, dec)) in shapes.iter().zip(expected.iter()) {
        assert_eq!(encode_derive(*shape), *enc);
        assert_eq!(decode_derive(*shape), *dec);
    }
}

#[test]
fn byte_arrays_roundtrip() {
    let a: [u8; 3] = [7, 8, 9];
    let mut out = Vec::new();
    a.encode(&mut out);
    out.push(42);
    assert_eq!(out, vec![7, 8, 9, 42]);
    assert_eq!(<[u8; 3]>::decode(&out).unwrap(), (a, 3));
    assert_eq!(<[u8; 5]>::decode(&out), Err(()));
}

#[test]
fn decoding_ignores_what_follows() {
    let value = (Some(-7i16), Ok::<bool, u8>(true));
    let mut out = Vec::new();
    value.encode(&mut out);
    let len = out.len();
    out.extend_from_slice(&[0xde, 0xad]);
    assert_eq!(<(Option<i16>, Result<bool, u8>)>::decode(&out).unwrap(), (value, len));
}

#[test]
fn raw_enum_bytes_must_name_a_variant() {
    let variants = vec![vec![0u8], vec![1u8], vec![2u8]];
    assert!(matches_variant(&[1], &variants));
    assert!(!matches_variant(&[3], &variants));
    assert!(!matches_variant(&[1, 0], &variants));
}

#[test]
fn usize_takes_the_machine_width() {
    let width = std::mem::size_of::<usize>();
    let mut out = Vec::new();
    258usize.encode(&mut out);
    assert_eq!(out.len(), width);
    assert_eq!(&out[width - 2..], &[1, 2]);
    assert_eq!(usize::decode(&out).unwrap(), (258, width));
    let mut out = Vec::new();
    (-2isize).encode(&mut out);
    assert_eq!(out, vec![0xffu8; width - 1].into_iter().chain([0xfe]).collect::<Vec<u8>>());
    assert_eq!(isize::decode(&out).unwrap(), (-2, width));
    assert_eq!(usize::decode(&out[1..]), Err(()));
}

#[test]
fn arrays_of_values_roundtrip() {
    let items: [u16; 3] = [1, 0x203, 4];
    let mut out = Vec::new();
    encode_array(&items, &mut out);
    assert_eq!(out, vec![0, 1, 2, 3, 0, 4]);
    assert_eq!(decode_array::<u16, 3>(&out).unwrap(), (items.to_vec(), 6));
    assert_eq!(decode_array::<u16, 4>(&out), Err(()));
}

#[test]
fn first_list_attribute_by_name() {
    let attrs = vec![
        AttrDecl { ident: Some("id".to_string()), is_list: false },
        AttrDecl { ident: None, is_list: true },
        AttrDecl { ident: Some("id".to_string()), is_list: true },
        AttrDecl { ident: Some("id".to_string()), is_list: true },
    ];
    assert_eq!(find_ident_in_attrs(&attrs, &"id".to_string()), Some(2));
    assert_eq!(find_ident_in_attrs(&attrs, &"change_state_to".to_string()), None);
    assert!(!path_has_lifetime(false, 1, false));
    assert!(path_has_lifetime(false, 1, true));
    assert!(path_has_lifetime(false, 2, false));
    assert!(path_has_lifetime(true, 1, false));
}
