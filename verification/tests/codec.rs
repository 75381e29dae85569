use packetize::arrayvec::{
    decode_array_string, decode_array_vec, decode_byte_vec, encode_array_string, encode_array_vec,
    encode_byte_vec,
};
use packetize::packetize::{decode_derive, encode_derive, DecodeBody, EncodeBody, ItemShape};
use packetize::traits::{Decode, Encode};
use uuid::Uuid;

#[test]
fn test_arraystring_decode() {
    let input = [3u8, 65, 65, 65];
    let (decoded, read) = decode_array_string(&input, 255).unwrap();
    assert_eq!(decoded, b"AAA".to_vec());
    assert_eq!(read, 4);
}

#[test]
fn test() {
    // A string field written behind its length reads back with that length.
    let value3 = b"123";
    let mut cursor: Vec<u8> = Vec::new();
    encode_array_string(value3, 100, &mut cursor).unwrap();
    let (decoded, _) = decode_array_string(&cursor, 100).unwrap();
    assert_eq!(value3.len(), decoded.len());

    // A fieldless enum of more than one variant is written as its raw byte.
    {
        assert_eq!(encode_derive(ItemShape::Enum(2)), Ok(EncodeBody::RawBytes));
        assert_eq!(decode_derive(ItemShape::Enum(2)), Ok(DecodeBody::RawBytes));
        const VALUE1: u8 = 0;
        const VALUE2: u8 = 1;
        let mut cursor: Vec<u8> = Vec::new();
        VALUE1.encode(&mut cursor);
        assert_eq!(cursor[0], VALUE1);
        assert_eq!(cursor.len() - 1, 0);
        let mut cursor: Vec<u8> = Vec::new();
        VALUE2.encode(&mut cursor);
        assert_eq!(u8::decode(&cursor).unwrap().0, VALUE2);
    }

    // A struct is its fields in order.
    {
        assert_eq!(
            encode_derive(ItemShape::Struct(packetize::packetize::FieldsShape::Named(3))),
            Ok(EncodeBody::NamedFields(3))
        );
        let mut cursor: Vec<u8> = Vec::new();
        123u16.encode(&mut cursor);
        encode_array_string(b"ABCA", 1000 - cursor.len(), &mut cursor).unwrap();
        42u16.encode(&mut cursor);
        let (value, a) = u16::decode(&cursor).unwrap();
        let (_value3, b) = decode_array_string(&cursor[a..], 4).unwrap();
        let (value4, _) = u16::decode(&cursor[a + b..]).unwrap();
        assert_eq!(value, 123);
        assert_eq!(value4, 42);
    }
}

#[test]
fn test_uuid() {
    let value = (123usize, Uuid::from_u128(123), 123123usize);
    let mut cursor: Vec<u8> = Vec::new();
    value.encode(&mut cursor);
    let (test_struct, read) = <(usize, Uuid, usize)>::decode(&cursor).unwrap();
    assert_eq!(test_struct, value);
    assert_eq!(read, cursor.len());
}

#[test]
fn asdf() {
    let mut cursor: Vec<u8> = Vec::new();
    encode_array_string(b"1233", 100, &mut cursor).unwrap();
}

#[test]
fn asdf2() {
    assert_eq!(encode_derive(ItemShape::Enum(3)), Ok(EncodeBody::RawBytes));
    let value: u8 = 1; // the second of three variants
    let mut cursor: Vec<u8> = Vec::new();
    value.encode(&mut cursor);
    let decoded = u8::decode(&cursor).unwrap().0;
    assert_eq!(decoded, value);
}

#[test]
fn asdf3() {
    assert_eq!(encode_derive(ItemShape::Enum(1)), Ok(EncodeBody::Nothing));
    assert_eq!(decode_derive(ItemShape::Enum(1)), Ok(DecodeBody::FirstVariant));
}

#[test]
fn test222() {
    let vec: Vec<u16> = Vec::new();
    let mut cursor: Vec<u8> = Vec::new();
    encode_array_vec(&vec, 100, &mut cursor).unwrap();
    let (decoded, read) = decode_array_vec::<u16>(&cursor, 20).unwrap();
    assert_eq!(decoded.len(), 0);
    assert_eq!(cursor.len() - read, 0);
}

#[test]
fn integers_are_big_endian() {
    let mut out = Vec::new();
    0x1234u16.encode(&mut out);
    0x0102_0304u32.encode(&mut out);
    (-2i32).encode(&mut out);
    assert_eq!(out, vec![0x12, 0x34, 1, 2, 3, 4, 0xff, 0xff, 0xff, 0xfe]);
    assert_eq!(i32::decode(&out[6..]).unwrap(), (-2, 4));
    assert_eq!(u32::decode(&out[2..]).unwrap(), (0x0102_0304, 4));
    let mut out = Vec::new();
    u128::MAX.encode(&mut out);
    assert_eq!(out.len(), 16);
    assert_eq!(u128::decode(&out).unwrap(), (u128::MAX, 16));
    let mut out = Vec::new();
    (-1i64).encode(&mut out);
    assert_eq!(i64::decode(&out).unwrap(), (-1, 8));
    assert_eq!(isize::decode(&out).unwrap(), (-1, 8));
}

#[test]
fn short_input_is_refused() {
    assert_eq!(u32::decode(&[1, 2, 3]), Err(()));
    assert_eq!(bool::decode(&[]), Err(()));
    assert_eq!(Option::<u8>::decode(&[]), Err(()));
    assert_eq!(Option::<u16>::decode(&[1, 5]), Err(()));
    assert_eq!(Uuid::decode(&[0u8; 15]), Err(()));
}

#[test]
fn bool_option_result_tags() {
    assert_eq!(bool::decode(&[5]).unwrap(), (true, 1));
    assert_eq!(bool::decode(&[0]).unwrap(), (false, 1));
    let mut out = Vec::new();
    Some(7u8).encode(&mut out);
    None::<u8>.encode(&mut out);
    Ok::<u8, u16>(9).encode(&mut out);
    Err::<u8, u16>(0x0102).encode(&mut out);
    assert_eq!(out, vec![1, 7, 0, 1, 9, 0, 1, 2]);
    assert_eq!(Option::<u8>::decode(&[3, 7]).unwrap(), (Some(7), 2));
    assert_eq!(Option::<u8>::decode(&[0, 7]).unwrap(), (None, 1));
    assert_eq!(Result::<u8, u16>::decode(&[0, 1, 2]).unwrap(), (Err(0x0102), 3));
    assert_eq!(Result::<u8, u16>::decode(&[2, 9]).unwrap(), (Ok(9), 2));
}

#[test]
fn tuples_units_and_boxes() {
    let value = (1u8, (true, ()), Box::new(300u16), -5i8);
    let mut out = Vec::new();
    value.encode(&mut out);
    assert_eq!(out, vec![1, 1, 1, 44, 0xfb]);
    let (decoded, n) = <(u8, (bool, ()), Box<u16>, i8)>::decode(&out).unwrap();
    assert_eq!(decoded, value);
    assert_eq!(n, 5);
}

#[test]
fn uuid_is_its_bytes() {
    let id = Uuid::from_u128(0x0011_2233_4455_6677_8899_aabb_ccdd_eeff);
    let mut out = Vec::new();
    id.encode(&mut out);
    assert_eq!(out, id.as_bytes().to_vec());
    assert_eq!(Uuid::decode(&out).unwrap(), (id, 16));
}

#[test]
fn array_string_space_check() {
    let mut out = vec![9u8];
    // 3 + 5 >= 8: refused, nothing written.
    assert_eq!(encode_array_string(b"abc", 8, &mut out), Err(()));
    assert_eq!(out, vec![9u8]);
    assert_eq!(encode_array_string(b"abc", 9, &mut out), Ok(()));
    assert_eq!(out, vec![9u8, 3, b'a', b'b', b'c']);
}

#[test]
fn array_string_decode_errors() {
    // More bytes announced than follow.
    assert_eq!(decode_array_string(&[3, 65, 65], 10), Err(()));
    // Longer than the capacity.
    assert_eq!(decode_array_string(&[3, 65, 65, 65], 2), Err(()));
    // No length.
    assert_eq!(decode_array_string(&[0x80], 10), Err(()));
    // A long string: the length takes two bytes.
    let long = vec![7u8; 200];
    let mut out = Vec::new();
    encode_byte_vec(&long, &mut out);
    assert_eq!(&out[..2], &[0xc8, 0x01]);
    assert_eq!(decode_array_string(&out, 200).unwrap(), (long, 202));
}

#[test]
fn byte_vec_needs_room_for_a_full_prefix() {
    let mut out = Vec::new();
    encode_byte_vec(&[1, 2], &mut out);
    assert_eq!(out, vec![2, 1, 2]);
    assert_eq!(decode_byte_vec(&out, 10), Err(()));
    out.extend_from_slice(&[0, 0]);
    assert_eq!(decode_byte_vec(&out, 10).unwrap(), (vec![1, 2], 3));
}

#[test]
fn array_vec_space_check_and_roundtrip() {
    let items = vec![1u16, 2, 0x300];
    let mut out = Vec::new();
    // 3 + 5 > 7: refused.
    assert_eq!(encode_array_vec(&items, 7, &mut out), Err(()));
    assert!(out.is_empty());
    assert_eq!(encode_array_vec(&items, 8, &mut out), Ok(()));
    assert_eq!(out, vec![3, 0, 1, 0, 2, 3, 0]);
    assert_eq!(decode_array_vec::<u16>(&out, 3).unwrap(), (items, 7));
    assert_eq!(decode_array_vec::<u16>(&out, 2), Err(()));
    assert_eq!(decode_array_vec::<u16>(&out[..6], 3), Err(()));
}
