use packetize::fast_collections::{decode_collection_bytes, encode_collection_bytes};
use packetize::var_int::VarInt;

fn encode(v: u32) -> Vec<u8> {
    let mut out = Vec::new();
    v.encode_var(&mut out);
    out
}

#[test]
fn var_int_encodings() {
    assert_eq!(encode(0), vec![0]);
    assert_eq!(encode(127), vec![127]);
    assert_eq!(encode(128), vec![0x80, 1]);
    assert_eq!(encode(300), vec![0xac, 0x02]);
    assert_eq!(encode(u32::MAX), vec![0xff, 0xff, 0xff, 0xff, 0x0f]);
    assert_eq!(<u32 as VarInt>::MAX_VAR_INT_SPACE, 5);
}

#[test]
fn var_int_roundtrip() {
    for v in [0u32, 1, 127, 128, 255, 300, 16383, 16384, 1 << 21, 1 << 28, u32::MAX - 1, u32::MAX] {
        let mut bytes = encode(v);
        let len = bytes.len();
        bytes.extend_from_slice(&[0xff, 0x00]);
        assert_eq!(u32::decode_var(&bytes), Ok((v, len)));
    }
}

#[test]
fn var_int_decode_errors() {
    assert_eq!(u32::decode_var(&[]), Err(()));
    assert_eq!(u32::decode_var(&[0x80, 0x80]), Err(()));
    assert_eq!(u32::decode_var(&[0x80, 0x80, 0x80, 0x80, 0x80, 0x00]), Err(()));
}

#[test]
fn var_int_decode_takes_low_bits() {
    // A fifth byte with more than four payload bits: the value is taken modulo 2^32.
    assert_eq!(u32::decode_var(&[0x80, 0x80, 0x80, 0x80, 0x7f]), Ok((0xf000_0000, 5)));
    // A redundant zero group is read as it stands.
    assert_eq!(u32::decode_var(&[0x81, 0x00]), Ok((1, 2)));
}

#[test]
fn collection_bytes_roundtrip() {
    let mut out = Vec::new();
    assert_eq!(encode_collection_bytes(&[5, 6, 7], 100, &mut out), Ok(()));
    assert_eq!(out, vec![3, 5, 6, 7]);
    assert_eq!(decode_collection_bytes(&out, 3).unwrap(), (vec![5, 6, 7], 4));
    assert_eq!(decode_collection_bytes(&out, 2), Err(()));
    assert_eq!(decode_collection_bytes(&out[..3], 3), Err(()));
    // The prefix and the bytes together must stay below the remaining space.
    let mut out = Vec::new();
    assert_eq!(encode_collection_bytes(&[5, 6, 7], 4, &mut out), Err(()));
    assert!(out.is_empty());
    assert_eq!(encode_collection_bytes(&[5, 6, 7], 5, &mut out), Ok(()));
    // A long collection: the LEB128 length takes two bytes.
    let long = vec![1u8; 300];
    let mut out = Vec::new();
    encode_collection_bytes(&long, 1000, &mut out).unwrap();
    assert_eq!(&out[..2], &[0xac, 0x02]);
    assert_eq!(decode_collection_bytes(&out, 300).unwrap(), (long, 302));
}

#[test]
fn collection_length_must_fit_u32() {
    // Five continuation bytes then a terminator: a value above u32::MAX.
    let bytes = [0xff, 0xff, 0xff, 0xff, 0xff, 0x01];
    assert_eq!(decode_collection_bytes(&bytes, usize::MAX), Err(()));
}
