use nonmax::{NonMaxI16, NonMaxU32, NonMaxU8};
use packetize::traits::{Decode, Encode};

#[test]
fn nonmax_roundtrip() {
    let v = NonMaxU32::new(0x0102_0304).unwrap();
    let mut out = Vec::new();
    v.encode(&mut out);
    assert_eq!(out, vec![1, 2, 3, 4]);
    assert_eq!(NonMaxU32::decode(&out).unwrap(), (v, 4));
    let w = NonMaxI16::new(-3).unwrap();
    let mut out = Vec::new();
    w.encode(&mut out);
    assert_eq!(out, vec![0xff, 0xfd]);
    assert_eq!(NonMaxI16::decode(&out).unwrap(), (w, 2));
}

#[test]
fn nonmax_refuses_the_maximum() {
    assert_eq!(NonMaxU8::decode(&[0xff]), Err(()));
    assert_eq!(NonMaxU32::decode(&[0xff, 0xff, 0xff, 0xff]), Err(()));
    assert_eq!(NonMaxI16::decode(&[0x7f, 0xff]), Err(()));
    assert_eq!(NonMaxU32::decode(&[1, 2]), Err(()));
}
