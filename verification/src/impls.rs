//! The byte layout of the primitive types: integers big-endian in their
//! full width, `bool` as one byte, `Option` and `Result` behind a tag byte,
//! tuples and boxes as their parts in order.

use vstd::prelude::*;
use crate::traits::{
    be_bytes, be_value, lemma_be_bytes_index, lemma_be_bytes_len, lemma_be_bytes_of_value,
    lemma_be_value_bound, lemma_be_value_of_bytes, lemma_take_prefix, pow256, read_be, tail,
    write_be, Codec, Decode, Encode,
};

verus! {

/// A `u8` takes 1 byte, most significant first.
impl Encode for u8 {
    open spec fn spec_encode(&self) -> Seq<u8> {
        be_bytes(*self as nat, 1)
    }

    fn encode(&self, out: &mut Vec<u8>) {
        write_be(*self as u128, 1, out);
    }
}

impl Decode for u8 {
    open spec fn spec_decode(s: Seq<u8>) -> Result<(u8, nat), ()> {
        if s.len() >= 1 {
            Ok((be_value(s.take(1)) as u8, 1))
        } else {
            Err(())
        }
    }

    fn decode(input: &[u8]) -> (r: Result<(u8, usize), ()>) {
        if input.len() < 1 {
            return Err(());
        }
        let v = read_be(input, 1);
        Ok((v as u8, 1))
    }

    proof fn lemma_decode_len(s: Seq<u8>) {
    }

    proof fn lemma_decode_extend(s: Seq<u8>, t: Seq<u8>) {
        if s.len() >= 1 {
            assert((s + t).take(1) == s.take(1));
        }
    }
}

impl Codec for u8 {
    proof fn lemma_roundtrip(v: u8, rest: Seq<u8>) {
        lemma_be_bytes_len(v as nat, 1);
        lemma_take_prefix(be_bytes(v as nat, 1), rest);
        lemma_be_value_of_bytes(v as nat, 1);
        reveal_with_fuel(pow256, 2);
        assert(pow256(1) == 256);
    }
}

/// An `i8` takes 1 byte: its two's complement bits, most significant first.
impl Encode for i8 {
    open spec fn spec_encode(&self) -> Seq<u8> {
        be_bytes((*self as u8) as nat, 1)
    }

    fn encode(&self, out: &mut Vec<u8>) {
        write_be((*self as u8) as u128, 1, out);
    }
}

impl Decode for i8 {
    open spec fn spec_decode(s: Seq<u8>) -> Result<(i8, nat), ()> {
        if s.len() >= 1 {
            Ok(((be_value(s.take(1)) as u8) as i8, 1))
        } else {
            Err(())
        }
    }

    fn decode(input: &[u8]) -> (r: Result<(i8, usize), ()>) {
        if input.len() < 1 {
            return Err(());
        }
        let v = read_be(input, 1);
        Ok(((v as u8) as i8, 1))
    }

    proof fn lemma_decode_len(s: Seq<u8>) {
    }

    proof fn lemma_decode_extend(s: Seq<u8>, t: Seq<u8>) {
        if s.len() >= 1 {
            assert((s + t).take(1) == s.take(1));
        }
    }
}

impl Codec for i8 {
    proof fn lemma_roundtrip(v: i8, rest: Seq<u8>) {
        lemma_be_bytes_len((v as u8) as nat, 1);
        lemma_take_prefix(be_bytes((v as u8) as nat, 1), rest);
        lemma_be_value_of_bytes((v as u8) as nat, 1);
        reveal_with_fuel(pow256, 2);
        assert(pow256(1) == 256);
        assert(((v as u8) as i8) == v) by (bit_vector);
    }
}

/// A `u16` takes 2 bytes, most significant first.
impl Encode for u16 {
    open spec fn spec_encode(&self) -> Seq<u8> {
        be_bytes(*self as nat, 2)
    }

    fn encode(&self, out: &mut Vec<u8>) {
        write_be(*self as u128, 2, out);
    }
}

impl Decode for u16 {
    open spec fn spec_decode(s: Seq<u8>) -> Result<(u16, nat), ()> {
        if s.len() >= 2 {
            Ok((be_value(s.take(2)) as u16, 2))
        } else {
            Err(())
        }
    }

    fn decode(input: &[u8]) -> (r: Result<(u16, usize), ()>) {
        if input.len() < 2 {
            return Err(());
        }
        let v = read_be(input, 2);
        Ok((v as u16, 2))
    }

    proof fn lemma_decode_len(s: Seq<u8>) {
    }

    proof fn lemma_decode_extend(s: Seq<u8>, t: Seq<u8>) {
        if s.len() >= 2 {
            assert((s + t).take(2) == s.take(2));
        }
    }
}

impl Codec for u16 {
    proof fn lemma_roundtrip(v: u16, rest: Seq<u8>) {
        lemma_be_bytes_len(v as nat, 2);
        lemma_take_prefix(be_bytes(v as nat, 2), rest);
        lemma_be_value_of_bytes(v as nat, 2);
        reveal_with_fuel(pow256, 3);
        assert(pow256(2) == 65536);
    }
}

/// An `i16` takes 2 bytes: its two's complement bits, most significant first.
impl Encode for i16 {
    open spec fn spec_encode(&self) -> Seq<u8> {
        be_bytes((*self as u16) as nat, 2)
    }

    fn encode(&self, out: &mut Vec<u8>) {
        write_be((*self as u16) as u128, 2, out);
    }
}

impl Decode for i16 {
    open spec fn spec_decode(s: Seq<u8>) -> Result<(i16, nat), ()> {
        if s.len() >= 2 {
            Ok(((be_value(s.take(2)) as u16) as i16, 2))
        } else {
            Err(())
        }
    }

    fn decode(input: &[u8]) -> (r: Result<(i16, usize), ()>) {
        if input.len() < 2 {
            return Err(());
        }
        let v = read_be(input, 2);
        Ok(((v as u16) as i16, 2))
    }

    proof fn lemma_decode_len(s: Seq<u8>) {
    }

    proof fn lemma_decode_extend(s: Seq<u8>, t: Seq<u8>) {
        if s.len() >= 2 {
            assert((s + t).take(2) == s.take(2));
        }
    }
}

impl Codec for i16 {
    proof fn lemma_roundtrip(v: i16, rest: Seq<u8>) {
        lemma_be_bytes_len((v as u16) as nat, 2);
        lemma_take_prefix(be_bytes((v as u16) as nat, 2), rest);
        lemma_be_value_of_bytes((v as u16) as nat, 2);
        reveal_with_fuel(pow256, 3);
        assert(pow256(2) == 65536);
        assert(((v as u16) as i16) == v) by (bit_vector);
    }
}

/// A `u32` takes 4 bytes, most significant first.
impl Encode for u32 {
    open spec fn spec_encode(&self) -> Seq<u8> {
        be_bytes(*self as nat, 4)
    }

    fn encode(&self, out: &mut Vec<u8>) {
        write_be(*self as u128, 4, out);
    }
}

impl Decode for u32 {
    open spec fn spec_decode(s: Seq<u8>) -> Result<(u32, nat), ()> {
        if s.len() >= 4 {
            Ok((be_value(s.take(4)) as u32, 4))
        } else {
            Err(())
        }
    }

    fn decode(input: &[u8]) -> (r: Result<(u32, usize), ()>) {
        if input.len() < 4 {
            return Err(());
        }
        let v = read_be(input, 4);
        Ok((v as u32, 4))
    }

    proof fn lemma_decode_len(s: Seq<u8>) {
    }

    proof fn lemma_decode_extend(s: Seq<u8>, t: Seq<u8>) {
        if s.len() >= 4 {
            assert((s + t).take(4) == s.take(4));
        }
    }
}

impl Codec for u32 {
    proof fn lemma_roundtrip(v: u32, rest: Seq<u8>) {
        lemma_be_bytes_len(v as nat, 4);
        lemma_take_prefix(be_bytes(v as nat, 4), rest);
        lemma_be_value_of_bytes(v as nat, 4);
        reveal_with_fuel(pow256, 5);
        assert(pow256(4) == 0x1_0000_0000);
    }
}

/// An `i32` takes 4 bytes: its two's complement bits, most significant first.
impl Encode for i32 {
    open spec fn spec_encode(&self) -> Seq<u8> {
        be_bytes((*self as u32) as nat, 4)
    }

    fn encode(&self, out: &mut Vec<u8>) {
        write_be((*self as u32) as u128, 4, out);
    }
}

impl Decode for i32 {
    open spec fn spec_decode(s: Seq<u8>) -> Result<(i32, nat), ()> {
        if s.len() >= 4 {
            Ok(((be_value(s.take(4)) as u32) as i32, 4))
        } else {
            Err(())
        }
    }

    fn decode(input: &[u8]) -> (r: Result<(i32, usize), ()>) {
        if input.len() < 4 {
            return Err(());
        }
        let v = read_be(input, 4);
        Ok(((v as u32) as i32, 4))
    }

    proof fn lemma_decode_len(s: Seq<u8>) {
    }

    proof fn lemma_decode_extend(s: Seq<u8>, t: Seq<u8>) {
        if s.len() >= 4 {
            assert((s + t).take(4) == s.take(4));
        }
    }
}

impl Codec for i32 {
    proof fn lemma_roundtrip(v: i32, rest: Seq<u8>) {
        lemma_be_bytes_len((v as u32) as nat, 4);
        lemma_take_prefix(be_bytes((v as u32) as nat, 4), rest);
        lemma_be_value_of_bytes((v as u32) as nat, 4);
        reveal_with_fuel(pow256, 5);
        assert(pow256(4) == 0x1_0000_0000);
        assert(((v as u32) as i32) == v) by (bit_vector);
    }
}

/// A `u64` takes 8 bytes, most significant first.
impl Encode for u64 {
    open spec fn spec_encode(&self) -> Seq<u8> {
        be_bytes(*self as nat, 8)
    }

    fn encode(&self, out: &mut Vec<u8>) {
        write_be(*self as u128, 8, out);
    }
}

impl Decode for u64 {
    open spec fn spec_decode(s: Seq<u8>) -> Result<(u64, nat), ()> {
        if s.len() >= 8 {
            Ok((be_value(s.take(8)) as u64, 8))
        } else {
            Err(())
        }
    }

    fn decode(input: &[u8]) -> (r: Result<(u64, usize), ()>) {
        if input.len() < 8 {
            return Err(());
        }
        let v = read_be(input, 8);
        Ok((v as u64, 8))
    }

    proof fn lemma_decode_len(s: Seq<u8>) {
    }

    proof fn lemma_decode_extend(s: Seq<u8>, t: Seq<u8>) {
        if s.len() >= 8 {
            assert((s + t).take(8) == s.take(8));
        }
    }
}

impl Codec for u64 {
    proof fn lemma_roundtrip(v: u64, rest: Seq<u8>) {
        lemma_be_bytes_len(v as nat, 8);
        lemma_take_prefix(be_bytes(v as nat, 8), rest);
        lemma_be_value_of_bytes(v as nat, 8);
        reveal_with_fuel(pow256, 9);
        assert(pow256(8) == 0x1_0000_0000_0000_0000);
    }
}

/// An `i64` takes 8 bytes: its two's complement bits, most significant first.
impl Encode for i64 {
    open spec fn spec_encode(&self) -> Seq<u8> {
        be_bytes((*self as u64) as nat, 8)
    }

    fn encode(&self, out: &mut Vec<u8>) {
        write_be((*self as u64) as u128, 8, out);
    }
}

impl Decode for i64 {
    open spec fn spec_decode(s: Seq<u8>) -> Result<(i64, nat), ()> {
        if s.len() >= 8 {
            Ok(((be_value(s.take(8)) as u64) as i64, 8))
        } else {
            Err(())
        }
    }

    fn decode(input: &[u8]) -> (r: Result<(i64, usize), ()>) {
        if input.len() < 8 {
            return Err(());
        }
        let v = read_be(input, 8);
        Ok(((v as u64) as i64, 8))
    }

    proof fn lemma_decode_len(s: Seq<u8>) {
    }

    proof fn lemma_decode_extend(s: Seq<u8>, t: Seq<u8>) {
        if s.len() >= 8 {
            assert((s + t).take(8) == s.take(8));
        }
    }
}

impl Codec for i64 {
    proof fn lemma_roundtrip(v: i64, rest: Seq<u8>) {
        lemma_be_bytes_len((v as u64) as nat, 8);
        lemma_take_prefix(be_bytes((v as u64) as nat, 8), rest);
        lemma_be_value_of_bytes((v as u64) as nat, 8);
        reveal_with_fuel(pow256, 9);
        assert(pow256(8) == 0x1_0000_0000_0000_0000);
        assert(((v as u64) as i64) == v) by (bit_vector);
    }
}

/// A `u128` takes 16 bytes, most significant first.
impl Encode for u128 {
    open spec fn spec_encode(&self) -> Seq<u8> {
        be_bytes(*self as nat, 16)
    }

    fn encode(&self, out: &mut Vec<u8>) {
        write_be(*self as u128, 16, out);
    }
}

impl Decode for u128 {
    open spec fn spec_decode(s: Seq<u8>) -> Result<(u128, nat), ()> {
        if s.len() >= 16 {
            Ok((be_value(s.take(16)) as u128, 16))
        } else {
            Err(())
        }
    }

    fn decode(input: &[u8]) -> (r: Result<(u128, usize), ()>) {
        if input.len() < 16 {
            return Err(());
        }
        let v = read_be(input, 16);
        Ok((v as u128, 16))
    }

    proof fn lemma_decode_len(s: Seq<u8>) {
    }

    proof fn lemma_decode_extend(s: Seq<u8>, t: Seq<u8>) {
        if s.len() >= 16 {
            assert((s + t).take(16) == s.take(16));
        }
    }
}

impl Codec for u128 {
    proof fn lemma_roundtrip(v: u128, rest: Seq<u8>) {
        lemma_be_bytes_len(v as nat, 16);
        lemma_take_prefix(be_bytes(v as nat, 16), rest);
        lemma_be_value_of_bytes(v as nat, 16);
        reveal_with_fuel(pow256, 17);
        assert(pow256(16) == 0x1_0000_0000_0000_0000_0000_0000_0000_0000);
    }
}

/// An `i128` takes 16 bytes: its two's complement bits, most significant first.
impl Encode for i128 {
    open spec fn spec_encode(&self) -> Seq<u8> {
        be_bytes((*self as u128) as nat, 16)
    }

    fn encode(&self, out: &mut Vec<u8>) {
        write_be((*self as u128) as u128, 16, out);
    }
}

impl Decode for i128 {
    open spec fn spec_decode(s: Seq<u8>) -> Result<(i128, nat), ()> {
        if s.len() >= 16 {
            Ok(((be_value(s.take(16)) as u128) as i128, 16))
        } else {
            Err(())
        }
    }

    fn decode(input: &[u8]) -> (r: Result<(i128, usize), ()>) {
        if input.len() < 16 {
            return Err(());
        }
        let v = read_be(input, 16);
        Ok(((v as u128) as i128, 16))
    }

    proof fn lemma_decode_len(s: Seq<u8>) {
    }

    proof fn lemma_decode_extend(s: Seq<u8>, t: Seq<u8>) {
        if s.len() >= 16 {
            assert((s + t).take(16) == s.take(16));
        }
    }
}

impl Codec for i128 {
    proof fn lemma_roundtrip(v: i128, rest: Seq<u8>) {
        lemma_be_bytes_len((v as u128) as nat, 16);
        lemma_take_prefix(be_bytes((v as u128) as nat, 16), rest);
        lemma_be_value_of_bytes((v as u128) as nat, 16);
        reveal_with_fuel(pow256, 17);
        assert(pow256(16) == 0x1_0000_0000_0000_0000_0000_0000_0000_0000);
        assert(((v as u128) as i128) == v) by (bit_vector);
    }
}

/// The number of bytes in a `usize`: 4 or 8, as the machine has it.
pub open spec fn usize_width() -> nat {
    (usize::BITS / 8) as nat
}

/// The number of bytes in a `usize` on this machine.
pub fn usize_bytes() -> (w: usize)
    ensures
        w == usize_width(),
        w == 4 || w == 8,
{
    (usize::BITS / 8) as usize
}

/// `usize::MAX` is one less than `256` to the power of the width.
pub proof fn lemma_usize_max_is_pow256()
    ensures
        usize_width() == 4 || usize_width() == 8,
        usize::MAX + 1 == pow256(usize_width()),
{
    reveal_with_fuel(pow256, 9);
    assert(pow256(4) == 0x1_0000_0000);
    assert(pow256(8) == 0x1_0000_0000_0000_0000);
}

/// A `usize` is below `256` to the power of its width.
proof fn lemma_usize_fits(v: usize)
    ensures
        (v as nat) < pow256(usize_width()),
        usize_width() == 4 || usize_width() == 8,
        usize::MAX + 1 == pow256(usize_width()),
{
    lemma_usize_max_is_pow256();
}

/// A `usize` takes the bytes of its width on this machine, most significant
/// first.
impl Encode for usize {
    open spec fn spec_encode(&self) -> Seq<u8> {
        be_bytes(*self as nat, usize_width())
    }

    fn encode(&self, out: &mut Vec<u8>) {
        write_be(*self as u128, usize_bytes(), out);
    }
}

impl Decode for usize {
    open spec fn spec_decode(s: Seq<u8>) -> Result<(usize, nat), ()> {
        if s.len() >= usize_width() {
            Ok((be_value(s.take(usize_width() as int)) as usize, usize_width()))
        } else {
            Err(())
        }
    }

    fn decode(input: &[u8]) -> (r: Result<(usize, usize), ()>) {
        let w = usize_bytes();
        if input.len() < w {
            return Err(());
        }
        let v = read_be(input, w);
        proof {
            lemma_be_value_bound(input@.take(w as int));
            lemma_usize_fits(0);
        }
        Ok((v as usize, w))
    }

    proof fn lemma_decode_len(s: Seq<u8>) {
    }

    proof fn lemma_decode_extend(s: Seq<u8>, t: Seq<u8>) {
        if s.len() >= usize_width() {
            assert((s + t).take(usize_width() as int) == s.take(usize_width() as int));
        }
    }
}

impl Codec for usize {
    proof fn lemma_roundtrip(v: usize, rest: Seq<u8>) {
        let w = usize_width();
        lemma_usize_fits(v);
        lemma_be_bytes_len(v as nat, w);
        lemma_take_prefix(be_bytes(v as nat, w), rest);
        lemma_be_value_of_bytes(v as nat, w);
        vstd::arithmetic::div_mod::lemma_small_mod(v as nat, pow256(w));
    }
}

/// An `isize` takes the bytes of its width on this machine: its two's
/// complement bits, most significant first.
impl Encode for isize {
    open spec fn spec_encode(&self) -> Seq<u8> {
        be_bytes((*self as usize) as nat, usize_width())
    }

    fn encode(&self, out: &mut Vec<u8>) {
        write_be((*self as usize) as u128, usize_bytes(), out);
    }
}

impl Decode for isize {
    open spec fn spec_decode(s: Seq<u8>) -> Result<(isize, nat), ()> {
        if s.len() >= usize_width() {
            Ok(((be_value(s.take(usize_width() as int)) as usize) as isize, usize_width()))
        } else {
            Err(())
        }
    }

    fn decode(input: &[u8]) -> (r: Result<(isize, usize), ()>) {
        let w = usize_bytes();
        if input.len() < w {
            return Err(());
        }
        let v = read_be(input, w);
        proof {
            lemma_be_value_bound(input@.take(w as int));
            lemma_usize_fits(0);
        }
        Ok(((v as usize) as isize, w))
    }

    proof fn lemma_decode_len(s: Seq<u8>) {
    }

    proof fn lemma_decode_extend(s: Seq<u8>, t: Seq<u8>) {
        if s.len() >= usize_width() {
            assert((s + t).take(usize_width() as int) == s.take(usize_width() as int));
        }
    }
}

impl Codec for isize {
    proof fn lemma_roundtrip(v: isize, rest: Seq<u8>) {
        let w = usize_width();
        let u = v as usize;
        lemma_usize_fits(u);
        lemma_be_bytes_len(u as nat, w);
        lemma_take_prefix(be_bytes(u as nat, w), rest);
        lemma_be_value_of_bytes(u as nat, w);
        vstd::arithmetic::div_mod::lemma_small_mod(u as nat, pow256(w));
        assert(((v as usize) as isize) == v) by (bit_vector);
    }
}

/// A `u8` is written as its 1 base-256 digit,
/// most significant first; reading 1 byte gives the `u8` whose encoding
/// they are, and fewer byte give an error.
pub proof fn lemma_u8_big_endian(v: u8, s: Seq<u8>)
    ensures
        v.spec_encode().len() == 1,
        forall|i: int|
            0 <= i < 1 ==> #[trigger] v.spec_encode()[i] == ((v as nat) / pow256((0 - i) as nat)) % 256,
        s.len() >= 1 ==> (<u8 as Decode>::spec_decode(s) matches Ok((x, k)) && k == 1 && x.spec_encode() == s.take(1)),
        s.len() < 1 ==> <u8 as Decode>::spec_decode(s) is Err,
{
    lemma_be_bytes_len((v as nat), 1);
    assert forall|i: int| 0 <= i < 1 implies #[trigger] v.spec_encode()[i] == ((v as nat) / pow256((0 - i) as nat)) % 256 by {
        lemma_be_bytes_index((v as nat), 1, i);
    }
    if s.len() >= 1 {
        let t = s.take(1);
        lemma_be_value_bound(t);
        reveal_with_fuel(pow256, 2);
        assert(pow256(1) == 256);
        lemma_be_bytes_of_value(t);
    }
}

/// An `i8` is written as its 1 base-256 digit of its two's complement bits,
/// most significant first; reading 1 byte gives the `i8` whose encoding
/// they are, and fewer byte give an error.
pub proof fn lemma_i8_big_endian(v: i8, s: Seq<u8>)
    ensures
        v.spec_encode().len() == 1,
        forall|i: int|
            0 <= i < 1 ==> #[trigger] v.spec_encode()[i] == (((v as u8) as nat) / pow256((0 - i) as nat)) % 256,
        s.len() >= 1 ==> (<i8 as Decode>::spec_decode(s) matches Ok((x, k)) && k == 1 && x.spec_encode() == s.take(1)),
        s.len() < 1 ==> <i8 as Decode>::spec_decode(s) is Err,
{
    lemma_be_bytes_len(((v as u8) as nat), 1);
    assert forall|i: int| 0 <= i < 1 implies #[trigger] v.spec_encode()[i] == (((v as u8) as nat) / pow256((0 - i) as nat)) % 256 by {
        lemma_be_bytes_index(((v as u8) as nat), 1, i);
    }
    if s.len() >= 1 {
        let t = s.take(1);
        lemma_be_value_bound(t);
        reveal_with_fuel(pow256, 2);
        assert(pow256(1) == 256);
        lemma_be_bytes_of_value(t);
            let w = be_value(t) as u8;
            assert(((w as i8) as u8) == w) by (bit_vector);
    }
}

/// A `u16` is written as its 2 base-256 digits,
/// most significant first; reading 2 bytes gives the `u16` whose encoding
/// they are, and fewer bytes give an error.
pub proof fn lemma_u16_big_endian(v: u16, s: Seq<u8>)
    ensures
        v.spec_encode().len() == 2,
        forall|i: int|
            0 <= i < 2 ==> #[trigger] v.spec_encode()[i] == ((v as nat) / pow256((1 - i) as nat)) % 256,
        s.len() >= 2 ==> (<u16 as Decode>::spec_decode(s) matches Ok((x, k)) && k == 2 && x.spec_encode() == s.take(2)),
        s.len() < 2 ==> <u16 as Decode>::spec_decode(s) is Err,
{
    lemma_be_bytes_len((v as nat), 2);
    assert forall|i: int| 0 <= i < 2 implies #[trigger] v.spec_encode()[i] == ((v as nat) / pow256((1 - i) as nat)) % 256 by {
        lemma_be_bytes_index((v as nat), 2, i);
    }
    if s.len() >= 2 {
        let t = s.take(2);
        lemma_be_value_bound(t);
        reveal_with_fuel(pow256, 3);
        assert(pow256(2) == 0x1_0000);
        lemma_be_bytes_of_value(t);
    }
}

/// An `i16` is written as its 2 base-256 digits of its two's complement bits,
/// most significant first; reading 2 bytes gives the `i16` whose encoding
/// they are, and fewer bytes give an error.
pub proof fn lemma_i16_big_endian(v: i16, s: Seq<u8>)
    ensures
        v.spec_encode().len() == 2,
        forall|i: int|
            0 <= i < 2 ==> #[trigger] v.spec_encode()[i] == (((v as u16) as nat) / pow256((1 - i) as nat)) % 256,
        s.len() >= 2 ==> (<i16 as Decode>::spec_decode(s) matches Ok((x, k)) && k == 2 && x.spec_encode() == s.take(2)),
        s.len() < 2 ==> <i16 as Decode>::spec_decode(s) is Err,
{
    lemma_be_bytes_len(((v as u16) as nat), 2);
    assert forall|i: int| 0 <= i < 2 implies #[trigger] v.spec_encode()[i] == (((v as u16) as nat) / pow256((1 - i) as nat)) % 256 by {
        lemma_be_bytes_index(((v as u16) as nat), 2, i);
    }
    if s.len() >= 2 {
        let t = s.take(2);
        lemma_be_value_bound(t);
        reveal_with_fuel(pow256, 3);
        assert(pow256(2) == 0x1_0000);
        lemma_be_bytes_of_value(t);
            let w = be_value(t) as u16;
            assert(((w as i16) as u16) == w) by (bit_vector);
    }
}

/// A `u32` is written as its 4 base-256 digits,
/// most significant first; reading 4 bytes gives the `u32` whose encoding
/// they are, and fewer bytes give an error.
pub proof fn lemma_u32_big_endian(v: u32, s: Seq<u8>)
    ensures
        v.spec_encode().len() == 4,
        forall|i: int|
            0 <= i < 4 ==> #[trigger] v.spec_encode()[i] == ((v as nat) / pow256((3 - i) as nat)) % 256,
        s.len() >= 4 ==> (<u32 as Decode>::spec_decode(s) matches Ok((x, k)) && k == 4 && x.spec_encode() == s.take(4)),
        s.len() < 4 ==> <u32 as Decode>::spec_decode(s) is Err,
{
    lemma_be_bytes_len((v as nat), 4);
    assert forall|i: int| 0 <= i < 4 implies #[trigger] v.spec_encode()[i] == ((v as nat) / pow256((3 - i) as nat)) % 256 by {
        lemma_be_bytes_index((v as nat), 4, i);
    }
    if s.len() >= 4 {
        let t = s.take(4);
        lemma_be_value_bound(t);
        reveal_with_fuel(pow256, 5);
        assert(pow256(4) == 0x1_0000_0000);
        lemma_be_bytes_of_value(t);
    }
}

/// An `i32` is written as its 4 base-256 digits of its two's complement bits,
/// most significant first; reading 4 bytes gives the `i32` whose encoding
/// they are, and fewer bytes give an error.
pub proof fn lemma_i32_big_endian(v: i32, s: Seq<u8>)
    ensures
        v.spec_encode().len() == 4,
        forall|i: int|
            0 <= i < 4 ==> #[trigger] v.spec_encode()[i] == (((v as u32) as nat) / pow256((3 - i) as nat)) % 256,
        s.len() >= 4 ==> (<i32 as Decode>::spec_decode(s) matches Ok((x, k)) && k == 4 && x.spec_encode() == s.take(4)),
        s.len() < 4 ==> <i32 as Decode>::spec_decode(s) is Err,
{
    lemma_be_bytes_len(((v as u32) as nat), 4);
    assert forall|i: int| 0 <= i < 4 implies #[trigger] v.spec_encode()[i] == (((v as u32) as nat) / pow256((3 - i) as nat)) % 256 by {
        lemma_be_bytes_index(((v as u32) as nat), 4, i);
    }
    if s.len() >= 4 {
        let t = s.take(4);
        lemma_be_value_bound(t);
        reveal_with_fuel(pow256, 5);
        assert(pow256(4) == 0x1_0000_0000);
        lemma_be_bytes_of_value(t);
            let w = be_value(t) as u32;
            assert(((w as i32) as u32) == w) by (bit_vector);
    }
}

/// A `u64` is written as its 8 base-256 digits,
/// most significant first; reading 8 bytes gives the `u64` whose encoding
/// they are, and fewer bytes give an error.
pub proof fn lemma_u64_big_endian(v: u64, s: Seq<u8>)
    ensures
        v.spec_encode().len() == 8,
        forall|i: int|
            0 <= i < 8 ==> #[trigger] v.spec_encode()[i] == ((v as nat) / pow256((7 - i) as nat)) % 256,
        s.len() >= 8 ==> (<u64 as Decode>::spec_decode(s) matches Ok((x, k)) && k == 8 && x.spec_encode() == s.take(8)),
        s.len() < 8 ==> <u64 as Decode>::spec_decode(s) is Err,
{
    lemma_be_bytes_len((v as nat), 8);
    assert forall|i: int| 0 <= i < 8 implies #[trigger] v.spec_encode()[i] == ((v as nat) / pow256((7 - i) as nat)) % 256 by {
        lemma_be_bytes_index((v as nat), 8, i);
    }
    if s.len() >= 8 {
        let t = s.take(8);
        lemma_be_value_bound(t);
        reveal_with_fuel(pow256, 9);
        assert(pow256(8) == 0x1_0000_0000_0000_0000);
        lemma_be_bytes_of_value(t);
    }
}

/// An `i64` is written as its 8 base-256 digits of its two's complement bits,
/// most significant first; reading 8 bytes gives the `i64` whose encoding
/// they are, and fewer bytes give an error.
pub proof fn lemma_i64_big_endian(v: i64, s: Seq<u8>)
    ensures
        v.spec_encode().len() == 8,
        forall|i: int|
            0 <= i < 8 ==> #[trigger] v.spec_encode()[i] == (((v as u64) as nat) / pow256((7 - i) as nat)) % 256,
        s.len() >= 8 ==> (<i64 as Decode>::spec_decode(s) matches Ok((x, k)) && k == 8 && x.spec_encode() == s.take(8)),
        s.len() < 8 ==> <i64 as Decode>::spec_decode(s) is Err,
{
    lemma_be_bytes_len(((v as u64) as nat), 8);
    assert forall|i: int| 0 <= i < 8 implies #[trigger] v.spec_encode()[i] == (((v as u64) as nat) / pow256((7 - i) as nat)) % 256 by {
        lemma_be_bytes_index(((v as u64) as nat), 8, i);
    }
    if s.len() >= 8 {
        let t = s.take(8);
        lemma_be_value_bound(t);
        reveal_with_fuel(pow256, 9);
        assert(pow256(8) == 0x1_0000_0000_0000_0000);
        lemma_be_bytes_of_value(t);
            let w = be_value(t) as u64;
            assert(((w as i64) as u64) == w) by (bit_vector);
    }
}

/// A `u128` is written as its 16 base-256 digits,
/// most significant first; reading 16 bytes gives the `u128` whose encoding
/// they are, and fewer bytes give an error.
pub proof fn lemma_u128_big_endian(v: u128, s: Seq<u8>)
    ensures
        v.spec_encode().len() == 16,
        forall|i: int|
            0 <= i < 16 ==> #[trigger] v.spec_encode()[i] == ((v as nat) / pow256((15 - i) as nat)) % 256,
        s.len() >= 16 ==> (<u128 as Decode>::spec_decode(s) matches Ok((x, k)) && k == 16 && x.spec_encode() == s.take(16)),
        s.len() < 16 ==> <u128 as Decode>::spec_decode(s) is Err,
{
    lemma_be_bytes_len((v as nat), 16);
    assert forall|i: int| 0 <= i < 16 implies #[trigger] v.spec_encode()[i] == ((v as nat) / pow256((15 - i) as nat)) % 256 by {
        lemma_be_bytes_index((v as nat), 16, i);
    }
    if s.len() >= 16 {
        let t = s.take(16);
        lemma_be_value_bound(t);
        reveal_with_fuel(pow256, 17);
        assert(pow256(16) == 0x1_0000_0000_0000_0000_0000_0000_0000_0000);
        lemma_be_bytes_of_value(t);
    }
}

/// An `i128` is written as its 16 base-256 digits of its two's complement bits,
/// most significant first; reading 16 bytes gives the `i128` whose encoding
/// they are, and fewer bytes give an error.
pub proof fn lemma_i128_big_endian(v: i128, s: Seq<u8>)
    ensures
        v.spec_encode().len() == 16,
        forall|i: int|
            0 <= i < 16 ==> #[trigger] v.spec_encode()[i] == (((v as u128) as nat) / pow256((15 - i) as nat)) % 256,
        s.len() >= 16 ==> (<i128 as Decode>::spec_decode(s) matches Ok((x, k)) && k == 16 && x.spec_encode() == s.take(16)),
        s.len() < 16 ==> <i128 as Decode>::spec_decode(s) is Err,
{
    lemma_be_bytes_len(((v as u128) as nat), 16);
    assert forall|i: int| 0 <= i < 16 implies #[trigger] v.spec_encode()[i] == (((v as u128) as nat) / pow256((15 - i) as nat)) % 256 by {
        lemma_be_bytes_index(((v as u128) as nat), 16, i);
    }
    if s.len() >= 16 {
        let t = s.take(16);
        lemma_be_value_bound(t);
        reveal_with_fuel(pow256, 17);
        assert(pow256(16) == 0x1_0000_0000_0000_0000_0000_0000_0000_0000);
        lemma_be_bytes_of_value(t);
            let w = be_value(t) as u128;
            assert(((w as i128) as u128) == w) by (bit_vector);
    }
}

/// A `usize` is written as its base-256 digits, as many as the
/// machine's width, most significant first; reading that many bytes gives
/// the `usize` whose encoding they are, and fewer bytes give an error.
pub proof fn lemma_usize_big_endian(v: usize, s: Seq<u8>)
    ensures
        v.spec_encode().len() == usize_width(),
        forall|i: int|
            0 <= i < usize_width() ==> #[trigger] v.spec_encode()[i] == ((v as nat) / pow256((usize_width() - 1 - i) as nat)) % 256,
        s.len() >= usize_width() ==> (<usize as Decode>::spec_decode(s) matches Ok((x, k)) && k == usize_width()
            && x.spec_encode() == s.take(usize_width() as int)),
        s.len() < usize_width() ==> <usize as Decode>::spec_decode(s) is Err,
{
    let w = usize_width();
    lemma_be_bytes_len((v as nat), w);
    assert forall|i: int| 0 <= i < w implies #[trigger] v.spec_encode()[i] == ((v as nat) / pow256((w - 1 - i) as nat)) % 256 by {
        lemma_be_bytes_index((v as nat), w, i);
    }
    if s.len() >= w {
        let t = s.take(w as int);
        lemma_be_value_bound(t);
        lemma_usize_max_is_pow256();
        lemma_be_bytes_of_value(t);
    }
}

/// An `isize` is written as its base-256 digits of its two's complement bits, as many as the
/// machine's width, most significant first; reading that many bytes gives
/// the `isize` whose encoding they are, and fewer bytes give an error.
pub proof fn lemma_isize_big_endian(v: isize, s: Seq<u8>)
    ensures
        v.spec_encode().len() == usize_width(),
        forall|i: int|
            0 <= i < usize_width() ==> #[trigger] v.spec_encode()[i] == (((v as usize) as nat) / pow256((usize_width() - 1 - i) as nat)) % 256,
        s.len() >= usize_width() ==> (<isize as Decode>::spec_decode(s) matches Ok((x, k)) && k == usize_width()
            && x.spec_encode() == s.take(usize_width() as int)),
        s.len() < usize_width() ==> <isize as Decode>::spec_decode(s) is Err,
{
    let w = usize_width();
    lemma_be_bytes_len(((v as usize) as nat), w);
    assert forall|i: int| 0 <= i < w implies #[trigger] v.spec_encode()[i] == (((v as usize) as nat) / pow256((w - 1 - i) as nat)) % 256 by {
        lemma_be_bytes_index(((v as usize) as nat), w, i);
    }
    if s.len() >= w {
        let t = s.take(w as int);
        lemma_be_value_bound(t);
        lemma_usize_max_is_pow256();
        lemma_be_bytes_of_value(t);
            let w = be_value(t) as usize;
            assert(((w as isize) as usize) == w) by (bit_vector);
    }
}

/// The array of `N` bytes whose bytes are `s`.
pub open spec fn array_of<const N: usize>(s: Seq<u8>) -> [u8; N] {
    choose|a: [u8; N]| a@ == s
}

/// An array of `N` bytes is the one array with its bytes.
pub proof fn lemma_array_of<const N: usize>(a: [u8; N])
    ensures
        array_of::<N>(a@) == a,
{
    broadcast use vstd::array::axiom_array_ext_equal;

    let c = array_of::<N>(a@);
    assert(c@ == a@);
    assert(c =~= a);
}

/// An array of `N` bytes takes its bytes as they are.
impl<const N: usize> Encode for [u8; N] {
    open spec fn spec_encode(&self) -> Seq<u8> {
        self@
    }

    fn encode(&self, out: &mut Vec<u8>) {
        let ghost start = out@;
        let mut i: usize = 0;
        while i < N
            invariant
                i <= N,
                self@.len() == N,
                out@ == start + self@.take(i as int),
            decreases N - i,
        {
            out.push(self[i]);
            i += 1;
            assert(self@.take(i as int) == self@.take(i - 1).push(self@[i - 1]));
        }
        assert(self@.take(N as int) == self@);
    }
}

impl<const N: usize> Decode for [u8; N] {
    open spec fn spec_decode(s: Seq<u8>) -> Result<([u8; N], nat), ()> {
        if s.len() >= N {
            Ok((array_of::<N>(s.take(N as int)), N as nat))
        } else {
            Err(())
        }
    }

    fn decode(input: &[u8]) -> (r: Result<([u8; N], usize), ()>) {
        if input.len() < N {
            return Err(());
        }
        let mut a = [0u8; N];
        let mut i: usize = 0;
        while i < N
            invariant
                i <= N,
                N <= input@.len(),
                a@.len() == N,
                forall|j: int| 0 <= j < i ==> a@[j] == input@[j],
            decreases N - i,
        {
            a[i] = input[i];
            i += 1;
        }
        assert(a@ =~= input@.take(N as int));
        proof {
            lemma_array_of::<N>(a);
        }
        Ok((a, N))
    }

    proof fn lemma_decode_len(s: Seq<u8>) {
    }

    proof fn lemma_decode_extend(s: Seq<u8>, t: Seq<u8>) {
        if s.len() >= N {
            assert((s + t).take(N as int) == s.take(N as int));
        }
    }
}

impl<const N: usize> Codec for [u8; N] {
    proof fn lemma_roundtrip(v: [u8; N], rest: Seq<u8>) {
        broadcast use vstd::array::array_len_matches_n;

        assert(v@.len() == N);
        lemma_take_prefix(v@, rest);
        lemma_array_of::<N>(v);
    }
}

/// A `bool` takes one byte: 1 for `true`, 0 for `false`; any byte but 0 reads
/// as `true`.
impl Encode for bool {
    open spec fn spec_encode(&self) -> Seq<u8> {
        seq![if *self { 1u8 } else { 0u8 }]
    }

    fn encode(&self, out: &mut Vec<u8>) {
        out.push(if *self { 1u8 } else { 0u8 });
    }
}

impl Decode for bool {
    open spec fn spec_decode(s: Seq<u8>) -> Result<(bool, nat), ()> {
        if s.len() >= 1 {
            Ok((s[0] != 0, 1))
        } else {
            Err(())
        }
    }

    fn decode(input: &[u8]) -> (r: Result<(bool, usize), ()>) {
        if input.len() < 1 {
            return Err(());
        }
        Ok((input[0] != 0, 1))
    }

    proof fn lemma_decode_len(s: Seq<u8>) {
    }

    proof fn lemma_decode_extend(s: Seq<u8>, t: Seq<u8>) {
    }
}

impl Codec for bool {
    proof fn lemma_roundtrip(v: bool, rest: Seq<u8>) {
    }
}

/// `()` takes no bytes.
impl Encode for () {
    open spec fn spec_encode(&self) -> Seq<u8> {
        seq![]
    }

    fn encode(&self, out: &mut Vec<u8>) {
        assert(out@ == old(out)@ + seq![]);
    }
}

impl Decode for () {
    open spec fn spec_decode(s: Seq<u8>) -> Result<((), nat), ()> {
        Ok(((), 0))
    }

    fn decode(input: &[u8]) -> (r: Result<((), usize), ()>) {
        Ok(((), 0))
    }

    proof fn lemma_decode_len(s: Seq<u8>) {
    }

    proof fn lemma_decode_extend(s: Seq<u8>, t: Seq<u8>) {
    }
}

impl Codec for () {
    proof fn lemma_roundtrip(v: (), rest: Seq<u8>) {
    }
}

/// An `Option` takes a tag byte, 1 for `Some` and 0 for `None`, then the value
/// when there is one; any tag but 0 reads as `Some`.
impl<T: Encode> Encode for Option<T> {
    open spec fn spec_encode(&self) -> Seq<u8> {
        match self {
            Some(v) => seq![1u8] + v.spec_encode(),
            None => seq![0u8],
        }
    }

    fn encode(&self, out: &mut Vec<u8>) {
        match self {
            Some(v) => {
                out.push(1u8);
                v.encode(out);
            },
            None => {
                out.push(0u8);
            },
        }
    }
}

impl<T: Decode> Decode for Option<T> {
    open spec fn spec_decode(s: Seq<u8>) -> Result<(Option<T>, nat), ()> {
        if s.len() == 0 {
            Err(())
        } else if s[0] == 0 {
            Ok((None, 1))
        } else {
            match T::spec_decode(s.drop_first()) {
                Ok((v, n)) => Ok((Some(v), n + 1)),
                Err(e) => Err(e),
            }
        }
    }

    fn decode(input: &[u8]) -> (r: Result<(Option<T>, usize), ()>) {
        if input.len() == 0 {
            return Err(());
        }
        if input[0] == 0 {
            return Ok((None, 1));
        }
        let rest = tail(input, 1);
        assert(rest@ == input@.drop_first());
        match T::decode(rest) {
            Ok((v, n)) => Ok((Some(v), n + 1)),
            Err(e) => Err(e),
        }
    }

    proof fn lemma_decode_len(s: Seq<u8>) {
        if s.len() > 0 {
            T::lemma_decode_len(s.drop_first());
        }
    }

    proof fn lemma_decode_extend(s: Seq<u8>, t: Seq<u8>) {
        if s.len() > 0 {
            T::lemma_decode_extend(s.drop_first(), t);
            assert((s + t).drop_first() == s.drop_first() + t);
        }
    }
}

impl<T: Codec> Codec for Option<T> {
    proof fn lemma_roundtrip(v: Option<T>, rest: Seq<u8>) {
        if let Some(x) = v {
            T::lemma_roundtrip(x, rest);
            assert((seq![1u8] + x.spec_encode() + rest).drop_first() == x.spec_encode() + rest);
        }
    }
}

/// A `Result` takes a tag byte, 1 for `Ok` and 0 for `Err`, then the value of
/// either; any tag but 0 reads as `Ok`.
impl<T: Encode, E: Encode> Encode for Result<T, E> {
    open spec fn spec_encode(&self) -> Seq<u8> {
        match self {
            Ok(v) => seq![1u8] + v.spec_encode(),
            Err(e) => seq![0u8] + e.spec_encode(),
        }
    }

    fn encode(&self, out: &mut Vec<u8>) {
        match self {
            Ok(v) => {
                out.push(1u8);
                v.encode(out);
            },
            Err(e) => {
                out.push(0u8);
                e.encode(out);
            },
        }
    }
}

impl<T: Decode, E: Decode> Decode for Result<T, E> {
    open spec fn spec_decode(s: Seq<u8>) -> Result<(Result<T, E>, nat), ()> {
        if s.len() == 0 {
            Err(())
        } else if s[0] == 0 {
            match E::spec_decode(s.drop_first()) {
                Ok((e, n)) => Ok((Err(e), n + 1)),
                Err(u) => Err(u),
            }
        } else {
            match T::spec_decode(s.drop_first()) {
                Ok((v, n)) => Ok((Ok(v), n + 1)),
                Err(u) => Err(u),
            }
        }
    }

    fn decode(input: &[u8]) -> (r: Result<(Result<T, E>, usize), ()>) {
        if input.len() == 0 {
            return Err(());
        }
        let rest = tail(input, 1);
        assert(rest@ == input@.drop_first());
        if input[0] == 0 {
            match E::decode(rest) {
                Ok((e, n)) => Ok((Err(e), n + 1)),
                Err(u) => Err(u),
            }
        } else {
            match T::decode(rest) {
                Ok((v, n)) => Ok((Ok(v), n + 1)),
                Err(u) => Err(u),
            }
        }
    }

    proof fn lemma_decode_len(s: Seq<u8>) {
        if s.len() > 0 {
            T::lemma_decode_len(s.drop_first());
            E::lemma_decode_len(s.drop_first());
        }
    }

    proof fn lemma_decode_extend(s: Seq<u8>, t: Seq<u8>) {
        if s.len() > 0 {
            T::lemma_decode_extend(s.drop_first(), t);
            E::lemma_decode_extend(s.drop_first(), t);
            assert((s + t).drop_first() == s.drop_first() + t);
        }
    }
}

impl<T: Codec, E: Codec> Codec for Result<T, E> {
    proof fn lemma_roundtrip(v: Result<T, E>, rest: Seq<u8>) {
        match v {
            Ok(x) => {
                T::lemma_roundtrip(x, rest);
                assert((seq![1u8] + x.spec_encode() + rest).drop_first() == x.spec_encode() + rest);
            },
            Err(e) => {
                E::lemma_roundtrip(e, rest);
                assert((seq![0u8] + e.spec_encode() + rest).drop_first() == e.spec_encode() + rest);
            },
        }
    }
}

/// A box takes the bytes of what it holds.
impl<T: Encode> Encode for Box<T> {
    open spec fn spec_encode(&self) -> Seq<u8> {
        (**self).spec_encode()
    }

    fn encode(&self, out: &mut Vec<u8>) {
        T::encode(&**self, out);
    }
}

impl<T: Decode> Decode for Box<T> {
    open spec fn spec_decode(s: Seq<u8>) -> Result<(Box<T>, nat), ()> {
        match T::spec_decode(s) {
            Ok((v, n)) => Ok((Box::new(v), n)),
            Err(e) => Err(e),
        }
    }

    fn decode(input: &[u8]) -> (r: Result<(Box<T>, usize), ()>) {
        match T::decode(input) {
            Ok((v, n)) => Ok((Box::new(v), n)),
            Err(e) => Err(e),
        }
    }

    proof fn lemma_decode_len(s: Seq<u8>) {
        T::lemma_decode_len(s);
    }

    proof fn lemma_decode_extend(s: Seq<u8>, t: Seq<u8>) {
        T::lemma_decode_extend(s, t);
    }
}

impl<T: Codec> Codec for Box<T> {
    proof fn lemma_roundtrip(v: Box<T>, rest: Seq<u8>) {
        T::lemma_roundtrip(*v, rest);
    }
}

/// A tuple takes the bytes of its parts in order.
impl<A: Encode, B: Encode> Encode for (A, B) {
    open spec fn spec_encode(&self) -> Seq<u8> {
        self.0.spec_encode() + self.1.spec_encode()
    }

    fn encode(&self, out: &mut Vec<u8>) {
        let ghost start = out@;
        self.0.encode(out);
        self.1.encode(out);
        assert(out@ == start + self.spec_encode());
    }
}

/// A tuple takes the bytes of its parts in order.
impl<A: Encode, B: Encode, C: Encode> Encode for (A, B, C) {
    open spec fn spec_encode(&self) -> Seq<u8> {
        self.0.spec_encode() + self.1.spec_encode() + self.2.spec_encode()
    }

    fn encode(&self, out: &mut Vec<u8>) {
        let ghost start = out@;
        self.0.encode(out);
        self.1.encode(out);
        self.2.encode(out);
        assert(out@ == start + self.spec_encode());
    }
}

/// A tuple takes the bytes of its parts in order.
impl<A: Encode, B: Encode, C: Encode, D: Encode> Encode for (A, B, C, D) {
    open spec fn spec_encode(&self) -> Seq<u8> {
        self.0.spec_encode() + self.1.spec_encode() + self.2.spec_encode() + self.3.spec_encode()
    }

    fn encode(&self, out: &mut Vec<u8>) {
        let ghost start = out@;
        self.0.encode(out);
        self.1.encode(out);
        self.2.encode(out);
        self.3.encode(out);
        assert(out@ == start + self.spec_encode());
    }
}

impl<A: Decode, B: Decode> Decode for (A, B) {
    open spec fn spec_decode(s: Seq<u8>) -> Result<((A, B), nat), ()> {
        match A::spec_decode(s) {
            Ok((a, n)) => match B::spec_decode(s.skip(n as int)) {
                Ok((b, m)) => Ok(((a, b), n + m)),
                Err(e) => Err(e),
            },
            Err(e) => Err(e),
        }
    }

    fn decode(input: &[u8]) -> (r: Result<((A, B), usize), ()>) {
        match A::decode(input) {
            Ok((a, n)) => {
                let rest = tail(input, n);
                let rb = B::decode(rest);
                match rb {
                    Ok((b, m)) => Ok(((a, b), n + m)),
                    Err(e) => Err(e),
                }
            },
            Err(e) => Err(e),
        }
    }

    proof fn lemma_decode_len(s: Seq<u8>) {
        A::lemma_decode_len(s);
        if let Ok((_, n)) = A::spec_decode(s) {
            B::lemma_decode_len(s.skip(n as int));
        }
    }

    proof fn lemma_decode_extend(s: Seq<u8>, t: Seq<u8>) {
        A::lemma_decode_extend(s, t);
        A::lemma_decode_len(s);
        if let Ok((_, n)) = A::spec_decode(s) {
            B::lemma_decode_extend(s.skip(n as int), t);
            assert((s + t).skip(n as int) == s.skip(n as int) + t);
        }
    }
}

impl<A: Codec, B: Codec> Codec for (A, B) {
    proof fn lemma_roundtrip(v: (A, B), rest: Seq<u8>) {
        let ea = v.0.spec_encode();
        let eb = v.1.spec_encode();
        assert(ea + eb + rest == ea + (eb + rest));
        A::lemma_roundtrip(v.0, eb + rest);
        lemma_take_prefix(ea, eb + rest);
        B::lemma_roundtrip(v.1, rest);
    }
}

impl<A: Decode, B: Decode, C: Decode> Decode for (A, B, C) {
    open spec fn spec_decode(s: Seq<u8>) -> Result<((A, B, C), nat), ()> {
        match A::spec_decode(s) {
            Ok((a, n)) => match <(B, C) as Decode>::spec_decode(s.skip(n as int)) {
                Ok(((b, c), m)) => Ok(((a, b, c), n + m)),
                Err(e) => Err(e),
            },
            Err(e) => Err(e),
        }
    }

    fn decode(input: &[u8]) -> (r: Result<((A, B, C), usize), ()>) {
        match A::decode(input) {
            Ok((a, n)) => {
                let rest = tail(input, n);
                let rb = <(B, C) as Decode>::decode(rest);
                match rb {
                    Ok(((b, c), m)) => Ok(((a, b, c), n + m)),
                    Err(e) => Err(e),
                }
            },
            Err(e) => Err(e),
        }
    }

    proof fn lemma_decode_len(s: Seq<u8>) {
        A::lemma_decode_len(s);
        if let Ok((_, n)) = A::spec_decode(s) {
            <(B, C) as Decode>::lemma_decode_len(s.skip(n as int));
        }
    }

    proof fn lemma_decode_extend(s: Seq<u8>, t: Seq<u8>) {
        A::lemma_decode_extend(s, t);
        A::lemma_decode_len(s);
        if let Ok((_, n)) = A::spec_decode(s) {
            <(B, C) as Decode>::lemma_decode_extend(s.skip(n as int), t);
            assert((s + t).skip(n as int) == s.skip(n as int) + t);
        }
    }
}

impl<A: Codec, B: Codec, C: Codec> Codec for (A, B, C) {
    proof fn lemma_roundtrip(v: (A, B, C), rest: Seq<u8>) {
        let inner = (v.1, v.2);
        let ea = v.0.spec_encode();
        let eb = inner.spec_encode();
        assert(v.spec_encode() == ea + eb);
        assert(ea + eb + rest == ea + (eb + rest));
        A::lemma_roundtrip(v.0, eb + rest);
        lemma_take_prefix(ea, eb + rest);
        <(B, C) as Codec>::lemma_roundtrip(inner, rest);
    }
}

impl<A: Decode, B: Decode, C: Decode, D: Decode> Decode for (A, B, C, D) {
    open spec fn spec_decode(s: Seq<u8>) -> Result<((A, B, C, D), nat), ()> {
        match A::spec_decode(s) {
            Ok((a, n)) => match <(B, C, D) as Decode>::spec_decode(s.skip(n as int)) {
                Ok(((b, c, d), m)) => Ok(((a, b, c, d), n + m)),
                Err(e) => Err(e),
            },
            Err(e) => Err(e),
        }
    }

    fn decode(input: &[u8]) -> (r: Result<((A, B, C, D), usize), ()>) {
        match A::decode(input) {
            Ok((a, n)) => {
                let rest = tail(input, n);
                let rb = <(B, C, D) as Decode>::decode(rest);
                match rb {
                    Ok(((b, c, d), m)) => Ok(((a, b, c, d), n + m)),
                    Err(e) => Err(e),
                }
            },
            Err(e) => Err(e),
        }
    }

    proof fn lemma_decode_len(s: Seq<u8>) {
        A::lemma_decode_len(s);
        if let Ok((_, n)) = A::spec_decode(s) {
            <(B, C, D) as Decode>::lemma_decode_len(s.skip(n as int));
        }
    }

    proof fn lemma_decode_extend(s: Seq<u8>, t: Seq<u8>) {
        A::lemma_decode_extend(s, t);
        A::lemma_decode_len(s);
        if let Ok((_, n)) = A::spec_decode(s) {
            <(B, C, D) as Decode>::lemma_decode_extend(s.skip(n as int), t);
            assert((s + t).skip(n as int) == s.skip(n as int) + t);
        }
    }
}

impl<A: Codec, B: Codec, C: Codec, D: Codec> Codec for (A, B, C, D) {
    proof fn lemma_roundtrip(v: (A, B, C, D), rest: Seq<u8>) {
        let inner = (v.1, v.2, v.3);
        let ea = v.0.spec_encode();
        let eb = inner.spec_encode();
        assert(v.spec_encode() == ea + eb);
        assert(ea + eb + rest == ea + (eb + rest));
        A::lemma_roundtrip(v.0, eb + rest);
        lemma_take_prefix(ea, eb + rest);
        <(B, C, D) as Codec>::lemma_roundtrip(inner, rest);
    }
}

} // verus!
