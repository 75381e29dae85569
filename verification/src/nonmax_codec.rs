//! Integers that are never their type's maximum: written as the plain
//! integer, and refused on reading when the bytes stand for the maximum.

use vstd::prelude::*;
use ::nonmax::{
    NonMaxI128, NonMaxI16, NonMaxI32, NonMaxI64, NonMaxI8, NonMaxU128, NonMaxU16, NonMaxU32,
    NonMaxU64, NonMaxU8, NonMaxIsize, NonMaxUsize,
};
use crate::impls::{lemma_usize_max_is_pow256, usize_bytes, usize_width};
use crate::traits::{
    be_bytes, be_value, lemma_be_bytes_len, lemma_be_value_bound, read_be, write_be, Codec, Decode,
    Encode,
};

verus! {

/// The `NonMaxU8` type of the `nonmax` crate.
#[verifier::external_type_specification]
#[verifier::external_body]
pub struct ExNonMaxU8(::nonmax::NonMaxU8);

/// The value that `NonMaxU8::get` gives.
pub uninterp spec fn nonmax_u8_value(x: NonMaxU8) -> u8;

/// The `NonMaxU8` that `NonMaxU8::new` builds from a value other than the maximum.
pub uninterp spec fn nonmax_u8_from(v: u8) -> NonMaxU8;

/// `NonMaxU8::new`: `None` for `u8::MAX`, otherwise the non-max integer that
/// holds `v`.
#[verifier::external_body]
fn nonmax_u8_new(v: u8) -> (r: Option<NonMaxU8>)
    ensures
        r is None <==> v == u8::MAX,
        r matches Some(x) ==> x == nonmax_u8_from(v) && nonmax_u8_value(x) == v,
{
    NonMaxU8::new(v)
}

/// `NonMaxU8::get`: the value held, which is never `u8::MAX`; building a
/// non-max integer from it gives the same one back.
#[verifier::external_body]
fn nonmax_u8_get(x: &NonMaxU8) -> (r: u8)
    ensures
        r == nonmax_u8_value(*x),
        r != u8::MAX,
        nonmax_u8_from(r) == *x,
{
    x.get()
}

/// A `NonMaxU8` takes the bytes of the `u8` it holds.
impl Encode for NonMaxU8 {
    open spec fn spec_encode(&self) -> Seq<u8> {
        be_bytes(nonmax_u8_value(*self) as nat, 1)
    }

    /// Besides appending its bytes: the value held is never `u8::MAX`, the
    /// non-max integer built from it is this one, and reading the bytes back,
    /// whatever follows, gives this one.
    fn encode(&self, out: &mut Vec<u8>)
        ensures
            nonmax_u8_value(*self) != u8::MAX,
            nonmax_u8_from(nonmax_u8_value(*self)) == *self,
            forall|rest: Seq<u8>|
                #[trigger] NonMaxU8::spec_decode(self.spec_encode() + rest) == Ok::<(NonMaxU8, nat), ()>(
                    (*self, 1),
                ),
    {
        let v = nonmax_u8_get(self);
        proof {
            assert forall|rest: Seq<u8>|
                #[trigger] NonMaxU8::spec_decode(self.spec_encode() + rest) == Ok::<(NonMaxU8, nat), ()>(
                    (*self, 1),
                ) by {
                <u8 as Codec>::lemma_roundtrip(v, rest);
                assert(self.spec_encode() == v.spec_encode());
            }
        }
        write_be(v as u128, 1, out);
    }
}

impl Decode for NonMaxU8 {
    open spec fn spec_decode(s: Seq<u8>) -> Result<(NonMaxU8, nat), ()> {
        if s.len() >= 1 && be_value(s.take(1)) as u8 != u8::MAX {
            Ok((nonmax_u8_from(be_value(s.take(1)) as u8), 1))
        } else {
            Err(())
        }
    }

    fn decode(input: &[u8]) -> (r: Result<(NonMaxU8, usize), ()>) {
        if input.len() < 1 {
            return Err(());
        }
        let raw = read_be(input, 1);
        match nonmax_u8_new(raw as u8) {
            Some(x) => Ok((x, 1)),
            None => Err(()),
        }
    }

    proof fn lemma_decode_len(s: Seq<u8>) {
    }

    proof fn lemma_decode_extend(s: Seq<u8>, t: Seq<u8>) {
        if s.len() >= 1 {
            assert((s + t).take(1) == s.take(1));
        }
    }
}

/// The `NonMaxI8` type of the `nonmax` crate.
#[verifier::external_type_specification]
#[verifier::external_body]
pub struct ExNonMaxI8(::nonmax::NonMaxI8);

/// The value that `NonMaxI8::get` gives.
pub uninterp spec fn nonmax_i8_value(x: NonMaxI8) -> i8;

/// The `NonMaxI8` that `NonMaxI8::new` builds from a value other than the maximum.
pub uninterp spec fn nonmax_i8_from(v: i8) -> NonMaxI8;

/// `NonMaxI8::new`: `None` for `i8::MAX`, otherwise the non-max integer that
/// holds `v`.
#[verifier::external_body]
fn nonmax_i8_new(v: i8) -> (r: Option<NonMaxI8>)
    ensures
        r is None <==> v == i8::MAX,
        r matches Some(x) ==> x == nonmax_i8_from(v) && nonmax_i8_value(x) == v,
{
    NonMaxI8::new(v)
}

/// `NonMaxI8::get`: the value held, which is never `i8::MAX`; building a
/// non-max integer from it gives the same one back.
#[verifier::external_body]
fn nonmax_i8_get(x: &NonMaxI8) -> (r: i8)
    ensures
        r == nonmax_i8_value(*x),
        r != i8::MAX,
        nonmax_i8_from(r) == *x,
{
    x.get()
}

/// A `NonMaxI8` takes the bytes of the `i8` it holds.
impl Encode for NonMaxI8 {
    open spec fn spec_encode(&self) -> Seq<u8> {
        be_bytes((nonmax_i8_value(*self) as u8) as nat, 1)
    }

    /// Besides appending its bytes: the value held is never `i8::MAX`, the
    /// non-max integer built from it is this one, and reading the bytes back,
    /// whatever follows, gives this one.
    fn encode(&self, out: &mut Vec<u8>)
        ensures
            nonmax_i8_value(*self) != i8::MAX,
            nonmax_i8_from(nonmax_i8_value(*self)) == *self,
            forall|rest: Seq<u8>|
                #[trigger] NonMaxI8::spec_decode(self.spec_encode() + rest) == Ok::<(NonMaxI8, nat), ()>(
                    (*self, 1),
                ),
    {
        let v = nonmax_i8_get(self);
        proof {
            assert forall|rest: Seq<u8>|
                #[trigger] NonMaxI8::spec_decode(self.spec_encode() + rest) == Ok::<(NonMaxI8, nat), ()>(
                    (*self, 1),
                ) by {
                <i8 as Codec>::lemma_roundtrip(v, rest);
                assert(self.spec_encode() == v.spec_encode());
            }
        }
        write_be((v as u8) as u128, 1, out);
    }
}

impl Decode for NonMaxI8 {
    open spec fn spec_decode(s: Seq<u8>) -> Result<(NonMaxI8, nat), ()> {
        if s.len() >= 1 && (be_value(s.take(1)) as u8) as i8 != i8::MAX {
            Ok((nonmax_i8_from((be_value(s.take(1)) as u8) as i8), 1))
        } else {
            Err(())
        }
    }

    fn decode(input: &[u8]) -> (r: Result<(NonMaxI8, usize), ()>) {
        if input.len() < 1 {
            return Err(());
        }
        let raw = read_be(input, 1);
        match nonmax_i8_new((raw as u8) as i8) {
            Some(x) => Ok((x, 1)),
            None => Err(()),
        }
    }

    proof fn lemma_decode_len(s: Seq<u8>) {
    }

    proof fn lemma_decode_extend(s: Seq<u8>, t: Seq<u8>) {
        if s.len() >= 1 {
            assert((s + t).take(1) == s.take(1));
        }
    }
}

/// The `NonMaxU16` type of the `nonmax` crate.
#[verifier::external_type_specification]
#[verifier::external_body]
pub struct ExNonMaxU16(::nonmax::NonMaxU16);

/// The value that `NonMaxU16::get` gives.
pub uninterp spec fn nonmax_u16_value(x: NonMaxU16) -> u16;

/// The `NonMaxU16` that `NonMaxU16::new` builds from a value other than the maximum.
pub uninterp spec fn nonmax_u16_from(v: u16) -> NonMaxU16;

/// `NonMaxU16::new`: `None` for `u16::MAX`, otherwise the non-max integer that
/// holds `v`.
#[verifier::external_body]
fn nonmax_u16_new(v: u16) -> (r: Option<NonMaxU16>)
    ensures
        r is None <==> v == u16::MAX,
        r matches Some(x) ==> x == nonmax_u16_from(v) && nonmax_u16_value(x) == v,
{
    NonMaxU16::new(v)
}

/// `NonMaxU16::get`: the value held, which is never `u16::MAX`; building a
/// non-max integer from it gives the same one back.
#[verifier::external_body]
fn nonmax_u16_get(x: &NonMaxU16) -> (r: u16)
    ensures
        r == nonmax_u16_value(*x),
        r != u16::MAX,
        nonmax_u16_from(r) == *x,
{
    x.get()
}

/// A `NonMaxU16` takes the bytes of the `u16` it holds.
impl Encode for NonMaxU16 {
    open spec fn spec_encode(&self) -> Seq<u8> {
        be_bytes(nonmax_u16_value(*self) as nat, 2)
    }

    /// Besides appending its bytes: the value held is never `u16::MAX`, the
    /// non-max integer built from it is this one, and reading the bytes back,
    /// whatever follows, gives this one.
    fn encode(&self, out: &mut Vec<u8>)
        ensures
            nonmax_u16_value(*self) != u16::MAX,
            nonmax_u16_from(nonmax_u16_value(*self)) == *self,
            forall|rest: Seq<u8>|
                #[trigger] NonMaxU16::spec_decode(self.spec_encode() + rest) == Ok::<(NonMaxU16, nat), ()>(
                    (*self, 2),
                ),
    {
        let v = nonmax_u16_get(self);
        proof {
            assert forall|rest: Seq<u8>|
                #[trigger] NonMaxU16::spec_decode(self.spec_encode() + rest) == Ok::<(NonMaxU16, nat), ()>(
                    (*self, 2),
                ) by {
                <u16 as Codec>::lemma_roundtrip(v, rest);
                assert(self.spec_encode() == v.spec_encode());
            }
        }
        write_be(v as u128, 2, out);
    }
}

impl Decode for NonMaxU16 {
    open spec fn spec_decode(s: Seq<u8>) -> Result<(NonMaxU16, nat), ()> {
        if s.len() >= 2 && be_value(s.take(2)) as u16 != u16::MAX {
            Ok((nonmax_u16_from(be_value(s.take(2)) as u16), 2))
        } else {
            Err(())
        }
    }

    fn decode(input: &[u8]) -> (r: Result<(NonMaxU16, usize), ()>) {
        if input.len() < 2 {
            return Err(());
        }
        let raw = read_be(input, 2);
        match nonmax_u16_new(raw as u16) {
            Some(x) => Ok((x, 2)),
            None => Err(()),
        }
    }

    proof fn lemma_decode_len(s: Seq<u8>) {
    }

    proof fn lemma_decode_extend(s: Seq<u8>, t: Seq<u8>) {
        if s.len() >= 2 {
            assert((s + t).take(2) == s.take(2));
        }
    }
}

/// The `NonMaxI16` type of the `nonmax` crate.
#[verifier::external_type_specification]
#[verifier::external_body]
pub struct ExNonMaxI16(::nonmax::NonMaxI16);

/// The value that `NonMaxI16::get` gives.
pub uninterp spec fn nonmax_i16_value(x: NonMaxI16) -> i16;

/// The `NonMaxI16` that `NonMaxI16::new` builds from a value other than the maximum.
pub uninterp spec fn nonmax_i16_from(v: i16) -> NonMaxI16;

/// `NonMaxI16::new`: `None` for `i16::MAX`, otherwise the non-max integer that
/// holds `v`.
#[verifier::external_body]
fn nonmax_i16_new(v: i16) -> (r: Option<NonMaxI16>)
    ensures
        r is None <==> v == i16::MAX,
        r matches Some(x) ==> x == nonmax_i16_from(v) && nonmax_i16_value(x) == v,
{
    NonMaxI16::new(v)
}

/// `NonMaxI16::get`: the value held, which is never `i16::MAX`; building a
/// non-max integer from it gives the same one back.
#[verifier::external_body]
fn nonmax_i16_get(x: &NonMaxI16) -> (r: i16)
    ensures
        r == nonmax_i16_value(*x),
        r != i16::MAX,
        nonmax_i16_from(r) == *x,
{
    x.get()
}

/// A `NonMaxI16` takes the bytes of the `i16` it holds.
impl Encode for NonMaxI16 {
    open spec fn spec_encode(&self) -> Seq<u8> {
        be_bytes((nonmax_i16_value(*self) as u16) as nat, 2)
    }

    /// Besides appending its bytes: the value held is never `i16::MAX`, the
    /// non-max integer built from it is this one, and reading the bytes back,
    /// whatever follows, gives this one.
    fn encode(&self, out: &mut Vec<u8>)
        ensures
            nonmax_i16_value(*self) != i16::MAX,
            nonmax_i16_from(nonmax_i16_value(*self)) == *self,
            forall|rest: Seq<u8>|
                #[trigger] NonMaxI16::spec_decode(self.spec_encode() + rest) == Ok::<(NonMaxI16, nat), ()>(
                    (*self, 2),
                ),
    {
        let v = nonmax_i16_get(self);
        proof {
            assert forall|rest: Seq<u8>|
                #[trigger] NonMaxI16::spec_decode(self.spec_encode() + rest) == Ok::<(NonMaxI16, nat), ()>(
                    (*self, 2),
                ) by {
                <i16 as Codec>::lemma_roundtrip(v, rest);
                assert(self.spec_encode() == v.spec_encode());
            }
        }
        write_be((v as u16) as u128, 2, out);
    }
}

impl Decode for NonMaxI16 {
    open spec fn spec_decode(s: Seq<u8>) -> Result<(NonMaxI16, nat), ()> {
        if s.len() >= 2 && (be_value(s.take(2)) as u16) as i16 != i16::MAX {
            Ok((nonmax_i16_from((be_value(s.take(2)) as u16) as i16), 2))
        } else {
            Err(())
        }
    }

    fn decode(input: &[u8]) -> (r: Result<(NonMaxI16, usize), ()>) {
        if input.len() < 2 {
            return Err(());
        }
        let raw = read_be(input, 2);
        match nonmax_i16_new((raw as u16) as i16) {
            Some(x) => Ok((x, 2)),
            None => Err(()),
        }
    }

    proof fn lemma_decode_len(s: Seq<u8>) {
    }

    proof fn lemma_decode_extend(s: Seq<u8>, t: Seq<u8>) {
        if s.len() >= 2 {
            assert((s + t).take(2) == s.take(2));
        }
    }
}

/// The `NonMaxU32` type of the `nonmax` crate.
#[verifier::external_type_specification]
#[verifier::external_body]
pub struct ExNonMaxU32(::nonmax::NonMaxU32);

/// The value that `NonMaxU32::get` gives.
pub uninterp spec fn nonmax_u32_value(x: NonMaxU32) -> u32;

/// The `NonMaxU32` that `NonMaxU32::new` builds from a value other than the maximum.
pub uninterp spec fn nonmax_u32_from(v: u32) -> NonMaxU32;

/// `NonMaxU32::new`: `None` for `u32::MAX`, otherwise the non-max integer that
/// holds `v`.
#[verifier::external_body]
fn nonmax_u32_new(v: u32) -> (r: Option<NonMaxU32>)
    ensures
        r is None <==> v == u32::MAX,
        r matches Some(x) ==> x == nonmax_u32_from(v) && nonmax_u32_value(x) == v,
{
    NonMaxU32::new(v)
}

/// `NonMaxU32::get`: the value held, which is never `u32::MAX`; building a
/// non-max integer from it gives the same one back.
#[verifier::external_body]
fn nonmax_u32_get(x: &NonMaxU32) -> (r: u32)
    ensures
        r == nonmax_u32_value(*x),
        r != u32::MAX,
        nonmax_u32_from(r) == *x,
{
    x.get()
}

/// A `NonMaxU32` takes the bytes of the `u32` it holds.
impl Encode for NonMaxU32 {
    open spec fn spec_encode(&self) -> Seq<u8> {
        be_bytes(nonmax_u32_value(*self) as nat, 4)
    }

    /// Besides appending its bytes: the value held is never `u32::MAX`, the
    /// non-max integer built from it is this one, and reading the bytes back,
    /// whatever follows, gives this one.
    fn encode(&self, out: &mut Vec<u8>)
        ensures
            nonmax_u32_value(*self) != u32::MAX,
            nonmax_u32_from(nonmax_u32_value(*self)) == *self,
            forall|rest: Seq<u8>|
                #[trigger] NonMaxU32::spec_decode(self.spec_encode() + rest) == Ok::<(NonMaxU32, nat), ()>(
                    (*self, 4),
                ),
    {
        let v = nonmax_u32_get(self);
        proof {
            assert forall|rest: Seq<u8>|
                #[trigger] NonMaxU32::spec_decode(self.spec_encode() + rest) == Ok::<(NonMaxU32, nat), ()>(
                    (*self, 4),
                ) by {
                <u32 as Codec>::lemma_roundtrip(v, rest);
                assert(self.spec_encode() == v.spec_encode());
            }
        }
        write_be(v as u128, 4, out);
    }
}

impl Decode for NonMaxU32 {
    open spec fn spec_decode(s: Seq<u8>) -> Result<(NonMaxU32, nat), ()> {
        if s.len() >= 4 && be_value(s.take(4)) as u32 != u32::MAX {
            Ok((nonmax_u32_from(be_value(s.take(4)) as u32), 4))
        } else {
            Err(())
        }
    }

    fn decode(input: &[u8]) -> (r: Result<(NonMaxU32, usize), ()>) {
        if input.len() < 4 {
            return Err(());
        }
        let raw = read_be(input, 4);
        match nonmax_u32_new(raw as u32) {
            Some(x) => Ok((x, 4)),
            None => Err(()),
        }
    }

    proof fn lemma_decode_len(s: Seq<u8>) {
    }

    proof fn lemma_decode_extend(s: Seq<u8>, t: Seq<u8>) {
        if s.len() >= 4 {
            assert((s + t).take(4) == s.take(4));
        }
    }
}

/// The `NonMaxI32` type of the `nonmax` crate.
#[verifier::external_type_specification]
#[verifier::external_body]
pub struct ExNonMaxI32(::nonmax::NonMaxI32);

/// The value that `NonMaxI32::get` gives.
pub uninterp spec fn nonmax_i32_value(x: NonMaxI32) -> i32;

/// The `NonMaxI32` that `NonMaxI32::new` builds from a value other than the maximum.
pub uninterp spec fn nonmax_i32_from(v: i32) -> NonMaxI32;

/// `NonMaxI32::new`: `None` for `i32::MAX`, otherwise the non-max integer that
/// holds `v`.
#[verifier::external_body]
fn nonmax_i32_new(v: i32) -> (r: Option<NonMaxI32>)
    ensures
        r is None <==> v == i32::MAX,
        r matches Some(x) ==> x == nonmax_i32_from(v) && nonmax_i32_value(x) == v,
{
    NonMaxI32::new(v)
}

/// `NonMaxI32::get`: the value held, which is never `i32::MAX`; building a
/// non-max integer from it gives the same one back.
#[verifier::external_body]
fn nonmax_i32_get(x: &NonMaxI32) -> (r: i32)
    ensures
        r == nonmax_i32_value(*x),
        r != i32::MAX,
        nonmax_i32_from(r) == *x,
{
    x.get()
}

/// A `NonMaxI32` takes the bytes of the `i32` it holds.
impl Encode for NonMaxI32 {
    open spec fn spec_encode(&self) -> Seq<u8> {
        be_bytes((nonmax_i32_value(*self) as u32) as nat, 4)
    }

    /// Besides appending its bytes: the value held is never `i32::MAX`, the
    /// non-max integer built from it is this one, and reading the bytes back,
    /// whatever follows, gives this one.
    fn encode(&self, out: &mut Vec<u8>)
        ensures
            nonmax_i32_value(*self) != i32::MAX,
            nonmax_i32_from(nonmax_i32_value(*self)) == *self,
            forall|rest: Seq<u8>|
                #[trigger] NonMaxI32::spec_decode(self.spec_encode() + rest) == Ok::<(NonMaxI32, nat), ()>(
                    (*self, 4),
                ),
    {
        let v = nonmax_i32_get(self);
        proof {
            assert forall|rest: Seq<u8>|
                #[trigger] NonMaxI32::spec_decode(self.spec_encode() + rest) == Ok::<(NonMaxI32, nat), ()>(
                    (*self, 4),
                ) by {
                <i32 as Codec>::lemma_roundtrip(v, rest);
                assert(self.spec_encode() == v.spec_encode());
            }
        }
        write_be((v as u32) as u128, 4, out);
    }
}

impl Decode for NonMaxI32 {
    open spec fn spec_decode(s: Seq<u8>) -> Result<(NonMaxI32, nat), ()> {
        if s.len() >= 4 && (be_value(s.take(4)) as u32) as i32 != i32::MAX {
            Ok((nonmax_i32_from((be_value(s.take(4)) as u32) as i32), 4))
        } else {
            Err(())
        }
    }

    fn decode(input: &[u8]) -> (r: Result<(NonMaxI32, usize), ()>) {
        if input.len() < 4 {
            return Err(());
        }
        let raw = read_be(input, 4);
        match nonmax_i32_new((raw as u32) as i32) {
            Some(x) => Ok((x, 4)),
            None => Err(()),
        }
    }

    proof fn lemma_decode_len(s: Seq<u8>) {
    }

    proof fn lemma_decode_extend(s: Seq<u8>, t: Seq<u8>) {
        if s.len() >= 4 {
            assert((s + t).take(4) == s.take(4));
        }
    }
}

/// The `NonMaxU64` type of the `nonmax` crate.
#[verifier::external_type_specification]
#[verifier::external_body]
pub struct ExNonMaxU64(::nonmax::NonMaxU64);

/// The value that `NonMaxU64::get` gives.
pub uninterp spec fn nonmax_u64_value(x: NonMaxU64) -> u64;

/// The `NonMaxU64` that `NonMaxU64::new` builds from a value other than the maximum.
pub uninterp spec fn nonmax_u64_from(v: u64) -> NonMaxU64;

/// `NonMaxU64::new`: `None` for `u64::MAX`, otherwise the non-max integer that
/// holds `v`.
#[verifier::external_body]
fn nonmax_u64_new(v: u64) -> (r: Option<NonMaxU64>)
    ensures
        r is None <==> v == u64::MAX,
        r matches Some(x) ==> x == nonmax_u64_from(v) && nonmax_u64_value(x) == v,
{
    NonMaxU64::new(v)
}

/// `NonMaxU64::get`: the value held, which is never `u64::MAX`; building a
/// non-max integer from it gives the same one back.
#[verifier::external_body]
fn nonmax_u64_get(x: &NonMaxU64) -> (r: u64)
    ensures
        r == nonmax_u64_value(*x),
        r != u64::MAX,
        nonmax_u64_from(r) == *x,
{
    x.get()
}

/// A `NonMaxU64` takes the bytes of the `u64` it holds.
impl Encode for NonMaxU64 {
    open spec fn spec_encode(&self) -> Seq<u8> {
        be_bytes(nonmax_u64_value(*self) as nat, 8)
    }

    /// Besides appending its bytes: the value held is never `u64::MAX`, the
    /// non-max integer built from it is this one, and reading the bytes back,
    /// whatever follows, gives this one.
    fn encode(&self, out: &mut Vec<u8>)
        ensures
            nonmax_u64_value(*self) != u64::MAX,
            nonmax_u64_from(nonmax_u64_value(*self)) == *self,
            forall|rest: Seq<u8>|
                #[trigger] NonMaxU64::spec_decode(self.spec_encode() + rest) == Ok::<(NonMaxU64, nat), ()>(
                    (*self, 8),
                ),
    {
        let v = nonmax_u64_get(self);
        proof {
            assert forall|rest: Seq<u8>|
                #[trigger] NonMaxU64::spec_decode(self.spec_encode() + rest) == Ok::<(NonMaxU64, nat), ()>(
                    (*self, 8),
                ) by {
                <u64 as Codec>::lemma_roundtrip(v, rest);
                assert(self.spec_encode() == v.spec_encode());
            }
        }
        write_be(v as u128, 8, out);
    }
}

impl Decode for NonMaxU64 {
    open spec fn spec_decode(s: Seq<u8>) -> Result<(NonMaxU64, nat), ()> {
        if s.len() >= 8 && be_value(s.take(8)) as u64 != u64::MAX {
            Ok((nonmax_u64_from(be_value(s.take(8)) as u64), 8))
        } else {
            Err(())
        }
    }

    fn decode(input: &[u8]) -> (r: Result<(NonMaxU64, usize), ()>) {
        if input.len() < 8 {
            return Err(());
        }
        let raw = read_be(input, 8);
        match nonmax_u64_new(raw as u64) {
            Some(x) => Ok((x, 8)),
            None => Err(()),
        }
    }

    proof fn lemma_decode_len(s: Seq<u8>) {
    }

    proof fn lemma_decode_extend(s: Seq<u8>, t: Seq<u8>) {
        if s.len() >= 8 {
            assert((s + t).take(8) == s.take(8));
        }
    }
}

/// The `NonMaxI64` type of the `nonmax` crate.
#[verifier::external_type_specification]
#[verifier::external_body]
pub struct ExNonMaxI64(::nonmax::NonMaxI64);

/// The value that `NonMaxI64::get` gives.
pub uninterp spec fn nonmax_i64_value(x: NonMaxI64) -> i64;

/// The `NonMaxI64` that `NonMaxI64::new` builds from a value other than the maximum.
pub uninterp spec fn nonmax_i64_from(v: i64) -> NonMaxI64;

/// `NonMaxI64::new`: `None` for `i64::MAX`, otherwise the non-max integer that
/// holds `v`.
#[verifier::external_body]
fn nonmax_i64_new(v: i64) -> (r: Option<NonMaxI64>)
    ensures
        r is None <==> v == i64::MAX,
        r matches Some(x) ==> x == nonmax_i64_from(v) && nonmax_i64_value(x) == v,
{
    NonMaxI64::new(v)
}

/// `NonMaxI64::get`: the value held, which is never `i64::MAX`; building a
/// non-max integer from it gives the same one back.
#[verifier::external_body]
fn nonmax_i64_get(x: &NonMaxI64) -> (r: i64)
    ensures
        r == nonmax_i64_value(*x),
        r != i64::MAX,
        nonmax_i64_from(r) == *x,
{
    x.get()
}

/// A `NonMaxI64` takes the bytes of the `i64` it holds.
impl Encode for NonMaxI64 {
    open spec fn spec_encode(&self) -> Seq<u8> {
        be_bytes((nonmax_i64_value(*self) as u64) as nat, 8)
    }

    /// Besides appending its bytes: the value held is never `i64::MAX`, the
    /// non-max integer built from it is this one, and reading the bytes back,
    /// whatever follows, gives this one.
    fn encode(&self, out: &mut Vec<u8>)
        ensures
            nonmax_i64_value(*self) != i64::MAX,
            nonmax_i64_from(nonmax_i64_value(*self)) == *self,
            forall|rest: Seq<u8>|
                #[trigger] NonMaxI64::spec_decode(self.spec_encode() + rest) == Ok::<(NonMaxI64, nat), ()>(
                    (*self, 8),
                ),
    {
        let v = nonmax_i64_get(self);
        proof {
            assert forall|rest: Seq<u8>|
                #[trigger] NonMaxI64::spec_decode(self.spec_encode() + rest) == Ok::<(NonMaxI64, nat), ()>(
                    (*self, 8),
                ) by {
                <i64 as Codec>::lemma_roundtrip(v, rest);
                assert(self.spec_encode() == v.spec_encode());
            }
        }
        write_be((v as u64) as u128, 8, out);
    }
}

impl Decode for NonMaxI64 {
    open spec fn spec_decode(s: Seq<u8>) -> Result<(NonMaxI64, nat), ()> {
        if s.len() >= 8 && (be_value(s.take(8)) as u64) as i64 != i64::MAX {
            Ok((nonmax_i64_from((be_value(s.take(8)) as u64) as i64), 8))
        } else {
            Err(())
        }
    }

    fn decode(input: &[u8]) -> (r: Result<(NonMaxI64, usize), ()>) {
        if input.len() < 8 {
            return Err(());
        }
        let raw = read_be(input, 8);
        match nonmax_i64_new((raw as u64) as i64) {
            Some(x) => Ok((x, 8)),
            None => Err(()),
        }
    }

    proof fn lemma_decode_len(s: Seq<u8>) {
    }

    proof fn lemma_decode_extend(s: Seq<u8>, t: Seq<u8>) {
        if s.len() >= 8 {
            assert((s + t).take(8) == s.take(8));
        }
    }
}

/// The `NonMaxU128` type of the `nonmax` crate.
#[verifier::external_type_specification]
#[verifier::external_body]
pub struct ExNonMaxU128(::nonmax::NonMaxU128);

/// The value that `NonMaxU128::get` gives.
pub uninterp spec fn nonmax_u128_value(x: NonMaxU128) -> u128;

/// The `NonMaxU128` that `NonMaxU128::new` builds from a value other than the maximum.
pub uninterp spec fn nonmax_u128_from(v: u128) -> NonMaxU128;

/// `NonMaxU128::new`: `None` for `u128::MAX`, otherwise the non-max integer that
/// holds `v`.
#[verifier::external_body]
fn nonmax_u128_new(v: u128) -> (r: Option<NonMaxU128>)
    ensures
        r is None <==> v == u128::MAX,
        r matches Some(x) ==> x == nonmax_u128_from(v) && nonmax_u128_value(x) == v,
{
    NonMaxU128::new(v)
}

/// `NonMaxU128::get`: the value held, which is never `u128::MAX`; building a
/// non-max integer from it gives the same one back.
#[verifier::external_body]
fn nonmax_u128_get(x: &NonMaxU128) -> (r: u128)
    ensures
        r == nonmax_u128_value(*x),
        r != u128::MAX,
        nonmax_u128_from(r) == *x,
{
    x.get()
}

/// A `NonMaxU128` takes the bytes of the `u128` it holds.
impl Encode for NonMaxU128 {
    open spec fn spec_encode(&self) -> Seq<u8> {
        be_bytes(nonmax_u128_value(*self) as nat, 16)
    }

    /// Besides appending its bytes: the value held is never `u128::MAX`, the
    /// non-max integer built from it is this one, and reading the bytes back,
    /// whatever follows, gives this one.
    fn encode(&self, out: &mut Vec<u8>)
        ensures
            nonmax_u128_value(*self) != u128::MAX,
            nonmax_u128_from(nonmax_u128_value(*self)) == *self,
            forall|rest: Seq<u8>|
                #[trigger] NonMaxU128::spec_decode(self.spec_encode() + rest) == Ok::<(NonMaxU128, nat), ()>(
                    (*self, 16),
                ),
    {
        let v = nonmax_u128_get(self);
        proof {
            assert forall|rest: Seq<u8>|
                #[trigger] NonMaxU128::spec_decode(self.spec_encode() + rest) == Ok::<(NonMaxU128, nat), ()>(
                    (*self, 16),
                ) by {
                <u128 as Codec>::lemma_roundtrip(v, rest);
                assert(self.spec_encode() == v.spec_encode());
            }
        }
        write_be(v as u128, 16, out);
    }
}

impl Decode for NonMaxU128 {
    open spec fn spec_decode(s: Seq<u8>) -> Result<(NonMaxU128, nat), ()> {
        if s.len() >= 16 && be_value(s.take(16)) as u128 != u128::MAX {
            Ok((nonmax_u128_from(be_value(s.take(16)) as u128), 16))
        } else {
            Err(())
        }
    }

    fn decode(input: &[u8]) -> (r: Result<(NonMaxU128, usize), ()>) {
        if input.len() < 16 {
            return Err(());
        }
        let raw = read_be(input, 16);
        match nonmax_u128_new(raw as u128) {
            Some(x) => Ok((x, 16)),
            None => Err(()),
        }
    }

    proof fn lemma_decode_len(s: Seq<u8>) {
    }

    proof fn lemma_decode_extend(s: Seq<u8>, t: Seq<u8>) {
        if s.len() >= 16 {
            assert((s + t).take(16) == s.take(16));
        }
    }
}

/// The `NonMaxI128` type of the `nonmax` crate.
#[verifier::external_type_specification]
#[verifier::external_body]
pub struct ExNonMaxI128(::nonmax::NonMaxI128);

/// The value that `NonMaxI128::get` gives.
pub uninterp spec fn nonmax_i128_value(x: NonMaxI128) -> i128;

/// The `NonMaxI128` that `NonMaxI128::new` builds from a value other than the maximum.
pub uninterp spec fn nonmax_i128_from(v: i128) -> NonMaxI128;

/// `NonMaxI128::new`: `None` for `i128::MAX`, otherwise the non-max integer that
/// holds `v`.
#[verifier::external_body]
fn nonmax_i128_new(v: i128) -> (r: Option<NonMaxI128>)
    ensures
        r is None <==> v == i128::MAX,
        r matches Some(x) ==> x == nonmax_i128_from(v) && nonmax_i128_value(x) == v,
{
    NonMaxI128::new(v)
}

/// `NonMaxI128::get`: the value held, which is never `i128::MAX`; building a
/// non-max integer from it gives the same one back.
#[verifier::external_body]
fn nonmax_i128_get(x: &NonMaxI128) -> (r: i128)
    ensures
        r == nonmax_i128_value(*x),
        r != i128::MAX,
        nonmax_i128_from(r) == *x,
{
    x.get()
}

/// A `NonMaxI128` takes the bytes of the `i128` it holds.
impl Encode for NonMaxI128 {
    open spec fn spec_encode(&self) -> Seq<u8> {
        be_bytes((nonmax_i128_value(*self) as u128) as nat, 16)
    }

    /// Besides appending its bytes: the value held is never `i128::MAX`, the
    /// non-max integer built from it is this one, and reading the bytes back,
    /// whatever follows, gives this one.
    fn encode(&self, out: &mut Vec<u8>)
        ensures
            nonmax_i128_value(*self) != i128::MAX,
            nonmax_i128_from(nonmax_i128_value(*self)) == *self,
            forall|rest: Seq<u8>|
                #[trigger] NonMaxI128::spec_decode(self.spec_encode() + rest) == Ok::<(NonMaxI128, nat), ()>(
                    (*self, 16),
                ),
    {
        let v = nonmax_i128_get(self);
        proof {
            assert forall|rest: Seq<u8>|
                #[trigger] NonMaxI128::spec_decode(self.spec_encode() + rest) == Ok::<(NonMaxI128, nat), ()>(
                    (*self, 16),
                ) by {
                <i128 as Codec>::lemma_roundtrip(v, rest);
                assert(self.spec_encode() == v.spec_encode());
            }
        }
        write_be((v as u128) as u128, 16, out);
    }
}

impl Decode for NonMaxI128 {
    open spec fn spec_decode(s: Seq<u8>) -> Result<(NonMaxI128, nat), ()> {
        if s.len() >= 16 && (be_value(s.take(16)) as u128) as i128 != i128::MAX {
            Ok((nonmax_i128_from((be_value(s.take(16)) as u128) as i128), 16))
        } else {
            Err(())
        }
    }

    fn decode(input: &[u8]) -> (r: Result<(NonMaxI128, usize), ()>) {
        if input.len() < 16 {
            return Err(());
        }
        let raw = read_be(input, 16);
        match nonmax_i128_new((raw as u128) as i128) {
            Some(x) => Ok((x, 16)),
            None => Err(()),
        }
    }

    proof fn lemma_decode_len(s: Seq<u8>) {
    }

    proof fn lemma_decode_extend(s: Seq<u8>, t: Seq<u8>) {
        if s.len() >= 16 {
            assert((s + t).take(16) == s.take(16));
        }
    }
}

/// The `NonMaxUsize` type of the `nonmax` crate.
#[verifier::external_type_specification]
#[verifier::external_body]
pub struct ExNonMaxUsize(::nonmax::NonMaxUsize);

/// The value that `NonMaxUsize::get` gives.
pub uninterp spec fn nonmax_usize_value(x: NonMaxUsize) -> usize;

/// The `NonMaxUsize` that `NonMaxUsize::new` builds from a value other than the maximum.
pub uninterp spec fn nonmax_usize_from(v: usize) -> NonMaxUsize;

/// `NonMaxUsize::new`: `None` for `usize::MAX`, otherwise the non-max integer
/// that holds `v`.
#[verifier::external_body]
fn nonmax_usize_new(v: usize) -> (r: Option<NonMaxUsize>)
    ensures
        r is None <==> v == usize::MAX,
        r matches Some(x) ==> x == nonmax_usize_from(v) && nonmax_usize_value(x) == v,
{
    NonMaxUsize::new(v)
}

/// `NonMaxUsize::get`: the value held, which is never `usize::MAX`; building
/// a non-max integer from it gives the same one back.
#[verifier::external_body]
fn nonmax_usize_get(x: &NonMaxUsize) -> (r: usize)
    ensures
        r == nonmax_usize_value(*x),
        r != usize::MAX,
        nonmax_usize_from(r) == *x,
{
    x.get()
}

/// A `NonMaxUsize` takes the bytes of the `usize` it holds, as a `usize`
/// does: its width on this machine.
impl Encode for NonMaxUsize {
    open spec fn spec_encode(&self) -> Seq<u8> {
        be_bytes(nonmax_usize_value(*self) as nat, usize_width())
    }

    /// Besides appending its bytes: the value held is never `usize::MAX`, the
    /// non-max integer built from it is this one, and reading the bytes back,
    /// whatever follows, gives this one.
    fn encode(&self, out: &mut Vec<u8>)
        ensures
            nonmax_usize_value(*self) != usize::MAX,
            nonmax_usize_from(nonmax_usize_value(*self)) == *self,
            forall|rest: Seq<u8>|
                #[trigger] NonMaxUsize::spec_decode(self.spec_encode() + rest) == Ok::<(NonMaxUsize, nat), ()>(
                    (*self, usize_width()),
                ),
    {
        let v = nonmax_usize_get(self);
        proof {
            assert forall|rest: Seq<u8>|
                #[trigger] NonMaxUsize::spec_decode(self.spec_encode() + rest) == Ok::<(NonMaxUsize, nat), ()>(
                    (*self, usize_width()),
                ) by {
                let w = usize_width();
                <usize as Codec>::lemma_roundtrip(v, rest);
                assert(self.spec_encode() == v.spec_encode());
                lemma_be_bytes_len(v as nat, w);
                lemma_be_value_bound((self.spec_encode() + rest).take(w as int));
                lemma_usize_max_is_pow256();
            }
        }
        write_be(v as u128, usize_bytes(), out);
    }
}

impl Decode for NonMaxUsize {
    open spec fn spec_decode(s: Seq<u8>) -> Result<(NonMaxUsize, nat), ()> {
        let w = usize_width();
        if s.len() >= w && be_value(s.take(w as int)) < usize::MAX {
            Ok((nonmax_usize_from(be_value(s.take(w as int)) as usize), w))
        } else {
            Err(())
        }
    }

    fn decode(input: &[u8]) -> (r: Result<(NonMaxUsize, usize), ()>) {
        let w = usize_bytes();
        if input.len() < w {
            return Err(());
        }
        let raw = read_be(input, w);
        if raw >= usize::MAX as u128 {
            return Err(());
        }
        match nonmax_usize_new(raw as usize) {
            Some(x) => Ok((x, w)),
            None => Err(()),
        }
    }

    proof fn lemma_decode_len(s: Seq<u8>) {
    }

    proof fn lemma_decode_extend(s: Seq<u8>, t: Seq<u8>) {
        let w = usize_width();
        if s.len() >= w {
            assert((s + t).take(w as int) == s.take(w as int));
        }
    }
}

/// The `NonMaxIsize` type of the `nonmax` crate.
#[verifier::external_type_specification]
#[verifier::external_body]
pub struct ExNonMaxIsize(::nonmax::NonMaxIsize);

/// The value that `NonMaxIsize::get` gives.
pub uninterp spec fn nonmax_isize_value(x: NonMaxIsize) -> isize;

/// The `NonMaxIsize` that `NonMaxIsize::new` builds from a value other than the maximum.
pub uninterp spec fn nonmax_isize_from(v: isize) -> NonMaxIsize;

/// `NonMaxIsize::new`: `None` for `isize::MAX`, otherwise the non-max integer
/// that holds `v`.
#[verifier::external_body]
fn nonmax_isize_new(v: isize) -> (r: Option<NonMaxIsize>)
    ensures
        r is None <==> v == isize::MAX,
        r matches Some(x) ==> x == nonmax_isize_from(v) && nonmax_isize_value(x) == v,
{
    NonMaxIsize::new(v)
}

/// `NonMaxIsize::get`: the value held, which is never `isize::MAX`; building
/// a non-max integer from it gives the same one back.
#[verifier::external_body]
fn nonmax_isize_get(x: &NonMaxIsize) -> (r: isize)
    ensures
        r == nonmax_isize_value(*x),
        r != isize::MAX,
        nonmax_isize_from(r) == *x,
{
    x.get()
}

/// A `NonMaxIsize` takes the bytes of the `isize` it holds, as an `isize`
/// does: its width on this machine.
impl Encode for NonMaxIsize {
    open spec fn spec_encode(&self) -> Seq<u8> {
        be_bytes((nonmax_isize_value(*self) as usize) as nat, usize_width())
    }

    /// Besides appending its bytes: the value held is never `isize::MAX`, the
    /// non-max integer built from it is this one, and reading the bytes back,
    /// whatever follows, gives this one.
    fn encode(&self, out: &mut Vec<u8>)
        ensures
            nonmax_isize_value(*self) != isize::MAX,
            nonmax_isize_from(nonmax_isize_value(*self)) == *self,
            forall|rest: Seq<u8>|
                #[trigger] NonMaxIsize::spec_decode(self.spec_encode() + rest) == Ok::<(NonMaxIsize, nat), ()>(
                    (*self, usize_width()),
                ),
    {
        let v = nonmax_isize_get(self);
        proof {
            assert forall|rest: Seq<u8>|
                #[trigger] NonMaxIsize::spec_decode(self.spec_encode() + rest) == Ok::<(NonMaxIsize, nat), ()>(
                    (*self, usize_width()),
                ) by {
                <isize as Codec>::lemma_roundtrip(v, rest);
                assert(self.spec_encode() == v.spec_encode());
            }
        }
        write_be((v as usize) as u128, usize_bytes(), out);
    }
}

impl Decode for NonMaxIsize {
    open spec fn spec_decode(s: Seq<u8>) -> Result<(NonMaxIsize, nat), ()> {
        let w = usize_width();
        let v = (be_value(s.take(w as int)) as usize) as isize;
        if s.len() >= w && v != isize::MAX {
            Ok((nonmax_isize_from(v), w))
        } else {
            Err(())
        }
    }

    fn decode(input: &[u8]) -> (r: Result<(NonMaxIsize, usize), ()>) {
        let w = usize_bytes();
        if input.len() < w {
            return Err(());
        }
        let raw = read_be(input, w);
        proof {
            lemma_be_value_bound(input@.take(w as int));
            lemma_usize_max_is_pow256();
        }
        let v = (raw as usize) as isize;
        match nonmax_isize_new(v) {
            Some(x) => Ok((x, w)),
            None => Err(()),
        }
    }

    proof fn lemma_decode_len(s: Seq<u8>) {
    }

    proof fn lemma_decode_extend(s: Seq<u8>, t: Seq<u8>) {
        let w = usize_width();
        if s.len() >= w {
            assert((s + t).take(w as int) == s.take(w as int));
        }
    }
}

/// A `NonMaxU8` is written exactly as the `u8` it holds, and reading bytes
/// gives the non-max integer of the `u8` they encode: an error where that
/// `u8` is `u8::MAX` or cannot be read.
pub proof fn lemma_nonmax_u8_as_inner(x: NonMaxU8, s: Seq<u8>)
    ensures
        x.spec_encode() == nonmax_u8_value(x).spec_encode(),
        <NonMaxU8 as Decode>::spec_decode(s) == match <u8 as Decode>::spec_decode(s) {
            Ok((v, n)) => if v != u8::MAX {
                Ok::<(NonMaxU8, nat), ()>((nonmax_u8_from(v), n))
            } else {
                Err(())
            },
            Err(e) => Err(e),
        },
{
}

/// A `NonMaxI8` is written exactly as the `i8` it holds, and reading bytes
/// gives the non-max integer of the `i8` they encode: an error where that
/// `i8` is `i8::MAX` or cannot be read.
pub proof fn lemma_nonmax_i8_as_inner(x: NonMaxI8, s: Seq<u8>)
    ensures
        x.spec_encode() == nonmax_i8_value(x).spec_encode(),
        <NonMaxI8 as Decode>::spec_decode(s) == match <i8 as Decode>::spec_decode(s) {
            Ok((v, n)) => if v != i8::MAX {
                Ok::<(NonMaxI8, nat), ()>((nonmax_i8_from(v), n))
            } else {
                Err(())
            },
            Err(e) => Err(e),
        },
{
}

/// A `NonMaxU16` is written exactly as the `u16` it holds, and reading bytes
/// gives the non-max integer of the `u16` they encode: an error where that
/// `u16` is `u16::MAX` or cannot be read.
pub proof fn lemma_nonmax_u16_as_inner(x: NonMaxU16, s: Seq<u8>)
    ensures
        x.spec_encode() == nonmax_u16_value(x).spec_encode(),
        <NonMaxU16 as Decode>::spec_decode(s) == match <u16 as Decode>::spec_decode(s) {
            Ok((v, n)) => if v != u16::MAX {
                Ok::<(NonMaxU16, nat), ()>((nonmax_u16_from(v), n))
            } else {
                Err(())
            },
            Err(e) => Err(e),
        },
{
}

/// A `NonMaxI16` is written exactly as the `i16` it holds, and reading bytes
/// gives the non-max integer of the `i16` they encode: an error where that
/// `i16` is `i16::MAX` or cannot be read.
pub proof fn lemma_nonmax_i16_as_inner(x: NonMaxI16, s: Seq<u8>)
    ensures
        x.spec_encode() == nonmax_i16_value(x).spec_encode(),
        <NonMaxI16 as Decode>::spec_decode(s) == match <i16 as Decode>::spec_decode(s) {
            Ok((v, n)) => if v != i16::MAX {
                Ok::<(NonMaxI16, nat), ()>((nonmax_i16_from(v), n))
            } else {
                Err(())
            },
            Err(e) => Err(e),
        },
{
}

/// A `NonMaxU32` is written exactly as the `u32` it holds, and reading bytes
/// gives the non-max integer of the `u32` they encode: an error where that
/// `u32` is `u32::MAX` or cannot be read.
pub proof fn lemma_nonmax_u32_as_inner(x: NonMaxU32, s: Seq<u8>)
    ensures
        x.spec_encode() == nonmax_u32_value(x).spec_encode(),
        <NonMaxU32 as Decode>::spec_decode(s) == match <u32 as Decode>::spec_decode(s) {
            Ok((v, n)) => if v != u32::MAX {
                Ok::<(NonMaxU32, nat), ()>((nonmax_u32_from(v), n))
            } else {
                Err(())
            },
            Err(e) => Err(e),
        },
{
}

/// A `NonMaxI32` is written exactly as the `i32` it holds, and reading bytes
/// gives the non-max integer of the `i32` they encode: an error where that
/// `i32` is `i32::MAX` or cannot be read.
pub proof fn lemma_nonmax_i32_as_inner(x: NonMaxI32, s: Seq<u8>)
    ensures
        x.spec_encode() == nonmax_i32_value(x).spec_encode(),
        <NonMaxI32 as Decode>::spec_decode(s) == match <i32 as Decode>::spec_decode(s) {
            Ok((v, n)) => if v != i32::MAX {
                Ok::<(NonMaxI32, nat), ()>((nonmax_i32_from(v), n))
            } else {
                Err(())
            },
            Err(e) => Err(e),
        },
{
}

/// A `NonMaxU64` is written exactly as the `u64` it holds, and reading bytes
/// gives the non-max integer of the `u64` they encode: an error where that
/// `u64` is `u64::MAX` or cannot be read.
pub proof fn lemma_nonmax_u64_as_inner(x: NonMaxU64, s: Seq<u8>)
    ensures
        x.spec_encode() == nonmax_u64_value(x).spec_encode(),
        <NonMaxU64 as Decode>::spec_decode(s) == match <u64 as Decode>::spec_decode(s) {
            Ok((v, n)) => if v != u64::MAX {
                Ok::<(NonMaxU64, nat), ()>((nonmax_u64_from(v), n))
            } else {
                Err(())
            },
            Err(e) => Err(e),
        },
{
}

/// A `NonMaxI64` is written exactly as the `i64` it holds, and reading bytes
/// gives the non-max integer of the `i64` they encode: an error where that
/// `i64` is `i64::MAX` or cannot be read.
pub proof fn lemma_nonmax_i64_as_inner(x: NonMaxI64, s: Seq<u8>)
    ensures
        x.spec_encode() == nonmax_i64_value(x).spec_encode(),
        <NonMaxI64 as Decode>::spec_decode(s) == match <i64 as Decode>::spec_decode(s) {
            Ok((v, n)) => if v != i64::MAX {
                Ok::<(NonMaxI64, nat), ()>((nonmax_i64_from(v), n))
            } else {
                Err(())
            },
            Err(e) => Err(e),
        },
{
}

/// A `NonMaxU128` is written exactly as the `u128` it holds, and reading bytes
/// gives the non-max integer of the `u128` they encode: an error where that
/// `u128` is `u128::MAX` or cannot be read.
pub proof fn lemma_nonmax_u128_as_inner(x: NonMaxU128, s: Seq<u8>)
    ensures
        x.spec_encode() == nonmax_u128_value(x).spec_encode(),
        <NonMaxU128 as Decode>::spec_decode(s) == match <u128 as Decode>::spec_decode(s) {
            Ok((v, n)) => if v != u128::MAX {
                Ok::<(NonMaxU128, nat), ()>((nonmax_u128_from(v), n))
            } else {
                Err(())
            },
            Err(e) => Err(e),
        },
{
}

/// A `NonMaxI128` is written exactly as the `i128` it holds, and reading bytes
/// gives the non-max integer of the `i128` they encode: an error where that
/// `i128` is `i128::MAX` or cannot be read.
pub proof fn lemma_nonmax_i128_as_inner(x: NonMaxI128, s: Seq<u8>)
    ensures
        x.spec_encode() == nonmax_i128_value(x).spec_encode(),
        <NonMaxI128 as Decode>::spec_decode(s) == match <i128 as Decode>::spec_decode(s) {
            Ok((v, n)) => if v != i128::MAX {
                Ok::<(NonMaxI128, nat), ()>((nonmax_i128_from(v), n))
            } else {
                Err(())
            },
            Err(e) => Err(e),
        },
{
}

/// A `NonMaxUsize` is written exactly as the `usize` it holds, and reading bytes
/// gives the non-max integer of the `usize` they encode: an error where that
/// `usize` is `usize::MAX` or cannot be read.
pub proof fn lemma_nonmax_usize_as_inner(x: NonMaxUsize, s: Seq<u8>)
    ensures
        x.spec_encode() == nonmax_usize_value(x).spec_encode(),
        <NonMaxUsize as Decode>::spec_decode(s) == match <usize as Decode>::spec_decode(s) {
            Ok((v, n)) => if v != usize::MAX {
                Ok::<(NonMaxUsize, nat), ()>((nonmax_usize_from(v), n))
            } else {
                Err(())
            },
            Err(e) => Err(e),
        },
{
    let w = usize_width();
    if s.len() >= w {
        lemma_be_value_bound(s.take(w as int));
        lemma_usize_max_is_pow256();
    }
}

/// A `NonMaxIsize` is written exactly as the `isize` it holds, and reading bytes
/// gives the non-max integer of the `isize` they encode: an error where that
/// `isize` is `isize::MAX` or cannot be read.
pub proof fn lemma_nonmax_isize_as_inner(x: NonMaxIsize, s: Seq<u8>)
    ensures
        x.spec_encode() == nonmax_isize_value(x).spec_encode(),
        <NonMaxIsize as Decode>::spec_decode(s) == match <isize as Decode>::spec_decode(s) {
            Ok((v, n)) => if v != isize::MAX {
                Ok::<(NonMaxIsize, nat), ()>((nonmax_isize_from(v), n))
            } else {
                Err(())
            },
            Err(e) => Err(e),
        },
{
}

} // verus!
