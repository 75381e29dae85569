//! Length-prefixed byte vectors and strings as fixed-capacity collections are
//! written: the length in LEB128, as the `integer-encoding` crate writes and
//! reads it, then the bytes.

use vstd::prelude::*;
use crate::var_int::{
    lemma_var_encoding_len, lemma_var_encoding_len_u32, lemma_var_len_of_encoding,
    lemma_var_value_of_encoding, pow128, var_encoding, var_len, var_value,
};

verus! {

/// What `integer-encoding` reads as a `u32` from the start of `s`: up to ten
/// LEB128 bytes, the tenth only when it is 0 or 1, and the value only when it
/// fits a `u32`; with the number of bytes read.
pub open spec fn spec_leb128_decode_u32(s: Seq<u8>) -> Option<(u32, nat)> {
    match var_len(s, 10) {
        Some(n) => if n == 10 && s[9] >= 2 {
            None
        } else if var_value(s.take(n as int)) <= u32::MAX {
            Some((var_value(s.take(n as int)) as u32, n))
        } else {
            None
        },
        None => None,
    }
}

/// The bytes that `integer-encoding`'s `VarInt::encode_var_vec` gives for a
/// `usize`: its LEB128 encoding, seven bits per byte, least significant first,
/// the high bit set on every byte but the last.
#[verifier::external_body]
fn leb128_encode_usize(v: usize) -> (r: Vec<u8>)
    ensures
        r@ == var_encoding(v as nat),
{
    integer_encoding::VarInt::encode_var_vec(v)
}

/// `integer-encoding`'s `VarInt::decode_var` for `u32`: the value and the
/// number of bytes read, as `spec_leb128_decode_u32` states it; `None` when no
/// complete value that fits a `u32` starts the input.
#[verifier::external_body]
fn leb128_decode_u32(bytes: &[u8]) -> (r: Option<(u32, usize)>)
    ensures
        r matches Some((v, n)) ==> spec_leb128_decode_u32(bytes@) == Some((v, n as nat)),
        r is None ==> spec_leb128_decode_u32(bytes@) is None,
{
    <u32 as integer_encoding::VarInt>::decode_var(bytes)
}

/// The bytes of a collection: the LEB128 length, then the bytes.
pub open spec fn leb128_prefixed(bytes: Seq<u8>) -> Seq<u8> {
    var_encoding(bytes.len()) + bytes
}

/// What reading a collection of at most `capacity` bytes from the start of `s`
/// gives: the bytes and the number of bytes read in all; an error when the
/// length cannot be read, exceeds the capacity, or more bytes are announced
/// than follow.
pub open spec fn spec_decode_collection_bytes(s: Seq<u8>, capacity: nat) -> Result<(Seq<u8>, nat), ()> {
    match spec_leb128_decode_u32(s) {
        Some((len, n)) => if n + len > s.len() || len > capacity {
            Err(())
        } else {
            Ok((s.subrange(n as int, n + len), (n + len) as nat))
        },
        None => Err(()),
    }
}

/// Writes the bytes of a collection behind their LEB128 length, when there is
/// room: it is refused, and nothing is written, when the length prefix and the
/// bytes together reach `remaining_space`.
pub fn encode_collection_bytes(bytes: &[u8], remaining_space: usize, out: &mut Vec<u8>) -> (r: Result<(), ()>)
    ensures
        r is Err <==> var_encoding(bytes@.len()).len() + bytes@.len() >= remaining_space,
        r is Ok ==> final(out)@ == old(out)@ + leb128_prefixed(bytes@),
        r is Err ==> final(out)@ == old(out)@,
{
    let len = bytes.len();
    let prefix = leb128_encode_usize(len);
    proof {
        reveal_with_fuel(pow128, 11);
        lemma_var_encoding_len(len as nat, 10);
    }
    if prefix.len() as u128 + len as u128 >= remaining_space as u128 {
        return Err(());
    }
    let ghost start = out@;
    let mut i: usize = 0;
    while i < prefix.len()
        invariant
            i <= prefix@.len(),
            out@ == start + prefix@.take(i as int),
        decreases prefix@.len() - i,
    {
        out.push(prefix[i]);
        i += 1;
        assert(prefix@.take(i as int) == prefix@.take(i - 1).push(prefix@[i - 1]));
    }
    assert(prefix@.take(i as int) == prefix@);
    let ghost mid = out@;
    let mut j: usize = 0;
    while j < len
        invariant
            j <= len,
            len == bytes@.len(),
            out@ == mid + bytes@.take(j as int),
        decreases len - j,
    {
        out.push(bytes[j]);
        j += 1;
        assert(bytes@.take(j as int) == bytes@.take(j - 1).push(bytes@[j - 1]));
    }
    assert(bytes@.take(j as int) == bytes@);
    Ok(())
}

/// Reads a collection of at most `capacity` bytes written behind its LEB128
/// length: the bytes and the number of bytes read in all.
pub fn decode_collection_bytes(input: &[u8], capacity: usize) -> (r: Result<(Vec<u8>, usize), ()>)
    ensures
        r matches Ok((v, n)) ==> spec_decode_collection_bytes(input@, capacity as nat) == Ok::<(Seq<u8>, nat), ()>((v@, n as nat)),
        r is Err ==> spec_decode_collection_bytes(input@, capacity as nat) is Err,
{
    let (len, n) = match leb128_decode_u32(input) {
        Some(p) => p,
        None => return Err(()),
    };
    proof {
        crate::var_int::lemma_var_len_bounds(input@, 10);
    }
    let ilen = input.len();
    if (n as u64) + (len as u64) > ilen as u64 || len as u64 > capacity as u64 {
        return Err(());
    }
    let len = len as usize;
    let mut v: Vec<u8> = Vec::new();
    let mut i: usize = 0;
    while i < len
        invariant
            i <= len,
            n + len <= ilen,
            ilen == input@.len(),
            v@ == input@.subrange(n as int, n + i),
        decreases len - i,
    {
        v.push(input[n + i]);
        i += 1;
        assert(v@ =~= input@.subrange(n as int, n + i));
    }
    Ok((v, n + len))
}

/// Reading the LEB128 encoding of a `u32`, whatever follows it, gives back the
/// value and the length of the encoding.
pub proof fn lemma_leb128_u32_roundtrip(v: u32, rest: Seq<u8>)
    ensures
        spec_leb128_decode_u32(var_encoding(v as nat) + rest) == Some((v, var_encoding(v as nat).len())),
{
    let e = var_encoding(v as nat);
    lemma_var_encoding_len_u32(v);
    lemma_var_len_of_encoding(v as nat, rest, 10);
    assert((e + rest).take(e.len() as int) == e);
    lemma_var_value_of_encoding(v as nat);
}

/// Reading back a collection written behind its LEB128 length, whatever
/// follows it, gives the bytes and the length of what was written, when the
/// collection fits the capacity.
pub proof fn lemma_collection_bytes_roundtrip(bytes: Seq<u8>, rest: Seq<u8>, capacity: nat)
    requires
        bytes.len() <= capacity,
        bytes.len() <= u32::MAX,
    ensures
        spec_decode_collection_bytes(leb128_prefixed(bytes) + rest, capacity) == Ok::<(Seq<u8>, nat), ()>(
            (bytes, leb128_prefixed(bytes).len()),
        ),
{
    let len = bytes.len() as u32;
    let e = var_encoding(len as nat);
    assert(leb128_prefixed(bytes) + rest == e + (bytes + rest));
    lemma_leb128_u32_roundtrip(len, bytes + rest);
    let s = leb128_prefixed(bytes) + rest;
    assert(s.subrange(e.len() as int, (e.len() + bytes.len()) as int) == bytes);
}

} // verus!
