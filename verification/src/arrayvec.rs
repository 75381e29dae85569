//! Length-prefixed byte strings and sequences, as fixed-capacity vectors and
//! strings are written: the length as a variable-length `u32`, then the items.

use vstd::prelude::*;
use crate::traits::{tail, Codec, Decode, Encode};
use crate::var_int::{
    lemma_u32_var_decode_prefix, lemma_u32_var_roundtrip, lemma_var_encoding_len_u32,
    spec_decode_var_u32, var_encoding, VarInt, U32_MAX_VAR_INT_SPACE,
};

verus! {

/// The encodings of `items`, one after another.
pub open spec fn encode_all<T: Encode>(items: Seq<T>) -> Seq<u8>
    decreases items.len(),
{
    if items.len() == 0 {
        seq![]
    } else {
        encode_all(items.drop_last()) + items.last().spec_encode()
    }
}

/// What reading `count` values one after another from the start of `s` gives:
/// the values and the bytes they took, or an error when one of them fails.
pub open spec fn decode_all<T: Decode>(s: Seq<u8>, count: nat) -> Result<(Seq<T>, nat), ()>
    decreases count,
{
    if count == 0 {
        Ok((seq![], 0))
    } else {
        match decode_all::<T>(s, (count - 1) as nat) {
            Ok((items, n)) => match T::spec_decode(s.skip(n as int)) {
                Ok((v, m)) => Ok((items.push(v), n + m)),
                Err(e) => Err(e),
            },
            Err(e) => Err(e),
        }
    }
}

/// The bytes of a length-prefixed byte string: the length, then the bytes.
pub open spec fn prefixed_bytes(bytes: Seq<u8>) -> Seq<u8> {
    var_encoding(bytes.len()) + bytes
}

/// What reading a length-prefixed byte string of at most `capacity` bytes from
/// the start of `s` gives: the bytes and the number of bytes read in all; an
/// error when the length cannot be read, exceeds the capacity, or more bytes
/// are announced than follow.
pub open spec fn spec_decode_prefixed_bytes(s: Seq<u8>, capacity: nat) -> Result<(Seq<u8>, nat), ()> {
    match spec_decode_var_u32(s) {
        Ok((len, n)) => if len > capacity || n + len > s.len() {
            Err(())
        } else {
            Ok((s.subrange(n as int, n + len), (n + len) as nat))
        },
        Err(e) => Err(e),
    }
}

/// What reading a length-prefixed sequence of at most `capacity` values from
/// the start of `s` gives.
pub open spec fn spec_decode_prefixed_seq<T: Decode>(s: Seq<u8>, capacity: nat) -> Result<(Seq<T>, nat), ()> {
    match spec_decode_var_u32(s) {
        Ok((len, n)) => if len > capacity {
            Err(())
        } else {
            match decode_all::<T>(s.skip(n as int), len as nat) {
                Ok((items, m)) => Ok((items, n + m)),
                Err(e) => Err(e),
            }
        },
        Err(e) => Err(e),
    }
}

/// Writes a string of bytes behind its length, when there is room: it is
/// refused, and nothing is written, when its length plus the longest length
/// prefix reaches `remaining_space`.
pub fn encode_array_string(bytes: &[u8], remaining_space: usize, out: &mut Vec<u8>) -> (r: Result<(), ()>)
    requires
        bytes@.len() <= u32::MAX,
    ensures
        r is Err <==> bytes@.len() + U32_MAX_VAR_INT_SPACE >= remaining_space,
        r is Ok ==> final(out)@ == old(out)@ + prefixed_bytes(bytes@),
        r is Err ==> final(out)@ == old(out)@,
{
    if bytes.len() as u64 + U32_MAX_VAR_INT_SPACE as u64 >= remaining_space as u64 {
        return Err(());
    }
    write_prefixed_bytes(bytes, out);
    Ok(())
}

/// Writes a vector of bytes behind its length.
pub fn encode_byte_vec(bytes: &[u8], out: &mut Vec<u8>)
    requires
        bytes@.len() <= u32::MAX,
    ensures
        final(out)@ == old(out)@ + prefixed_bytes(bytes@),
{
    write_prefixed_bytes(bytes, out);
}

fn write_prefixed_bytes(bytes: &[u8], out: &mut Vec<u8>)
    requires
        bytes@.len() <= u32::MAX,
    ensures
        final(out)@ == old(out)@ + prefixed_bytes(bytes@),
{
    let len = bytes.len() as u32;
    len.encode_var(out);
    let ghost mid = out@;
    let mut i: usize = 0;
    while i < bytes.len()
        invariant
            i <= bytes@.len(),
            out@ == mid + bytes@.take(i as int),
        decreases bytes@.len() - i,
    {
        out.push(bytes[i]);
        i += 1;
        assert(bytes@.take(i as int) == bytes@.take(i - 1).push(bytes@[i - 1]));
    }
    assert(bytes@.take(i as int) == bytes@);
}

/// Reads a string of at most `capacity` bytes written behind its length: the
/// bytes and the number of bytes read in all.
pub fn decode_array_string(input: &[u8], capacity: usize) -> (r: Result<(Vec<u8>, usize), ()>)
    ensures
        r matches Ok((v, n)) ==> spec_decode_prefixed_bytes(input@, capacity as nat) == Ok::<(Seq<u8>, nat), ()>((v@, n as nat)),
        r is Err ==> spec_decode_prefixed_bytes(input@, capacity as nat) is Err,
{
    let (len, n) = match u32::decode_var(input) {
        Ok(p) => p,
        Err(e) => return Err(e),
    };
    proof {
        lemma_u32_var_decode_prefix(input@, seq![]);
    }
    let ilen = input.len();
    if len as u64 > capacity as u64 || (len as u64) > (ilen - n) as u64 {
        return Err(());
    }
    let len = len as usize;
    let mut v: Vec<u8> = Vec::new();
    let mut i: usize = 0;
    while i < len
        invariant
            i <= len,
            n + len <= ilen,
            ilen == input@.len(),
            v@ == input@.subrange(n as int, n + i),
        decreases len - i,
    {
        v.push(input[n + i]);
        i += 1;
        assert(v@ =~= input@.subrange(n as int, n + i));
    }
    Ok((v, n + len))
}

/// Reads a vector of at most `capacity` bytes written behind its length; as
/// fixed-capacity byte vectors are read, it is refused outright when fewer
/// bytes are left than the longest length prefix takes.
pub fn decode_byte_vec(input: &[u8], capacity: usize) -> (r: Result<(Vec<u8>, usize), ()>)
    ensures
        input@.len() < U32_MAX_VAR_INT_SPACE ==> r is Err,
        input@.len() >= U32_MAX_VAR_INT_SPACE ==> {
            &&& r matches Ok((v, n)) ==> spec_decode_prefixed_bytes(input@, capacity as nat) == Ok::<(Seq<u8>, nat), ()>((v@, n as nat))
            &&& r is Err ==> spec_decode_prefixed_bytes(input@, capacity as nat) is Err
        },
{
    if input.len() < U32_MAX_VAR_INT_SPACE {
        return Err(());
    }
    decode_array_string(input, capacity)
}

/// Writes a sequence of values behind its length, when there is room: it is
/// refused, and nothing is written, when its length plus the longest length
/// prefix exceeds `remaining_space`.
pub fn encode_array_vec<T: Encode>(items: &[T], remaining_space: usize, out: &mut Vec<u8>) -> (r: Result<(), ()>)
    requires
        items@.len() <= u32::MAX,
    ensures
        r is Err <==> items@.len() + U32_MAX_VAR_INT_SPACE > remaining_space,
        r is Ok ==> final(out)@ == old(out)@ + var_encoding(items@.len()) + encode_all(items@),
        r is Err ==> final(out)@ == old(out)@,
{
    if items.len() as u64 + U32_MAX_VAR_INT_SPACE as u64 > remaining_space as u64 {
        return Err(());
    }
    let len = items.len() as u32;
    len.encode_var(out);
    let ghost mid = out@;
    let mut i: usize = 0;
    while i < items.len()
        invariant
            i <= items@.len(),
            out@ == mid + encode_all(items@.take(i as int)),
        decreases items@.len() - i,
    {
        items[i].encode(out);
        i += 1;
        assert(items@.take(i as int).drop_last() == items@.take(i - 1));
    }
    assert(items@.take(i as int) == items@);
    Ok(())
}

/// Reads a sequence of at most `capacity` values written behind its length:
/// the values and the number of bytes read in all.
pub fn decode_array_vec<T: Decode>(input: &[u8], capacity: usize) -> (r: Result<(Vec<T>, usize), ()>)
    ensures
        r matches Ok((v, n)) ==> spec_decode_prefixed_seq::<T>(input@, capacity as nat) == Ok::<(Seq<T>, nat), ()>((v@, n as nat)),
        r is Err ==> spec_decode_prefixed_seq::<T>(input@, capacity as nat) is Err,
{
    let (len, n) = match u32::decode_var(input) {
        Ok(p) => p,
        Err(e) => return Err(e),
    };
    proof {
        lemma_u32_var_decode_prefix(input@, seq![]);
    }
    if len as u64 > capacity as u64 {
        return Err(());
    }
    let rest = tail(input, n);
    let ghost len32 = len;
    let len = len as usize;
    let mut v: Vec<T> = Vec::new();
    let mut pos: usize = 0;
    let mut i: usize = 0;
    while i < len
        invariant
            i <= len,
            pos <= rest@.len(),
            decode_all::<T>(rest@, i as nat) == Ok::<(Seq<T>, nat), ()>((v@, pos as nat)),
            len == len32,
            len32 <= capacity,
            spec_decode_var_u32(input@) == Ok::<(u32, nat), ()>((len32, n as nat)),
            rest@ == input@.skip(n as int),
        decreases len - i,
    {
        let part = tail(rest, pos);
        match T::decode(part) {
            Ok((x, m)) => {
                v.push(x);
                pos = pos + m;
            },
            Err(e) => {
                proof {
                    assert(decode_all::<T>(rest@, (i + 1) as nat) is Err);
                    lemma_decode_all_err::<T>(rest@, (i + 1) as nat, len as nat);
                    assert(spec_decode_var_u32(input@) == Ok::<(u32, nat), ()>((len32, n as nat)));
                    assert(input@.skip(n as int) == rest@);
                }
                return Err(e);
            },
        }
        i += 1;
    }
    Ok((v, n + pos))
}

/// Writes an array of values: their encodings one after another, with no
/// length, as the array's length is fixed by its type.
pub fn encode_array<T: Encode, const N: usize>(items: &[T; N], out: &mut Vec<u8>)
    ensures
        final(out)@ == old(out)@ + encode_all(items@),
{
    let ghost start = out@;
    let mut i: usize = 0;
    while i < N
        invariant
            i <= N,
            items@.len() == N,
            out@ == start + encode_all(items@.take(i as int)),
        decreases N - i,
    {
        items[i].encode(out);
        i += 1;
        assert(items@.take(i as int).drop_last() == items@.take(i - 1));
    }
    assert(items@.take(N as int) == items@);
}

/// Reads an array of `N` values written one after another: the values, in
/// order, and the number of bytes read.
pub fn decode_array<T: Decode, const N: usize>(input: &[u8]) -> (r: Result<(Vec<T>, usize), ()>)
    ensures
        r matches Ok((v, n)) ==> decode_all::<T>(input@, N as nat) == Ok::<(Seq<T>, nat), ()>((v@, n as nat)),
        r is Err ==> decode_all::<T>(input@, N as nat) is Err,
{
    let mut v: Vec<T> = Vec::new();
    let mut pos: usize = 0;
    let mut i: usize = 0;
    while i < N
        invariant
            i <= N,
            pos <= input@.len(),
            decode_all::<T>(input@, i as nat) == Ok::<(Seq<T>, nat), ()>((v@, pos as nat)),
        decreases N - i,
    {
        let part = tail(input, pos);
        match T::decode(part) {
            Ok((x, m)) => {
                v.push(x);
                pos = pos + m;
            },
            Err(e) => {
                proof {
                    assert(decode_all::<T>(input@, (i + 1) as nat) is Err);
                    lemma_decode_all_err::<T>(input@, (i + 1) as nat, N as nat);
                }
                return Err(e);
            },
        }
        i += 1;
    }
    Ok((v, pos))
}

/// Once reading fails, reading more values fails too.
pub proof fn lemma_decode_all_err<T: Decode>(s: Seq<u8>, k: nat, count: nat)
    requires
        k <= count,
        decode_all::<T>(s, k) is Err,
    ensures
        decode_all::<T>(s, count) is Err,
    decreases count,
{
    if k < count {
        lemma_decode_all_err::<T>(s, k, (count - 1) as nat);
    }
}

/// Reading back values written one after another, whatever follows them,
/// gives the values and the bytes they took.
pub proof fn lemma_decode_all_roundtrip<T: Codec>(items: Seq<T>, rest: Seq<u8>)
    ensures
        decode_all::<T>(encode_all(items) + rest, items.len()) == Ok::<(Seq<T>, nat), ()>(
            (items, encode_all(items).len()),
        ),
    decreases items.len(),
{
    if items.len() > 0 {
        let init = items.drop_last();
        let last = items.last();
        let e0 = encode_all(init);
        let e1 = last.spec_encode();
        assert(encode_all(items) + rest == e0 + (e1 + rest));
        lemma_decode_all_roundtrip::<T>(init, e1 + rest);
        assert((e0 + (e1 + rest)).skip(e0.len() as int) == e1 + rest);
        T::lemma_roundtrip(last, rest);
        assert(init.push(last) == items);
        let s = encode_all(items) + rest;
        assert(init.len() == (items.len() - 1) as nat);
        assert(decode_all::<T>(s, init.len()) == Ok::<(Seq<T>, nat), ()>((init, e0.len())));
        assert(T::spec_decode(s.skip(e0.len() as int)) == Ok::<(T, nat), ()>((last, e1.len())));
        assert(encode_all(items).len() == e0.len() + e1.len());
    } else {
        assert(items =~= seq![]);
    }
}

/// Reading back a byte string written behind its length, whatever follows it,
/// gives the bytes and the length of what was written, when the string fits
/// the capacity.
pub proof fn lemma_prefixed_bytes_roundtrip(bytes: Seq<u8>, rest: Seq<u8>, capacity: nat)
    requires
        bytes.len() <= capacity,
        bytes.len() <= u32::MAX,
    ensures
        spec_decode_prefixed_bytes(prefixed_bytes(bytes) + rest, capacity) == Ok::<(Seq<u8>, nat), ()>(
            (bytes, prefixed_bytes(bytes).len()),
        ),
{
    let len = bytes.len() as u32;
    let e = var_encoding(len as nat);
    assert(prefixed_bytes(bytes) + rest == e + (bytes + rest));
    lemma_u32_var_roundtrip(len, bytes + rest);
    let s = prefixed_bytes(bytes) + rest;
    assert(s.subrange(e.len() as int, (e.len() + bytes.len()) as int) == bytes);
}

/// Reading back a sequence written behind its length, whatever follows it,
/// gives the values and the length of what was written, when the sequence
/// fits the capacity.
pub proof fn lemma_prefixed_seq_roundtrip<T: Codec>(items: Seq<T>, rest: Seq<u8>, capacity: nat)
    requires
        items.len() <= capacity,
        items.len() <= u32::MAX,
    ensures
        spec_decode_prefixed_seq::<T>(var_encoding(items.len()) + encode_all(items) + rest, capacity)
            == Ok::<(Seq<T>, nat), ()>(
            (items, var_encoding(items.len()).len() + encode_all(items).len()),
        ),
{
    let len = items.len() as u32;
    let e = var_encoding(len as nat);
    let s = var_encoding(items.len()) + encode_all(items) + rest;
    assert(s == e + (encode_all(items) + rest));
    lemma_u32_var_roundtrip(len, encode_all(items) + rest);
    assert(s.skip(e.len() as int) == encode_all(items) + rest);
    lemma_decode_all_roundtrip::<T>(items, rest);
}

} // verus!
