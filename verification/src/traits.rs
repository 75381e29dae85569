//! The byte layout of a value: what encoding appends and what decoding reads.

use vstd::prelude::*;

verus! {

/// A value with a byte encoding.
pub trait Encode {
    /// The bytes that encode `self`.
    spec fn spec_encode(&self) -> Seq<u8>;

    /// Appends the encoding of `self` to `out`.
    fn encode(&self, out: &mut Vec<u8>)
        ensures
            final(out)@ == old(out)@ + self.spec_encode(),
    ;
}

/// A value that can be read back from bytes.
pub trait Decode: Sized {
    /// What reading a value from the start of `s` gives: the value and the
    /// number of bytes it took, or an error.
    spec fn spec_decode(s: Seq<u8>) -> Result<(Self, nat), ()>;

    /// Reads a value from the start of `input`: the value and the number of
    /// bytes that it took.
    fn decode(input: &[u8]) -> (r: Result<(Self, usize), ()>)
        ensures
            r matches Ok((v, n)) ==> Self::spec_decode(input@) == Ok::<(Self, nat), ()>(
                (v, n as nat),
            ),
            r matches Ok((_, n)) ==> n <= input@.len(),
            r is Err ==> Self::spec_decode(input@) is Err,
    ;

    /// A successful read never takes more bytes than there are.
    proof fn lemma_decode_len(s: Seq<u8>)
        ensures
            Self::spec_decode(s) matches Ok((_, n)) ==> n <= s.len(),
    ;

    /// A successful read looks only at the bytes it takes: whatever follows
    /// them, it reads the same.
    proof fn lemma_decode_extend(s: Seq<u8>, t: Seq<u8>)
        ensures
            Self::spec_decode(s) matches Ok(p) ==> Self::spec_decode(s + t) == Ok::<(Self, nat), ()>(p),
    ;
}

/// A type whose decoding reads back what its encoding wrote.
pub trait Codec: Encode + Decode {
    /// Decoding the encoding of `v`, whatever bytes follow it, gives `v` and
    /// the length of the encoding.
    proof fn lemma_roundtrip(v: Self, rest: Seq<u8>)
        ensures
            Self::spec_decode(v.spec_encode() + rest) == Ok::<(Self, nat), ()>(
                (v, v.spec_encode().len()),
            ),
    ;
}

/// `256` to the power `n`.
pub open spec fn pow256(n: nat) -> nat
    decreases n,
{
    if n == 0 {
        1
    } else {
        256 * pow256((n - 1) as nat)
    }
}

/// The `n` low bytes of `v`, most significant first.
pub open spec fn be_bytes(v: nat, n: nat) -> Seq<u8>
    decreases n,
{
    if n == 0 {
        seq![]
    } else {
        be_bytes(v / 256, (n - 1) as nat).push((v % 256) as u8)
    }
}

/// The number that bytes stand for, most significant first.
pub open spec fn be_value(s: Seq<u8>) -> nat
    decreases s.len(),
{
    if s.len() == 0 {
        0
    } else {
        be_value(s.drop_last()) * 256 + s.last() as nat
    }
}

/// The `n` low bytes of `v` take `n` bytes.
pub proof fn lemma_be_bytes_len(v: nat, n: nat)
    ensures
        be_bytes(v, n).len() == n,
    decreases n,
{
    if n > 0 {
        lemma_be_bytes_len(v / 256, (n - 1) as nat);
    }
}

/// Reading back the `n` low bytes of `v` gives `v` modulo `256^n`.
pub proof fn lemma_be_value_of_bytes(v: nat, n: nat)
    ensures
        be_value(be_bytes(v, n)) == v % pow256(n),
    decreases n,
{
    if n > 0 {
        lemma_be_value_of_bytes(v / 256, (n - 1) as nat);
        let s = be_bytes(v, n);
        assert(s.drop_last() == be_bytes(v / 256, (n - 1) as nat));
        let p = pow256((n - 1) as nat);
        assert(p > 0) by {
            lemma_pow256_pos((n - 1) as nat);
        }
        vstd::arithmetic::div_mod::lemma_breakdown(v as int, 256, p as int);
    } else {
        assert(v % 1 == 0);
    }
}

/// `256^n` is positive.
pub proof fn lemma_pow256_pos(n: nat)
    ensures
        pow256(n) > 0,
    decreases n,
{
    if n > 0 {
        lemma_pow256_pos((n - 1) as nat);
    }
}

/// The value of `n` bytes is below `256^n`.
pub proof fn lemma_be_value_bound(s: Seq<u8>)
    ensures
        be_value(s) < pow256(s.len()),
    decreases s.len(),
{
    if s.len() > 0 {
        lemma_be_value_bound(s.drop_last());
        let p = pow256((s.len() - 1) as nat);
        assert(be_value(s.drop_last()) * 256 + 256 <= p * 256) by (nonlinear_arith)
            requires
                be_value(s.drop_last()) < p,
        ;
    }
}

/// The first `n` bytes of a sequence that starts with `n` given bytes.
pub proof fn lemma_take_prefix(a: Seq<u8>, rest: Seq<u8>)
    ensures
        (a + rest).take(a.len() as int) == a,
        (a + rest).skip(a.len() as int) == rest,
{
    assert((a + rest).take(a.len() as int) =~= a);
    assert((a + rest).skip(a.len() as int) =~= rest);
}

/// Byte `i` of the `n` low bytes of `v`, most significant first, is the
/// base-256 digit of `v` at place `n - 1 - i`.
pub proof fn lemma_be_bytes_index(v: nat, n: nat, i: int)
    requires
        0 <= i < n,
    ensures
        be_bytes(v, n).len() == n,
        be_bytes(v, n)[i] == (v / pow256((n - 1 - i) as nat)) % 256,
    decreases n,
{
    lemma_be_bytes_len(v, n);
    lemma_be_bytes_len(v / 256, (n - 1) as nat);
    if i == n - 1 {
        assert(pow256(0) == 1);
        assert(v / 1 == v);
    } else {
        lemma_be_bytes_index(v / 256, (n - 1) as nat, i);
        let p = pow256((n - 2 - i) as nat);
        lemma_pow256_pos((n - 2 - i) as nat);
        vstd::arithmetic::div_mod::lemma_div_denominator(v as int, 256, p as int);
        assert(pow256((n - 1 - i) as nat) == 256 * p);
    }
}

/// Writing back the value of some bytes, at their length, gives those bytes.
pub proof fn lemma_be_bytes_of_value(t: Seq<u8>)
    ensures
        be_bytes(be_value(t), t.len()) == t,
    decreases t.len(),
{
    if t.len() > 0 {
        let init = t.drop_last();
        lemma_be_bytes_of_value(init);
        let v = be_value(t);
        let a = be_value(init);
        let b = t.last() as nat;
        assert(v == a * 256 + b);
        assert(v / 256 == a && v % 256 == b) by (nonlinear_arith)
            requires
                v == a * 256 + b,
                b < 256,
        ;
        assert(init.push(t.last()) == t);
    } else {
        assert(t =~= seq![]);
    }
}

/// The bytes of `input` from position `k` on.
pub fn tail(input: &[u8], k: usize) -> (r: &[u8])
    requires
        k <= input@.len(),
    ensures
        r@ == input@.skip(k as int),
        input@.len() <= usize::MAX,
{
    let len = input.len();
    let r = &input[k..len];
    assert(r@ =~= input@.skip(k as int));
    r
}

/// Appends the `n` low bytes of `v`, most significant first.
pub fn write_be(v: u128, n: usize, out: &mut Vec<u8>)
    requires
        n <= 16,
    ensures
        final(out)@ == old(out)@ + be_bytes(v as nat, n as nat),
    decreases n,
{
    if n > 0 {
        write_be(v / 256, n - 1, out);
        let ghost mid = out@;
        out.push((v % 256) as u8);
        assert(out@ == old(out)@ + be_bytes(v as nat, n as nat));
    } else {
        assert(out@ == old(out)@ + be_bytes(v as nat, n as nat));
    }
}

/// The number that the first `n` bytes of `input` stand for, most significant
/// first.
pub fn read_be(input: &[u8], n: usize) -> (r: u128)
    requires
        n <= 16,
        n <= input@.len(),
    ensures
        r == be_value(input@.take(n as int)),
{
    let mut acc: u128 = 0;
    let mut i: usize = 0;
    while i < n
        invariant
            i <= n,
            n <= 16,
            n <= input@.len(),
            acc == be_value(input@.take(i as int)),
        decreases n - i,
    {
        proof {
            lemma_be_value_bound(input@.take(i as int));
            lemma_pow256_mono(i as nat, 15);
            reveal_with_fuel(pow256, 16);
            assert(input@.take(i + 1).drop_last() == input@.take(i as int));
        }
        acc = acc * 256 + input[i] as u128;
        i += 1;
    }
    acc
}

/// `256^i <= 256^j` for `i <= j`.
pub proof fn lemma_pow256_mono(i: nat, j: nat)
    requires
        i <= j,
    ensures
        pow256(i) <= pow256(j),
    decreases j,
{
    if i < j {
        lemma_pow256_mono(i, (j - 1) as nat);
        lemma_pow256_pos((j - 1) as nat);
    }
}

} // verus!
