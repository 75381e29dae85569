//! Variable-length unsigned integers: seven payload bits per byte, least
//! significant group first, the high bit set on every byte but the last.

use vstd::prelude::*;

verus! {

/// The high bit of a byte: set while more bytes follow.
pub const MSB: u8 = 0x80;

/// The seven payload bits of a byte.
pub const DROP_MSB: u8 = 0x7f;

/// The most bytes that the encoding of a `u32` takes.
pub const U32_MAX_VAR_INT_SPACE: usize = 5;

/// `128` to the power `n`.
pub open spec fn pow128(n: nat) -> nat
    decreases n,
{
    if n == 0 {
        1
    } else {
        128 * pow128((n - 1) as nat)
    }
}

/// The encoding of `v`: its base-128 digits, least significant first, each
/// digit but the last with the high bit set.
pub open spec fn var_encoding(v: nat) -> Seq<u8>
    decreases v,
{
    if v < 128 {
        seq![v as u8]
    } else {
        seq![(v % 128 + 128) as u8] + var_encoding(v / 128)
    }
}

/// The number that the payload bits of `s` stand for, first byte least
/// significant.
pub open spec fn var_value(s: Seq<u8>) -> nat
    decreases s.len(),
{
    if s.len() == 0 {
        0
    } else {
        (s[0] % 128) as nat + 128 * var_value(s.drop_first())
    }
}

/// The length of the variable-length integer at the start of `s`: the
/// position after the first byte without the high bit, when that byte is
/// among the first `budget` bytes of `s`.
pub open spec fn var_len(s: Seq<u8>, budget: nat) -> Option<nat>
    decreases budget,
{
    if budget == 0 || s.len() == 0 {
        None
    } else if s[0] < 128 {
        Some(1)
    } else {
        match var_len(s.drop_first(), (budget - 1) as nat) {
            Some(n) => Some(n + 1),
            None => None,
        }
    }
}

/// What decoding a `u32` from the start of `s` gives: the value, taken modulo
/// 2^32, and the number of bytes read; an error when no byte among the first
/// five ends the integer, or the bytes run out before one does.
pub open spec fn spec_decode_var_u32(s: Seq<u8>) -> Result<(u32, nat), ()> {
    match var_len(s, U32_MAX_VAR_INT_SPACE as nat) {
        Some(n) => Ok(((var_value(s.take(n as int)) % 0x1_0000_0000) as u32, n)),
        None => Err(()),
    }
}

/// An integer type with a variable-length encoding.
pub trait VarInt: Sized {
    /// The most bytes that an encoding of this type takes.
    const MAX_VAR_INT_SPACE: usize;

    /// Appends the encoding of `self` to `out`.
    fn encode_var(&self, out: &mut Vec<u8>);

    /// Reads an integer from the start of `bytes`: the value and the number of
    /// bytes that it took.
    fn decode_var(bytes: &[u8]) -> Result<(Self, usize), ()>;
}

proof fn lemma_var_encoding_step(n: u64)
    requires
        n >= 0x80,
    ensures
        (MSB | (n as u8)) == (n % 128 + 128) as u8,
        n >> 7u64 == n / 128,
{
    assert((0x80u8 | (n as u8)) == (n % 128 + 128) as u8) by (bit_vector)
        requires
            n >= 0x80,
    ;
    assert(n >> 7u64 == n / 128) by (bit_vector);
}

/// The encoding of a value below `128^k` takes at most `k` bytes, and every
/// encoding takes at least one; so a value below 2^32 takes at most five.
pub proof fn lemma_var_encoding_len(v: nat, k: nat)
    requires
        1 <= k,
        v < pow128(k),
    ensures
        1 <= var_encoding(v).len() <= k,
    decreases v,
{
    if v >= 128 {
        assert(k >= 2) by {
            if k == 1 {
                reveal_with_fuel(pow128, 2);
            }
        }
        assert(v / 128 < pow128((k - 1) as nat)) by {
            assert(pow128(k) == 128 * pow128((k - 1) as nat));
        }
        lemma_var_encoding_len(v / 128, (k - 1) as nat);
    }
}

/// A `u32` takes between one and five bytes.
pub proof fn lemma_var_encoding_len_u32(v: u32)
    ensures
        1 <= var_encoding(v as nat).len() <= U32_MAX_VAR_INT_SPACE,
{
    reveal_with_fuel(pow128, 6);
    lemma_var_encoding_len(v as nat, 5);
}

/// Every byte of an encoding but the last has the high bit set; the last has
/// it clear.
pub proof fn lemma_var_encoding_bytes(v: nat)
    ensures
        var_encoding(v).last() < 128,
        forall|i: int| 0 <= i < var_encoding(v).len() - 1 ==> var_encoding(v)[i] >= 128,
    decreases v,
{
    if v >= 128 {
        lemma_var_encoding_bytes(v / 128);
        let s = var_encoding(v);
        let t = var_encoding(v / 128);
        assert(s == seq![(v % 128 + 128) as u8] + t);
        assert forall|i: int| 0 <= i < s.len() - 1 implies s[i] >= 128 by {
            if i > 0 {
                assert(s[i] == t[i - 1]);
            }
        }
    }
}

/// The payload bits of an encoding give back the encoded value.
pub proof fn lemma_var_value_of_encoding(v: nat)
    ensures
        var_value(var_encoding(v)) == v,
    decreases v,
{
    let s = var_encoding(v);
    if v < 128 {
        assert(var_value(s.drop_first()) == 0);
        assert(s[0] == v);
    } else {
        lemma_var_value_of_encoding(v / 128);
        assert(s.drop_first() == var_encoding(v / 128));
        assert(s[0] == v % 128 + 128);
        assert(s[0] % 128 == v % 128);
        assert(var_value(s) == (s[0] % 128) as nat + 128 * var_value(s.drop_first()));
        assert(v == v % 128 + 128 * (v / 128));
    }
}

/// The length read from an encoding followed by anything is the length of the
/// encoding, when it is within the budget.
pub proof fn lemma_var_len_of_encoding(v: nat, rest: Seq<u8>, budget: nat)
    requires
        var_encoding(v).len() <= budget,
    ensures
        var_len(var_encoding(v) + rest, budget) == Some(var_encoding(v).len()),
    decreases v,
{
    let s = var_encoding(v) + rest;
    if v >= 128 {
        lemma_var_len_of_encoding(v / 128, rest, (budget - 1) as nat);
        assert(s.drop_first() == var_encoding(v / 128) + rest);
    }
}

/// The payload bits of `s` followed by byte `b`.
pub proof fn lemma_var_value_push(s: Seq<u8>, b: u8)
    ensures
        var_value(s.push(b)) == var_value(s) + (b % 128) as nat * pow128(s.len()),
    decreases s.len(),
{
    if s.len() == 0 {
        assert(var_value(s.push(b).drop_first()) == 0);
        assert(var_value(s) == 0);
        assert(s.push(b)[0] == b);
        assert(pow128(0) == 1);
    } else {
        lemma_var_value_push(s.drop_first(), b);
        assert(s.push(b).drop_first() == s.drop_first().push(b));
        assert(s.push(b)[0] == s[0]);
        let p = pow128((s.len() - 1) as nat);
        assert(pow128(s.len()) == 128 * p);
        assert(var_value(s.push(b)) == (s[0] % 128) as nat + 128 * var_value(s.drop_first().push(b)));
        assert(var_value(s) == (s[0] % 128) as nat + 128 * var_value(s.drop_first()));
        assert(128 * (var_value(s.drop_first()) + (b % 128) as nat * p)
            == 128 * var_value(s.drop_first()) + (b % 128) as nat * (128 * p)) by (nonlinear_arith);
    }
}

/// `var_len` stops at the first byte without the high bit.
proof fn lemma_var_len_prefix(s: Seq<u8>, i: nat, budget: nat)
    requires
        i < budget,
        i < s.len(),
        forall|j: int| 0 <= j < i ==> s[j] >= 128,
    ensures
        s[i as int] < 128 ==> var_len(s, budget) == Some(i + 1),
    decreases i,
{
    if i > 0 {
        let t = s.drop_first();
        assert forall|j: int| 0 <= j < i - 1 implies t[j] >= 128 by {
            assert(t[j] == s[j + 1]);
        }
        lemma_var_len_prefix(t, (i - 1) as nat, (budget - 1) as nat);
        assert(t[i - 1] == s[i as int]);
        assert(s[0] >= 128);
    }
}

/// Adds the payload bits of byte `b` at group `i` to a value of `i` groups.
proof fn lemma_or_group(result: u64, x: u64, i: u64)
    requires
        i < 5,
        x < 128,
        result < pow128(i as nat),
    ensures
        (result | (x << (7 * i))) == result + x * pow128(i as nat),
        result + x * pow128(i as nat) < pow128((i + 1) as nat),
{
    reveal_with_fuel(pow128, 6);
    if i == 0 {
        assert((result | (x << 0u64)) == result + x) by (bit_vector)
            requires
                result < 1,
                x < 128,
        ;
    } else if i == 1 {
        assert((result | (x << 7u64)) == result + x * 128) by (bit_vector)
            requires
                result < 128,
                x < 128,
        ;
    } else if i == 2 {
        assert((result | (x << 14u64)) == result + x * 16384) by (bit_vector)
            requires
                result < 16384,
                x < 128,
        ;
    } else if i == 3 {
        assert((result | (x << 21u64)) == result + x * 2097152) by (bit_vector)
            requires
                result < 2097152,
                x < 128,
        ;
    } else {
        assert((result | (x << 28u64)) == result + x * 268435456) by (bit_vector)
            requires
                result < 268435456,
                x < 128,
        ;
    }
}

impl VarInt for u32 {
    const MAX_VAR_INT_SPACE: usize = U32_MAX_VAR_INT_SPACE;

    fn encode_var(&self, out: &mut Vec<u8>)
        ensures
            final(out)@ == old(out)@ + var_encoding(*self as nat),
    {
        let mut n: u64 = *self as u64;
        while n >= 0x80
            invariant
                old(out)@ + var_encoding(*self as nat) == out@ + var_encoding(n as nat),
            decreases n,
        {
            proof {
                lemma_var_encoding_step(n);
            }
            let ghost before = out@;
            out.push(MSB | (n as u8));
            assert(var_encoding(n as nat) == seq![(n % 128 + 128) as u8] + var_encoding(
                (n / 128) as nat,
            ));
            assert(before + var_encoding(n as nat) == out@ + var_encoding((n / 128) as nat));
            n = n >> 7;
        }
        let ghost before = out@;
        out.push(n as u8);
        assert(out@ == before + var_encoding(n as nat));
    }

    fn decode_var(bytes: &[u8]) -> (r: Result<(u32, usize), ()>)
        ensures
            r matches Ok((v, n)) ==> spec_decode_var_u32(bytes@) == Ok::<(u32, nat), ()>((v, n as nat)),
            r is Err ==> spec_decode_var_u32(bytes@) is Err,
    {
        let mut result: u64 = 0;
        let mut shift: u64 = 0;
        let mut success = false;
        let mut i: usize = 0;
        while i < U32_MAX_VAR_INT_SPACE
            invariant_except_break
                i <= U32_MAX_VAR_INT_SPACE,
                shift == 7 * i,
                !success,
                forall|j: int| 0 <= j < i ==> bytes@[j] >= 128,
            invariant
                i <= bytes@.len(),
                i <= U32_MAX_VAR_INT_SPACE,
                result == var_value(bytes@.take(i as int)),
                result < pow128(i as nat),
            ensures
                success ==> (i >= 1 && bytes@[i - 1] < 128 && forall|j: int|
                    0 <= j < i - 1 ==> bytes@[j] >= 128),
                !success ==> i == U32_MAX_VAR_INT_SPACE && forall|j: int|
                    0 <= j < i ==> bytes@[j] >= 128,
            decreases U32_MAX_VAR_INT_SPACE - i,
        {
            if i >= bytes.len() {
                proof {
                    lemma_var_len_prefix_runs_out(bytes@, i as nat);
                }
                return Err(());
            }
            let b = bytes[i];
            proof {
                lemma_var_value_push(bytes@.take(i as int), b);
                assert(bytes@.take(i as int).push(b) == bytes@.take(i + 1));
                assert((b & DROP_MSB) as u64 == (b % 128) as u64) by (bit_vector);
                lemma_or_group(result, (b & DROP_MSB) as u64, i as u64);
            }
            i += 1;
            let msb_dropped = b & DROP_MSB;
            result = result | ((msb_dropped as u64) << shift);
            shift += 7;
            if b & MSB == 0 || shift > 9 * 7 {
                assert((b & 0x80u8 == 0) == (b < 128)) by (bit_vector);
                success = b & MSB == 0;
                break;
            }
            assert((b & 0x80u8 != 0) == (b >= 128)) by (bit_vector);
        }
        proof {
            reveal_with_fuel(pow128, 6);
        }
        if success {
            proof {
                lemma_var_len_prefix(bytes@, (i - 1) as nat, U32_MAX_VAR_INT_SPACE as nat);
                assert(result % 0x1_0000_0000 == result as u32) by (bit_vector);
            }
            Ok((result as u32, i))
        } else {
            proof {
                lemma_var_len_exhausted(bytes@, U32_MAX_VAR_INT_SPACE as nat);
            }
            Err(())
        }
    }
}

/// When the bytes run out before one without the high bit, nothing is read.
proof fn lemma_var_len_prefix_runs_out(s: Seq<u8>, i: nat)
    requires
        i < U32_MAX_VAR_INT_SPACE,
        i >= s.len(),
        forall|j: int| 0 <= j < s.len() ==> s[j] >= 128,
    ensures
        var_len(s, U32_MAX_VAR_INT_SPACE as nat) is None,
{
    lemma_var_len_all_continued(s, U32_MAX_VAR_INT_SPACE as nat);
}

/// With the budget spent on bytes that all have the high bit set, nothing is read.
proof fn lemma_var_len_exhausted(s: Seq<u8>, budget: nat)
    requires
        budget <= s.len(),
        forall|j: int| 0 <= j < budget ==> s[j] >= 128,
    ensures
        var_len(s, budget) is None,
    decreases budget,
{
    if budget > 0 {
        let t = s.drop_first();
        assert forall|j: int| 0 <= j < budget - 1 implies t[j] >= 128 by {
            assert(t[j] == s[j + 1]);
        }
        lemma_var_len_exhausted(t, (budget - 1) as nat);
    }
}

/// Bytes that all have the high bit set hold no complete integer.
proof fn lemma_var_len_all_continued(s: Seq<u8>, budget: nat)
    requires
        forall|j: int| 0 <= j < s.len() ==> s[j] >= 128,
    ensures
        var_len(s, budget) is None,
    decreases budget,
{
    if budget > 0 && s.len() > 0 {
        let t = s.drop_first();
        assert forall|j: int| 0 <= j < t.len() implies t[j] >= 128 by {
            assert(t[j] == s[j + 1]);
        }
        lemma_var_len_all_continued(t, (budget - 1) as nat);
    }
}

/// `var_len` reads at least one byte, at most the budget and never past the end.
pub proof fn lemma_var_len_bounds(s: Seq<u8>, budget: nat)
    ensures
        var_len(s, budget) matches Some(n) ==> 1 <= n <= budget && n <= s.len(),
    decreases budget,
{
    if budget > 0 && s.len() > 0 && s[0] >= 128 {
        lemma_var_len_bounds(s.drop_first(), (budget - 1) as nat);
    }
}

/// `var_len` looks only at the bytes it reads: bytes appended after a
/// complete integer change nothing.
pub proof fn lemma_var_len_extend(s: Seq<u8>, t: Seq<u8>, budget: nat)
    ensures
        var_len(s, budget) matches Some(n) ==> var_len(s + t, budget) == Some(n),
    decreases budget,
{
    if budget > 0 && s.len() > 0 && s[0] >= 128 {
        lemma_var_len_extend(s.drop_first(), t, (budget - 1) as nat);
        assert((s + t).drop_first() == s.drop_first() + t);
    }
}

/// Decoding the encoding of a `u32`, whatever follows it, gives back the value
/// and the length of the encoding.
pub proof fn lemma_u32_var_roundtrip(v: u32, rest: Seq<u8>)
    ensures
        spec_decode_var_u32(var_encoding(v as nat) + rest) == Ok::<(u32, nat), ()>(
            (v, var_encoding(v as nat).len()),
        ),
{
    let e = var_encoding(v as nat);
    lemma_var_encoding_len_u32(v);
    lemma_var_len_of_encoding(v as nat, rest, U32_MAX_VAR_INT_SPACE as nat);
    assert((e + rest).take(e.len() as int) == e);
    lemma_var_value_of_encoding(v as nat);
}

/// A successful decode reads between one and five bytes, never past the end of
/// its input, and gives the same result whatever follows those bytes.
pub proof fn lemma_u32_var_decode_prefix(s: Seq<u8>, t: Seq<u8>)
    ensures
        spec_decode_var_u32(s) matches Ok((v, n)) ==> {
            &&& 1 <= n <= U32_MAX_VAR_INT_SPACE
            &&& n <= s.len()
            &&& spec_decode_var_u32(s + t) == Ok::<(u32, nat), ()>((v, n))
        },
{
    lemma_var_len_bounds(s, U32_MAX_VAR_INT_SPACE as nat);
    lemma_var_len_extend(s, t, U32_MAX_VAR_INT_SPACE as nat);
    if let Some(n) = var_len(s, U32_MAX_VAR_INT_SPACE as nat) {
        assert((s + t).take(n as int) == s.take(n as int));
    }
}

/// Whether `s` is the shortest encoding of its value: every byte but the last
/// has the high bit set, the last has it clear, and the last is not a
/// redundant zero group.
pub open spec fn canonical(s: Seq<u8>) -> bool {
    &&& s.len() >= 1
    &&& s.last() < 128
    &&& forall|i: int| 0 <= i < s.len() - 1 ==> s[i] >= 128
    &&& s.len() > 1 ==> s.last() != 0
}

/// The shortest encoding of a value is the encoding of that value.
pub proof fn lemma_canonical_is_encoding(s: Seq<u8>)
    requires
        canonical(s),
    ensures
        var_encoding(var_value(s)) == s,
        s.len() > 1 ==> var_value(s) >= 128,
    decreases s.len(),
{
    let rest = s.drop_first();
    if s.len() == 1 {
        assert(var_value(rest) == 0);
        assert(var_value(s) == s[0] as nat);
        assert(seq![s[0]] == s);
    } else {
        assert(rest.last() == s.last());
        assert forall|i: int| 0 <= i < rest.len() - 1 implies rest[i] >= 128 by {
            assert(rest[i] == s[i + 1]);
        }
        lemma_canonical_is_encoding(rest);
        assert(var_value(rest) >= 1) by {
            if rest.len() == 1 {
                assert(var_value(rest.drop_first()) == 0);
            }
        }
        let v = var_value(s);
        assert(v == (s[0] % 128) as nat + 128 * var_value(rest));
        assert(v % 128 == s[0] % 128 && v / 128 == var_value(rest)) by (nonlinear_arith)
            requires
                v == (s[0] % 128) as nat + 128 * var_value(rest),
                0 <= s[0] % 128 < 128,
        ;
        assert(s[0] >= 128);
        assert((v % 128 + 128) as u8 == s[0]);
        assert(seq![s[0]] + rest == s);
    }
}

/// Reading the shortest encoding of a `u32`, and writing the value back, gives
/// the bytes that were read.
pub proof fn lemma_u32_var_decode_canonical(s: Seq<u8>)
    ensures
        spec_decode_var_u32(s) matches Ok((v, n)) ==> canonical(s.take(n as int)) && var_value(s.take(n as int))
            <= u32::MAX ==> var_encoding(v as nat) == s.take(n as int),
{
    if let Ok((v, n)) = spec_decode_var_u32(s) {
        if canonical(s.take(n as int)) && var_value(s.take(n as int)) <= u32::MAX {
            lemma_canonical_is_encoding(s.take(n as int));
        }
    }
}

} // verus!
