//! A UUID takes its sixteen bytes as they are.

use vstd::prelude::*;
use ::uuid::Uuid;
use crate::traits::{Decode, Encode};

verus! {

/// The UUID type of the `uuid` crate, carried through as an opaque value.
#[verifier::external_type_specification]
#[verifier::external_body]
pub struct ExUuid(::uuid::Uuid);

/// The error type of the `uuid` crate.
#[verifier::external_type_specification]
#[verifier::external_body]
pub struct ExUuidError(::uuid::Error);

/// The bytes that `Uuid::as_bytes` gives for a UUID.
pub uninterp spec fn uuid_bytes(u: Uuid) -> Seq<u8>;

/// The UUID that `Uuid::from_slice` builds from sixteen bytes.
pub uninterp spec fn uuid_from_bytes(bytes: Seq<u8>) -> Uuid;

/// `Uuid::as_bytes`: the sixteen bytes of the UUID. A UUID is nothing but
/// these bytes, so building one from them gives it back.
#[verifier::external_body]
fn uuid_as_bytes(u: &Uuid) -> (r: &[u8; 16])
    ensures
        r@ == uuid_bytes(*u),
        r@.len() == 16,
        uuid_from_bytes(r@) == *u,
{
    u.as_bytes()
}

/// `Uuid::from_slice`: the UUID of exactly sixteen bytes, whose bytes are
/// those; an error for a slice of any other length.
#[verifier::external_body]
fn uuid_from_slice(bytes: &[u8]) -> (r: Result<Uuid, ::uuid::Error>)
    ensures
        r is Err <==> bytes@.len() != 16,
        r matches Ok(u) ==> u == uuid_from_bytes(bytes@) && uuid_bytes(u) == bytes@,
{
    Uuid::from_slice(bytes)
}

/// A UUID takes its sixteen bytes.
impl Encode for Uuid {
    open spec fn spec_encode(&self) -> Seq<u8> {
        uuid_bytes(*self)
    }

    /// Besides appending its bytes: a UUID takes sixteen bytes, and reading
    /// them back, whatever follows, gives the same UUID.
    fn encode(&self, out: &mut Vec<u8>)
        ensures
            uuid_bytes(*self).len() == 16,
            uuid_from_bytes(uuid_bytes(*self)) == *self,
            forall|rest: Seq<u8>|
                #[trigger] Uuid::spec_decode(self.spec_encode() + rest) == Ok::<(Uuid, nat), ()>(
                    (*self, 16),
                ),
    {
        let bytes = uuid_as_bytes(self);
        proof {
            assert forall|rest: Seq<u8>|
                #[trigger] Uuid::spec_decode(self.spec_encode() + rest) == Ok::<(Uuid, nat), ()>(
                    (*self, 16),
                ) by {
                assert((bytes@ + rest).take(16) == bytes@);
            }
        }
        let ghost start = out@;
        let mut i: usize = 0;
        while i < 16
            invariant
                i <= 16,
                bytes@.len() == 16,
                out@ == start + bytes@.take(i as int),
            decreases 16 - i,
        {
            out.push(bytes[i]);
            i += 1;
            assert(bytes@.take(i as int) == bytes@.take(i - 1).push(bytes@[i - 1]));
        }
        assert(bytes@.take(16) == bytes@);
    }
}

impl Decode for Uuid {
    open spec fn spec_decode(s: Seq<u8>) -> Result<(Uuid, nat), ()> {
        if s.len() >= 16 {
            Ok((uuid_from_bytes(s.take(16)), 16))
        } else {
            Err(())
        }
    }

    fn decode(input: &[u8]) -> (r: Result<(Uuid, usize), ()>) {
        let k = if input.len() < 16 { input.len() } else { 16 };
        let head = &input[0..k];
        assert(head@ == input@.take(k as int));
        match uuid_from_slice(head) {
            Ok(u) => Ok((u, 16)),
            Err(_) => Err(()),
        }
    }

    proof fn lemma_decode_len(s: Seq<u8>) {
    }

    proof fn lemma_decode_extend(s: Seq<u8>, t: Seq<u8>) {
        if s.len() >= 16 {
            assert((s + t).take(16) == s.take(16));
        }
    }
}

} // verus!
