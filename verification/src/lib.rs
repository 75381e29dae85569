//! Packet encoding and decoding: variable-length integers, the byte layout of
//! the primitive types, length-prefixed collections, and what a packet-stream
//! declaration decides about the packets of each connection state.

use vstd::prelude::*;

pub mod arrayvec;
pub mod fast_collections;
pub mod impls;
pub mod nonmax_codec;
pub mod packet_stream;
pub mod packetize;
pub mod stream;
pub mod traits;
pub mod uuid_codec;
pub mod var_int;

verus! {

/// A packet of a stream whose connection state has type `T`.
pub trait Packet<T> {
    /// The id of the packet in connection state `state`, when the state
    /// accepts it.
    fn get_id(&self, state: &T) -> Option<u32>;

    /// The connection state that handling the packet moves to, if it moves.
    fn is_changing_state(&self) -> Option<T>;
}

/// A packet that can be sent: it appends its bytes to `out` and moves the
/// connection state as sending it requires.
pub trait EncodePacket<T> {
    /// Appends the packet to `out`, updating the connection state.
    fn encode_packet(&self, out: &mut Vec<u8>, state: &mut T) -> Result<(), ()>;
}

/// A packet that can be received: it is read from the start of `input` as
/// the connection state says, and moves the state as receiving it requires.
pub trait DecodePacket<T>: Sized {
    /// Reads a packet from the start of `input`, updating the connection state:
    /// the packet and the number of bytes read.
    fn decode_packet(input: &[u8], state: &mut T) -> Result<(Self, usize), ()>;
}

} // verus!
