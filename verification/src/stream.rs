//! The per-type view of a packet: its id and state change depend on the type
//! alone.

use vstd::prelude::*;

verus! {

/// A packet type of a stream whose connection state has type `T`.
pub trait Packet<T> {
    /// The id of the packet type in connection state `state`, when the state
    /// accepts it.
    fn get_id(state: &T) -> Option<u32>;

    /// The connection state that handling a packet of this type moves to, if
    /// it moves.
    fn is_changing_state() -> Option<T>;
}

} // verus!
