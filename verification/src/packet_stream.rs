//! What a packet-stream declaration decides: which packets of each connection
//! state travel in each direction, the ids they get, where lifetimes are
//! needed, and how sending or receiving a packet moves the connection state.
//!
//! A declaration lists the connection states in order; each state lists the
//! packet types it accepts. A packet whose type name ends in `S2c` travels to
//! the client, one whose name ends in `C2s` to the server.

use vstd::prelude::*;
use vstd::utf8::encode_utf8;

verus! {

/// The direction a packet travels.
#[derive(Clone, Copy, PartialEq, Eq, Structural, Debug)]
pub enum Bound {
    /// From the server to the client: packet names end in `S2c`.
    ClientBound,
    /// From the client to the server: packet names end in `C2s`.
    ServerBound,
}

/// One packet type of a connection state.
pub struct PacketDecl {
    /// The name of the packet type.
    pub name: String,
    /// Whether the type carries a lifetime parameter.
    pub has_lifetime: bool,
    /// The state that sending or receiving this packet moves the connection
    /// to, by its position among the states.
    pub change_state_to: Option<usize>,
    /// The id given to the packet, when it is not the next one in order.
    pub enforced_id: Option<u32>,
}

/// One connection state and the packet types it accepts.
pub struct StateDecl {
    /// The name of the state.
    pub name: String,
    /// The packet types of the state, in the order they are declared.
    pub packets: Vec<PacketDecl>,
}

/// A packet stream: its connection states in order.
pub struct PacketStreamDecl {
    /// The name of the connection-state type.
    pub name: String,
    /// The states, in the order they are declared.
    pub states: Vec<StateDecl>,
}

/// A packet of a stream: the state that declares it and its position among
/// that state's packets of one direction.
#[derive(Clone, Copy, PartialEq, Eq, Structural, Debug)]
pub struct PacketRef {
    /// The state that declares the packet.
    pub state: usize,
    /// The position of the packet among the state's packets of its direction.
    pub index: usize,
}

/// The name suffix of the packets of a direction.
pub open spec fn spec_suffix(bound: Bound) -> Seq<char> {
    match bound {
        Bound::ClientBound => "S2c"@,
        Bound::ServerBound => "C2s"@,
    }
}

/// The name of the type that gathers the packets of a direction.
pub open spec fn spec_bound_packet_ident(bound: Bound) -> Seq<char> {
    match bound {
        Bound::ClientBound => "ClientBoundPacket"@,
        Bound::ServerBound => "ServerBoundPacket"@,
    }
}

/// Whether the UTF-8 bytes of `name` end with those of `suffix`.
pub open spec fn name_ends_with(name: Seq<char>, suffix: Seq<char>) -> bool {
    let a = encode_utf8(name);
    let b = encode_utf8(suffix);
    b.len() <= a.len() && a.skip(a.len() - b.len()) == b
}

/// The positions of the packets whose names end with `suffix`, in order.
pub open spec fn filtered(packets: Seq<PacketDecl>, suffix: Seq<char>) -> Seq<usize>
    decreases packets.len(),
{
    if packets.len() == 0 {
        seq![]
    } else {
        let f = filtered(packets.drop_last(), suffix);
        if name_ends_with(packets.last().name@, suffix) {
            f.push((packets.len() - 1) as usize)
        } else {
            f
        }
    }
}

/// The ids of packets in order: a packet's enforced id when it has one,
/// otherwise one more than the id before it, and 0 for the first.
pub open spec fn discriminants(enforced: Seq<Option<u32>>) -> Seq<int>
    decreases enforced.len(),
{
    if enforced.len() == 0 {
        seq![]
    } else {
        let prev = discriminants(enforced.drop_last());
        let d = match enforced.last() {
            Some(i) => i as int,
            None => if prev.len() == 0 {
                0
            } else {
                prev.last() + 1
            },
        };
        prev.push(d)
    }
}

/// The enforced ids of the packets at the given positions.
pub open spec fn enforced_ids(packets: Seq<PacketDecl>, positions: Seq<usize>) -> Seq<Option<u32>> {
    positions.map_values(|i: usize| packets[i as int].enforced_id)
}

/// The packets of state `s` that travel in direction `bound`, by position.
pub open spec fn state_bound_packets(decl: PacketStreamDecl, s: int, bound: Bound) -> Seq<usize> {
    filtered(decl.states@[s].packets@, spec_suffix(bound))
}

/// The ids of the packets of state `s` that travel in direction `bound`.
pub open spec fn state_bound_ids(decl: PacketStreamDecl, s: int, bound: Bound) -> Seq<int> {
    discriminants(enforced_ids(decl.states@[s].packets@, state_bound_packets(decl, s, bound)))
}

/// The declaration of a packet.
pub open spec fn packet_decl(decl: PacketStreamDecl, bound: Bound, p: PacketRef) -> PacketDecl {
    decl.states@[p.state as int].packets@[state_bound_packets(decl, p.state as int, bound)[p.index as int] as int]
}

/// Whether a packet names a packet of the declaration.
pub open spec fn valid_packet(decl: PacketStreamDecl, bound: Bound, p: PacketRef) -> bool {
    &&& p.state < decl.states@.len()
    &&& p.index < state_bound_packets(decl, p.state as int, bound).len()
}

/// Whether every state that a packet moves the connection to is a state of
/// the declaration, and every id fits a `u32`.
pub open spec fn well_formed(decl: PacketStreamDecl) -> bool {
    &&& forall|s: int, i: int|
        0 <= s < decl.states@.len() && 0 <= i < decl.states@[s].packets@.len() ==> ((
        #[trigger] decl.states@[s].packets@[i]).change_state_to matches Some(t) ==> t
            < decl.states@.len())
    &&& forall|s: int, b: Bound, k: int|
        0 <= s < decl.states@.len() && 0 <= k < state_bound_ids(decl, s, b).len() ==> #[trigger] state_bound_ids(
            decl,
            s,
            b,
        )[k] <= u32::MAX
}

/// The id that a packet reports in connection state `current`: its id in the
/// state that declares it, nothing in any other state.
pub open spec fn spec_get_id(decl: PacketStreamDecl, bound: Bound, p: PacketRef, current: usize) -> Option<u32> {
    if current == p.state {
        Some(state_bound_ids(decl, p.state as int, bound)[p.index as int] as u32)
    } else {
        None
    }
}

/// The state that handling a packet moves the connection from `current` to.
pub open spec fn spec_next_state(decl: PacketStreamDecl, bound: Bound, p: PacketRef, current: usize) -> usize {
    match packet_decl(decl, bound, p).change_state_to {
        Some(t) => t,
        None => current,
    }
}

/// What receiving the `k`-th packet variant of the current state gives: the
/// packet and the next state; an error when the state has no such packet.
pub open spec fn spec_decode_step(decl: PacketStreamDecl, bound: Bound, k: usize, current: usize) -> Result<(PacketRef, usize), ()> {
    if current < decl.states@.len() && k < state_bound_packets(decl, current as int, bound).len() {
        let p = PacketRef { state: current, index: k };
        Ok((p, spec_next_state(decl, bound, p, current)))
    } else {
        Err(())
    }
}

impl Bound {
    /// The name suffix of the packets of this direction.
    pub fn suffix(&self) -> (r: &'static str)
        ensures
            r@ == spec_suffix(*self),
    {
        match self {
            Bound::ClientBound => "S2c",
            Bound::ServerBound => "C2s",
        }
    }

    /// The name of the type that gathers the packets of this direction.
    pub fn bound_packet_ident(&self) -> (r: &'static str)
        ensures
            r@ == spec_bound_packet_ident(*self),
    {
        match self {
            Bound::ClientBound => "ClientBoundPacket",
            Bound::ServerBound => "ServerBoundPacket",
        }
    }
}

/// Whether the UTF-8 bytes of `name` end with those of `suffix`.
pub fn ends_with(name: &str, suffix: &str) -> (r: bool)
    ensures
        r == name_ends_with(name@, suffix@),
{
    let a = name.as_bytes();
    let b = suffix.as_bytes();
    if b.len() > a.len() {
        return false;
    }
    let alen = a.len();
    let off = alen - b.len();
    let mut i: usize = 0;
    while i < b.len()
        invariant
            off + b@.len() == a@.len(),
            alen == a@.len(),
            a@ == encode_utf8(name@),
            b@ == encode_utf8(suffix@),
            i <= b@.len(),
            forall|j: int| 0 <= j < i ==> a@[off + j] == b@[j],
        decreases b@.len() - i,
    {
        if a[off + i] != b[i] {
            assert(a@.skip(off as int)[i as int] != b@[i as int]);
            return false;
        }
        i += 1;
    }
    assert(a@.skip(off as int) =~= b@);
    true
}

/// The positions of the packets whose names end with `suffix`, in order.
pub fn packets_filtered_with_suffix(packets: &Vec<PacketDecl>, suffix: &str) -> (r: Vec<usize>)
    ensures
        r@ == filtered(packets@, suffix@),
{
    let mut r: Vec<usize> = Vec::new();
    let mut i: usize = 0;
    while i < packets.len()
        invariant
            i <= packets@.len(),
            r@ == filtered(packets@.take(i as int), suffix@),
        decreases packets@.len() - i,
    {
        let keep = ends_with(packets[i].name.as_str(), suffix);
        proof {
            assert(packets@.take(i + 1).drop_last() == packets@.take(i as int));
        }
        if keep {
            r.push(i);
        }
        i += 1;
    }
    assert(packets@.take(i as int) == packets@);
    r
}

/// The ids of the packets at the given positions, as the enum that gathers
/// them numbers them; an error when one of them would not fit a `u32`.
pub fn ids_by_packets(packets: &Vec<PacketDecl>, positions: &Vec<usize>) -> (r: Result<Vec<u32>, ()>)
    requires
        forall|k: int| 0 <= k < positions@.len() ==> positions@[k] < packets@.len(),
    ensures
        r is Ok <==> forall|k: int|
            0 <= k < positions@.len() ==> #[trigger] discriminants(enforced_ids(packets@, positions@))[k]
                <= u32::MAX,
        r matches Ok(ids) ==> ids@.len() == positions@.len() && forall|k: int|
            0 <= k < positions@.len() ==> ids@[k] == discriminants(enforced_ids(packets@, positions@))[k],
{
    let ghost all = enforced_ids(packets@, positions@);
    let mut ids: Vec<u32> = Vec::new();
    let mut i: usize = 0;
    while i < positions.len()
        invariant
            i <= positions@.len(),
            all == enforced_ids(packets@, positions@),
            all.len() == positions@.len(),
            forall|k: int| 0 <= k < positions@.len() ==> positions@[k] < packets@.len(),
            ids@.len() == i,
            discriminants(all.take(i as int)).len() == i,
            forall|k: int| 0 <= k < i ==> ids@[k] == #[trigger] discriminants(all.take(i as int))[k],
        decreases positions@.len() - i,
    {
        let ghost prefix = all.take(i as int);
        let ghost next = all.take(i + 1);
        proof {
            assert(next.drop_last() == prefix);
            assert(next.last() == packets@[positions@[i as int] as int].enforced_id);
        }
        let d = match packets[positions[i]].enforced_id {
            Some(v) => v,
            None => if i == 0 {
                0
            } else if ids[i - 1] < u32::MAX {
                ids[i - 1] + 1
            } else {
                proof {
                    lemma_discriminants_prefix(all, (i + 1) as nat);
                    assert(discriminants(all)[i as int] == discriminants(next)[i as int]);
                }
                return Err(());
            },
        };
        ids.push(d);
        i += 1;
    }
    proof {
        assert(all.take(i as int) == all);
    }
    Ok(ids)
}

/// The ids of a prefix are the first ids of the whole.
pub proof fn lemma_discriminants_prefix(e: Seq<Option<u32>>, n: nat)
    requires
        n <= e.len(),
    ensures
        discriminants(e.take(n as int)).len() == n,
        discriminants(e).len() == e.len(),
        forall|k: int| 0 <= k < n ==> discriminants(e)[k] == #[trigger] discriminants(e.take(n as int))[k],
    decreases e.len(),
{
    if e.len() > 0 {
        if n == e.len() {
            assert(e.take(n as int) == e);
            lemma_discriminants_prefix(e.drop_last(), (n - 1) as nat);
        } else {
            lemma_discriminants_prefix(e.drop_last(), n);
            assert(e.drop_last().take(n as int) == e.take(n as int));
        }
    }
}

/// Whether state `s` has a packet of direction `bound` with a lifetime.
pub open spec fn spec_state_has_lifetime(decl: PacketStreamDecl, s: int, bound: Bound) -> bool {
    exists|k: int|
        0 <= k < state_bound_packets(decl, s, bound).len() && (#[trigger] decl.states@[s].packets@[state_bound_packets(
            decl,
            s,
            bound,
        )[k] as int]).has_lifetime
}

/// The packets of state `s` that travel in direction `bound`, by position.
pub fn bound_packets(decl: &PacketStreamDecl, s: usize, bound: Bound) -> (r: Vec<usize>)
    requires
        s < decl.states@.len(),
    ensures
        r@ == state_bound_packets(*decl, s as int, bound),
{
    packets_filtered_with_suffix(&decl.states[s].packets, bound.suffix())
}

/// Whether state `s` has a packet of direction `bound` with a lifetime: then
/// the enum that gathers them needs one too.
pub fn state_has_lifetime(decl: &PacketStreamDecl, s: usize, bound: Bound) -> (r: bool)
    requires
        s < decl.states@.len(),
    ensures
        r == spec_state_has_lifetime(*decl, s as int, bound),
{
    let positions = bound_packets(decl, s, bound);
    proof {
        lemma_filtered_in_range(decl.states@[s as int].packets@, spec_suffix(bound));
    }
    let mut k: usize = 0;
    while k < positions.len()
        invariant
            k <= positions@.len(),
            s < decl.states@.len(),
            positions@ == state_bound_packets(*decl, s as int, bound),
            forall|j: int| 0 <= j < positions@.len() ==> positions@[j] < decl.states@[s as int].packets@.len(),
            forall|j: int|
                0 <= j < k ==> !(#[trigger] decl.states@[s as int].packets@[positions@[j] as int]).has_lifetime,
        decreases positions@.len() - k,
    {
        if decl.states[s].packets[positions[k]].has_lifetime {
            return true;
        }
        k += 1;
    }
    false
}

/// Whether some state has a packet of direction `bound` with a lifetime: then
/// the type that gathers all of them needs one too.
pub fn bound_has_lifetime(decl: &PacketStreamDecl, bound: Bound) -> (r: bool)
    ensures
        r == exists|s: int| 0 <= s < decl.states@.len() && #[trigger] spec_state_has_lifetime(*decl, s, bound),
{
    let mut s: usize = 0;
    while s < decl.states.len()
        invariant
            s <= decl.states@.len(),
            forall|j: int| 0 <= j < s ==> !#[trigger] spec_state_has_lifetime(*decl, j, bound),
        decreases decl.states@.len() - s,
    {
        if state_has_lifetime(decl, s, bound) {
            return true;
        }
        s += 1;
    }
    false
}

/// The positions that `filtered` gives are positions of the packets.
pub proof fn lemma_filtered_in_range(packets: Seq<PacketDecl>, suffix: Seq<char>)
    ensures
        forall|j: int| 0 <= j < filtered(packets, suffix).len() ==> #[trigger] filtered(packets, suffix)[j] < packets.len(),
        filtered(packets, suffix).len() <= packets.len(),
    decreases packets.len(),
{
    if packets.len() > 0 {
        lemma_filtered_in_range(packets.drop_last(), suffix);
    }
}

/// The id that packet `p` reports in connection state `current`: its id when
/// the connection is in the state that declares it, nothing otherwise.
pub fn get_id(decl: &PacketStreamDecl, bound: Bound, p: PacketRef, current: usize) -> (r: Option<u32>)
    requires
        well_formed(*decl),
        valid_packet(*decl, bound, p),
    ensures
        r == spec_get_id(*decl, bound, p, current),
{
    if current != p.state {
        return None;
    }
    let positions = bound_packets(decl, p.state, bound);
    proof {
        lemma_filtered_in_range(decl.states@[p.state as int].packets@, spec_suffix(bound));
        lemma_discriminants_prefix(enforced_ids(decl.states@[p.state as int].packets@, positions@), 0);
        assert forall|k: int| 0 <= k < positions@.len() implies #[trigger] discriminants(
            enforced_ids(decl.states@[p.state as int].packets@, positions@),
        )[k] <= u32::MAX by {
            assert(state_bound_ids(*decl, p.state as int, bound)[k] <= u32::MAX);
        }
    }
    match ids_by_packets(&decl.states[p.state].packets, &positions) {
        Ok(ids) => Some(ids[p.index]),
        Err(_) => None,
    }
}

/// The state that handling packet `p` moves the connection to, if it moves it.
pub fn is_changing_state(decl: &PacketStreamDecl, bound: Bound, p: PacketRef) -> (r: Option<usize>)
    requires
        valid_packet(*decl, bound, p),
    ensures
        r == packet_decl(*decl, bound, p).change_state_to,
{
    let positions = bound_packets(decl, p.state, bound);
    proof {
        lemma_filtered_in_range(decl.states@[p.state as int].packets@, spec_suffix(bound));
    }
    decl.states[p.state].packets[positions[p.index]].change_state_to
}

/// Sending packet `p`: moves the connection state where the packet says.
pub fn encode_packet(decl: &PacketStreamDecl, bound: Bound, p: PacketRef, state: &mut usize)
    requires
        valid_packet(*decl, bound, p),
    ensures
        *final(state) == spec_next_state(*decl, bound, p, *old(state)),
{
    if let Some(new_state) = is_changing_state(decl, bound, p) {
        *state = new_state;
    }
}

/// Receiving the `k`-th packet variant of the current state: the packet, with
/// the connection state moved where it says; an error, with the state kept,
/// when the current state has no such packet.
pub fn decode_packet(decl: &PacketStreamDecl, bound: Bound, k: usize, state: &mut usize) -> (r: Result<PacketRef, ()>)
    ensures
        match spec_decode_step(*decl, bound, k, *old(state)) {
            Ok((p, next)) => r == Ok::<PacketRef, ()>(p) && *final(state) == next,
            Err(_) => r is Err && *final(state) == *old(state),
        },
{
    let current = *state;
    if current >= decl.states.len() {
        return Err(());
    }
    let positions = bound_packets(decl, current, bound);
    if k >= positions.len() {
        return Err(());
    }
    let p = PacketRef { state: current, index: k };
    encode_packet(decl, bound, p, state);
    Ok(p)
}

/// An attribute of a packet field, as far as the declaration reads it.
pub struct AttrDecl {
    /// The attribute's path, when it is a single identifier.
    pub ident: Option<String>,
    /// Whether the attribute has a parenthesised list, `#[name(...)]`.
    pub is_list: bool,
}

/// Whether attribute `a` is `#[name(...)]`.
pub open spec fn is_list_attr_named(a: AttrDecl, name: Seq<char>) -> bool {
    a.is_list && (a.ident matches Some(id) && id@ == name)
}

/// The position of the first attribute `#[name(...)]` among `attrs`, if any:
/// the attribute that sets a packet's target state or its id.
pub fn find_ident_in_attrs(attrs: &Vec<AttrDecl>, name: &String) -> (r: Option<usize>)
    ensures
        r matches Some(i) ==> i < attrs@.len() && is_list_attr_named(attrs@[i as int], name@) && forall|j: int|
            0 <= j < i ==> !is_list_attr_named(#[trigger] attrs@[j], name@),
        r is None ==> forall|j: int| 0 <= j < attrs@.len() ==> !is_list_attr_named(#[trigger] attrs@[j], name@),
{
    let mut i: usize = 0;
    while i < attrs.len()
        invariant
            i <= attrs@.len(),
            forall|j: int| 0 <= j < i ==> !is_list_attr_named(#[trigger] attrs@[j], name@),
        decreases attrs@.len() - i,
    {
        if attrs[i].is_list {
            match &attrs[i].ident {
                Some(id) => {
                    if id.eq(name) {
                        return Some(i);
                    }
                },
                None => {},
            }
        }
        i += 1;
    }
    None
}

/// Whether a packet's type path is taken to carry a lifetime: whenever it is
/// not a bare identifier, that is, when it has a leading `::`, more than one
/// segment, or generic arguments.
pub fn path_has_lifetime(leading_colon: bool, segments: usize, has_arguments: bool) -> (r: bool)
    ensures
        r == !(!leading_colon && segments == 1 && !has_arguments),
{
    leading_colon || segments != 1 || has_arguments
}

/// How many of `packets` have names that end with `suffix`.
pub open spec fn count_with_suffix(packets: Seq<PacketDecl>, suffix: Seq<char>) -> nat
    decreases packets.len(),
{
    if packets.len() == 0 {
        0
    } else {
        count_with_suffix(packets.drop_last(), suffix) + if name_ends_with(packets.last().name@, suffix) {
            1nat
        } else {
            0nat
        }
    }
}

/// The `k`-th position that `filtered` gives is a packet of that direction
/// with exactly `k` packets of the direction before it.
pub proof fn lemma_filtered_kth(packets: Seq<PacketDecl>, suffix: Seq<char>, k: int)
    requires
        0 <= k < filtered(packets, suffix).len(),
        packets.len() <= usize::MAX,
    ensures
        filtered(packets, suffix)[k] < packets.len(),
        name_ends_with(packets[filtered(packets, suffix)[k] as int].name@, suffix),
        count_with_suffix(packets.take(filtered(packets, suffix)[k] as int), suffix) == k,
    decreases packets.len(),
{
    let init = packets.drop_last();
    let f = filtered(init, suffix);
    lemma_filtered_len(init, suffix);
    if k < f.len() {
        lemma_filtered_kth(init, suffix, k);
        assert(filtered(packets, suffix)[k] == f[k]);
        let i = f[k] as int;
        assert(init.take(i) == packets.take(i));
        assert(init[i] == packets[i]);
    } else {
        assert(name_ends_with(packets.last().name@, suffix));
        assert(filtered(packets, suffix) == f.push((packets.len() - 1) as usize));
        assert(filtered(packets, suffix)[k] == packets.len() - 1);
        assert(packets.take(packets.len() - 1) == init);
    }
}

/// `filtered` gives one position per packet of the direction.
pub proof fn lemma_filtered_len(packets: Seq<PacketDecl>, suffix: Seq<char>)
    ensures
        filtered(packets, suffix).len() == count_with_suffix(packets, suffix),
    decreases packets.len(),
{
    if packets.len() > 0 {
        lemma_filtered_len(packets.drop_last(), suffix);
    }
}

/// The packet that a reference names is the `p.index`-th packet of its
/// direction in its state, counting only the packets of that direction: a
/// declared packet whose name ends with the direction's suffix, with exactly
/// `p.index` such packets declared before it. This is the packet whose id,
/// and whose target state, sending or receiving it uses.
pub proof fn lemma_packet_decl_is_indexth_of_direction(decl: PacketStreamDecl, bound: Bound, p: PacketRef)
    requires
        valid_packet(decl, bound, p),
        decl.states@[p.state as int].packets@.len() <= usize::MAX,
    ensures
        exists|i: int|
            0 <= i < decl.states@[p.state as int].packets@.len() && packet_decl(decl, bound, p)
                == decl.states@[p.state as int].packets@[i] && name_ends_with(
                decl.states@[p.state as int].packets@[i].name@,
                spec_suffix(bound),
            ) && count_with_suffix(decl.states@[p.state as int].packets@.take(i), spec_suffix(bound))
                == p.index,
{
    let packets = decl.states@[p.state as int].packets@;
    lemma_filtered_kth(packets, spec_suffix(bound), p.index as int);
    let i = filtered(packets, spec_suffix(bound))[p.index as int] as int;
    assert(packet_decl(decl, bound, p) == packets[i]);
}

/// A packet reports an id exactly when the connection is in the state that
/// declares it.
pub proof fn lemma_get_id_only_in_own_state(decl: PacketStreamDecl, bound: Bound, p: PacketRef, current: usize)
    ensures
        spec_get_id(decl, bound, p, current) is Some <==> current == p.state,
{
}

/// A sender and a receiver that start in the same connection state stay in
/// the same state: receiving the variant of a packet of the current state
/// gives that packet back and moves to the state that sending it moves to.
pub proof fn lemma_lockstep(decl: PacketStreamDecl, bound: Bound, p: PacketRef)
    requires
        valid_packet(decl, bound, p),
    ensures
        spec_decode_step(decl, bound, p.index, p.state) == Ok::<(PacketRef, usize), ()>(
            (p, spec_next_state(decl, bound, p, p.state)),
        ),
{
}

/// In a well-formed declaration, handling a packet never leaves the declared
/// states.
pub proof fn lemma_next_state_valid(decl: PacketStreamDecl, bound: Bound, p: PacketRef, current: usize)
    requires
        well_formed(decl),
        valid_packet(decl, bound, p),
        current < decl.states@.len(),
    ensures
        spec_next_state(decl, bound, p, current) < decl.states@.len(),
{
    let positions = state_bound_packets(decl, p.state as int, bound);
    lemma_filtered_in_range(decl.states@[p.state as int].packets@, spec_suffix(bound));
    let i = positions[p.index as int] as int;
    assert(decl.states@[p.state as int].packets@[i].change_state_to matches Some(t) ==> t < decl.states@.len());
}

/// Without enforced ids, packets are numbered from 0 in the order they are
/// declared.
pub proof fn lemma_ids_sequential(enforced: Seq<Option<u32>>)
    requires
        forall|k: int| 0 <= k < enforced.len() ==> #[trigger] enforced[k] is None,
    ensures
        discriminants(enforced).len() == enforced.len(),
        forall|k: int| 0 <= k < enforced.len() ==> #[trigger] discriminants(enforced)[k] == k,
    decreases enforced.len(),
{
    if enforced.len() > 0 {
        lemma_ids_sequential(enforced.drop_last());
    }
}

/// After a packet with an enforced id, the packets without one carry on from
/// it: each one more than the one before.
pub proof fn lemma_ids_follow(enforced: Seq<Option<u32>>, k: int)
    requires
        0 < k < enforced.len(),
        enforced[k] is None,
    ensures
        discriminants(enforced).len() == enforced.len(),
        discriminants(enforced)[k] == discriminants(enforced)[k - 1] + 1,
{
    lemma_discriminants_prefix(enforced, (k + 1) as nat);
    lemma_discriminants_prefix(enforced, k as nat);
    lemma_discriminants_prefix(enforced.take(k), k as nat);
    let pre = enforced.take(k);
    let cur = enforced.take(k + 1);
    assert(cur.drop_last() == pre);
    assert(cur.last() == enforced[k]);
    let prev = discriminants(pre);
    assert(prev.len() == k);
    assert(discriminants(cur) == prev.push(prev.last() + 1));
    assert(discriminants(enforced)[k - 1] == prev[k - 1]);
    assert(discriminants(enforced)[k] == discriminants(cur)[k]);
    assert(prev.last() == prev[k - 1]);
}

} // verus!
