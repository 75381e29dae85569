# packetize

Packet encoding and decoding for network protocols, verified with Verus.

- `src/var_int.rs`: variable-length `u32` integers (seven bits per byte,
  high bit set while more bytes follow), with the proofs that reading gives
  back what writing wrote and that the shortest encoding is what is written.
- `src/traits.rs`, `src/impls.rs`: the `Encode`/`Decode` traits and the byte
  layout of integers (big-endian), `bool`, `()`, `Option`, `Result`, tuples,
  boxes and byte arrays; `Codec` holds the round-trip proof of each.
- `src/arrayvec.rs`, `src/fast_collections.rs`: length-prefixed byte strings
  and sequences, with the length as a variable-length integer or as the
  LEB128 of the `integer-encoding` crate.
- `src/uuid_codec.rs`, `src/nonmax_codec.rs`: UUIDs and non-max integers.
- `src/packet_stream.rs`: what a packet-stream declaration decides: the
  packets of each state and direction, their ids, lifetimes, and how sending
  and receiving move the connection state.
- `src/packetize.rs`: what the `Encode`/`Decode` derives write for a type.
- `app/`: the token-level front end of the attribute and the derives, the
  glue to `fastbuf` buffers and `arrayvec` collections, and float codecs.
