use packetize::packet_stream::{
    bound_has_lifetime, bound_packets, decode_packet, encode_packet, ends_with, get_id,
    ids_by_packets, is_changing_state, packets_filtered_with_suffix, state_has_lifetime, Bound,
    PacketDecl, PacketRef, PacketStreamDecl, StateDecl,
};

fn packet(name: &str, has_lifetime: bool, change_state_to: Option<usize>, enforced_id: Option<u32>) -> PacketDecl {
    PacketDecl { name: name.to_string(), has_lifetime, change_state_to, enforced_id }
}

const HAND_SHAKE: usize = 0;
const LOGIN: usize = 1;

fn conn_state() -> PacketStreamDecl {
    PacketStreamDecl {
        name: "ConnState".to_string(),
        states: vec![
            StateDecl { name: "HandShake".to_string(), packets: vec![packet("HandShakeC2s", false, None, None)] },
            StateDecl {
                name: "Login".to_string(),
                packets: vec![
                    packet("LoginStartC2s", false, None, Some(0x00)),
                    packet("LoginSuccessS2c", false, None, Some(0x01)),
                    packet("EncryptionRequestC2s", false, None, Some(0x02)),
                    packet("EncryptionResponseS2c", true, None, Some(0x03)),
                    packet("TestPacketS2c", true, None, Some(0x04)),
                ],
            },
        ],
    }
}

#[test]
fn test_stream3() {
    let decl = conn_state();
    let conn_state = HAND_SHAKE;
    // HandShakeC2s is the only server-bound packet of HandShake.
    assert_eq!(bound_packets(&decl, HAND_SHAKE, Bound::ServerBound), vec![0]);
    assert_eq!(bound_packets(&decl, HAND_SHAKE, Bound::ClientBound), Vec::<usize>::new());
    let packet = PacketRef { state: HAND_SHAKE, index: 0 };
    assert_eq!(get_id(&decl, Bound::ServerBound, packet, conn_state), Some(0));
}

#[test]
fn test_change_state() {
    let decl = PacketStreamDecl {
        name: "PacketStreamState".to_string(),
        states: vec![
            StateDecl { name: "HandShake".to_string(), packets: vec![packet("HandShakeS2c", false, Some(LOGIN), None)] },
            StateDecl {
                name: "Login".to_string(),
                packets: vec![packet("LoginRequestS2c", false, None, None), packet("LoginSuccessC2s", false, None, None)],
            },
        ],
    };
    let mut state = HAND_SHAKE;
    let sent = PacketRef { state: HAND_SHAKE, index: 0 };
    encode_packet(&decl, Bound::ClientBound, sent, &mut state);
    assert_eq!(state, LOGIN);
    state = HAND_SHAKE;
    let decoded = decode_packet(&decl, Bound::ClientBound, 0, &mut state).unwrap();
    assert_eq!(decoded, sent);
    assert_eq!(state, LOGIN);
    // The login state has one client-bound packet: a second variant is refused.
    assert_eq!(decode_packet(&decl, Bound::ClientBound, 1, &mut state), Err(()));
    assert_eq!(state, LOGIN);
}

#[test]
fn ids_follow_enforced_ones() {
    let packets = vec![
        packet("AS2c", false, None, None),
        packet("BS2c", false, None, Some(10)),
        packet("CS2c", false, None, None),
        packet("DC2s", false, None, None),
        packet("ES2c", false, None, Some(3)),
        packet("FS2c", false, None, None),
    ];
    let positions = packets_filtered_with_suffix(&packets, "S2c");
    assert_eq!(positions, vec![0, 1, 2, 4, 5]);
    assert_eq!(ids_by_packets(&packets, &positions), Ok(vec![0, 10, 11, 3, 4]));
    assert_eq!(packets_filtered_with_suffix(&packets, "C2s"), vec![3]);
    let overflow = vec![packet("AS2c", false, None, Some(u32::MAX)), packet("BS2c", false, None, None)];
    assert_eq!(ids_by_packets(&overflow, &vec![0, 1]), Err(()));
}

#[test]
fn get_id_only_in_own_state() {
    let decl = conn_state();
    let p = PacketRef { state: LOGIN, index: 1 };
    assert_eq!(get_id(&decl, Bound::ClientBound, p, LOGIN), Some(3));
    assert_eq!(get_id(&decl, Bound::ClientBound, p, HAND_SHAKE), None);
    assert_eq!(is_changing_state(&decl, Bound::ClientBound, p), None);
}

#[test]
fn lifetimes_and_suffixes() {
    let decl = conn_state();
    assert!(state_has_lifetime(&decl, LOGIN, Bound::ClientBound));
    assert!(!state_has_lifetime(&decl, LOGIN, Bound::ServerBound));
    assert!(bound_has_lifetime(&decl, Bound::ClientBound));
    assert!(!bound_has_lifetime(&decl, Bound::ServerBound));
    assert!(ends_with("TestPacketS2c", "S2c"));
    assert!(!ends_with("S2", "S2c"));
    assert_eq!(Bound::ClientBound.suffix(), "S2c");
    assert_eq!(Bound::ServerBound.bound_packet_ident(), "ServerBoundPacket");
}
