use axon_objects::object::{
    ChannelCounterparty, ChannelEnd, ConnectionCounterparty, ConnectionEnd, Object, Ordering,
    Packet, PacketAck, State, VerifyError, Version, COMMITMENT_PREFIX,
};

fn sample_packet() -> Packet {
    Packet {
        sequence: 5,
        source_port_id: "p1".to_string(),
        source_channel_id: "channel-0".to_string(),
        destination_port_id: "p1".to_string(),
        destination_channel_id: "channel-1".to_string(),
        data: vec![1, 2, 3],
        timeout_height: 100,
        timeout_timestamp: 0,
    }
}

fn sample_connection_end() -> ConnectionEnd {
    ConnectionEnd {
        state: State::OpenTry,
        client_id: "07-axon-0".to_string(),
        counterparty: ConnectionCounterparty {
            client_id: "07-tendermint-3".to_string(),
            connection_id: Some("connection-2".to_string()),
            commitment_prefix: b"ibc".to_vec(),
        },
        delay_period: 600,
        versions: vec![Version::default()],
    }
}

fn sample_channel_end() -> ChannelEnd {
    ChannelEnd {
        state: State::Open,
        ordering: Ordering::Unordered,
        remote: ChannelCounterparty {
            port_id: "transfer".to_string(),
            channel_id: "channel-4".to_string(),
        },
        connection_hops: vec!["connection-0".to_string()],
    }
}

#[test]
fn encode_decode_state() {
    let mut states = Vec::new();
    states.push(State::Unknown);
    states.push(State::Init);
    states.push(State::OpenTry);
    states.push(State::Open);
    states.push(State::Closed);
    states.push(State::Frozen);

    for i in 1..states.len() {
        let state = states[i - 1];
        let data = state.encode();
        let actual = State::decode(&data).unwrap();
        assert_eq!(actual, states[i - 1]);
    }
}

#[test]
fn encode_decode_ordering() {
    let mut orderings = Vec::new();

    orderings.push(Ordering::Unknown);
    orderings.push(Ordering::Unordered);
    orderings.push(Ordering::Ordered);

    for i in 1..orderings.len() {
        let ordering = orderings[i - 1];
        let data = ordering.encode();
        let actual = Ordering::decode(&data).unwrap();
        assert_eq!(actual, orderings[i - 1]);
    }
}

#[test]
fn every_state_and_ordering_round_trips() {
    for s in [State::Unknown, State::Init, State::OpenTry, State::Open, State::Closed, State::Frozen] {
        assert_eq!(State::decode(&s.encode()).unwrap(), s);
    }
    for o in [Ordering::Unknown, Ordering::Unordered, Ordering::Ordered] {
        assert_eq!(Ordering::decode(&o.encode()).unwrap(), o);
    }
}

#[test]
fn state_tags_are_one_element_lists() {
    assert_eq!(State::Unknown.encode(), vec![0xc1, 0x01]);
    assert_eq!(State::Frozen.encode(), vec![0xc1, 0x06]);
    assert_eq!(Ordering::Ordered.encode(), vec![0xc1, 0x03]);
}

#[test]
fn state_tags_outside_range_are_rejected() {
    for tag in [0u8, 7, 255] {
        let mut s = rlp::RlpStream::new_list(1);
        s.append(&tag);
        let data = s.out().to_vec();
        assert!(matches!(State::decode(&data), Err(VerifyError::SerdeError)));
    }
    for tag in 1u8..=6 {
        assert_eq!(State::decode(&[0xc1, tag]).unwrap().tag(), tag);
    }
}

#[test]
fn ordering_tags_outside_range_are_rejected() {
    for tag in [0u8, 4, 7, 255] {
        let mut s = rlp::RlpStream::new_list(1);
        s.append(&tag);
        let data = s.out().to_vec();
        assert!(matches!(Ordering::decode(&data), Err(VerifyError::SerdeError)));
    }
    for tag in 1u8..=3 {
        assert_eq!(Ordering::decode(&[0xc1, tag]).unwrap().tag(), tag);
    }
}

#[test]
fn packet_scenario_round_trip() {
    let packet = sample_packet();
    let data = packet.encode();
    let decoded = Packet::decode(&data).unwrap();
    assert_eq!(decoded.sequence, 5);
    assert_eq!(decoded.source_port_id, "p1");
    assert_eq!(decoded.source_channel_id, "channel-0");
    assert_eq!(decoded.destination_port_id, "p1");
    assert_eq!(decoded.destination_channel_id, "channel-1");
    assert_eq!(decoded.data, vec![1, 2, 3]);
    assert_eq!(decoded.timeout_height, 100);
    assert_eq!(decoded.timeout_timestamp, 0);
    let mut next = sample_packet();
    next.sequence = 6;
    assert!(decoded.equal_unless_sequence(&next));
}

#[test]
fn packet_bytes_match_rlp_crate() {
    let packet = sample_packet();
    let mut s = rlp::RlpStream::new_list(8);
    s.append(&5u16);
    s.append(&"p1");
    s.append(&"channel-0");
    s.append(&"p1");
    s.append(&"channel-1");
    s.append(&vec![1u8, 2, 3]);
    s.append(&100u64);
    s.append(&0u64);
    assert_eq!(packet.encode(), s.out().to_vec());
}

#[test]
fn packet_exact_bytes() {
    let expected: Vec<u8> = vec![
        0xe1, 0x05, 0x82, b'p', b'1', 0x89, b'c', b'h', b'a', b'n', b'n', b'e', b'l', b'-', b'0',
        0x82, b'p', b'1', 0x89, b'c', b'h', b'a', b'n', b'n', b'e', b'l', b'-', b'1', 0x83, 1, 2, 3,
        0x64, 0x80,
    ];
    assert_eq!(sample_packet().encode(), expected);
}

#[test]
fn connection_end_bytes_match_rlp_crate() {
    let end = sample_connection_end();
    let mut s = rlp::RlpStream::new_list(5);
    s.begin_list(1);
    s.append(&3u8);
    s.append(&"07-axon-0");
    s.begin_list(3);
    s.append(&"07-tendermint-3");
    s.begin_list(1);
    s.append(&"connection-2");
    s.append(&b"ibc".to_vec());
    s.append(&600u64);
    s.begin_list(1);
    s.begin_list(2);
    s.append(&"1");
    s.begin_list(2);
    s.append(&"ORDER_ORDERED");
    s.append(&"ORDER_UNORDERED");
    assert_eq!(end.encode(), s.out().to_vec());
}

#[test]
fn connection_end_round_trip() {
    let end = sample_connection_end();
    let decoded = ConnectionEnd::decode(&end.encode()).unwrap();
    assert_eq!(decoded, end);
}

#[test]
fn channel_end_round_trip() {
    let end = sample_channel_end();
    let decoded = ChannelEnd::decode(&end.encode()).unwrap();
    assert_eq!(decoded.state, State::Open);
    assert_eq!(decoded.ordering, Ordering::Unordered);
    assert_eq!(decoded.remote, end.remote);
    assert_eq!(decoded.connection_hops, end.connection_hops);
}

#[test]
fn channel_end_bytes_match_rlp_crate() {
    let end = sample_channel_end();
    let mut s = rlp::RlpStream::new_list(4);
    s.begin_list(1);
    s.append(&4u8);
    s.begin_list(1);
    s.append(&2u8);
    s.begin_list(2);
    s.append(&"transfer");
    s.append(&"channel-4");
    s.begin_list(1);
    s.append(&"connection-0");
    assert_eq!(end.encode(), s.out().to_vec());
}

#[test]
fn packet_ack_round_trip() {
    let ack = PacketAck { ack: vec![0x01], packet: sample_packet() };
    let decoded = PacketAck::decode(&ack.encode()).unwrap();
    assert_eq!(decoded.ack, vec![0x01]);
    assert!(decoded.packet == sample_packet());
}

#[test]
fn long_payload_round_trip() {
    let mut packet = sample_packet();
    packet.data = (0..300u32).map(|i| (i % 256) as u8).collect();
    packet.timeout_timestamp = u64::MAX;
    packet.sequence = u16::MAX;
    let data = packet.encode();
    assert_eq!(data[0], 0xf9);
    let decoded = Packet::decode(&data).unwrap();
    assert!(decoded == packet);
}

#[test]
fn version_default_and_round_trip() {
    let v = Version::default();
    assert_eq!(v.identifier, "1");
    assert_eq!(v.features, vec!["ORDER_ORDERED".to_string(), "ORDER_UNORDERED".to_string()]);
    assert_eq!(Version::decode(&v.encode()).unwrap(), v);
}

#[test]
fn defaults_are_canonical() {
    let cp = ConnectionCounterparty::default();
    assert_eq!(cp.commitment_prefix, COMMITMENT_PREFIX.to_vec());
    assert_eq!(cp.commitment_prefix, b"ibc".to_vec());
    assert_eq!(cp.connection_id, None);
    assert_eq!(cp.client_id, "");
    let end = ConnectionEnd::default();
    assert_eq!(end.client_id, "0".repeat(64));
    assert_eq!(end.state, State::Unknown);
    assert!(end.versions.is_empty());
    let p = Packet::default();
    assert_eq!(p.source_port_id, "0".repeat(64));
    assert_eq!(p.destination_port_id, "0".repeat(64));
    assert_eq!(p.source_channel_id, "channel-0");
    assert_eq!(p.destination_channel_id, "channel-0");
    assert_eq!(p.sequence, 0);
    assert_eq!(State::default(), State::Unknown);
    assert_eq!(Ordering::default(), Ordering::Unknown);
}

#[test]
fn equal_unless_sequence_cases() {
    let a = sample_packet();
    let mut b = sample_packet();
    b.sequence = 9;
    assert!(a.equal_unless_sequence(&a));
    assert!(a.equal_unless_sequence(&b));
    assert!(b.equal_unless_sequence(&a));
    let mut c = sample_packet();
    c.data = vec![1, 2, 4];
    assert!(!a.equal_unless_sequence(&c));
    assert!(!c.equal_unless_sequence(&a));
    let mut d = sample_packet();
    d.timeout_timestamp = 1;
    assert!(!a.equal_unless_sequence(&d));
    let mut e = sample_packet();
    e.destination_channel_id = "channel-2".to_string();
    assert!(!a.equal_unless_sequence(&e));
}

#[test]
fn truncated_bytes_are_rejected() {
    let data = sample_packet().encode();
    for k in 0..data.len() {
        assert!(matches!(Packet::decode(&data[..k]), Err(VerifyError::SerdeError)));
    }
    let data = sample_connection_end().encode();
    for k in 0..data.len() {
        assert!(matches!(ConnectionEnd::decode(&data[..k]), Err(VerifyError::SerdeError)));
    }
}

#[test]
fn flipped_length_byte_is_rejected() {
    let mut data = sample_packet().encode();
    data[0] ^= 0xff;
    assert!(Packet::decode(&data).is_err());
    let mut data = sample_channel_end().encode();
    data[0] = data[0].wrapping_add(1);
    assert!(ChannelEnd::decode(&data).is_err());
}

#[test]
fn trailing_bytes_are_rejected() {
    let mut data = sample_packet().encode();
    data.push(0);
    assert!(Packet::decode(&data).is_err());
}

#[test]
fn absent_connection_id_differs_from_empty() {
    let absent = ConnectionCounterparty {
        client_id: "c".to_string(),
        connection_id: None,
        commitment_prefix: b"ibc".to_vec(),
    };
    let empty = ConnectionCounterparty { connection_id: Some(String::new()), ..absent.clone() };
    let a = absent.encode();
    let e = empty.encode();
    assert_ne!(a, e);
    assert_eq!(ConnectionCounterparty::decode(&a).unwrap().connection_id, None);
    assert_eq!(ConnectionCounterparty::decode(&e).unwrap().connection_id, Some(String::new()));
}

#[test]
fn non_utf8_text_is_rejected() {
    let data = vec![0xc4, 0x82, 0xff, 0xfe, 0x80];
    assert!(ChannelCounterparty::decode(&data).is_err());
    let cp = ChannelCounterparty { port_id: "pört".to_string(), channel_id: "ch".to_string() };
    let decoded = ChannelCounterparty::decode(&cp.encode()).unwrap();
    assert_eq!(decoded.port_id, "pört");
    assert_eq!(decoded.port_id.chars().count(), 4);
}

#[test]
fn non_canonical_integers_are_rejected() {
    // a one-byte integer below 0x80 written with a length prefix
    assert!(State::decode(&[0xc2, 0x81, 0x01]).is_err());
    // a leading zero byte
    let mut s = rlp::RlpStream::new_list(8);
    s.append(&5u16);
    for _ in 0..4 {
        s.append(&"x");
    }
    s.append(&vec![1u8]);
    s.append_raw(&[0x82, 0x00, 0x01], 1);
    s.append(&0u64);
    assert!(Packet::decode(&s.out().to_vec()).is_err());
    // a sequence wider than 16 bits
    let mut s = rlp::RlpStream::new_list(8);
    s.append(&70000u32);
    for _ in 0..4 {
        s.append(&"x");
    }
    s.append(&vec![1u8]);
    s.append(&1u64);
    s.append(&0u64);
    assert!(Packet::decode(&s.out().to_vec()).is_err());
}

#[test]
fn wrong_field_count_is_rejected() {
    let mut s = rlp::RlpStream::new_list(1);
    s.append(&"transfer");
    assert!(ChannelCounterparty::decode(&s.out().to_vec()).is_err());
    assert!(State::decode(&[0xc2, 0x01, 0x02]).is_err());
}

#[test]
fn error_codes_are_stable() {
    assert_eq!(VerifyError::FoundNoMessage.code(), 100);
    assert_eq!(VerifyError::SerdeError.code(), 103);
    assert_eq!(VerifyError::WrongPacketArgs.code(), 124);
    assert_eq!(i8::from(VerifyError::WrongChannelState), 116);
}
