use mmo_core::entity::{EntityId, EntityState, WireVec2};
use mmo_core::frames::{
    bytes_as_unscaled_transform_2d, unscaled_transform_2d_as_bytes, BinaryDataType, Transform2dWire,
};
use mmo_core::game_message::{Border, ClientId, GameMessage, PeerType, Topic};
use mmo_core::heartbeat::{Heartbeat, IpAddress, ServerAddress};
use mmo_core::input::PlayerActionHolder;
use mmo_core::wire::ByteReader;

fn decode_one(bytes: &[u8]) -> (Option<GameMessage>, usize) {
    let mut reader = ByteReader::new(bytes);
    let msg = GameMessage::from_bytes(&mut reader);
    (msg, reader.pos)
}

#[test]
fn register_message_bytes() {
    let msg = GameMessage::Register { client_id: ClientId::of_player(5) };
    let mut expected = vec![0x31u8, 0x00];
    expected.extend_from_slice(&5u128.to_be_bytes());
    assert_eq!(msg.as_bytes(), expected);
}

#[test]
fn game_server_register_uses_peer_byte_one() {
    let msg = GameMessage::Register { client_id: ClientId::of_game_server(7) };
    let bytes = msg.as_bytes();
    assert_eq!(bytes[1], 0x01);
    match decode_one(&bytes) {
        (Some(GameMessage::Register { client_id }), n) => {
            assert_eq!(client_id, ClientId { peer_type: PeerType::GameServer, value: 7 });
            assert_eq!(n, 18);
        }
        other => panic!("unexpected {:?}", other),
    }
}

#[test]
fn publish_message_roundtrip() {
    let msg = GameMessage::Publish { topic: Topic("abc".to_string()), payload: vec![9, 8, 7] };
    let bytes = msg.as_bytes();
    assert_eq!(bytes, vec![0x03, 0x00, 0x03, b'a', b'b', b'c', 0, 0, 0, 0, 0, 0, 0, 3, 9, 8, 7]);
    match decode_one(&bytes) {
        (Some(GameMessage::Publish { topic, payload }), n) => {
            assert_eq!(topic.0, "abc");
            assert_eq!(payload, vec![9, 8, 7]);
            assert_eq!(n, bytes.len());
        }
        other => panic!("unexpected {:?}", other),
    }
}

#[test]
fn subscribe_message_roundtrip_with_trailing_bytes() {
    let msg = GameMessage::Subscribe { client_id: ClientId::of_player(42), topic: Topic("player/3".to_string()) };
    let mut bytes = msg.as_bytes();
    let len = bytes.len();
    bytes.extend_from_slice(&[0xAA, 0xBB]);
    match decode_one(&bytes) {
        (Some(GameMessage::Subscribe { client_id, topic }), n) => {
            assert_eq!(client_id, ClientId::of_player(42));
            assert_eq!(topic.0, "player/3");
            assert_eq!(n, len);
        }
        other => panic!("unexpected {:?}", other),
    }
}

#[test]
fn handoff_request_roundtrip() {
    let msg = GameMessage::HandoffRequest {
        entity_id: EntityId(11),
        pos: WireVec2 { x_bits: 1.5f32.to_bits(), y_bits: (-2.0f32).to_bits() },
        vel: WireVec2 { x_bits: 0, y_bits: 3 },
        border: Border::TopLeft,
        state: EntityState::PlayerState { id: ClientId::of_player(99) },
    };
    let bytes = msg.as_bytes();
    assert_eq!(bytes.len(), 1 + 20 + 1 + 64);
    assert_eq!(bytes[0], 0x20);
    assert_eq!(bytes[21], 0x04);
    match decode_one(&bytes) {
        (Some(GameMessage::HandoffRequest { entity_id, pos, vel, border, state }), n) => {
            assert_eq!(entity_id, EntityId(11));
            assert_eq!(f32::from_bits(pos.x_bits), 1.5);
            assert_eq!(f32::from_bits(pos.y_bits), -2.0);
            assert_eq!(vel, WireVec2 { x_bits: 0, y_bits: 3 });
            assert_eq!(border, Border::TopLeft);
            assert_eq!(state, EntityState::PlayerState { id: ClientId::of_player(99) });
            assert_eq!(n, 86);
        }
        other => panic!("unexpected {:?}", other),
    }
}

#[test]
fn client_input_roundtrip() {
    let msg = GameMessage::ClientInput { client_id: ClientId::of_player(3), input: PlayerActionHolder::from_bits(0x21) };
    let bytes = msg.as_bytes();
    assert_eq!(bytes.len(), 19);
    assert_eq!(bytes[18], 0x21);
    match decode_one(&bytes) {
        (Some(GameMessage::ClientInput { client_id, input }), 19) => {
            assert_eq!(client_id, ClientId::of_player(3));
            assert_eq!(input.bits(), 0x21);
        }
        other => panic!("unexpected {:?}", other),
    }
}

#[test]
fn handoff_complete_and_accept_roundtrip() {
    let complete = GameMessage::HandoffComplete { entity_id: EntityId(0x01020304), border: Border::Bottom };
    assert_eq!(complete.as_bytes(), vec![0x24, 1, 2, 3, 4, 0x03]);
    let accept = GameMessage::HandoffAccept { entity_id: EntityId(9) };
    assert_eq!(accept.as_bytes(), vec![0x21, 0, 0, 0, 9]);
    let reject = GameMessage::HandoffReject { entity_id: EntityId(9) };
    match decode_one(&reject.as_bytes()) {
        (Some(GameMessage::HandoffReject { entity_id }), 5) => assert_eq!(entity_id, EntityId(9)),
        other => panic!("unexpected {:?}", other),
    }
}

#[test]
fn unknown_tag_is_refused_after_one_byte() {
    let (msg, n) = decode_one(&[0x7F, 1, 2, 3]);
    assert!(msg.is_none());
    assert_eq!(n, 1);
}

#[test]
fn empty_input_reads_nothing() {
    let (msg, n) = decode_one(&[]);
    assert!(msg.is_none());
    assert_eq!(n, 0);
}

#[test]
fn bad_peer_type_is_refused_after_two_bytes() {
    let mut bytes = vec![0x31u8, 0x09];
    bytes.extend_from_slice(&[0u8; 16]);
    let (msg, n) = decode_one(&bytes);
    assert!(msg.is_none());
    assert_eq!(n, 2);
}

#[test]
fn short_payload_is_refused() {
    // Publish "a" announcing 5 payload bytes but carrying 2.
    let bytes = vec![0x03u8, 0x00, 0x01, b'a', 0, 0, 0, 0, 0, 0, 0, 5, 1, 2];
    let (msg, n) = decode_one(&bytes);
    assert!(msg.is_none());
    assert_eq!(n, 12);
}

#[test]
fn topic_that_is_not_utf8_is_refused() {
    let bytes = vec![0x03u8, 0x00, 0x01, 0xFF, 0, 0, 0, 0, 0, 0, 0, 0];
    let (msg, n) = decode_one(&bytes);
    assert!(msg.is_none());
    assert_eq!(n, 4);
}

#[test]
fn topic_length_cut_is_detected() {
    let reader = ByteReader::new(&[0x03u8, 0x00]);
    assert!(GameMessage::topic_length_cut(&reader));
    let reader = ByteReader::new(&[0x03u8, 0x00, 0x00]);
    assert!(!GameMessage::topic_length_cut(&reader));
    let mut sub = vec![0x01u8, 0x00];
    sub.extend_from_slice(&[0u8; 16]);
    let reader = ByteReader::new(&sub);
    assert!(GameMessage::topic_length_cut(&reader));
}

#[test]
fn topic_length_is_cut_to_sixteen_bits() {
    let long = "x".repeat(65536 + 2);
    let msg = GameMessage::Publish { topic: Topic(long), payload: vec![] };
    let bytes = msg.as_bytes();
    assert_eq!(&bytes[1..3], &[0x00, 0x02]);
}

#[test]
fn entity_state_blocks() {
    let other = EntityState::Other.to_bytes();
    assert_eq!(other.len(), 64);
    assert_eq!(other[0], 0xFF);
    assert!(other[1..].iter().all(|b| *b == 0));
    let player = EntityState::PlayerState { id: ClientId::of_player(0x0102) }.to_bytes();
    assert_eq!(player.len(), 64);
    assert_eq!(player[0], 0x01);
    assert_eq!(player[1], 0x00);
    assert_eq!(&player[2..18], &0x0102u128.to_be_bytes());
    let mut reader = ByteReader::new(&player);
    assert_eq!(EntityState::from_bytes(&mut reader), Some(EntityState::PlayerState { id: ClientId::of_player(0x0102) }));
    assert_eq!(reader.pos, 64);
}

#[test]
fn entity_state_append_adds_a_whole_block() {
    let mut out = vec![0xAAu8];
    EntityState::Other.append_bytes(&mut out);
    assert_eq!(out.len(), 65);
    assert_eq!(out[0], 0xAA);
    assert_eq!(out[1], 0xFF);
    assert!(out[2..].iter().all(|b| *b == 0));
    let mut out = vec![7u8; 70];
    EntityState::PlayerState { id: ClientId::of_player(1) }.append_bytes(&mut out);
    assert_eq!(out.len(), 134);
    assert_eq!(&out[..70], &[7u8; 70][..]);
    assert_eq!(&out[70..], &EntityState::PlayerState { id: ClientId::of_player(1) }.to_bytes()[..]);
}

#[test]
fn entity_state_unknown_tag() {
    let mut block = vec![0u8; 64];
    block[0] = 0x05;
    let mut reader = ByteReader::new(&block);
    assert_eq!(EntityState::from_bytes(&mut reader), None);
}

#[test]
fn border_combinations() {
    assert_eq!(Border::Left.combine(Border::Top), Some(Border::TopLeft));
    assert_eq!(Border::Top.combine(Border::Left), Some(Border::TopLeft));
    assert_eq!(Border::Right.combine(Border::Bottom), Some(Border::BottomRight));
    assert_eq!(Border::Left.combine(Border::Right), None);
    assert_eq!(Border::Top.combine(Border::Top), Some(Border::Top));
    assert_eq!(Border::TopLeft.combine(Border::Left), None);
}

#[test]
fn heartbeat_roundtrip_v4() {
    let hb = Heartbeat {
        id: 0x0011_2233_4455_6677_8899_AABB_CCDD_EEFF,
        addr: ServerAddress { ip: IpAddress::V4(0x7F00_0001), port: 8080 },
        zone: "zone_A".to_string(),
        player_count: 3,
        is_full: true,
    };
    let bytes = hb.to_bytes();
    assert_eq!(bytes.len(), 16 + 1 + 4 + 2 + 8 + 6 + 8);
    assert_eq!(bytes[16], 0b11);
    assert_eq!(&bytes[17..21], &[127, 0, 0, 1]);
    assert!(Heartbeat::is_readable(&bytes));
    let back = Heartbeat::from_bytes(&bytes).unwrap();
    assert_eq!(back.id, hb.id);
    assert_eq!(back.addr, hb.addr);
    assert_eq!(back.zone, "zone_A");
    assert_eq!(back.player_count, 3);
    assert!(back.is_full);
}

#[test]
fn heartbeat_roundtrip_v6() {
    let hb = Heartbeat {
        id: 1,
        addr: ServerAddress { ip: IpAddress::V6(0x2001_0db8_0000_0000_0000_0000_0000_0001), port: 1 },
        zone: "é".to_string(),
        player_count: 0,
        is_full: false,
    };
    let bytes = hb.to_bytes();
    assert_eq!(bytes[16], 0);
    let back = Heartbeat::from_bytes(&bytes).unwrap();
    assert_eq!(back.addr, hb.addr);
    assert_eq!(back.zone, "é");
    assert!(!back.is_full);
}

#[test]
fn heartbeat_with_invalid_zone() {
    let hb = Heartbeat {
        id: 1,
        addr: ServerAddress { ip: IpAddress::V4(1), port: 1 },
        zone: "ab".to_string(),
        player_count: 0,
        is_full: false,
    };
    let mut bytes = hb.to_bytes();
    bytes[31] = 0xFF;
    assert!(Heartbeat::is_readable(&bytes));
    assert!(Heartbeat::from_bytes(&bytes).is_none());
    assert!(!Heartbeat::is_readable(&bytes[..10]));
}

#[test]
fn binary_data_type_bytes() {
    assert_eq!(BinaryDataType::Join.as_byte(), 0);
    assert_eq!(BinaryDataType::Welcome.as_byte(), 1);
    assert_eq!(BinaryDataType::List.as_byte(), 10);
    assert_eq!(BinaryDataType::Transform2d.as_byte(), 11);
    assert_eq!(BinaryDataType::from_byte(11), Some(BinaryDataType::Transform2d));
    assert_eq!(BinaryDataType::from_byte(2), None);
}

#[test]
fn transform_frame_roundtrip() {
    let t = Transform2dWire { x: -1024, y: 2048, angle: 200 };
    let bytes = unscaled_transform_2d_as_bytes(t);
    assert_eq!(bytes, vec![0xFF, 0xFF, 0xFC, 0x00, 0x00, 0x00, 0x08, 0x00, 200]);
    assert_eq!(bytes_as_unscaled_transform_2d(&bytes), t);
}

#[test]
fn peer_type_bytes() {
    assert_eq!(PeerType::Client.to_byte(), 0);
    assert_eq!(PeerType::GameServer.to_byte(), 1);
    assert_eq!(PeerType::OtherServer.to_byte(), 2);
    assert_eq!(PeerType::from_byte(2), Some(PeerType::OtherServer));
    assert_eq!(PeerType::from_byte(3), None);
}
