use mmo_core::game_message::{ClientId, GameMessage, Topic};
use mmo_core::pubsub::{u8_slice_to_hex_string, PeerSocketId, PubSub};
use mmo_core::wire::ByteReader;

fn broadcast_payload(packet: &[u8]) -> Vec<u8> {
    let mut reader = ByteReader::new(packet);
    match GameMessage::from_bytes(&mut reader) {
        Some(GameMessage::Broadcast { payload }) => payload,
        other => panic!("not a broadcast: {:?}", other),
    }
}

fn subpacket(topic: &str, data: &[u8]) -> Vec<u8> {
    let mut v = (topic.len() as u16).to_be_bytes().to_vec();
    v.extend_from_slice(topic.as_bytes());
    v.extend_from_slice(&(data.len() as u16).to_be_bytes());
    v.extend_from_slice(data);
    v
}

#[test]
fn hex_string_of_bytes() {
    assert_eq!(u8_slice_to_hex_string(&[0x00, 0x0f, 0xa0, 0xff]), "000fa0ff");
    assert_eq!(u8_slice_to_hex_string(&[]), "");
}

#[test]
fn register_then_lookup() {
    let mut ps = PubSub::new();
    let c = ClientId::of_player(1);
    assert_eq!(ps.get_peer_socket_id(c), None);
    ps.set_peer_socket_id(c, PeerSocketId(1, 2));
    assert_eq!(ps.get_peer_socket_id(c), Some(PeerSocketId(1, 2)));
    ps.set_peer_socket_id(c, PeerSocketId(3, 4));
    assert_eq!(ps.get_peer_socket_id(c), Some(PeerSocketId(3, 4)));
}

#[test]
fn publish_reaches_subscribers_once() {
    let mut ps = PubSub::new();
    let a = PeerSocketId(1, 1);
    let b = PeerSocketId(2, 1);
    ps.subscribe(a, "t");
    ps.subscribe(a, "t");
    ps.subscribe(b, "t");
    ps.publish("t", &[5, 6]);
    let mut out = ps.flush_peer_buffers();
    out.sort_by_key(|(p, _)| p.0);
    assert_eq!(out.len(), 2);
    assert_eq!(out[0].0, a);
    assert_eq!(broadcast_payload(&out[0].1), subpacket("t", &[5, 6]));
    assert_eq!(out[1].0, b);
    assert_eq!(broadcast_payload(&out[1].1), subpacket("t", &[5, 6]));
    assert!(ps.flush_peer_buffers().is_empty());
}

#[test]
fn publishing_same_data_twice_broadcasts_once() {
    let mut ps = PubSub::new();
    let a = PeerSocketId(1, 1);
    ps.subscribe(a, "t");
    ps.publish("t", &[1]);
    ps.publish("t", &[1]);
    let out = ps.flush_peer_buffers();
    assert_eq!(out.len(), 1);
    assert_eq!(broadcast_payload(&out[0].1), subpacket("t", &[1]));
    ps.publish("t", &[2]);
    let out = ps.flush_peer_buffers();
    assert_eq!(broadcast_payload(&out[0].1), subpacket("t", &[2]));
}

#[test]
fn unsubscribed_peer_receives_nothing() {
    let mut ps = PubSub::new();
    let a = PeerSocketId(1, 1);
    ps.subscribe(a, "t");
    ps.unsubscribe(a, "t");
    ps.unsubscribe(a, "other");
    ps.publish("t", &[1]);
    assert!(ps.flush_peer_buffers().is_empty());
}

#[test]
fn publish_without_subscribers_queues_nothing() {
    let mut ps = PubSub::new();
    ps.publish("nobody", &[1, 2, 3]);
    assert!(ps.flush_peer_buffers().is_empty());
}

#[test]
fn queued_subpackets_accumulate_until_flush() {
    let mut ps = PubSub::new();
    let a = PeerSocketId(9, 9);
    ps.subscribe(a, "x");
    ps.subscribe(a, "y");
    ps.publish("x", &[1]);
    ps.publish("y", &[]);
    let out = ps.flush_peer_buffers();
    assert_eq!(out.len(), 1);
    let mut expected = subpacket("x", &[1]);
    expected.extend(subpacket("y", &[]));
    assert_eq!(broadcast_payload(&out[0].1), expected);
}

#[test]
fn broadcast_of_topic_without_data() {
    let mut ps = PubSub::new();
    let a = PeerSocketId(1, 5);
    ps.subscribe(a, "z");
    ps.broadcast("z");
    let out = ps.flush_peer_buffers();
    assert_eq!(broadcast_payload(&out[0].1), vec![0, 1, b'z', 0, 0]);
}

#[test]
fn packets_drive_the_broker() {
    let mut ps = PubSub::new();
    let sock = PeerSocketId(4, 2);
    let client = ClientId::of_player(77);
    let register = GameMessage::Register { client_id: client }.as_bytes();
    assert!(ps.packet_fits(&register));
    ps.process_received_packet(sock, &register);
    assert_eq!(ps.get_peer_socket_id(client), Some(sock));

    let sub = GameMessage::Subscribe { client_id: client, topic: Topic("news".to_string()) }.as_bytes();
    ps.process_received_packet(sock, &sub);

    let publ = GameMessage::Publish { topic: Topic("news".to_string()), payload: vec![42] }.as_bytes();
    assert!(ps.packet_fits(&publ));
    ps.process_received_packet(PeerSocketId(0, 0), &publ);
    let out = ps.flush_peer_buffers();
    assert_eq!(out.len(), 1);
    assert_eq!(out[0].0, sock);
    assert_eq!(broadcast_payload(&out[0].1), subpacket("news", &[42]));
}

#[test]
fn subscription_from_unregistered_client_is_ignored() {
    let mut ps = PubSub::new();
    let sub = GameMessage::Subscribe { client_id: ClientId::of_player(1), topic: Topic("t".to_string()) }.as_bytes();
    ps.process_received_packet(PeerSocketId(1, 1), &sub);
    ps.publish("t", &[1]);
    assert!(ps.flush_peer_buffers().is_empty());
}

#[test]
fn cut_packet_does_not_fit() {
    let ps = PubSub::new();
    assert!(!ps.packet_fits(&[0x03, 0x00]));
    assert!(ps.packet_fits(&[0x7F]));
}

#[test]
fn oversized_publication_does_not_fit() {
    let mut ps = PubSub::new();
    ps.subscribe(PeerSocketId(1, 1), "big");
    let publ = GameMessage::Publish { topic: Topic("big".to_string()), payload: vec![0; 70000] }.as_bytes();
    assert!(!ps.packet_fits(&publ));
    let small = GameMessage::Publish { topic: Topic("big".to_string()), payload: vec![0; 10] }.as_bytes();
    assert!(ps.packet_fits(&small));
}

#[test]
fn unsubscribing_a_new_subscriber_restores_the_list() {
    let mut ps = PubSub::new();
    let a = PeerSocketId(1, 1);
    let b = PeerSocketId(2, 2);
    let c = PeerSocketId(3, 3);
    ps.subscribe(a, "t");
    ps.subscribe(b, "t");
    ps.subscribe(c, "t");
    ps.unsubscribe(c, "t");
    ps.publish("t", &[1]);
    let mut out = ps.flush_peer_buffers();
    out.sort_by_key(|(p, _)| p.0);
    let peers: Vec<PeerSocketId> = out.iter().map(|(p, _)| *p).collect();
    assert_eq!(peers, vec![a, b]);
}
