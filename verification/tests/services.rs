use mmo_core::client::{handle_server_message, input_message, join_message, latest_per_entity, UpdateEntity};
use mmo_core::entity::{EntityId, EntityState, WireVec2};
use mmo_core::game_message::{Border, ClientId, GameMessage, Topic};
use mmo_core::gatekeeper::{
    expiry_for_ttl, fields_as_json, get_status, login_response, login_validate, Expiry, LoginResponse,
    ServerInfo, ServerInfoInRedis, ServerZone,
};
use mmo_core::heartbeat::{Heartbeat, IpAddress, ServerAddress};
use mmo_core::input::{PlayerAction, PlayerActionHolder};
use mmo_core::login::LoginRequest;
use mmo_core::orchestrator::{count_available_servers, heartbeat_from_datagram, server_status, servers_to_spawn};
use mmo_core::network::{
    broker_event, broker_receive, client_event, orchestrator_event, NetworkAction, NetworkEvent, PeerLink, ServerLinks,
};
use mmo_core::packet::read_messages;
use mmo_core::pubsub::{PeerSocketId, PubSub};
use mmo_core::rand::{QuickRandState, PRNG};
use mmo_core::server::{
    check_border_crossings, circle_touched_rectangle_borders, ghost_to_owned, handle_publish, handoff_border,
    handoff_request, heartbeat_for, interpret_player_input, message_received, update_ghosts, PlayerActionHolderMessage, UpdateGhostEntity, owned_to_pending, write_entities_to_package, BorderEvent,
    BorderOverlap, EntityNetworkState, EntitySnapshot, GhostToOwned, OwnedToPending, PlayerTag, ServerEntityTag,
    ServerEvent,
};
use mmo_core::text::{parse_decimal_str, push_decimal, starts_with};
use mmo_core::topic::{FixedVec2, TopicContent};
use mmo_core::wire::ByteReader;

fn wv(x: u32, y: u32) -> WireVec2 {
    WireVec2 { x_bits: x, y_bits: y }
}

#[test]
fn prng_first_numbers() {
    let mut g = PRNG::default();
    assert_eq!(g.get_next_number(), 0xf0b3c23335991916);
    assert_eq!(g.get_next_number(), 0x585f56cb62de055b);
    assert_eq!(g.get_next_number(), 0x6dc57b5b13140d25);
}

#[test]
fn quick_rand_matches_prng() {
    let mut a = PRNG::default();
    let mut b = QuickRandState::default();
    for _ in 0..100 {
        assert_eq!(a.get_next_number(), b.next());
    }
}

#[test]
fn decimal_numerals() {
    let mut out = Vec::new();
    push_decimal(&mut out, 0);
    assert_eq!(out.iter().collect::<String>(), "0");
    let mut out = vec!['#'];
    push_decimal(&mut out, u128::MAX);
    assert_eq!(out.iter().collect::<String>(), format!("#{}", u128::MAX));
}

#[test]
fn decimal_parsing() {
    assert_eq!(parse_decimal_str("4294967295", u32::MAX as u128), Some(4294967295));
    assert_eq!(parse_decimal_str("4294967296", u32::MAX as u128), None);
    assert_eq!(parse_decimal_str("+12", 100), Some(12));
    assert_eq!(parse_decimal_str("+", 100), None);
    assert_eq!(parse_decimal_str("", 100), None);
    assert_eq!(parse_decimal_str("-1", 100), None);
    assert_eq!(parse_decimal_str("12a", 100), None);
    assert_eq!(parse_decimal_str("007", 100), Some(7));
    let huge = format!("{}0", u128::MAX);
    assert_eq!(parse_decimal_str(&huge, u128::MAX), None);
    assert_eq!(parse_decimal_str(&u128::MAX.to_string(), u128::MAX), Some(u128::MAX));
}

#[test]
fn prefixes() {
    assert!(starts_with("entity/12", "entity/"));
    assert!(!starts_with("entit", "entity/"));
    assert!(starts_with("x", ""));
}

#[test]
fn topic_names() {
    assert_eq!(TopicContent::entity_transform_topic(42), "player/42");
    assert_eq!(TopicContent::player_input_topic(7), "input/7");
}

#[test]
fn entity_info_publication() {
    let c = TopicContent::EntityInfo {
        entity_id: EntityId(3),
        pos: FixedVec2 { x: 1024, y: -1 },
        vel: FixedVec2 { x: 0, y: 2 },
        state: EntityState::Other,
    };
    match c.to_publish() {
        GameMessage::Publish { topic, payload } => {
            assert_eq!(topic.0, "player/3");
            assert_eq!(payload.len(), 80);
            assert_eq!(&payload[..16], &[0, 0, 4, 0, 0xFF, 0xFF, 0xFF, 0xFF, 0, 0, 0, 0, 0, 0, 0, 2]);
            assert_eq!(payload[16], 0xFF);
            assert!(payload[17..].iter().all(|b| *b == 0));
        }
        other => panic!("unexpected {:?}", other),
    }
}

#[test]
fn player_input_publication() {
    let c = TopicContent::PlayerInput { client_id: ClientId::of_player(9), input: PlayerActionHolder::from_bits(0x03) };
    match c.to_publish() {
        GameMessage::Publish { topic, payload } => {
            assert_eq!(topic.0, "input/9");
            assert_eq!(payload, vec![0x03]);
        }
        other => panic!("unexpected {:?}", other),
    }
}

#[test]
fn publications_are_not_read_back() {
    let c = TopicContent::PlayerInput { client_id: ClientId::of_player(9), input: PlayerActionHolder::from_bits(1) };
    assert_eq!(TopicContent::from_publish(&Topic("input/9".to_string()), vec![1]), None);
    assert_eq!(TopicContent::from_publish(&Topic("entity/9".to_string()), vec![0; 80]), None);
    assert_eq!(TopicContent::from_publish(&Topic("other".to_string()), vec![]), None);
    assert!(handle_publish(&Topic("input/9".to_string()), vec![1]).is_none());
    let _ = c;
}

#[test]
fn broker_packet_events_and_answers() {
    let mut data = Vec::new();
    let state = EntityState::PlayerState { id: ClientId::of_player(5) };
    GameMessage::HandoffRequest { entity_id: EntityId(1), pos: wv(1, 2), vel: wv(3, 4), border: Border::Left, state }
        .append_bytes(&mut data);
    GameMessage::HandoffAccept { entity_id: EntityId(2) }.append_bytes(&mut data);
    GameMessage::GhostUpdate { entity_id: EntityId(3), pos: wv(5, 6), vel: wv(7, 8), state: EntityState::Other }
        .append_bytes(&mut data);
    GameMessage::HandoffComplete { entity_id: EntityId(4), border: Border::Top }.append_bytes(&mut data);
    GameMessage::Publish { topic: Topic("input/5".to_string()), payload: vec![1] }.append_bytes(&mut data);
    GameMessage::HandoffReject { entity_id: EntityId(6) }.append_bytes(&mut data);
    data.extend_from_slice(&[0x7F, 0x00]);

    let mut network = vec![0xEE];
    let (events, remaining) = message_received(&mut network, &data);
    assert_eq!(remaining, 2);
    assert_eq!(events.len(), 4);
    match events[0] {
        ServerEvent::Create(c) => {
            assert_eq!(c.tag, ServerEntityTag { id: EntityId(1), state: EntityNetworkState::Ghosted });
            assert_eq!(c.pos, wv(1, 2));
            assert_eq!(c.vel, wv(3, 4));
            assert_eq!(c.state, state);
        }
        other => panic!("unexpected {:?}", other),
    }
    assert_eq!(events[1], ServerEvent::OwnedToPending(OwnedToPending { id: EntityId(2) }));
    match events[2] {
        ServerEvent::UpdateGhost(u) => assert_eq!(u.id, EntityId(3)),
        other => panic!("unexpected {:?}", other),
    }
    assert_eq!(events[3], ServerEvent::GhostToOwned(GhostToOwned { id: EntityId(4) }));
    assert_eq!(network, vec![0xEE, 0x21, 0, 0, 0, 1]);
}

#[test]
fn packet_reading_stops_at_first_bad_message() {
    let mut data = GameMessage::HandoffAccept { entity_id: EntityId(1) }.as_bytes();
    data.extend_from_slice(&[0x21, 0, 0]);
    let (msgs, rest) = read_messages(&data);
    assert_eq!(msgs.len(), 1);
    assert_eq!(rest, 3);
    let (msgs, rest) = read_messages(&[]);
    assert!(msgs.is_empty());
    assert_eq!(rest, 0);
}

#[test]
fn border_overlaps() {
    let all = BorderOverlap { left: true, bottom: true, right: true, top: true };
    assert_eq!(circle_touched_rectangle_borders(all), vec![Border::Left, Border::Bottom, Border::Right, Border::Top]);
    let none = BorderOverlap { left: false, bottom: false, right: false, top: false };
    assert!(circle_touched_rectangle_borders(none).is_empty());
}

#[test]
fn handoff_through_a_corner() {
    assert_eq!(handoff_border(&vec![Border::Left, Border::Top]), Border::TopLeft);
    assert_eq!(handoff_border(&vec![Border::Bottom, Border::Right]), Border::BottomRight);
    // Opposite sides do not combine: the first is kept.
    assert_eq!(handoff_border(&vec![Border::Left, Border::Right]), Border::Left);
    assert_eq!(handoff_border(&vec![Border::Right]), Border::Right);
}

#[test]
fn border_checks_by_state() {
    let t = vec![Border::Left, Border::Bottom];
    assert_eq!(
        check_border_crossings(EntityNetworkState::Owned, &t),
        vec![BorderEvent::Crossed(Border::Left), BorderEvent::Crossed(Border::Bottom)]
    );
    assert_eq!(
        check_border_crossings(EntityNetworkState::PendingHandoff, &t),
        vec![BorderEvent::Handoff(Border::BottomLeft)]
    );
    assert!(check_border_crossings(EntityNetworkState::PendingHandoff, &vec![]).is_empty());
    assert!(check_border_crossings(EntityNetworkState::Ghosted, &t).is_empty());
}

#[test]
fn handoff_request_carries_player() {
    let tag = ServerEntityTag { id: EntityId(8), state: EntityNetworkState::Owned };
    let m = handoff_request(&tag, wv(1, 1), wv(0, 0), Border::Right, Some(PlayerTag { id: ClientId::of_player(2) }));
    match m {
        GameMessage::HandoffRequest { entity_id, border, state, .. } => {
            assert_eq!(entity_id, EntityId(8));
            assert_eq!(border, Border::Right);
            assert_eq!(state, EntityState::PlayerState { id: ClientId::of_player(2) });
        }
        other => panic!("unexpected {:?}", other),
    }
    match handoff_request(&tag, wv(1, 1), wv(0, 0), Border::Right, None) {
        GameMessage::HandoffRequest { state, .. } => assert_eq!(state, EntityState::Other),
        other => panic!("unexpected {:?}", other),
    }
}

#[test]
fn only_owned_entities_are_published() {
    let owned = EntitySnapshot {
        tag: ServerEntityTag { id: EntityId(1), state: EntityNetworkState::Owned },
        pos: FixedVec2 { x: 0, y: 0 },
        vel: FixedVec2 { x: 0, y: 0 },
        player: None,
    };
    let ghost = EntitySnapshot { tag: ServerEntityTag { id: EntityId(2), state: EntityNetworkState::Ghosted }, ..owned };
    let mut out = Vec::new();
    write_entities_to_package(&vec![owned, ghost], &mut out);
    let expected = TopicContent::EntityInfo {
        entity_id: EntityId(1),
        pos: FixedVec2 { x: 0, y: 0 },
        vel: FixedVec2 { x: 0, y: 0 },
        state: EntityState::Other,
    }
    .to_publish()
    .as_bytes();
    assert_eq!(out, expected);
}

#[test]
fn authority_changes() {
    let mut tags = vec![
        ServerEntityTag { id: EntityId(1), state: EntityNetworkState::Ghosted },
        ServerEntityTag { id: EntityId(2), state: EntityNetworkState::Ghosted },
    ];
    ghost_to_owned(&mut tags, &vec![GhostToOwned { id: EntityId(2) }]);
    assert_eq!(tags[0].state, EntityNetworkState::Ghosted);
    assert_eq!(tags[1].state, EntityNetworkState::Owned);
    owned_to_pending(&mut tags, &vec![OwnedToPending { id: EntityId(2) }, OwnedToPending { id: EntityId(9) }]);
    assert_eq!(tags[1].state, EntityNetworkState::PendingHandoff);
    assert_eq!(tags[0].state, EntityNetworkState::Ghosted);
}

#[test]
fn heartbeat_of_a_server() {
    let hb = heartbeat_for(5, 8080, &"zone_A".to_string(), 16, 16);
    assert!(hb.is_full);
    assert_eq!(hb.addr, ServerAddress { ip: IpAddress::V4(0x7F00_0001), port: 8080 });
    assert_eq!(hb.zone, "zone_A");
    let hb = heartbeat_for(5, 8080, &"zone_A".to_string(), 16, 3);
    assert!(!hb.is_full);
    assert_eq!(hb.player_count, 3);
}

#[test]
fn client_messages() {
    let c = ClientId::of_player(1);
    assert_eq!(join_message(c), GameMessage::Register { client_id: c }.as_bytes());
    assert_eq!(input_message(c, &PlayerActionHolder::from_bits(0)), None);
    let b = input_message(c, &PlayerActionHolder::from_bits(4)).unwrap();
    assert_eq!(b, GameMessage::ClientInput { client_id: c, input: PlayerActionHolder::from_bits(4) }.as_bytes());
}

#[test]
fn client_takes_updates_only() {
    let mut data = Vec::new();
    GameMessage::ClientUpdate { entity_id: EntityId(1), pos: wv(1, 1), vel: wv(2, 2), state: EntityState::Other }
        .append_bytes(&mut data);
    GameMessage::HandoffAccept { entity_id: EntityId(3) }.append_bytes(&mut data);
    let (updates, rest) = handle_server_message(&data);
    assert_eq!(rest, 0);
    assert_eq!(updates, vec![UpdateEntity { id: EntityId(1), pos: wv(1, 1), vel: wv(2, 2), state: EntityState::Other }]);
}

#[test]
fn last_update_wins() {
    let u = |id: u32, x: u32| UpdateEntity { id: EntityId(id), pos: wv(x, 0), vel: wv(0, 0), state: EntityState::Other };
    let mut r = latest_per_entity(&vec![u(1, 10), u(2, 20), u(1, 11)]);
    r.sort_by_key(|(k, _)| *k);
    assert_eq!(r, vec![(1, u(1, 11)), (2, u(2, 20))]);
}

#[test]
fn actions_held_by_a_frame() {
    let h = PlayerActionHolder::from_actions(&vec![PlayerAction::Forward, PlayerAction::Shoot, PlayerAction::Forward]);
    assert!(h.check_act(PlayerAction::Forward));
    assert!(h.check_act(PlayerAction::Shoot));
    assert!(!h.check_act(PlayerAction::Left));
    assert_eq!(h.bits(), 0x21);
    let axes = h.get_move_axes();
    assert_eq!((axes.x, axes.y), (0, 1));
    let mut h = h;
    h.clear_acts();
    assert!(!h.has_any_act());
    h.add_act(PlayerAction::Left);
    h.add_act(PlayerAction::Backward);
    let axes = h.get_move_axes();
    assert_eq!((axes.x, axes.y), (-1, -1));
}

#[test]
fn server_zones_by_name() {
    assert_eq!(ServerZone::from_string("zone_A"), Some(ServerZone::zone_A));
    assert_eq!(ServerZone::from_string("zone_E"), Some(ServerZone::zone_E));
    assert_eq!(ServerZone::from_string("zone_F"), None);
    assert_eq!(ServerZone::from_string("ZONE_A"), None);
}

#[test]
fn redis_record_to_server_info() {
    let rec = ServerInfoInRedis { ip: 0x0A00_0001, port: 54321, zone: "zone_B".to_string(), player_count: 0, status: "available".to_string() };
    assert_eq!(rec.into_server_info(), Some(ServerInfo { ip: 0x0A00_0001, port: 54321, zone: ServerZone::zone_B }));
    let bad = ServerInfoInRedis { zone: "nowhere".to_string(), ..rec };
    assert_eq!(bad.into_server_info(), None);
}

#[test]
fn status_is_ok() {
    assert_eq!(get_status().status, "ok");
}

#[test]
fn login_with_password() {
    let ok = LoginRequest { username: "toto".to_string(), password: "1234".to_string() };
    let id = login_validate(&ok).unwrap();
    assert_eq!((id >> 76) & 0xF, 4);
    assert_eq!((id >> 62) & 0x3, 2);
    let bad = LoginRequest { username: "toto".to_string(), password: "12345".to_string() };
    assert_eq!(login_validate(&bad), None);
}

#[test]
fn login_answers() {
    let server = ServerInfo { ip: 1, port: 2, zone: ServerZone::zone_A };
    match login_response(None, Some(server)) {
        LoginResponse::Unauthorized(u) => assert_eq!(u.error, "Authentification failed"),
        _ => panic!("expected unauthorized"),
    }
    match login_response(Some(3), None) {
        LoginResponse::Unavailable(u) => assert_eq!(u.error, "No server available"),
        _ => panic!("expected unavailable"),
    }
    match login_response(Some(3), Some(server)) {
        LoginResponse::Success(s) => {
            assert_eq!(s.player_id, 3);
            assert_eq!(s.server, server);
        }
        _ => panic!("expected success"),
    }
}

#[test]
fn ttl_expiry() {
    assert_eq!(expiry_for_ttl(0), Expiry::KeepTtl);
    assert_eq!(expiry_for_ttl(15), Expiry::Seconds(15));
}

#[test]
fn redis_fields_as_json() {
    let fields = vec![
        ("ip".to_string(), "127.0.0.1".to_string(), false),
        ("port".to_string(), "8080".to_string(), true),
    ];
    assert_eq!(fields_as_json(&fields), "{\"ip\" : \"127.0.0.1\", \"port\" : 8080}");
    assert_eq!(fields_as_json(&vec![]), "{}");
}

#[test]
fn available_servers_are_counted() {
    let statuses = vec![Some("available".to_string()), Some("full".to_string()), None, Some("available".to_string())];
    assert_eq!(count_available_servers(&statuses), 2);
}

#[test]
fn spawn_plan() {
    let mut next = 8080u16;
    assert_eq!(servers_to_spawn(1, 4, &mut next), vec![8080, 8081, 8082]);
    assert_eq!(next, 8083);
    assert!(servers_to_spawn(4, 4, &mut next).is_empty());
    assert!(servers_to_spawn(5, 4, &mut next).is_empty());
    assert_eq!(next, 8083);
}

#[test]
fn heartbeat_status_and_datagram() {
    let hb = Heartbeat {
        id: 9,
        addr: ServerAddress { ip: IpAddress::V4(0x7F00_0001), port: 28080 },
        zone: "zone_A".to_string(),
        player_count: 1,
        is_full: false,
    };
    assert_eq!(server_status(&hb), "available");
    let full = Heartbeat { is_full: true, zone: "z".to_string(), ..hb };
    assert_eq!(server_status(&full), "full");
    let mut datagram = vec![0u8; 18];
    datagram.extend(full.to_bytes());
    let back = heartbeat_from_datagram(&datagram).unwrap();
    assert_eq!(back.zone, "z");
    assert!(back.is_full);
    let _ = ByteReader::new(&datagram);
}

#[test]
fn messages_back_to_back_read_back() {
    let msgs = vec![
        GameMessage::Register { client_id: ClientId::of_game_server(1) },
        GameMessage::Publish { topic: Topic("a/b".to_string()), payload: vec![1, 2] },
        GameMessage::Broadcast { payload: vec![] },
        GameMessage::HandoffComplete { entity_id: EntityId(5), border: Border::BottomLeft },
    ];
    let mut data = Vec::new();
    for m in &msgs {
        m.append_bytes(&mut data);
    }
    data.push(0x99);
    assert!(mmo_core::packet::packet_is_readable(&data));
    let (back, rest) = read_messages(&data);
    assert_eq!(rest, 1);
    assert_eq!(back.len(), 4);
    for (a, b) in msgs.iter().zip(back.iter()) {
        assert_eq!(a.as_bytes(), b.as_bytes());
    }
}

#[test]
fn packet_with_cut_topic_is_not_readable() {
    let mut data = GameMessage::HandoffAccept { entity_id: EntityId(1) }.as_bytes();
    data.extend_from_slice(&[0x03, 0x00]);
    assert!(!mmo_core::packet::packet_is_readable(&data));
    assert!(mmo_core::packet::packet_is_readable(&[]));
}

#[test]
fn server_link_follows_events() {
    let mut links = ServerLinks { broker: None, orchestrator: None };
    let mut network = Vec::new();
    let step = broker_event(&mut links, 7, NetworkEvent::Connected(3), &mut network);
    assert!(matches!(step.action, Some(NetworkAction::CreateStream(3))));
    let step = broker_event(&mut links, 7, NetworkEvent::StreamCreated(3, 4), &mut network);
    match step.action {
        Some(NetworkAction::Send { link, bytes }) => {
            assert_eq!(link, PeerLink { connection: 3, stream: 4 });
            assert_eq!(bytes, GameMessage::Register { client_id: ClientId::of_game_server(7) }.as_bytes());
        }
        other => panic!("unexpected {:?}", other),
    }
    assert_eq!(links.broker, Some(PeerLink { connection: 3, stream: 4 }));
    let data = GameMessage::HandoffAccept { entity_id: EntityId(2) }.as_bytes();
    let step = broker_event(&mut links, 7, NetworkEvent::Message { connection: 3, stream: 4, data }, &mut network);
    assert_eq!(step.events, vec![ServerEvent::OwnedToPending(OwnedToPending { id: EntityId(2) })]);
    broker_event(&mut links, 7, NetworkEvent::StreamClosed(3, 4), &mut network);
    assert_eq!(links.broker, None);

    assert!(matches!(orchestrator_event(&mut links, &NetworkEvent::StreamCreated(5, 6)), Some(NetworkAction::SendHeartbeat)));
    assert_eq!(links.orchestrator, Some(PeerLink { connection: 5, stream: 6 }));
    assert!(orchestrator_event(&mut links, &NetworkEvent::Disconnected(5)).is_none());
    assert_eq!(links.orchestrator, None);
}

#[test]
fn client_link_follows_events() {
    let mut link = None;
    let me = ClientId::of_player(12);
    let step = client_event(&mut link, me, NetworkEvent::StreamCreated(1, 2));
    assert!(matches!(step.action, Some(NetworkAction::Send { .. })));
    assert_eq!(link, Some(PeerLink { connection: 1, stream: 2 }));
    let mut data = Vec::new();
    GameMessage::ClientUpdate { entity_id: EntityId(4), pos: wv(0, 0), vel: wv(0, 0), state: EntityState::Other }
        .append_bytes(&mut data);
    let step = client_event(&mut link, me, NetworkEvent::Message { connection: 1, stream: 2, data });
    assert_eq!(step.updates.len(), 1);
    client_event(&mut link, me, NetworkEvent::Disconnected(1));
    assert_eq!(link, None);
}

#[test]
fn broker_applies_received_packets() {
    let mut ps = PubSub::new();
    let data = GameMessage::Register { client_id: ClientId::of_player(3) }.as_bytes();
    broker_receive(&mut ps, &NetworkEvent::Message { connection: 8, stream: 9, data });
    assert_eq!(ps.get_peer_socket_id(ClientId::of_player(3)), Some(PeerSocketId(8, 9)));
    broker_receive(&mut ps, &NetworkEvent::Error(8));
    assert_eq!(ps.get_peer_socket_id(ClientId::of_player(3)), Some(PeerSocketId(8, 9)));
}

#[test]
fn last_input_and_ghost_update_win() {
    let a = ClientId::of_player(1);
    let b = ClientId::of_player(2);
    let m = |id: ClientId, bits: u8| PlayerActionHolderMessage { id, act: PlayerActionHolder::from_bits(bits) };
    let mut r = interpret_player_input(&vec![m(a, 1), m(b, 2), m(a, 3)]);
    r.sort_by_key(|(c, _)| c.value);
    assert_eq!(r.len(), 2);
    assert_eq!(r[0].1.act.bits(), 3);
    assert_eq!(r[1].1.act.bits(), 2);

    let g = |id: u32, x: u32| UpdateGhostEntity { id: EntityId(id), pos: wv(x, 0), vel: wv(0, 0), state: EntityState::Other };
    let mut r = update_ghosts(&vec![g(5, 1), g(5, 2), g(6, 3)]);
    r.sort_by_key(|(k, _)| *k);
    assert_eq!(r, vec![(5, g(5, 2)), (6, g(6, 3))]);
}
