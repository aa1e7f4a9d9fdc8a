//! What each program does with the events of its network connections: the
//! link it keeps, the answer it sends, and what a received packet becomes.
use vstd::prelude::*;
use crate::game_message::{ClientId, PeerType, MessageModel, encode_message};
use crate::packet::{packet_messages, packet_rest, packet_readable};
use crate::server::{ServerEvent, events_of, accepts_of, message_received};
use crate::client::{UpdateEntity, updates_of, handle_server_message, join_message};
use crate::pubsub::{PubSub, PeerSocketId};

verus! {

/// A connection and one of its streams, by the numbers the network layer
/// gives them.
#[derive(Debug, Clone, Copy, PartialEq, Eq, Structural)]
pub struct PeerLink {
    pub connection: u64,
    pub stream: u64,
}

/// Something that happened on a connection.
#[derive(Debug)]
pub enum NetworkEvent {
    Connected(u64),
    Disconnected(u64),
    Message { connection: u64, stream: u64, data: Vec<u8> },
    StreamCreated(u64, u64),
    StreamClosed(u64, u64),
    Error(u64),
}

/// What the network layer is asked to do in answer.
#[derive(Debug)]
pub enum NetworkAction {
    /// Open an unreliable stream on the connection.
    CreateStream(u64),
    /// Send these bytes on the stream.
    Send { link: PeerLink, bytes: Vec<u8> },
    /// Send the server's heartbeat to the orchestrator.
    SendHeartbeat,
}

/// The links a game server keeps: to the broker and to the orchestrator.
#[derive(Debug, Clone, Copy, PartialEq, Eq, Structural)]
pub struct ServerLinks {
    pub broker: Option<PeerLink>,
    pub orchestrator: Option<PeerLink>,
}

/// The received data of an event, if it is a message.
pub open spec fn message_data(e: &NetworkEvent) -> Option<Seq<u8>> {
    match e {
        NetworkEvent::Message { data, .. } => Some(data@),
        _ => None,
    }
}

/// What a link becomes after an event of its connection.
pub open spec fn link_after(link: Option<PeerLink>, e: &NetworkEvent) -> Option<PeerLink> {
    match e {
        NetworkEvent::Disconnected(_) => None,
        NetworkEvent::StreamCreated(c, s) => Some(PeerLink { connection: *c, stream: *s }),
        NetworkEvent::StreamClosed(..) => None,
        _ => link,
    }
}

/// The events the broker's packets raise on a game server.
pub struct BrokerStep {
    pub action: Option<NetworkAction>,
    pub events: Vec<ServerEvent>,
    /// Bytes after the last message of a received packet.
    pub unread: usize,
}

/// Handles an event of the broker connection: a new connection gets a
/// stream; a new stream carries the server's registration and becomes the
/// broker link; a lost connection or stream drops the link; a packet's
/// messages become events, and the answers owed are queued in
/// `network_message`.
pub fn broker_event(links: &mut ServerLinks, own_id: u128, event: NetworkEvent, network_message: &mut Vec<u8>) -> (r: BrokerStep)
    requires
        message_data(&event) matches Some(d) ==> packet_readable(d),
    ensures
        final(links).orchestrator == old(links).orchestrator,
        final(links).broker == link_after(old(links).broker, &event),
        match event {
            NetworkEvent::Connected(c) => r.action matches Some(NetworkAction::CreateStream(c2)) && c2 == c
                && r.events@.len() == 0 && r.unread == 0 && final(network_message)@ == old(network_message)@,
            NetworkEvent::StreamCreated(c, s) => r.action matches Some(NetworkAction::Send { link, bytes })
                && link == (PeerLink { connection: c, stream: s }) && bytes@ == encode_message(
                MessageModel::Register {
                    client_id: ClientId { peer_type: PeerType::GameServer, value: own_id },
                },
            ) && r.events@.len() == 0 && r.unread == 0 && final(network_message)@ == old(network_message)@,
            NetworkEvent::Message { data, .. } => r.action is None && r.events@ == events_of(
                packet_messages(data@),
            ) && r.unread == packet_rest(data@) && final(network_message)@ == old(network_message)@
                + accepts_of(packet_messages(data@)),
            _ => r.action is None && r.events@.len() == 0 && r.unread == 0 && final(network_message)@ == old(network_message)@,
        },
{
    let none: Vec<ServerEvent> = Vec::new();
    match event {
        NetworkEvent::Connected(c) => BrokerStep { action: Some(NetworkAction::CreateStream(c)), events: none, unread: 0 },
        NetworkEvent::Disconnected(_) => {
            links.broker = None;
            BrokerStep { action: None, events: none, unread: 0 }
        },
        NetworkEvent::Message { data, .. } => {
            let (events, unread) = message_received(network_message, data.as_slice());
            BrokerStep { action: None, events, unread }
        },
        NetworkEvent::StreamCreated(c, s) => {
            let link = PeerLink { connection: c, stream: s };
            let bytes = join_message(ClientId::of_game_server(own_id));
            links.broker = Some(link);
            BrokerStep { action: Some(NetworkAction::Send { link, bytes }), events: none, unread: 0 }
        },
        NetworkEvent::StreamClosed(..) => {
            links.broker = None;
            BrokerStep { action: None, events: none, unread: 0 }
        },
        NetworkEvent::Error(_) => BrokerStep { action: None, events: none, unread: 0 },
    }
}

/// Handles an event of the orchestrator connection: a new connection gets
/// a stream; a new stream becomes the orchestrator link and is sent the
/// heartbeat at once; a lost connection or stream drops the link; the
/// orchestrator's messages are only shown.
pub fn orchestrator_event(links: &mut ServerLinks, event: &NetworkEvent) -> (r: Option<NetworkAction>)
    ensures
        final(links).broker == old(links).broker,
        final(links).orchestrator == link_after(old(links).orchestrator, event),
        match *event {
            NetworkEvent::Connected(c) => r matches Some(NetworkAction::CreateStream(c2)) && c2 == c,
            NetworkEvent::StreamCreated(..) => r matches Some(NetworkAction::SendHeartbeat),
            _ => r is None,
        },
{
    match event {
        NetworkEvent::Connected(c) => Some(NetworkAction::CreateStream(*c)),
        NetworkEvent::Disconnected(_) => {
            links.orchestrator = None;
            None
        },
        NetworkEvent::Message { .. } => None,
        NetworkEvent::StreamCreated(c, s) => {
            links.orchestrator = Some(PeerLink { connection: *c, stream: *s });
            Some(NetworkAction::SendHeartbeat)
        },
        NetworkEvent::StreamClosed(..) => {
            links.orchestrator = None;
            None
        },
        NetworkEvent::Error(_) => None,
    }
}

/// What a client takes from an event of its server connection.
pub struct ClientStep {
    pub action: Option<NetworkAction>,
    pub updates: Vec<UpdateEntity>,
    pub unread: usize,
}

/// Handles an event of a client's connection: a new connection gets a
/// stream; a new stream carries the client's registration and becomes its
/// link; a lost connection or stream drops the link; a packet's entity
/// updates are taken.
pub fn client_event(link: &mut Option<PeerLink>, client_id: ClientId, event: NetworkEvent) -> (r: ClientStep)
    requires
        message_data(&event) matches Some(d) ==> packet_readable(d),
    ensures
        *final(link) == link_after(*old(link), &event),
        match event {
            NetworkEvent::Connected(c) => r.action matches Some(NetworkAction::CreateStream(c2)) && c2 == c
                && r.updates@.len() == 0 && r.unread == 0,
            NetworkEvent::StreamCreated(c, s) => r.action matches Some(NetworkAction::Send { link, bytes })
                && link == (PeerLink { connection: c, stream: s }) && bytes@ == encode_message(
                MessageModel::Register { client_id },
            ) && r.updates@.len() == 0 && r.unread == 0,
            NetworkEvent::Message { data, .. } => r.action is None && r.updates@ == updates_of(
                packet_messages(data@),
            ) && r.unread == packet_rest(data@),
            _ => r.action is None && r.updates@.len() == 0 && r.unread == 0,
        },
{
    let none: Vec<UpdateEntity> = Vec::new();
    match event {
        NetworkEvent::Connected(c) => ClientStep { action: Some(NetworkAction::CreateStream(c)), updates: none, unread: 0 },
        NetworkEvent::Disconnected(_) => {
            *link = None;
            ClientStep { action: None, updates: none, unread: 0 }
        },
        NetworkEvent::Message { data, .. } => {
            let (updates, unread) = handle_server_message(data.as_slice());
            ClientStep { action: None, updates, unread }
        },
        NetworkEvent::StreamCreated(c, s) => {
            let l = PeerLink { connection: c, stream: s };
            *link = Some(l);
            ClientStep { action: Some(NetworkAction::Send { link: l, bytes: join_message(client_id) }), updates: none, unread: 0 }
        },
        NetworkEvent::StreamClosed(..) => {
            *link = None;
            ClientStep { action: None, updates: none, unread: 0 }
        },
        NetworkEvent::Error(_) => ClientStep { action: None, updates: none, unread: 0 },
    }
}

/// Handles an event of the broker's listening peer: a packet is applied to
/// the broker's state as coming from its connection and stream; other
/// events are only shown.
pub fn broker_receive(pub_sub: &mut PubSub, event: &NetworkEvent)
    requires
        old(pub_sub).wf(),
        message_data(event) matches Some(d) ==> old(pub_sub)@.packet_fits(d),
    ensures
        final(pub_sub).wf(),
        match *event {
            NetworkEvent::Message { connection, stream, data } => final(pub_sub)@ == old(
                pub_sub,
            )@.after_packet(PeerSocketId(connection, stream), data@),
            _ => final(pub_sub)@ == old(pub_sub)@,
        },
{
    match event {
        NetworkEvent::Message { connection, stream, data } => {
            pub_sub.process_received_packet(PeerSocketId(*connection, *stream), data.as_slice());
        },
        _ => {},
    }
}

} // verus!
