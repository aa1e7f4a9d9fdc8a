//! The decisions of a game server: what the messages of a broker packet ask
//! of it, which borders its entities cross, and what it publishes and tells
//! the orchestrator.
use vstd::prelude::*;
use crate::entity::{EntityId, EntityState, WireVec2};
use crate::game_message::{Border, ClientId, GameMessage, MessageModel, Topic, combined,
    encode_message};
use crate::input::PlayerActionHolder;
use crate::topic::{TopicContent, FixedVec2, topic_content_of, publication, publication_readable,
    lemma_publication_content_never_read};
use crate::packet::{packet_messages, packet_rest, packet_readable, read_messages};
use crate::heartbeat::{Heartbeat, HeartbeatModel, IpAddress, ServerAddress};
use crate::assoc::{keys_unique, has_key, assoc_map, lemma_assoc_update, lemma_assoc_push,
    lemma_assoc_empty};

verus! {

/// Who has authority over an entity.
#[derive(Debug, Clone, Copy, PartialEq, Eq, Structural)]
pub enum EntityNetworkState {
    /// This server simulates and publishes it.
    Owned,
    /// This server asked a neighbour to take it over.
    PendingHandoff,
    /// A neighbour owns it; this server mirrors it.
    Ghosted,
}

#[derive(Debug, Clone, Copy, PartialEq, Eq, Structural)]
pub struct ServerEntityTag {
    pub id: EntityId,
    pub state: EntityNetworkState,
}

/// Marks an entity driven by a player.
#[derive(Debug, Clone, Copy, PartialEq, Eq, Structural)]
pub struct PlayerTag {
    pub id: ClientId,
}

/// A player's input for this frame.
#[derive(Debug, Clone, Copy, PartialEq, Eq, Structural)]
pub struct PlayerActionHolderMessage {
    pub id: ClientId,
    pub act: PlayerActionHolder,
}

/// An entity to create, as a neighbour handed it over.
#[derive(Debug, Clone, Copy, PartialEq, Eq, Structural)]
pub struct CreateEntity {
    pub tag: ServerEntityTag,
    pub pos: WireVec2,
    pub vel: WireVec2,
    pub state: EntityState,
}

/// New position, velocity and state of a mirrored entity.
#[derive(Debug, Clone, Copy, PartialEq, Eq, Structural)]
pub struct UpdateGhostEntity {
    pub id: EntityId,
    pub pos: WireVec2,
    pub vel: WireVec2,
    pub state: EntityState,
}

/// A mirrored entity this server now owns.
#[derive(Debug, Clone, Copy, PartialEq, Eq, Structural)]
pub struct GhostToOwned {
    pub id: EntityId,
}

/// An owned entity whose hand-off a neighbour accepted.
#[derive(Debug, Clone, Copy, PartialEq, Eq, Structural)]
pub struct OwnedToPending {
    pub id: EntityId,
}

/// What a message from the broker asks of the server.
#[derive(Debug, Clone, Copy, PartialEq, Eq, Structural)]
pub enum ServerEvent {
    PlayerInput(PlayerActionHolderMessage),
    Create(CreateEntity),
    UpdateGhost(UpdateGhostEntity),
    GhostToOwned(GhostToOwned),
    OwnedToPending(OwnedToPending),
}

/// The input event a publication carries, if any.
pub open spec fn publish_event(topic: Seq<char>, payload: Seq<u8>) -> Option<ServerEvent> {
    match topic_content_of(topic, payload) {
        Some(TopicContent::PlayerInput { client_id, input }) => Some(
            ServerEvent::PlayerInput(PlayerActionHolderMessage { id: client_id, act: input }),
        ),
        _ => None,
    }
}

/// The event a message from the broker raises, if any.
pub open spec fn event_of(m: MessageModel) -> Option<ServerEvent> {
    match m {
        MessageModel::Publish { topic, payload } => publish_event(topic, payload),
        MessageModel::HandoffRequest { entity_id, pos, vel, state, .. } => Some(
            ServerEvent::Create(
                CreateEntity {
                    tag: ServerEntityTag { id: entity_id, state: EntityNetworkState::Ghosted },
                    pos,
                    vel,
                    state,
                },
            ),
        ),
        MessageModel::HandoffAccept { entity_id } => Some(
            ServerEvent::OwnedToPending(OwnedToPending { id: entity_id }),
        ),
        MessageModel::GhostUpdate { entity_id, pos, vel, state } => Some(
            ServerEvent::UpdateGhost(UpdateGhostEntity { id: entity_id, pos, vel, state }),
        ),
        MessageModel::HandoffComplete { entity_id, .. } => Some(
            ServerEvent::GhostToOwned(GhostToOwned { id: entity_id }),
        ),
        _ => None,
    }
}

/// The events of a run of messages, in order.
pub open spec fn events_of(ms: Seq<MessageModel>) -> Seq<ServerEvent>
    decreases ms.len(),
{
    if ms.len() == 0 {
        Seq::empty()
    } else {
        let before = events_of(ms.drop_last());
        match event_of(ms.last()) {
            Some(e) => before.push(e),
            None => before,
        }
    }
}

/// The answer owed to a message: an acceptance for a hand-off request.
pub open spec fn accept_of(m: MessageModel) -> Seq<u8> {
    match m {
        MessageModel::HandoffRequest { entity_id, .. } => encode_message(
            MessageModel::HandoffAccept { entity_id },
        ),
        _ => Seq::empty(),
    }
}

/// The answers owed to a run of messages, back to back.
pub open spec fn accepts_of(ms: Seq<MessageModel>) -> Seq<u8>
    decreases ms.len(),
{
    if ms.len() == 0 {
        Seq::empty()
    } else {
        accepts_of(ms.drop_last()) + accept_of(ms.last())
    }
}

/// The events of two runs of messages are those of the first, then those of
/// the second, and so are the answers owed.
pub proof fn lemma_events_concat(a: Seq<MessageModel>, b: Seq<MessageModel>)
    ensures
        events_of(a + b) == events_of(a) + events_of(b),
        accepts_of(a + b) == accepts_of(a) + accepts_of(b),
    decreases b.len(),
{
    if b.len() == 0 {
        assert(a + b =~= a);
        assert(events_of(a) + events_of(b) =~= events_of(a));
        assert(accepts_of(a) + accepts_of(b) =~= accepts_of(a));
    } else {
        assert((a + b).drop_last() =~= a + b.drop_last());
        assert((a + b).last() == b.last());
        lemma_events_concat(a, b.drop_last());
        match event_of(b.last()) {
            Some(e) => {
                assert(events_of(a) + events_of(b.drop_last()).push(e) =~= (events_of(a) + events_of(
                    b.drop_last(),
                )).push(e));
            },
            None => {},
        }
        assert(accepts_of(a) + (accepts_of(b.drop_last()) + accept_of(b.last())) =~= accepts_of(a)
            + accepts_of(b.drop_last()) + accept_of(b.last()));
    }
}

/// What one message from the broker raises on a game server, field by
/// field: a ghost update moves the ghost to the message's position and
/// velocity; a hand-off request creates a mirrored entity with the message's
/// identifier, position, velocity and state and is answered with an
/// acceptance of that identifier; an acceptance marks that entity pending; a
/// completed hand-off makes that ghost owned; a rejection, a registration, a
/// broadcast, a subscription change, a client input or a client update
/// raises nothing.
pub proof fn lemma_one_message_event(m: MessageModel)
    ensures
        m matches MessageModel::GhostUpdate { entity_id, pos, vel, state } ==> events_of(seq![m])
            == seq![ServerEvent::UpdateGhost(UpdateGhostEntity { id: entity_id, pos, vel, state })]
            && accepts_of(seq![m]).len() == 0,
        m matches MessageModel::HandoffRequest { entity_id, pos, vel, state, .. } ==> events_of(seq![m])
            == seq![
            ServerEvent::Create(
                CreateEntity {
                    tag: ServerEntityTag { id: entity_id, state: EntityNetworkState::Ghosted },
                    pos,
                    vel,
                    state,
                },
            ),
        ] && accepts_of(seq![m]) == encode_message(MessageModel::HandoffAccept { entity_id }),
        m matches MessageModel::HandoffAccept { entity_id } ==> events_of(seq![m]) == seq![
            ServerEvent::OwnedToPending(OwnedToPending { id: entity_id }),
        ],
        m matches MessageModel::HandoffComplete { entity_id, .. } ==> events_of(seq![m]) == seq![
            ServerEvent::GhostToOwned(GhostToOwned { id: entity_id }),
        ],
        (m is HandoffReject || m is Register || m is Broadcast || m is Subscribe || m is Unsubscribe
            || m is ClientInput || m is ClientUpdate) ==> events_of(seq![m]).len() == 0 && accepts_of(
            seq![m],
        ).len() == 0,
{
    let one = seq![m];
    assert(one.drop_last() =~= Seq::<MessageModel>::empty());
    assert(one.last() == m);
    assert(events_of(one.drop_last()) == Seq::<ServerEvent>::empty());
    assert(accepts_of(one.drop_last()) == Seq::<u8>::empty());
    assert(accepts_of(one) =~= accept_of(m));
    match m {
        MessageModel::GhostUpdate { entity_id, pos, vel, state } => {
            assert(events_of(one) =~= seq![
                ServerEvent::UpdateGhost(UpdateGhostEntity { id: entity_id, pos, vel, state }),
            ]);
        },
        MessageModel::HandoffRequest { entity_id, pos, vel, state, .. } => {
            assert(events_of(one) =~= seq![
                ServerEvent::Create(
                    CreateEntity {
                        tag: ServerEntityTag { id: entity_id, state: EntityNetworkState::Ghosted },
                        pos,
                        vel,
                        state,
                    },
                ),
            ]);
        },
        MessageModel::HandoffAccept { entity_id } => {
            assert(events_of(one) =~= seq![ServerEvent::OwnedToPending(OwnedToPending { id: entity_id })]);
        },
        MessageModel::HandoffComplete { entity_id, .. } => {
            assert(events_of(one) =~= seq![ServerEvent::GhostToOwned(GhostToOwned { id: entity_id })]);
        },
        _ => {},
    }
}

/// The bytes of a ghost update, as a game server reads them from the broker,
/// give one event that moves that ghost to the message's position and
/// velocity with its state.
pub proof fn lemma_ghost_update_packet(entity_id: EntityId, pos: WireVec2, vel: WireVec2, state: EntityState)
    ensures
        ({
            let bytes = encode_message(MessageModel::GhostUpdate { entity_id, pos, vel, state });
            &&& packet_readable(bytes)
            &&& events_of(packet_messages(bytes)) == seq![
                ServerEvent::UpdateGhost(UpdateGhostEntity { id: entity_id, pos, vel, state }),
            ]
            &&& packet_rest(bytes) == 0
        }),
{
    let m = MessageModel::GhostUpdate { entity_id, pos, vel, state };
    let ms = seq![m];
    assert(ms.skip(1) =~= Seq::<MessageModel>::empty());
    assert(crate::packet::encode_all(ms) =~= encode_message(m) + crate::packet::encode_all(ms.skip(1)));
    assert(crate::packet::encode_all(ms) + Seq::<u8>::empty() =~= encode_message(m));
    crate::packet::lemma_packet_roundtrip(ms, Seq::empty());
    lemma_one_message_event(m);
}

/// The input a publication carries, if any.
pub fn handle_publish(topic: &Topic, payload: Vec<u8>) -> (r: Option<PlayerActionHolderMessage>)
    ensures
        match r {
            Some(msg) => publish_event(topic@, payload@) == Some(ServerEvent::PlayerInput(msg)),
            None => publish_event(topic@, payload@) is None,
        },
{
    proof {
        lemma_publication_content_never_read(topic@, payload@);
    }
    match TopicContent::from_publish(topic, payload) {
        Some(TopicContent::PlayerInput { client_id, input }) => Some(
            PlayerActionHolderMessage { id: client_id, act: input },
        ),
        _ => None,
    }
}

/// Handles one message from the broker: records the event it raises and
/// appends the answer it is owed.
fn handle_message(m: GameMessage, events: &mut Vec<ServerEvent>, network_message: &mut Vec<u8>)
    ensures
        final(events)@ == match event_of(m@) {
            Some(e) => old(events)@.push(e),
            None => old(events)@,
        },
        final(network_message)@ == old(network_message)@ + accept_of(m@),
{
    match m {
        GameMessage::Publish { topic, payload } => {
            if let Some(input) = handle_publish(&topic, payload) {
                events.push(ServerEvent::PlayerInput(input));
            }
        },
        GameMessage::HandoffRequest { entity_id, pos, vel, state, .. } => {
            events.push(
                ServerEvent::Create(
                    CreateEntity {
                        tag: ServerEntityTag { id: entity_id, state: EntityNetworkState::Ghosted },
                        pos,
                        vel,
                        state,
                    },
                ),
            );
            GameMessage::HandoffAccept { entity_id }.append_bytes(network_message);
        },
        GameMessage::HandoffAccept { entity_id } => {
            events.push(ServerEvent::OwnedToPending(OwnedToPending { id: entity_id }));
        },
        GameMessage::GhostUpdate { entity_id, pos, vel, state } => {
            events.push(ServerEvent::UpdateGhost(UpdateGhostEntity { id: entity_id, pos, vel, state }));
        },
        GameMessage::HandoffComplete { entity_id, .. } => {
            events.push(ServerEvent::GhostToOwned(GhostToOwned { id: entity_id }));
        },
        _ => {},
    }
    assert(network_message@ =~= old(network_message)@ + accept_of(m@));
}

/// Handles a packet from the broker: the events its messages raise, in
/// order, and the number of bytes after its last message. An acceptance is
/// appended to `network_message` for each hand-off request.
pub fn message_received(network_message: &mut Vec<u8>, data: &[u8]) -> (r: (Vec<ServerEvent>, usize))
    requires
        packet_readable(data@),
    ensures
        r.0@ == events_of(packet_messages(data@)),
        r.1 == packet_rest(data@),
        final(network_message)@ == old(network_message)@ + accepts_of(packet_messages(data@)),
{
    let (mut msgs, remaining) = read_messages(data);
    let ghost all = packet_messages(data@);
    let n0 = msgs.len();
    let ghost total = n0 as nat;
    let mut events: Vec<ServerEvent> = Vec::new();
    let mut k: usize = 0;
    while msgs.len() > 0
        invariant
            total == all.len(),
            total <= usize::MAX,
            k + msgs@.len() == total,
            forall|i: int| 0 <= i < msgs@.len() ==> #[trigger] msgs@[i]@ == all[k + i],
            events@ == events_of(all.take(k as int)),
            network_message@ == old(network_message)@ + accepts_of(all.take(k as int)),
        decreases msgs@.len(),
    {
        let ghost before = msgs@;
        let m = msgs.remove(0);
        assert(m@ == all[k as int]);
        assert forall|i: int| 0 <= i < msgs@.len() implies #[trigger] msgs@[i]@ == all[k + 1 + i] by {
            assert(msgs@[i] == before[i + 1]);
        }
        assert(all.take(k + 1).drop_last() =~= all.take(k as int));
        assert(all.take(k + 1).last() == m@);
        handle_message(m, &mut events, network_message);
        assert(network_message@ =~= old(network_message)@ + accepts_of(all.take(k + 1)));
        k = k + 1;
    }
    assert(all.take(total as int) =~= all);
    (events, remaining)
}

// ---------------------------------------------------------------------------
// Borders
// ---------------------------------------------------------------------------

/// Which sides of its area a circle around an entity sticks out of.
#[derive(Debug, Clone, Copy, PartialEq, Eq, Structural)]
pub struct BorderOverlap {
    pub left: bool,
    pub bottom: bool,
    pub right: bool,
    pub top: bool,
}

/// The borders a circle sticks out of, in the order left, bottom, right, top.
pub open spec fn touched(o: BorderOverlap) -> Seq<Border> {
    let a = if o.left {
        seq![Border::Left]
    } else {
        Seq::empty()
    };
    let b = if o.bottom {
        a.push(Border::Bottom)
    } else {
        a
    };
    let c = if o.right {
        b.push(Border::Right)
    } else {
        b
    };
    if o.top {
        c.push(Border::Top)
    } else {
        c
    }
}

/// The borders a circle sticks out of.
pub fn circle_touched_rectangle_borders(o: BorderOverlap) -> (r: Vec<Border>)
    ensures
        r@ == touched(o),
{
    let mut res: Vec<Border> = Vec::new();
    if o.left {
        res.push(Border::Left);
    }
    if o.bottom {
        res.push(Border::Bottom);
    }
    if o.right {
        res.push(Border::Right);
    }
    if o.top {
        res.push(Border::Top);
    }
    assert(res@ =~= touched(o));
    res
}

/// The border to hand an entity over through: the borders combined from
/// the first, a border that does not combine being passed over.
pub open spec fn folded_border(s: Seq<Border>) -> Border
    recommends
        s.len() > 0,
    decreases s.len(),
{
    if s.len() <= 1 {
        s[0]
    } else {
        let acc = folded_border(s.drop_last());
        match combined(acc, s.last()) {
            Some(c) => c,
            None => acc,
        }
    }
}

/// A consequence of a border check.
#[derive(Debug, Clone, Copy, PartialEq, Eq, Structural)]
pub enum BorderEvent {
    /// The entity nears this border: a neighbour is asked to take it over.
    Crossed(Border),
    /// The entity passed this border: its neighbour now has authority.
    Handoff(Border),
}

/// The consequences of the borders an entity's circle sticks out of.
pub open spec fn border_events_of(state: EntityNetworkState, t: Seq<Border>) -> Seq<BorderEvent> {
    match state {
        EntityNetworkState::Owned => Seq::new(t.len(), |i: int| BorderEvent::Crossed(t[i])),
        EntityNetworkState::PendingHandoff => if t.len() == 0 {
            Seq::empty()
        } else {
            seq![BorderEvent::Handoff(folded_border(t))]
        },
        EntityNetworkState::Ghosted => Seq::empty(),
    }
}

/// Combines the borders an entity passed into the one it leaves through.
pub fn handoff_border(borders: &Vec<Border>) -> (r: Border)
    requires
        borders@.len() > 0,
    ensures
        r == folded_border(borders@),
{
    let mut handoff_to = borders[0];
    let mut i: usize = 1;
    while i < borders.len()
        invariant
            1 <= i <= borders@.len(),
            handoff_to == folded_border(borders@.take(i as int)),
        decreases borders@.len() - i,
    {
        assert(borders@.take(i + 1).drop_last() =~= borders@.take(i as int));
        if let Some(combination) = handoff_to.combine(borders[i]) {
            handoff_to = combination;
        }
        i = i + 1;
    }
    assert(borders@.take(i as int) =~= borders@);
    handoff_to
}

/// The consequences, for an entity in `state`, of the borders its circle
/// sticks out of: an owned entity crosses each of them; an entity being
/// handed over passes through their combination; a mirrored one is left to
/// its owner.
pub fn check_border_crossings(state: EntityNetworkState, touched_borders: &Vec<Border>) -> (r: Vec<BorderEvent>)
    ensures
        r@ == border_events_of(state, touched_borders@),
{
    let mut res: Vec<BorderEvent> = Vec::new();
    match state {
        EntityNetworkState::Owned => {
            let mut i: usize = 0;
            while i < touched_borders.len()
                invariant
                    i <= touched_borders@.len(),
                    res@ =~= Seq::new(i as nat, |j: int| BorderEvent::Crossed(touched_borders@[j])),
                decreases touched_borders@.len() - i,
            {
                res.push(BorderEvent::Crossed(touched_borders[i]));
                i = i + 1;
            }
        },
        EntityNetworkState::PendingHandoff => {
            if touched_borders.len() > 0 {
                res.push(BorderEvent::Handoff(handoff_border(touched_borders)));
                assert(res@ =~= border_events_of(state, touched_borders@));
            }
        },
        EntityNetworkState::Ghosted => {},
    }
    res
}

/// The hand-off request for an entity that nears `border`; a player's
/// entity carries the player's identifier.
pub fn handoff_request(tag: &ServerEntityTag, pos: WireVec2, vel: WireVec2, border: Border, player: Option<PlayerTag>) -> (m: GameMessage)
    ensures
        m@ == (MessageModel::HandoffRequest {
            entity_id: tag.id,
            pos,
            vel,
            border,
            state: match player {
                Some(p) => EntityState::PlayerState { id: p.id },
                None => EntityState::Other,
            },
        }),
{
    let state = match player {
        Some(p) => EntityState::PlayerState { id: p.id },
        None => EntityState::Other,
    };
    GameMessage::HandoffRequest { entity_id: tag.id, pos, vel, border, state }
}

// ---------------------------------------------------------------------------
// Publishing
// ---------------------------------------------------------------------------

/// What the server knows of one of its entities when it publishes.
#[derive(Debug, Clone, Copy, PartialEq, Eq, Structural)]
pub struct EntitySnapshot {
    pub tag: ServerEntityTag,
    pub pos: FixedVec2,
    pub vel: FixedVec2,
    pub player: Option<PlayerTag>,
}

/// The information published for an entity.
pub open spec fn snapshot_content(e: EntitySnapshot) -> TopicContent {
    TopicContent::EntityInfo {
        entity_id: e.tag.id,
        pos: e.pos,
        vel: e.vel,
        state: match e.player {
            Some(p) => EntityState::PlayerState { id: p.id },
            None => EntityState::Other,
        },
    }
}

/// The publications of the owned entities among `es`, back to back.
pub open spec fn owned_publications(es: Seq<EntitySnapshot>) -> Seq<u8>
    decreases es.len(),
{
    if es.len() == 0 {
        Seq::empty()
    } else {
        let before = owned_publications(es.drop_last());
        if es.last().tag.state == EntityNetworkState::Owned {
            before + encode_message(publication(snapshot_content(es.last())))
        } else {
            before
        }
    }
}

/// Appends a publication for each entity this server owns.
pub fn write_entities_to_package(entities: &Vec<EntitySnapshot>, network_message: &mut Vec<u8>)
    ensures
        final(network_message)@ == old(network_message)@ + owned_publications(entities@),
{
    let mut i: usize = 0;
    while i < entities.len()
        invariant
            i <= entities@.len(),
            network_message@ == old(network_message)@ + owned_publications(entities@.take(i as int)),
        decreases entities@.len() - i,
    {
        let e = entities[i];
        assert(entities@.take(i + 1).drop_last() =~= entities@.take(i as int));
        if e.tag.state == EntityNetworkState::Owned {
            let state = match e.player {
                Some(p) => EntityState::PlayerState { id: p.id },
                None => EntityState::Other,
            };
            let content = TopicContent::EntityInfo { entity_id: e.tag.id, pos: e.pos, vel: e.vel, state };
            content.to_publish().append_bytes(network_message);
            assert(network_message@ =~= old(network_message)@ + owned_publications(
                entities@.take(i + 1),
            ));
        }
        i = i + 1;
    }
    assert(entities@.take(i as int) =~= entities@);
}

// ---------------------------------------------------------------------------
// Authority changes
// ---------------------------------------------------------------------------

/// The tags after every entity named in `ids` moved to `state`.
pub open spec fn with_state(tags: Seq<ServerEntityTag>, ids: Seq<EntityId>, state: EntityNetworkState) -> Seq<ServerEntityTag> {
    Seq::new(
        tags.len(),
        |i: int|
            if ids.contains(tags[i].id) {
                ServerEntityTag { id: tags[i].id, state }
            } else {
                tags[i]
            },
    )
}

fn contains_id(ids: &Vec<EntityId>, id: EntityId) -> (r: bool)
    ensures
        r == ids@.contains(id),
{
    let mut i: usize = 0;
    while i < ids.len()
        invariant
            i <= ids@.len(),
            forall|j: int| 0 <= j < i ==> ids@[j] != id,
        decreases ids@.len() - i,
    {
        if ids[i] == id {
            return true;
        }
        i = i + 1;
    }
    false
}

fn set_state_of(tags: &mut Vec<ServerEntityTag>, ids: &Vec<EntityId>, state: EntityNetworkState)
    ensures
        final(tags)@ == with_state(old(tags)@, ids@, state),
{
    let mut i: usize = 0;
    while i < tags.len()
        invariant
            i <= tags@.len(),
            tags@.len() == old(tags)@.len(),
            forall|j: int| 0 <= j < i ==> #[trigger] tags@[j] == with_state(old(tags)@, ids@, state)[j],
            forall|j: int| i <= j < tags@.len() ==> #[trigger] tags@[j] == old(tags)@[j],
        decreases tags@.len() - i,
    {
        let t = tags[i];
        if contains_id(ids, t.id) {
            tags.set(i, ServerEntityTag { id: t.id, state });
        }
        i = i + 1;
    }
    assert(tags@ =~= with_state(old(tags)@, ids@, state));
}

/// Takes ownership of the mirrored entities whose hand-off completed.
pub fn ghost_to_owned(tags: &mut Vec<ServerEntityTag>, msgs: &Vec<GhostToOwned>)
    ensures
        final(tags)@ == with_state(old(tags)@, msgs@.map_values(|m: GhostToOwned| m.id), EntityNetworkState::Owned),
{
    let mut ids: Vec<EntityId> = Vec::new();
    let mut i: usize = 0;
    while i < msgs.len()
        invariant
            i <= msgs@.len(),
            ids@ == msgs@.take(i as int).map_values(|m: GhostToOwned| m.id),
        decreases msgs@.len() - i,
    {
        ids.push(msgs[i].id);
        i = i + 1;
        assert(ids@ =~= msgs@.take(i as int).map_values(|m: GhostToOwned| m.id));
    }
    assert(msgs@.take(i as int) =~= msgs@);
    set_state_of(tags, &ids, EntityNetworkState::Owned);
}

/// Marks the owned entities whose hand-off a neighbour accepted.
pub fn owned_to_pending(tags: &mut Vec<ServerEntityTag>, msgs: &Vec<OwnedToPending>)
    ensures
        final(tags)@ == with_state(old(tags)@, msgs@.map_values(|m: OwnedToPending| m.id), EntityNetworkState::PendingHandoff),
{
    let mut ids: Vec<EntityId> = Vec::new();
    let mut i: usize = 0;
    while i < msgs.len()
        invariant
            i <= msgs@.len(),
            ids@ == msgs@.take(i as int).map_values(|m: OwnedToPending| m.id),
        decreases msgs@.len() - i,
    {
        ids.push(msgs[i].id);
        i = i + 1;
        assert(ids@ =~= msgs@.take(i as int).map_values(|m: OwnedToPending| m.id));
    }
    assert(msgs@.take(i as int) =~= msgs@);
    set_state_of(tags, &ids, EntityNetworkState::PendingHandoff);
}

// ---------------------------------------------------------------------------
// Frame inputs and ghost updates
// ---------------------------------------------------------------------------

impl View for PlayerActionHolderMessage {
    type V = PlayerActionHolderMessage;

    open spec fn view(&self) -> PlayerActionHolderMessage {
        *self
    }
}

impl View for UpdateGhostEntity {
    type V = UpdateGhostEntity;

    open spec fn view(&self) -> UpdateGhostEntity {
        *self
    }
}

/// Each player's last input of the frame: a later input replaces an
/// earlier one.
pub open spec fn latest_inputs(s: Seq<PlayerActionHolderMessage>) -> Map<ClientId, PlayerActionHolderMessage>
    decreases s.len(),
{
    if s.len() == 0 {
        Map::empty()
    } else {
        latest_inputs(s.drop_last()).insert(s.last().id, s.last())
    }
}

/// Each mirrored entity's last update of the frame.
pub open spec fn latest_ghost_updates(s: Seq<UpdateGhostEntity>) -> Map<u32, UpdateGhostEntity>
    decreases s.len(),
{
    if s.len() == 0 {
        Map::empty()
    } else {
        latest_ghost_updates(s.drop_last()).insert(s.last().id.0, s.last())
    }
}

fn find_player(list: &Vec<(ClientId, PlayerActionHolderMessage)>, id: ClientId) -> (r: Option<usize>)
    ensures
        match r {
            Some(i) => i < list@.len() && list@[i as int].0 == id,
            None => !has_key(list@, id),
        },
{
    let mut i: usize = 0;
    while i < list.len()
        invariant
            i <= list@.len(),
            forall|j: int| 0 <= j < i ==> list@[j].0 != id,
        decreases list@.len() - i,
    {
        if list[i].0 == id {
            return Some(i);
        }
        i = i + 1;
    }
    None
}

/// The input each player last sent this frame, one entry per player.
pub fn interpret_player_input(msgs: &Vec<PlayerActionHolderMessage>) -> (r: Vec<(ClientId, PlayerActionHolderMessage)>)
    ensures
        keys_unique(r@),
        assoc_map(r@) == latest_inputs(msgs@),
{
    let mut r: Vec<(ClientId, PlayerActionHolderMessage)> = Vec::new();
    proof {
        lemma_assoc_empty(r@);
    }
    let mut i: usize = 0;
    while i < msgs.len()
        invariant
            i <= msgs@.len(),
            keys_unique(r@),
            assoc_map(r@) == latest_inputs(msgs@.take(i as int)),
        decreases msgs@.len() - i,
    {
        let m = msgs[i];
        assert(msgs@.take(i + 1).drop_last() =~= msgs@.take(i as int));
        assert(msgs@.take(i + 1).last() == m);
        match find_player(&r, m.id) {
            Some(k) => {
                proof {
                    lemma_assoc_update(r@, k as int, (m.id, m));
                }
                r.set(k, (m.id, m));
            },
            None => {
                proof {
                    lemma_assoc_push(r@, (m.id, m));
                }
                r.push((m.id, m));
            },
        }
        i = i + 1;
    }
    assert(msgs@.take(i as int) =~= msgs@);
    r
}

fn find_ghost(list: &Vec<(u32, UpdateGhostEntity)>, id: u32) -> (r: Option<usize>)
    ensures
        match r {
            Some(i) => i < list@.len() && list@[i as int].0 == id,
            None => !has_key(list@, id),
        },
{
    let mut i: usize = 0;
    while i < list.len()
        invariant
            i <= list@.len(),
            forall|j: int| 0 <= j < i ==> list@[j].0 != id,
        decreases list@.len() - i,
    {
        if list[i].0 == id {
            return Some(i);
        }
        i = i + 1;
    }
    None
}

/// The update each mirrored entity last received this frame, one entry per
/// entity.
pub fn update_ghosts(msgs: &Vec<UpdateGhostEntity>) -> (r: Vec<(u32, UpdateGhostEntity)>)
    ensures
        keys_unique(r@),
        assoc_map(r@) == latest_ghost_updates(msgs@),
{
    let mut r: Vec<(u32, UpdateGhostEntity)> = Vec::new();
    proof {
        lemma_assoc_empty(r@);
    }
    let mut i: usize = 0;
    while i < msgs.len()
        invariant
            i <= msgs@.len(),
            keys_unique(r@),
            assoc_map(r@) == latest_ghost_updates(msgs@.take(i as int)),
        decreases msgs@.len() - i,
    {
        let m = msgs[i];
        assert(msgs@.take(i + 1).drop_last() =~= msgs@.take(i as int));
        assert(msgs@.take(i + 1).last() == m);
        match find_ghost(&r, m.id.0) {
            Some(k) => {
                proof {
                    lemma_assoc_update(r@, k as int, (m.id.0, m));
                }
                r.set(k, (m.id.0, m));
            },
            None => {
                proof {
                    lemma_assoc_push(r@, (m.id.0, m));
                }
                r.push((m.id.0, m));
            },
        }
        i = i + 1;
    }
    assert(msgs@.take(i as int) =~= msgs@);
    r
}

// ---------------------------------------------------------------------------
// Heartbeat
// ---------------------------------------------------------------------------

/// The address a game server announces: the loopback address.
pub open spec fn own_ip() -> IpAddress {
    IpAddress::V4(0x7F00_0001)
}

/// The heartbeat of a server with `player_count` players: it is full when
/// the count reaches the maximum exactly.
pub fn heartbeat_for(id: u128, port: u16, zone: &String, max_players: usize, player_count: usize) -> (h: Heartbeat)
    ensures
        h@ == (HeartbeatModel {
            id,
            addr: ServerAddress { ip: own_ip(), port },
            zone: zone@,
            player_count,
            is_full: player_count == max_players,
        }),
{
    let is_full = player_count == max_players;
    Heartbeat {
        id,
        addr: ServerAddress { ip: IpAddress::V4(0x7F00_0001), port },
        zone: zone.clone(),
        player_count,
        is_full,
    }
}

} // verus!
