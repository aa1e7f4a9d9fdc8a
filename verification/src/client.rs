//! The decisions of a game client: what it sends to the broker and what it
//! takes from the broker's packets.
use vstd::prelude::*;
use crate::entity::{EntityId, EntityState, WireVec2};
use crate::game_message::{ClientId, GameMessage, MessageModel, encode_message};
use crate::input::PlayerActionHolder;
use crate::packet::{packet_messages, packet_rest, packet_readable, read_messages};
use crate::assoc::{keys_unique, has_key, assoc_map, lemma_assoc_lookup, lemma_assoc_update,
    lemma_assoc_push, lemma_assoc_empty};

verus! {

/// An entity's new position, velocity and state, as the server sent them.
#[derive(Debug, Clone, Copy, PartialEq, Eq, Structural)]
pub struct UpdateEntity {
    pub id: EntityId,
    pub pos: WireVec2,
    pub vel: WireVec2,
    pub state: EntityState,
}

impl View for UpdateEntity {
    type V = UpdateEntity;

    open spec fn view(&self) -> UpdateEntity {
        *self
    }
}

/// The message that registers a client with the broker.
pub fn join_message(client_id: ClientId) -> (b: Vec<u8>)
    ensures
        b@ == encode_message(MessageModel::Register { client_id }),
{
    GameMessage::Register { client_id }.as_bytes()
}

/// The message that sends a frame's input; nothing is sent for a frame
/// without actions.
pub fn input_message(client_id: ClientId, act: &PlayerActionHolder) -> (r: Option<Vec<u8>>)
    ensures
        act@ == 0 ==> r is None,
        act@ != 0 ==> (r matches Some(b) && b@ == encode_message(
            MessageModel::ClientInput { client_id, input: act@ },
        )),
{
    if act.bits() != 0 {
        let mut buf: Vec<u8> = Vec::new();
        GameMessage::ClientInput { client_id, input: *act }.append_bytes(&mut buf);
        assert(buf@ =~= encode_message(MessageModel::ClientInput { client_id, input: act@ }));
        Some(buf)
    } else {
        None
    }
}

/// The entity update a message carries, if it is a client update.
pub open spec fn update_of(m: MessageModel) -> Option<UpdateEntity> {
    match m {
        MessageModel::ClientUpdate { entity_id, pos, vel, state } => Some(
            UpdateEntity { id: entity_id, pos, vel, state },
        ),
        _ => None,
    }
}

/// The entity updates of a run of messages, in order.
pub open spec fn updates_of(ms: Seq<MessageModel>) -> Seq<UpdateEntity>
    decreases ms.len(),
{
    if ms.len() == 0 {
        Seq::empty()
    } else {
        let before = updates_of(ms.drop_last());
        match update_of(ms.last()) {
            Some(u) => before.push(u),
            None => before,
        }
    }
}

/// The updates of two runs of messages are those of the first, then those
/// of the second: no update is lost or reordered.
pub proof fn lemma_updates_concat(a: Seq<MessageModel>, b: Seq<MessageModel>)
    ensures
        updates_of(a + b) == updates_of(a) + updates_of(b),
    decreases b.len(),
{
    if b.len() == 0 {
        assert(a + b =~= a);
        assert(updates_of(a) + updates_of(b) =~= updates_of(a));
    } else {
        assert((a + b).drop_last() =~= a + b.drop_last());
        assert((a + b).last() == b.last());
        lemma_updates_concat(a, b.drop_last());
        match update_of(b.last()) {
            Some(u) => {
                assert(updates_of(a) + updates_of(b.drop_last()).push(u) =~= (updates_of(a) + updates_of(
                    b.drop_last(),
                )).push(u));
            },
            None => {},
        }
    }
}

/// A client update carries its entity's identifier, position, velocity and
/// state unchanged into exactly one update; any other message gives none.
pub proof fn lemma_one_message_update(m: MessageModel)
    ensures
        m matches MessageModel::ClientUpdate { entity_id, pos, vel, state } ==> updates_of(seq![m])
            == seq![UpdateEntity { id: entity_id, pos, vel, state }],
        !(m is ClientUpdate) ==> updates_of(seq![m]).len() == 0,
{
    let one = seq![m];
    assert(one.drop_last() =~= Seq::<MessageModel>::empty());
    assert(one.last() == m);
    assert(updates_of(one.drop_last()) == Seq::<UpdateEntity>::empty());
    if let MessageModel::ClientUpdate { entity_id, pos, vel, state } = m {
        assert(updates_of(one) =~= seq![UpdateEntity { id: entity_id, pos, vel, state }]);
    }
}

/// A packet of messages written back to back gives one update per client
/// update among them, in order, each with the message's own fields.
pub proof fn lemma_packet_updates(ms: Seq<MessageModel>)
    requires
        forall|i: int| 0 <= i < ms.len() ==> crate::game_message::encodable(#[trigger] ms[i]),
    ensures
        updates_of(packet_messages(crate::packet::encode_all(ms))) == updates_of(ms),
        updates_of(ms).len() == ms.filter(|m: MessageModel| m is ClientUpdate).len(),
    decreases ms.len(),
{
    crate::packet::lemma_packet_roundtrip(ms, Seq::empty());
    assert(crate::packet::encode_all(ms) + Seq::<u8>::empty() =~= crate::packet::encode_all(ms));
    if ms.len() > 0 {
        let init = ms.drop_last();
        assert forall|i: int| 0 <= i < init.len() implies crate::game_message::encodable(#[trigger] init[i]) by {
            assert(init[i] == ms[i]);
        }
        lemma_packet_updates(init);
        assert(ms =~= init.push(ms.last()));
        init.lemma_filter_push(ms.last(), |m: MessageModel| m is ClientUpdate);
    }
}

/// Handles a packet from the server: the entity updates of its messages, in
/// order, and the number of bytes after its last message.
pub fn handle_server_message(data: &[u8]) -> (r: (Vec<UpdateEntity>, usize))
    requires
        packet_readable(data@),
    ensures
        r.0@ == updates_of(packet_messages(data@)),
        r.1 == packet_rest(data@),
{
    let (msgs, remaining) = read_messages(data);
    let ghost all = packet_messages(data@);
    let mut updates: Vec<UpdateEntity> = Vec::new();
    let mut i: usize = 0;
    while i < msgs.len()
        invariant
            msgs@.len() == all.len(),
            forall|j: int| 0 <= j < msgs@.len() ==> #[trigger] msgs@[j]@ == all[j],
            i <= msgs@.len(),
            updates@ == updates_of(all.take(i as int)),
        decreases msgs@.len() - i,
    {
        assert(all.take(i + 1).drop_last() =~= all.take(i as int));
        assert(msgs@[i as int]@ == all[i as int]);
        match &msgs[i] {
            GameMessage::ClientUpdate { entity_id, pos, vel, state } => {
                updates.push(UpdateEntity { id: *entity_id, pos: *pos, vel: *vel, state: *state });
            },
            _ => {},
        }
        i = i + 1;
    }
    assert(all.take(msgs@.len() as int) =~= all);
    (updates, remaining)
}

/// The last update of each entity, keyed by entity: later updates replace
/// earlier ones.
pub open spec fn latest_updates(s: Seq<UpdateEntity>) -> Map<u32, UpdateEntity>
    decreases s.len(),
{
    if s.len() == 0 {
        Map::empty()
    } else {
        latest_updates(s.drop_last()).insert(s.last().id.0, s.last())
    }
}

fn find_entity(list: &Vec<(u32, UpdateEntity)>, id: u32) -> (r: Option<usize>)
    ensures
        match r {
            Some(i) => i < list@.len() && list@[i as int].0 == id,
            None => !has_key(list@, id),
        },
{
    let mut i: usize = 0;
    while i < list.len()
        invariant
            i <= list@.len(),
            forall|j: int| 0 <= j < i ==> list@[j].0 != id,
        decreases list@.len() - i,
    {
        if list[i].0 == id {
            return Some(i);
        }
        i = i + 1;
    }
    None
}

/// The last update of each entity among `updates`, one entry per entity.
pub fn latest_per_entity(updates: &Vec<UpdateEntity>) -> (r: Vec<(u32, UpdateEntity)>)
    ensures
        keys_unique(r@),
        assoc_map(r@) == latest_updates(updates@),
{
    let mut r: Vec<(u32, UpdateEntity)> = Vec::new();
    proof {
        lemma_assoc_empty(r@);
    }
    let mut i: usize = 0;
    while i < updates.len()
        invariant
            i <= updates@.len(),
            keys_unique(r@),
            assoc_map(r@) == latest_updates(updates@.take(i as int)),
        decreases updates@.len() - i,
    {
        let u = updates[i];
        assert(updates@.take(i + 1).drop_last() =~= updates@.take(i as int));
        assert(updates@.take(i + 1).last() == u);
        match find_entity(&r, u.id.0) {
            Some(k) => {
                proof {
                    lemma_assoc_update(r@, k as int, (u.id.0, u));
                }
                r.set(k, (u.id.0, u));
            },
            None => {
                proof {
                    lemma_assoc_push(r@, (u.id.0, u));
                }
                r.push((u.id.0, u));
            },
        }
        i = i + 1;
    }
    assert(updates@.take(i as int) =~= updates@);
    r
}

} // verus!
