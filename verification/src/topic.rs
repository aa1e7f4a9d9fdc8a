//! What game servers publish through the broker: entity positions and
//! player inputs, with the topic names they travel under.
use vstd::prelude::*;
use crate::wire::{be_i32, read_i32, put_i32, ByteReader, string_from_chars, lemma_i32_roundtrip,
    lemma_read_append};
use crate::entity::{EntityId, EntityState, state_block, parse_state, lemma_state_roundtrip};
use crate::game_message::{ClientId, PeerType, GameMessage, MessageModel, Topic};
use crate::input::{PlayerActionHolder, holder_of};
use crate::text::{decimal_chars, parse_decimal, has_prefix, push_decimal, push_str, starts_with,
    parse_decimal_str};

verus! {

/// A 2-D vector in fixed point: each coordinate times 1024, rounded.
#[derive(Debug, Clone, Copy, PartialEq, Eq, Structural)]
pub struct FixedVec2 {
    pub x: i32,
    pub y: i32,
}

/// The content of a publication.
#[derive(Debug, Clone, Copy, PartialEq, Eq, Structural)]
pub enum TopicContent {
    EntityInfo { entity_id: EntityId, pos: FixedVec2, vel: FixedVec2, state: EntityState },
    PlayerInput { client_id: ClientId, input: PlayerActionHolder },
}

pub open spec fn fixed_bytes(v: FixedVec2) -> Seq<u8> {
    be_i32(v.x) + be_i32(v.y)
}

/// The payload of an entity publication: position and velocity, then the
/// state's 64-byte block.
pub open spec fn entity_payload(pos: FixedVec2, vel: FixedVec2, state: EntityState) -> Seq<u8> {
    fixed_bytes(pos) + fixed_bytes(vel) + state_block(state)
}

/// The topic an entity's information is published under.
pub open spec fn entity_topic(id: u32) -> Seq<char> {
    "player/"@ + decimal_chars(id as nat)
}

/// The topic a player's input is published under.
pub open spec fn input_topic(id: u128) -> Seq<char> {
    "input/"@ + decimal_chars(id as nat)
}

/// The publication of a content.
pub open spec fn publication(c: TopicContent) -> MessageModel {
    match c {
        TopicContent::EntityInfo { entity_id, pos, vel, state } => MessageModel::Publish {
            topic: entity_topic(entity_id.0),
            payload: entity_payload(pos, vel, state),
        },
        TopicContent::PlayerInput { client_id, input } => MessageModel::Publish {
            topic: input_topic(client_id.value),
            payload: seq![input@],
        },
    }
}

/// Reads entity information from a payload: four fixed-point coordinates,
/// then a 64-byte state block.
pub open spec fn entity_content(id: EntityId, b: Seq<u8>) -> Option<TopicContent> {
    if b.len() < 16 {
        None
    } else {
        match parse_state(b.subrange(16, 80)) {
            Some(state) => Some(
                TopicContent::EntityInfo {
                    entity_id: id,
                    pos: FixedVec2 { x: read_i32(b), y: read_i32(b.skip(4)) },
                    vel: FixedVec2 { x: read_i32(b.skip(8)), y: read_i32(b.skip(12)) },
                    state,
                },
            ),
            None => None,
        }
    }
}

/// The content of a publication under `topic`. The number after the topic's
/// prefix is not what is read: the text read is the prefix itself.
pub open spec fn topic_content_of(topic: Seq<char>, payload: Seq<u8>) -> Option<TopicContent> {
    if has_prefix(topic, "entity/"@) {
        match parse_decimal(topic.take(7), u32::MAX as int) {
            Some(v) => entity_content(EntityId(v as u32), payload),
            None => None,
        }
    } else if has_prefix(topic, "input/"@) {
        match parse_decimal(topic.take(6), u128::MAX as int) {
            Some(v) => Some(
                TopicContent::PlayerInput {
                    client_id: ClientId { peer_type: PeerType::Client, value: v as u128 },
                    input: holder_of(payload[0]),
                },
            ),
            None => None,
        }
    } else {
        None
    }
}

/// The payloads that reading a publication under `topic` can take without
/// running out of bytes.
pub open spec fn publication_readable(topic: Seq<char>, payload: Seq<u8>) -> bool {
    &&& has_prefix(topic, "entity/"@) && parse_decimal(topic.take(7), u32::MAX as int) is Some
        ==> payload.len() < 16 || payload.len() >= 80
    &&& !has_prefix(topic, "entity/"@) && has_prefix(topic, "input/"@) && parse_decimal(
        topic.take(6),
        u128::MAX as int,
    ) is Some ==> payload.len() >= 1
}

impl TopicContent {
    fn append_entity_bytes(pos: &FixedVec2, vel: &FixedVec2, state: &EntityState, out: &mut Vec<u8>)
        ensures
            final(out)@ == old(out)@ + fixed_bytes(*pos) + fixed_bytes(*vel) + state_block(*state),
    {
        put_i32(out, pos.x);
        put_i32(out, pos.y);
        put_i32(out, vel.x);
        put_i32(out, vel.y);
        proof {
            assert(out@ =~= old(out)@ + fixed_bytes(*pos) + fixed_bytes(*vel));
        }
        state.append_bytes(out);
        proof {
            assert(out@ =~= old(out)@ + fixed_bytes(*pos) + fixed_bytes(*vel) + state_block(*state));
        }
    }

    fn entity_from_bytes(id: EntityId, data: &mut ByteReader) -> (r: Option<Self>)
        requires
            old(data).wf(),
            old(data)@.len() < 16 || old(data)@.len() >= 80,
        ensures
            r == entity_content(id, old(data)@),
    {
        let ghost b = old(data)@;
        if data.remaining() < 16 {
            return None;
        }
        let px = data.get_i32();
        let py = data.get_i32();
        let vx = data.get_i32();
        let vy = data.get_i32();
        proof {
            assert(b.skip(4).skip(4) =~= b.skip(8));
            assert(b.skip(8).skip(4) =~= b.skip(12));
            assert(data@ =~= b.skip(16));
            assert(data@.take(64) =~= b.subrange(16, 80));
        }
        match EntityState::from_bytes(data) {
            Some(state) => Some(
                TopicContent::EntityInfo {
                    entity_id: id,
                    pos: FixedVec2 { x: px, y: py },
                    vel: FixedVec2 { x: vx, y: vy },
                    state,
                },
            ),
            None => None,
        }
    }

    /// The topic an entity's information is published under.
    pub fn entity_transform_topic(id: u32) -> (s: String)
        ensures
            s@ == entity_topic(id),
    {
        let mut chars: Vec<char> = Vec::new();
        push_str(&mut chars, "player/");
        push_decimal(&mut chars, id as u128);
        string_from_chars(chars)
    }

    /// The topic a player's input is published under.
    pub fn player_input_topic(id: u128) -> (s: String)
        ensures
            s@ == input_topic(id),
    {
        let mut chars: Vec<char> = Vec::new();
        push_str(&mut chars, "input/");
        push_decimal(&mut chars, id);
        string_from_chars(chars)
    }

    /// Reads the content of a publication.
    pub fn from_publish(topic: &Topic, payload: Vec<u8>) -> (r: Option<Self>)
        requires
            publication_readable(topic@, payload@),
        ensures
            r == topic_content_of(topic@, payload@),
    {
        let t = topic.0.as_str();
        if starts_with(t, "entity/") {
            proof {
                reveal_strlit("entity/");
            }
            let prefix = t.substring_char(0, 7);
            let id = match parse_decimal_str(prefix, u32::MAX as u128) {
                Some(v) => v as u32,
                None => return None,
            };
            let mut reader = ByteReader::new(payload.as_slice());
            Self::entity_from_bytes(EntityId(id), &mut reader)
        } else if starts_with(t, "input/") {
            proof {
                reveal_strlit("input/");
            }
            let prefix = t.substring_char(0, 6);
            let id = match parse_decimal_str(prefix, u128::MAX) {
                Some(v) => v,
                None => return None,
            };
            let input = PlayerActionHolder::from_bits(payload[0]);
            Some(TopicContent::PlayerInput { client_id: ClientId::of_player(id), input })
        } else {
            None
        }
    }

    /// The publication of this content.
    pub fn to_publish(&self) -> (m: GameMessage)
        ensures
            m@ == publication(*self),
    {
        match self {
            TopicContent::EntityInfo { entity_id, pos, vel, state } => {
                let mut payload: Vec<u8> = Vec::new();
                Self::append_entity_bytes(pos, vel, state, &mut payload);
                assert(Seq::<u8>::empty() + fixed_bytes(*pos) + fixed_bytes(*vel) + state_block(*state)
                    =~= entity_payload(*pos, *vel, *state));
                GameMessage::Publish { topic: Topic(Self::entity_transform_topic(entity_id.0)), payload }
            },
            TopicContent::PlayerInput { client_id, input } => {
                let payload = vec![input.bits()];
                assert(payload@ =~= seq![input@]);
                GameMessage::Publish { topic: Topic(Self::player_input_topic(client_id.value)), payload }
            },
        }
    }
}

/// An entity payload reads back as the entity's information.
pub proof fn lemma_entity_payload_roundtrip(id: EntityId, pos: FixedVec2, vel: FixedVec2, state: EntityState)
    ensures
        entity_payload(pos, vel, state).len() == 80,
        entity_content(id, entity_payload(pos, vel, state)) == Some(
            TopicContent::EntityInfo { entity_id: id, pos, vel, state },
        ),
{
    let b = entity_payload(pos, vel, state);
    lemma_i32_roundtrip(pos.x);
    lemma_i32_roundtrip(pos.y);
    lemma_i32_roundtrip(vel.x);
    lemma_i32_roundtrip(vel.y);
    lemma_state_roundtrip(state);
    assert(b =~= be_i32(pos.x) + (be_i32(pos.y) + be_i32(vel.x) + be_i32(vel.y) + state_block(state)));
    lemma_read_append(be_i32(pos.x), be_i32(pos.y) + be_i32(vel.x) + be_i32(vel.y) + state_block(state));
    assert(b.skip(4) =~= be_i32(pos.y) + (be_i32(vel.x) + be_i32(vel.y) + state_block(state)));
    lemma_read_append(be_i32(pos.y), be_i32(vel.x) + be_i32(vel.y) + state_block(state));
    assert(b.skip(8) =~= be_i32(vel.x) + (be_i32(vel.y) + state_block(state)));
    lemma_read_append(be_i32(vel.x), be_i32(vel.y) + state_block(state));
    assert(b.skip(12) =~= be_i32(vel.y) + state_block(state));
    lemma_read_append(be_i32(vel.y), state_block(state));
    assert(b.subrange(16, 80) =~= state_block(state));
}

/// No topic's prefix reads as a number, so a publication never yields
/// content.
pub proof fn lemma_publication_content_never_read(topic: Seq<char>, payload: Seq<u8>)
    ensures
        topic_content_of(topic, payload) is None,
        publication_readable(topic, payload),
{
    reveal_strlit("entity/");
    reveal_strlit("input/");
    if has_prefix(topic, "entity/"@) {
        let p = topic.take(7);
        assert(p == "entity/"@);
        assert(!crate::text::is_digit(crate::text::unsigned_digits(p)[6]));
    } else if has_prefix(topic, "input/"@) {
        let p = topic.take(6);
        assert(p == "input/"@);
        assert(!crate::text::is_digit(crate::text::unsigned_digits(p)[5]));
    }
}

} // verus!
