//! Entity identity and the fixed-size state block carried by entity updates.
use vstd::prelude::*;
use crate::wire::{be_u128, read_u128, resized, put_u8, put_u128, put_slice, resize_zero, ByteReader,
    lemma_u128_roundtrip, lemma_read_u128_prefix};
use crate::game_message::{ClientId, PeerType, peer_from_byte, peer_byte};

verus! {

#[derive(Debug, Clone, Copy, PartialEq, Eq, Structural)]
pub struct EntityId(pub u32);

/// A 2-D vector on the wire: the IEEE-754 bit patterns of its two `f32`
/// coordinates, in the order the network sends them.
#[derive(Debug, Clone, Copy, PartialEq, Eq, Structural)]
pub struct WireVec2 {
    pub x_bits: u32,
    pub y_bits: u32,
}

#[derive(Debug, Clone, Copy, PartialEq, Eq, Structural)]
pub enum EntityState {
    PlayerState { id: ClientId },
    Other,
}

/// Size of the state block on the wire.
pub const STATE_BLOCK_LEN: usize = 64;

/// The bytes a state writes before the block is padded.
pub open spec fn state_raw(st: EntityState) -> Seq<u8> {
    match st {
        EntityState::PlayerState { id } => seq![EntityState::PLAYER_STATE, peer_byte(id.peer_type)]
            + be_u128(id.value),
        EntityState::Other => seq![EntityState::OTHER],
    }
}

/// The 64-byte block of a state, as `to_bytes` produces it.
pub open spec fn state_block(st: EntityState) -> Seq<u8> {
    resized(state_raw(st), 64)
}

/// The state a 64-byte block stands for; the padding is not looked at.
pub open spec fn parse_state(b: Seq<u8>) -> Option<EntityState> {
    if b[0] == EntityState::PLAYER_STATE {
        match peer_from_byte(b[1]) {
            Some(pt) => Some(
                EntityState::PlayerState { id: ClientId { peer_type: pt, value: read_u128(b.skip(2)) } },
            ),
            None => None,
        }
    } else if b[0] == EntityState::OTHER {
        Some(EntityState::Other)
    } else {
        None
    }
}

impl EntityState {
    pub const PLAYER_STATE: u8 = 0x01;
    pub const OTHER: u8 = 0xFF;

    /// The state's 64-byte block: its bytes, padded with zeros.
    pub fn to_bytes(&self) -> (b: Vec<u8>)
        ensures
            b@ == state_block(*self),
            b@.len() == 64,
    {
        let mut block: Vec<u8> = Vec::new();
        match self {
            EntityState::PlayerState { id } => {
                put_u8(&mut block, Self::PLAYER_STATE);
                put_u8(&mut block, id.peer_type.to_byte());
                put_u128(&mut block, id.value);
            },
            EntityState::Other => {
                put_u8(&mut block, Self::OTHER);
            },
        }
        assert(block@ =~= state_raw(*self));
        resize_zero(&mut block, STATE_BLOCK_LEN);
        block
    }

    /// Appends the state's 64-byte block, always 64 bytes.
    pub fn append_bytes(&self, out: &mut Vec<u8>)
        ensures
            final(out)@ == old(out)@ + state_block(*self),
    {
        let block = self.to_bytes();
        put_slice(out, block.as_slice());
    }

    /// Reads one 64-byte block.
    pub fn from_bytes(data: &mut ByteReader) -> (r: Option<Self>)
        requires
            old(data).wf(),
            old(data)@.len() >= 64,
        ensures
            final(data).wf(),
            final(data).data == old(data).data,
            final(data)@ == old(data)@.skip(64),
            r == parse_state(old(data)@.take(64)),
    {
        let block = data.get_bytes(STATE_BLOCK_LEN);
        let mut chunk = ByteReader::new(block.as_slice());
        let tag = chunk.get_u8();
        if tag == Self::PLAYER_STATE {
            let pb = chunk.get_u8();
            match PeerType::from_byte(pb) {
                Some(peer_type) => {
                    let value = chunk.get_u128();
                    proof {
                        assert(block@.skip(1).skip(1) =~= block@.skip(2));
                    }
                    Some(EntityState::PlayerState { id: ClientId { peer_type, value } })
                },
                None => None,
            }
        } else if tag == Self::OTHER {
            Some(EntityState::Other)
        } else {
            None
        }
    }
}

/// A state block reads back as the state that wrote it.
pub proof fn lemma_state_roundtrip(st: EntityState)
    ensures
        state_block(st).len() == 64,
        parse_state(state_block(st)) == Some(st),
{
    let raw = state_raw(st);
    match st {
        EntityState::PlayerState { id } => {
            crate::game_message::lemma_peer_roundtrip(id.peer_type);
            lemma_u128_roundtrip(id.value);
            assert(raw.len() == 18);
            let b = state_block(st);
            assert(b.skip(2).subrange(0, 16) =~= be_u128(id.value));
            lemma_read_u128_prefix(b.skip(2), 16);
        },
        EntityState::Other => {},
    }
}

} // verus!
