//! The messages exchanged between clients, game servers and the broker, and
//! their binary format.
//!
//! Every message starts with a one-byte tag. Integers are big-endian, a topic
//! is a `u16` byte length followed by UTF-8 text, a payload is a `u64` length
//! followed by the bytes, a vector is two `f32` bit patterns and an entity
//! state is a 64-byte block.
use vstd::prelude::*;
use vstd::utf8::*;
use crate::wire::{lemma_read_append, lemma_u16_roundtrip, lemma_u32_roundtrip, lemma_u64_roundtrip,
    lemma_u128_roundtrip, be_u16, be_u32, be_u64, be_u128, read_u16, read_u32, read_u64, read_u128,
    put_u8, put_u16, put_u32, put_u64, put_u128, put_slice, ByteReader, string_from_utf8};
use crate::entity::{EntityId, WireVec2, EntityState, state_block, parse_state, lemma_state_roundtrip};
use crate::input::PlayerActionHolder;

verus! {

#[derive(Debug, Clone, Copy, PartialEq, Eq, Structural)]
pub enum PeerType {
    Client,
    GameServer,
    OtherServer,
}

pub open spec fn peer_byte(pt: PeerType) -> u8 {
    match pt {
        PeerType::Client => 0x00,
        PeerType::GameServer => 0x01,
        PeerType::OtherServer => 0x02,
    }
}

pub open spec fn peer_from_byte(b: u8) -> Option<PeerType> {
    if b == 0x00 {
        Some(PeerType::Client)
    } else if b == 0x01 {
        Some(PeerType::GameServer)
    } else if b == 0x02 {
        Some(PeerType::OtherServer)
    } else {
        None
    }
}

/// The peer type byte reads back as the peer type.
pub proof fn lemma_peer_roundtrip(pt: PeerType)
    ensures
        peer_from_byte(peer_byte(pt)) == Some(pt),
{
}

/// Exactly the bytes 0, 1 and 2 name a peer type, and each names the type
/// that writes it.
pub proof fn lemma_peer_from_byte_inverse(b: u8)
    ensures
        peer_from_byte(b) is Some <==> b <= 2,
        peer_from_byte(b) matches Some(pt) ==> peer_byte(pt) == b,
{
}

impl PeerType {
    pub const CLIENT: u8 = 0x00;
    pub const GAME_SERVER: u8 = 0x01;
    pub const OTHER_SERVER: u8 = 0x02;

    pub fn to_byte(&self) -> (b: u8)
        ensures
            b == peer_byte(*self),
    {
        match self {
            PeerType::Client => Self::CLIENT,
            PeerType::GameServer => Self::GAME_SERVER,
            PeerType::OtherServer => Self::OTHER_SERVER,
        }
    }

    pub fn from_byte(byte: u8) -> (r: Option<Self>)
        ensures
            r == peer_from_byte(byte),
    {
        if byte == Self::CLIENT {
            Some(PeerType::Client)
        } else if byte == Self::GAME_SERVER {
            Some(PeerType::GameServer)
        } else if byte == Self::OTHER_SERVER {
            Some(PeerType::OtherServer)
        } else {
            None
        }
    }
}

#[derive(Debug, Clone, Copy, PartialEq, Eq, Structural)]
pub struct ClientId {
    pub peer_type: PeerType,
    pub value: u128,
}

impl View for ClientId {
    type V = ClientId;

    open spec fn view(&self) -> ClientId {
        *self
    }
}

impl ClientId {
    pub fn of_player(value: u128) -> (c: Self)
        ensures
            c == (ClientId { peer_type: PeerType::Client, value }),
    {
        ClientId { peer_type: PeerType::Client, value }
    }

    pub fn of_game_server(value: u128) -> (c: Self)
        ensures
            c == (ClientId { peer_type: PeerType::GameServer, value }),
    {
        ClientId { peer_type: PeerType::GameServer, value }
    }
}

/// The bytes of a client identifier: its peer type, then its value.
pub open spec fn client_bytes(c: ClientId) -> Seq<u8> {
    seq![peer_byte(c.peer_type)] + be_u128(c.value)
}

#[derive(Debug)]
pub struct Topic(pub String);

impl View for Topic {
    type V = Seq<char>;

    open spec fn view(&self) -> Seq<char> {
        self.0@
    }
}

/// A topic on the wire: the byte length as a `u16` (cut to 16 bits, as the
/// sender casts it), then the UTF-8 bytes.
pub open spec fn topic_bytes(t: Seq<char>) -> Seq<u8> {
    be_u16(encode_utf8(t).len() as u16) + encode_utf8(t)
}

/// Reads a topic from `s`, which must hold at least the two length bytes.
/// Gives the topic, or `None` when the text is cut short or is not UTF-8,
/// together with the number of bytes read.
pub open spec fn parse_topic(s: Seq<u8>) -> (Option<Seq<char>>, nat) {
    let len = read_u16(s) as nat;
    if s.len() - 2 < len {
        (None, 2)
    } else {
        let bytes = s.subrange(2, 2 + len as int);
        if valid_utf8(bytes) {
            (Some(decode_utf8(bytes)), 2 + len)
        } else {
            (None, 2 + len)
        }
    }
}

impl Topic {
    pub(crate) fn append_bytes(&self, out: &mut Vec<u8>)
        ensures
            final(out)@ == old(out)@ + topic_bytes(self@),
    {
        let bytes = self.0.as_str().as_bytes();
        let len = bytes.len();
        put_u16(out, len as u16);
        put_slice(out, bytes);
        assert(out@ =~= old(out)@ + topic_bytes(self@));
    }

    pub(crate) fn from_bytes(data: &mut ByteReader) -> (r: Option<Topic>)
        requires
            old(data).wf(),
            old(data)@.len() >= 2,
        ensures
            final(data).wf(),
            final(data).data == old(data).data,
            final(data)@ == old(data)@.skip(parse_topic(old(data)@).1 as int),
            match r {
                Some(t) => parse_topic(old(data)@).0 == Some(t@),
                None => parse_topic(old(data)@).0 is None,
            },
    {
        let ghost s = old(data)@;
        let len = data.get_u16() as usize;
        if data.remaining() < len {
            return None;
        }
        let bytes = data.get_bytes(len);
        assert(bytes@ =~= s.subrange(2, 2 + len));
        assert(data@ =~= s.skip(2 + len));
        match string_from_utf8(bytes) {
            Some(text) => Some(Topic(text)),
            None => None,
        }
    }
}

#[derive(Debug, Clone, Copy, PartialEq, Eq, Structural)]
pub enum Border {
    Left,
    Top,
    Right,
    Bottom,
    TopLeft,
    TopRight,
    BottomLeft,
    BottomRight,
}

/// Two borders crossed together: the same edge twice, or an edge and a
/// perpendicular edge meeting at a corner; opposite edges and corners do not
/// combine.
pub open spec fn combined(a: Border, b: Border) -> Option<Border> {
    match (a, b) {
        (Border::Left, Border::Left) => Some(Border::Left),
        (Border::Left, Border::Top) => Some(Border::TopLeft),
        (Border::Left, Border::Bottom) => Some(Border::BottomLeft),
        (Border::Right, Border::Right) => Some(Border::Right),
        (Border::Right, Border::Top) => Some(Border::TopRight),
        (Border::Right, Border::Bottom) => Some(Border::BottomRight),
        (Border::Top, Border::Top) => Some(Border::Top),
        (Border::Top, Border::Left) => Some(Border::TopLeft),
        (Border::Top, Border::Right) => Some(Border::TopRight),
        (Border::Bottom, Border::Bottom) => Some(Border::Bottom),
        (Border::Bottom, Border::Left) => Some(Border::BottomLeft),
        (Border::Bottom, Border::Right) => Some(Border::BottomRight),
        _ => None,
    }
}

pub open spec fn border_byte(b: Border) -> u8 {
    match b {
        Border::Left => 0x00,
        Border::Top => 0x01,
        Border::Right => 0x02,
        Border::Bottom => 0x03,
        Border::TopLeft => 0x04,
        Border::TopRight => 0x05,
        Border::BottomLeft => 0x06,
        Border::BottomRight => 0x07,
    }
}

pub open spec fn border_from_byte(b: u8) -> Option<Border> {
    if b == 0x00 {
        Some(Border::Left)
    } else if b == 0x01 {
        Some(Border::Top)
    } else if b == 0x02 {
        Some(Border::Right)
    } else if b == 0x03 {
        Some(Border::Bottom)
    } else if b == 0x04 {
        Some(Border::TopLeft)
    } else if b == 0x05 {
        Some(Border::TopRight)
    } else if b == 0x06 {
        Some(Border::BottomLeft)
    } else if b == 0x07 {
        Some(Border::BottomRight)
    } else {
        None
    }
}

impl Border {
    pub fn combine(self, other: Border) -> (r: Option<Border>)
        ensures
            r == combined(self, other),
    {
        match self {
            Border::Left => match other {
                Border::Left => Some(Border::Left),
                Border::Right => None,
                Border::Top => Some(Border::TopLeft),
                Border::Bottom => Some(Border::BottomLeft),
                _ => None,
            },
            Border::Right => match other {
                Border::Left => None,
                Border::Right => Some(Border::Right),
                Border::Top => Some(Border::TopRight),
                Border::Bottom => Some(Border::BottomRight),
                _ => None,
            },
            Border::Top => match other {
                Border::Left => Some(Border::TopLeft),
                Border::Right => Some(Border::TopRight),
                Border::Top => Some(Border::Top),
                Border::Bottom => None,
                _ => None,
            },
            Border::Bottom => match other {
                Border::Left => Some(Border::BottomLeft),
                Border::Right => Some(Border::BottomRight),
                Border::Top => None,
                Border::Bottom => Some(Border::Bottom),
                _ => None,
            },
            _ => None,
        }
    }

    pub(crate) fn to_byte(self) -> (b: u8)
        ensures
            b == border_byte(self),
    {
        match self {
            Border::Left => 0x00,
            Border::Top => 0x01,
            Border::Right => 0x02,
            Border::Bottom => 0x03,
            Border::TopLeft => 0x04,
            Border::TopRight => 0x05,
            Border::BottomLeft => 0x06,
            Border::BottomRight => 0x07,
        }
    }

    pub(crate) fn from_byte(b: u8) -> (r: Option<Border>)
        ensures
            r == border_from_byte(b),
    {
        match b {
            0x00 => Some(Border::Left),
            0x01 => Some(Border::Top),
            0x02 => Some(Border::Right),
            0x03 => Some(Border::Bottom),
            0x04 => Some(Border::TopLeft),
            0x05 => Some(Border::TopRight),
            0x06 => Some(Border::BottomLeft),
            0x07 => Some(Border::BottomRight),
            _ => None,
        }
    }
}

/// Combining borders does not depend on their order.
pub proof fn lemma_combine_commutative(a: Border, b: Border)
    ensures
        combined(a, b) == combined(b, a),
{
}

/// An edge combines with itself into itself; a corner combines with nothing.
pub proof fn lemma_combine_edges_and_corners(a: Border, b: Border)
    ensures
        (a == Border::Left || a == Border::Right || a == Border::Top || a == Border::Bottom)
            ==> combined(a, a) == Some(a),
        (a == Border::TopLeft || a == Border::TopRight || a == Border::BottomLeft || a
            == Border::BottomRight) ==> combined(a, b) is None,
{
}

/// The edges of the zone's rectangle a border lies on, as (left, top, right,
/// bottom); a corner lies on two of them.
pub open spec fn border_sides(b: Border) -> (bool, bool, bool, bool) {
    match b {
        Border::Left => (true, false, false, false),
        Border::Top => (false, true, false, false),
        Border::Right => (false, false, true, false),
        Border::Bottom => (false, false, false, true),
        Border::TopLeft => (true, true, false, false),
        Border::TopRight => (false, true, true, false),
        Border::BottomLeft => (true, false, false, true),
        Border::BottomRight => (false, false, true, true),
    }
}

pub open spec fn is_edge(b: Border) -> bool {
    b == Border::Left || b == Border::Top || b == Border::Right || b == Border::Bottom
}

/// Two edges that meet (or the same edge twice) combine into the border that
/// lies on exactly the edges of both: the corner where they meet. Opposite
/// edges do not combine.
pub proof fn lemma_combine_meets_at_corner(a: Border, b: Border)
    requires
        is_edge(a),
        is_edge(b),
    ensures
        ({
            let (al, at, ar, ab) = border_sides(a);
            let (bl, bt, br, bb) = border_sides(b);
            let opposite = (al && br) || (ar && bl) || (at && bb) || (ab && bt);
            &&& opposite <==> combined(a, b) is None
            &&& combined(a, b) matches Some(c) ==> border_sides(c) == (al || bl, at || bt, ar || br, ab || bb)
        }),
{
}

/// A border byte reads back as the border.
pub proof fn lemma_border_roundtrip(b: Border)
    ensures
        border_from_byte(border_byte(b)) == Some(b),
{
}

/// A topic reads back from the front of its bytes when its length fits the
/// 16-bit length field.
pub proof fn lemma_topic_roundtrip(t: Seq<char>, rest: Seq<u8>)
    requires
        encode_utf8(t).len() <= u16::MAX,
    ensures
        parse_topic(topic_bytes(t) + rest) == (Some(t), topic_bytes(t).len()),
        topic_bytes(t).len() == 2 + encode_utf8(t).len(),
{
    let enc = encode_utf8(t);
    let len = enc.len();
    let s = topic_bytes(t) + rest;
    lemma_u16_roundtrip(len as u16);
    assert((len as u16) as nat == len);
    assert(s =~= be_u16(len as u16) + (enc + rest));
    lemma_read_append(be_u16(len as u16), enc + rest);
    assert(s.subrange(2, 2 + len as int) =~= enc);
    encode_utf8_valid_utf8(t);
    encode_utf8_decode_utf8(t);
}

proof fn lemma_client_read(c: ClientId, tail: Seq<u8>)
    ensures
        (client_bytes(c) + tail).len() == 17 + tail.len(),
        (client_bytes(c) + tail)[0] == peer_byte(c.peer_type),
        read_u128((client_bytes(c) + tail).skip(1)) == c.value,
        (client_bytes(c) + tail).skip(17) =~= tail,
{
    lemma_u128_roundtrip(c.value);
    let b = client_bytes(c) + tail;
    assert(b.skip(1) =~= be_u128(c.value) + tail);
    lemma_read_append(be_u128(c.value), tail);
}

proof fn lemma_payload_read(p: Seq<u8>, tail: Seq<u8>, at: nat)
    requires
        p.len() <= u64::MAX,
    ensures
        parse_payload(be_u64(p.len() as u64) + p + tail, at) == (Some(p), at + 8 + p.len()),
{
    let r = be_u64(p.len() as u64) + p + tail;
    lemma_u64_roundtrip(p.len() as u64);
    assert(r =~= be_u64(p.len() as u64) + (p + tail));
    lemma_read_append(be_u64(p.len() as u64), p + tail);
    assert(r.subrange(8, 8 + p.len() as int) =~= p);
}

proof fn lemma_motion_read(id: EntityId, pos: WireVec2, vel: WireVec2, tail: Seq<u8>)
    ensures
        (entity_motion_bytes(id, pos, vel) + tail).len() == 20 + tail.len(),
        motion_id(entity_motion_bytes(id, pos, vel) + tail) == id,
        motion_pos(entity_motion_bytes(id, pos, vel) + tail) == pos,
        motion_vel(entity_motion_bytes(id, pos, vel) + tail) == vel,
        (entity_motion_bytes(id, pos, vel) + tail).skip(20) =~= tail,
{
    let b = entity_motion_bytes(id, pos, vel) + tail;
    lemma_u32_roundtrip(id.0);
    lemma_u32_roundtrip(pos.x_bits);
    lemma_u32_roundtrip(pos.y_bits);
    lemma_u32_roundtrip(vel.x_bits);
    lemma_u32_roundtrip(vel.y_bits);
    assert(b =~= be_u32(id.0) + (be_u32(pos.x_bits) + be_u32(pos.y_bits) + be_u32(vel.x_bits)
        + be_u32(vel.y_bits) + tail));
    lemma_read_append(be_u32(id.0), be_u32(pos.x_bits) + be_u32(pos.y_bits) + be_u32(vel.x_bits)
        + be_u32(vel.y_bits) + tail);
    assert(b.skip(4) =~= be_u32(pos.x_bits) + (be_u32(pos.y_bits) + be_u32(vel.x_bits) + be_u32(
        vel.y_bits,
    ) + tail));
    lemma_read_append(be_u32(pos.x_bits), be_u32(pos.y_bits) + be_u32(vel.x_bits) + be_u32(
        vel.y_bits,
    ) + tail);
    assert(b.skip(8) =~= be_u32(pos.y_bits) + (be_u32(vel.x_bits) + be_u32(vel.y_bits) + tail));
    lemma_read_append(be_u32(pos.y_bits), be_u32(vel.x_bits) + be_u32(vel.y_bits) + tail);
    assert(b.skip(12) =~= be_u32(vel.x_bits) + (be_u32(vel.y_bits) + tail));
    lemma_read_append(be_u32(vel.x_bits), be_u32(vel.y_bits) + tail);
    assert(b.skip(16) =~= be_u32(vel.y_bits) + tail);
    lemma_read_append(be_u32(vel.y_bits), tail);
}

#[verifier::rlimit(40)]
proof fn lemma_roundtrip_subscription(m: MessageModel, rest: Seq<u8>)
    requires
        encodable(m),
        m is Subscribe || m is Unsubscribe,
    ensures
        parse_message(encode_message(m) + rest) == (Some(m), encode_message(m).len()),
        !topic_length_cut(encode_message(m) + rest),
{
    let e = encode_message(m);
    let s = e + rest;
    let b = s.skip(1);
    assert(s[0] == e[0]);
    let (client_id, topic) = match m {
        MessageModel::Subscribe { client_id, topic } => (client_id, topic),
        MessageModel::Unsubscribe { client_id, topic } => (client_id, topic),
        _ => (arbitrary(), arbitrary()),
    };
    lemma_topic_roundtrip(topic, rest);
    assert(b =~= client_bytes(client_id) + (topic_bytes(topic) + rest));
    lemma_client_read(client_id, topic_bytes(topic) + rest);
    lemma_peer_roundtrip(client_id.peer_type);
    let tn = topic_bytes(topic).len();
    assert(parse_topic(b.skip(17)) == (Some(topic), tn));
    assert(e.len() == 18 + tn);
    assert(parse_subscription(s[0], b) == (Some(m), 18 + tn));
}

proof fn lemma_roundtrip_publish(m: MessageModel, rest: Seq<u8>)
    requires
        encodable(m),
        m is Publish,
    ensures
        parse_message(encode_message(m) + rest) == (Some(m), encode_message(m).len()),
        !topic_length_cut(encode_message(m) + rest),
{
    let e = encode_message(m);
    let s = e + rest;
    let b = s.skip(1);
    assert(s[0] == e[0]);
    let (topic, payload) = match m {
        MessageModel::Publish { topic, payload } => (topic, payload),
        _ => (arbitrary(), arbitrary()),
    };
    lemma_topic_roundtrip(topic, be_u64(payload.len() as u64) + payload + rest);
    assert(b =~= topic_bytes(topic) + (be_u64(payload.len() as u64) + payload + rest));
    let tn = topic_bytes(topic).len();
    assert(b.skip(tn as int) =~= be_u64(payload.len() as u64) + payload + rest);
    lemma_payload_read(payload, rest, 1 + tn);
}

proof fn lemma_roundtrip_broadcast(m: MessageModel, rest: Seq<u8>)
    requires
        encodable(m),
        m is Broadcast,
    ensures
        parse_message(encode_message(m) + rest) == (Some(m), encode_message(m).len()),
        !topic_length_cut(encode_message(m) + rest),
{
    let e = encode_message(m);
    let s = e + rest;
    let b = s.skip(1);
    assert(s[0] == e[0]);
    let payload = m->Broadcast_payload;
    assert(b =~= be_u64(payload.len() as u64) + payload + rest);
    lemma_payload_read(payload, rest, 1);
}

proof fn lemma_roundtrip_client_input(m: MessageModel, rest: Seq<u8>)
    requires
        encodable(m),
        m is ClientInput,
    ensures
        parse_message(encode_message(m) + rest) == (Some(m), encode_message(m).len()),
        !topic_length_cut(encode_message(m) + rest),
{
    let e = encode_message(m);
    let s = e + rest;
    let b = s.skip(1);
    assert(s[0] == e[0]);
    let client_id = m->ClientInput_client_id;
    let input = m->input;
    assert(b =~= client_bytes(client_id) + (seq![input] + rest));
    lemma_client_read(client_id, seq![input] + rest);
    lemma_peer_roundtrip(client_id.peer_type);
}

#[verifier::rlimit(40)]
proof fn lemma_roundtrip_handoff_request(m: MessageModel, rest: Seq<u8>)
    requires
        encodable(m),
        m is HandoffRequest,
    ensures
        parse_message(encode_message(m) + rest) == (Some(m), encode_message(m).len()),
        !topic_length_cut(encode_message(m) + rest),
{
    let e = encode_message(m);
    let s = e + rest;
    let b = s.skip(1);
    assert(s[0] == e[0]);
    let entity_id = m->HandoffRequest_entity_id;
    let pos = m->HandoffRequest_pos;
    let vel = m->HandoffRequest_vel;
    let border = m->HandoffRequest_border;
    let state = m->HandoffRequest_state;
    lemma_state_roundtrip(state);
    assert(b =~= entity_motion_bytes(entity_id, pos, vel) + (seq![border_byte(border)]
        + state_block(state) + rest));
    lemma_motion_read(entity_id, pos, vel, seq![border_byte(border)] + state_block(state) + rest);
    assert(b.subrange(21, 85) =~= state_block(state));
    assert(parse_state(b.subrange(21, 85)) == Some(state));
    lemma_border_roundtrip(border);
    assert(e.len() == 86);
}

proof fn lemma_roundtrip_handoff_answer(m: MessageModel, rest: Seq<u8>)
    requires
        encodable(m),
        m is HandoffAccept || m is HandoffReject,
    ensures
        parse_message(encode_message(m) + rest) == (Some(m), encode_message(m).len()),
        !topic_length_cut(encode_message(m) + rest),
{
    let e = encode_message(m);
    let s = e + rest;
    let b = s.skip(1);
    assert(s[0] == e[0]);
    let entity_id = match m {
        MessageModel::HandoffAccept { entity_id } => entity_id,
        MessageModel::HandoffReject { entity_id } => entity_id,
        _ => arbitrary(),
    };
    lemma_u32_roundtrip(entity_id.0);
    assert(b =~= be_u32(entity_id.0) + rest);
    lemma_read_append(be_u32(entity_id.0), rest);
}

#[verifier::spinoff_prover]
#[verifier::rlimit(80)]
proof fn lemma_roundtrip_update(m: MessageModel, rest: Seq<u8>)
    requires
        encodable(m),
        m is GhostUpdate || m is ClientUpdate,
    ensures
        parse_message(encode_message(m) + rest) == (Some(m), encode_message(m).len()),
        !topic_length_cut(encode_message(m) + rest),
{
    let e = encode_message(m);
    let s = e + rest;
    let b = s.skip(1);
    assert(s[0] == e[0]);
    let (entity_id, pos, vel, state) = match m {
        MessageModel::GhostUpdate { entity_id, pos, vel, state } => (entity_id, pos, vel, state),
        MessageModel::ClientUpdate { entity_id, pos, vel, state } => (entity_id, pos, vel, state),
        _ => (arbitrary(), arbitrary(), arbitrary(), arbitrary()),
    };
    lemma_state_roundtrip(state);
    assert(b =~= entity_motion_bytes(entity_id, pos, vel) + (state_block(state) + rest));
    lemma_motion_read(entity_id, pos, vel, state_block(state) + rest);
    assert(b.subrange(20, 84) =~= state_block(state));
    assert(parse_state(b.subrange(20, 84)) == Some(state));
    assert(e.len() == 85);
}

proof fn lemma_roundtrip_handoff_complete(m: MessageModel, rest: Seq<u8>)
    requires
        encodable(m),
        m is HandoffComplete,
    ensures
        parse_message(encode_message(m) + rest) == (Some(m), encode_message(m).len()),
        !topic_length_cut(encode_message(m) + rest),
{
    let e = encode_message(m);
    let s = e + rest;
    let b = s.skip(1);
    assert(s[0] == e[0]);
    let entity_id = m->HandoffComplete_entity_id;
    let border = m->HandoffComplete_border;
    lemma_u32_roundtrip(entity_id.0);
    assert(b =~= be_u32(entity_id.0) + (seq![border_byte(border)] + rest));
    lemma_read_append(be_u32(entity_id.0), seq![border_byte(border)] + rest);
    lemma_border_roundtrip(border);
}

proof fn lemma_roundtrip_register(m: MessageModel, rest: Seq<u8>)
    requires
        encodable(m),
        m is Register,
    ensures
        parse_message(encode_message(m) + rest) == (Some(m), encode_message(m).len()),
        !topic_length_cut(encode_message(m) + rest),
{
    let e = encode_message(m);
    let s = e + rest;
    let b = s.skip(1);
    assert(s[0] == e[0]);
    let client_id = m->Register_client_id;
    assert(b =~= client_bytes(client_id) + rest);
    lemma_client_read(client_id, rest);
    lemma_peer_roundtrip(client_id.peer_type);
}

/// Every message that can be written reads back from the front of its
/// bytes, whatever follows them, and consumes exactly its own bytes; reading
/// it never runs out of bytes inside a topic length.
pub proof fn lemma_message_roundtrip(m: MessageModel, rest: Seq<u8>)
    requires
        encodable(m),
    ensures
        parse_message(encode_message(m) + rest) == (Some(m), encode_message(m).len()),
        !topic_length_cut(encode_message(m) + rest),
{
    match m {
        MessageModel::Subscribe { .. } | MessageModel::Unsubscribe { .. } => lemma_roundtrip_subscription(m, rest),
        MessageModel::Publish { .. } => lemma_roundtrip_publish(m, rest),
        MessageModel::Broadcast { .. } => lemma_roundtrip_broadcast(m, rest),
        MessageModel::ClientInput { .. } => lemma_roundtrip_client_input(m, rest),
        MessageModel::HandoffRequest { .. } => lemma_roundtrip_handoff_request(m, rest),
        MessageModel::HandoffAccept { .. } | MessageModel::HandoffReject { .. } => lemma_roundtrip_handoff_answer(m, rest),
        MessageModel::GhostUpdate { .. } | MessageModel::ClientUpdate { .. } => lemma_roundtrip_update(m, rest),
        MessageModel::HandoffComplete { .. } => lemma_roundtrip_handoff_complete(m, rest),
        MessageModel::Register { .. } => lemma_roundtrip_register(m, rest),
    }
}

#[derive(Debug)]
pub enum GameMessage {
    Subscribe { client_id: ClientId, topic: Topic },
    Unsubscribe { client_id: ClientId, topic: Topic },
    Publish { topic: Topic, payload: Vec<u8> },
    Broadcast { payload: Vec<u8> },
    ClientInput { client_id: ClientId, input: PlayerActionHolder },
    /// Sent by a game server.
    HandoffRequest {
        entity_id: EntityId,
        pos: WireVec2,
        vel: WireVec2,
        border: Border,
        state: EntityState,
    },
    HandoffAccept { entity_id: EntityId },
    HandoffReject { entity_id: EntityId },
    GhostUpdate { entity_id: EntityId, pos: WireVec2, vel: WireVec2, state: EntityState },
    HandoffComplete { entity_id: EntityId, border: Border },
    ClientUpdate { entity_id: EntityId, pos: WireVec2, vel: WireVec2, state: EntityState },
    Register { client_id: ClientId },
}

/// The content of a message: texts as characters, payloads as bytes.
pub enum MessageModel {
    Subscribe { client_id: ClientId, topic: Seq<char> },
    Unsubscribe { client_id: ClientId, topic: Seq<char> },
    Publish { topic: Seq<char>, payload: Seq<u8> },
    Broadcast { payload: Seq<u8> },
    ClientInput { client_id: ClientId, input: u8 },
    HandoffRequest {
        entity_id: EntityId,
        pos: WireVec2,
        vel: WireVec2,
        border: Border,
        state: EntityState,
    },
    HandoffAccept { entity_id: EntityId },
    HandoffReject { entity_id: EntityId },
    GhostUpdate { entity_id: EntityId, pos: WireVec2, vel: WireVec2, state: EntityState },
    HandoffComplete { entity_id: EntityId, border: Border },
    ClientUpdate { entity_id: EntityId, pos: WireVec2, vel: WireVec2, state: EntityState },
    Register { client_id: ClientId },
}

impl View for GameMessage {
    type V = MessageModel;

    open spec fn view(&self) -> MessageModel {
        match self {
            GameMessage::Subscribe { client_id, topic } => MessageModel::Subscribe {
                client_id: *client_id,
                topic: topic@,
            },
            GameMessage::Unsubscribe { client_id, topic } => MessageModel::Unsubscribe {
                client_id: *client_id,
                topic: topic@,
            },
            GameMessage::Publish { topic, payload } => MessageModel::Publish {
                topic: topic@,
                payload: payload@,
            },
            GameMessage::Broadcast { payload } => MessageModel::Broadcast { payload: payload@ },
            GameMessage::ClientInput { client_id, input } => MessageModel::ClientInput {
                client_id: *client_id,
                input: input@,
            },
            GameMessage::HandoffRequest { entity_id, pos, vel, border, state } =>
                MessageModel::HandoffRequest {
                entity_id: *entity_id,
                pos: *pos,
                vel: *vel,
                border: *border,
                state: *state,
            },
            GameMessage::HandoffAccept { entity_id } => MessageModel::HandoffAccept {
                entity_id: *entity_id,
            },
            GameMessage::HandoffReject { entity_id } => MessageModel::HandoffReject {
                entity_id: *entity_id,
            },
            GameMessage::GhostUpdate { entity_id, pos, vel, state } => MessageModel::GhostUpdate {
                entity_id: *entity_id,
                pos: *pos,
                vel: *vel,
                state: *state,
            },
            GameMessage::HandoffComplete { entity_id, border } => MessageModel::HandoffComplete {
                entity_id: *entity_id,
                border: *border,
            },
            GameMessage::ClientUpdate { entity_id, pos, vel, state } => MessageModel::ClientUpdate {
                entity_id: *entity_id,
                pos: *pos,
                vel: *vel,
                state: *state,
            },
            GameMessage::Register { client_id } => MessageModel::Register { client_id: *client_id },
        }
    }
}

pub open spec fn vec2_bytes(v: WireVec2) -> Seq<u8> {
    be_u32(v.x_bits) + be_u32(v.y_bits)
}

/// The entity part shared by hand-off requests, ghost updates and client
/// updates: identifier, position, velocity.
pub open spec fn entity_motion_bytes(id: EntityId, pos: WireVec2, vel: WireVec2) -> Seq<u8> {
    be_u32(id.0) + vec2_bytes(pos) + vec2_bytes(vel)
}

/// The bytes of a message.
pub open spec fn encode_message(m: MessageModel) -> Seq<u8> {
    match m {
        MessageModel::Subscribe { client_id, topic } => seq![GameMessage::SUBSCRIBE] + client_bytes(
            client_id,
        ) + topic_bytes(topic),
        MessageModel::Unsubscribe { client_id, topic } => seq![GameMessage::UNSUBSCRIBE]
            + client_bytes(client_id) + topic_bytes(topic),
        MessageModel::Publish { topic, payload } => seq![GameMessage::PUBLISH] + topic_bytes(topic)
            + be_u64(payload.len() as u64) + payload,
        MessageModel::Broadcast { payload } => seq![GameMessage::BROADCAST] + be_u64(
            payload.len() as u64,
        ) + payload,
        MessageModel::ClientInput { client_id, input } => seq![GameMessage::CLIENT_INPUT]
            + client_bytes(client_id) + seq![input],
        MessageModel::HandoffRequest { entity_id, pos, vel, border, state } => seq![
            GameMessage::HANDOFF_REQUEST,
        ] + entity_motion_bytes(entity_id, pos, vel) + seq![border_byte(border)] + state_block(
            state,
        ),
        MessageModel::HandoffAccept { entity_id } => seq![GameMessage::HANDOFF_ACCEPT] + be_u32(
            entity_id.0,
        ),
        MessageModel::HandoffReject { entity_id } => seq![GameMessage::HANDOFF_REJECT] + be_u32(
            entity_id.0,
        ),
        MessageModel::GhostUpdate { entity_id, pos, vel, state } => seq![GameMessage::GHOST_UPDATE]
            + entity_motion_bytes(entity_id, pos, vel) + state_block(state),
        MessageModel::HandoffComplete { entity_id, border } => seq![GameMessage::HANDOFF_COMPLETE]
            + be_u32(entity_id.0) + seq![border_byte(border)],
        MessageModel::ClientUpdate { entity_id, pos, vel, state } => seq![
            GameMessage::CLIENT_UPDATE,
        ] + entity_motion_bytes(entity_id, pos, vel) + state_block(state),
        MessageModel::Register { client_id } => seq![GameMessage::REGISTER] + client_bytes(
            client_id,
        ),
    }
}

/// Reads the motion part (identifier, position, velocity) of an entity message.
pub open spec fn motion_id(b: Seq<u8>) -> EntityId {
    EntityId(read_u32(b))
}

pub open spec fn motion_pos(b: Seq<u8>) -> WireVec2 {
    WireVec2 { x_bits: read_u32(b.skip(4)), y_bits: read_u32(b.skip(8)) }
}

pub open spec fn motion_vel(b: Seq<u8>) -> WireVec2 {
    WireVec2 { x_bits: read_u32(b.skip(12)), y_bits: read_u32(b.skip(16)) }
}

/// Reads a subscription message body (after the tag) for `Subscribe` or
/// `Unsubscribe`.
pub open spec fn parse_subscription(tag: u8, b: Seq<u8>) -> (Option<MessageModel>, nat) {
    if b.len() < 17 {
        (None, 1)
    } else {
        match peer_from_byte(b[0]) {
            None => (None, 2),
            Some(pt) => {
                let client_id = ClientId { peer_type: pt, value: read_u128(b.skip(1)) };
                let t = parse_topic(b.skip(17));
                match t.0 {
                    None => (None, 18 + t.1),
                    Some(topic) => (
                        Some(
                            if tag == GameMessage::SUBSCRIBE {
                                MessageModel::Subscribe { client_id, topic }
                            } else {
                                MessageModel::Unsubscribe { client_id, topic }
                            },
                        ),
                        18 + t.1,
                    ),
                }
            },
        }
    }
}

/// Reads a length-prefixed payload; `at` bytes were read before it.
pub open spec fn parse_payload(r: Seq<u8>, at: nat) -> (Option<Seq<u8>>, nat) {
    if r.len() < 8 {
        (None, at)
    } else {
        let len = read_u64(r) as nat;
        if r.len() - 8 < len {
            (None, at + 8)
        } else {
            (Some(r.subrange(8, 8 + len as int)), at + 8 + len)
        }
    }
}

/// Reads a message from the front of `s`: the message, or `None` when the
/// bytes do not form one, together with the number of bytes read.
pub open spec fn parse_message(s: Seq<u8>) -> (Option<MessageModel>, nat) {
    if s.len() == 0 {
        (None, 0)
    } else {
        parse_body(s[0], s.skip(1))
    }
}

/// Reads the rest of a message whose tag is `tag`; the count includes the tag.
pub open spec fn parse_body(tag: u8, b: Seq<u8>) -> (Option<MessageModel>, nat) {
    {
        if tag == GameMessage::SUBSCRIBE || tag == GameMessage::UNSUBSCRIBE {
            parse_subscription(tag, b)
        } else if tag == GameMessage::PUBLISH {
            let t = parse_topic(b);
            match t.0 {
                None => (None, 1 + t.1),
                Some(topic) => {
                    let p = parse_payload(b.skip(t.1 as int), 1 + t.1);
                    match p.0 {
                        None => (None, p.1),
                        Some(payload) => (Some(MessageModel::Publish { topic, payload }), p.1),
                    }
                },
            }
        } else if tag == GameMessage::BROADCAST {
            let p = parse_payload(b, 1);
            match p.0 {
                None => (None, p.1),
                Some(payload) => (Some(MessageModel::Broadcast { payload }), p.1),
            }
        } else if tag == GameMessage::CLIENT_INPUT {
            if b.len() < 18 {
                (None, 1)
            } else {
                match peer_from_byte(b[0]) {
                    None => (None, 2),
                    Some(pt) => (
                        Some(
                            MessageModel::ClientInput {
                                client_id: ClientId { peer_type: pt, value: read_u128(b.skip(1)) },
                                input: b[17],
                            },
                        ),
                        19,
                    ),
                }
            }
        } else if tag == GameMessage::HANDOFF_REQUEST {
            if b.len() < 85 {
                (None, 1)
            } else {
                match border_from_byte(b[20]) {
                    None => (None, 22),
                    Some(border) => match parse_state(b.subrange(21, 85)) {
                        None => (None, 86),
                        Some(state) => (
                            Some(
                                MessageModel::HandoffRequest {
                                    entity_id: motion_id(b),
                                    pos: motion_pos(b),
                                    vel: motion_vel(b),
                                    border,
                                    state,
                                },
                            ),
                            86,
                        ),
                    },
                }
            }
        } else if tag == GameMessage::HANDOFF_ACCEPT || tag == GameMessage::HANDOFF_REJECT {
            if b.len() < 4 {
                (None, 1)
            } else {
                let entity_id = EntityId(read_u32(b));
                (
                    Some(
                        if tag == GameMessage::HANDOFF_ACCEPT {
                            MessageModel::HandoffAccept { entity_id }
                        } else {
                            MessageModel::HandoffReject { entity_id }
                        },
                    ),
                    5,
                )
            }
        } else if tag == GameMessage::GHOST_UPDATE || tag == GameMessage::CLIENT_UPDATE {
            if b.len() < 84 {
                (None, 1)
            } else {
                match parse_state(b.subrange(20, 84)) {
                    None => (None, 85),
                    Some(state) => (
                        Some(
                            if tag == GameMessage::GHOST_UPDATE {
                                MessageModel::GhostUpdate {
                                    entity_id: motion_id(b),
                                    pos: motion_pos(b),
                                    vel: motion_vel(b),
                                    state,
                                }
                            } else {
                                MessageModel::ClientUpdate {
                                    entity_id: motion_id(b),
                                    pos: motion_pos(b),
                                    vel: motion_vel(b),
                                    state,
                                }
                            },
                        ),
                        85,
                    ),
                }
            }
        } else if tag == GameMessage::HANDOFF_COMPLETE {
            if b.len() < 5 {
                (None, 1)
            } else {
                match border_from_byte(b[4]) {
                    None => (None, 6),
                    Some(border) => (
                        Some(
                            MessageModel::HandoffComplete { entity_id: EntityId(read_u32(b)), border },
                        ),
                        6,
                    ),
                }
            }
        } else if tag == GameMessage::REGISTER {
            if b.len() < 17 {
                (None, 1)
            } else {
                match peer_from_byte(b[0]) {
                    None => (None, 2),
                    Some(pt) => (
                        Some(
                            MessageModel::Register {
                                client_id: ClientId { peer_type: pt, value: read_u128(b.skip(1)) },
                            },
                        ),
                        18,
                    ),
                }
            }
        } else {
            (None, 1)
        }
    }
}

/// The inputs on which reading a message runs out of bytes in the middle of
/// a topic's length: a subscription whose client identifier is complete but
/// which has fewer than two bytes after it, or a publication with fewer than
/// two bytes after its tag.
pub open spec fn topic_length_cut(s: Seq<u8>) -> bool {
    s.len() >= 1 && {
        let tag = s[0];
        let b = s.skip(1);
        ||| (tag == GameMessage::SUBSCRIBE || tag == GameMessage::UNSUBSCRIBE) && b.len() >= 17
            && peer_from_byte(b[0]) is Some && b.len() < 19
        ||| tag == GameMessage::PUBLISH && b.len() < 2
    }
}

/// Messages whose topic length fits the 16-bit length field.
pub open spec fn encodable(m: MessageModel) -> bool {
    match m {
        MessageModel::Subscribe { topic, .. } => encode_utf8(topic).len() <= u16::MAX,
        MessageModel::Unsubscribe { topic, .. } => encode_utf8(topic).len() <= u16::MAX,
        MessageModel::Publish { topic, payload } => encode_utf8(topic).len() <= u16::MAX
            && payload.len() <= u64::MAX,
        MessageModel::Broadcast { payload } => payload.len() <= u64::MAX,
        _ => true,
    }
}

impl GameMessage {
    pub const SUBSCRIBE: u8 = 0x01;
    pub const UNSUBSCRIBE: u8 = 0x02;
    pub const PUBLISH: u8 = 0x03;
    pub const BROADCAST: u8 = 0x04;
    pub const CLIENT_INPUT: u8 = 0x05;
    pub const HANDOFF_REQUEST: u8 = 0x20;
    pub const HANDOFF_ACCEPT: u8 = 0x21;
    pub const HANDOFF_REJECT: u8 = 0x22;
    pub const GHOST_UPDATE: u8 = 0x23;
    pub const HANDOFF_COMPLETE: u8 = 0x24;
    pub const CLIENT_UPDATE: u8 = 0x30;
    pub const REGISTER: u8 = 0x31;

    pub fn as_bytes(&self) -> (b: Vec<u8>)
        ensures
            b@ == encode_message(self@),
    {
        let mut buf: Vec<u8> = Vec::new();
        self.append_bytes(&mut buf);
        assert(buf@ =~= encode_message(self@));
        buf
    }

    fn put_motion(out: &mut Vec<u8>, id: EntityId, pos: WireVec2, vel: WireVec2)
        ensures
            final(out)@ == old(out)@ + entity_motion_bytes(id, pos, vel),
    {
        put_u32(out, id.0);
        put_u32(out, pos.x_bits);
        put_u32(out, pos.y_bits);
        put_u32(out, vel.x_bits);
        put_u32(out, vel.y_bits);
        assert(out@ =~= old(out)@ + entity_motion_bytes(id, pos, vel));
    }

    fn put_client(out: &mut Vec<u8>, c: ClientId)
        ensures
            final(out)@ == old(out)@ + client_bytes(c),
    {
        put_u8(out, c.peer_type.to_byte());
        put_u128(out, c.value);
        assert(out@ =~= old(out)@ + client_bytes(c));
    }

    pub fn append_bytes(&self, out: &mut Vec<u8>)
        ensures
            final(out)@ == old(out)@ + encode_message(self@),
    {
        match self {
            GameMessage::Subscribe { client_id, topic } => {
                put_u8(out, Self::SUBSCRIBE);
                Self::put_client(out, *client_id);
                topic.append_bytes(out);
            },
            GameMessage::Unsubscribe { client_id, topic } => {
                put_u8(out, Self::UNSUBSCRIBE);
                Self::put_client(out, *client_id);
                topic.append_bytes(out);
            },
            GameMessage::Publish { topic, payload } => {
                put_u8(out, Self::PUBLISH);
                topic.append_bytes(out);
                put_u64(out, payload.len() as u64);
                put_slice(out, payload.as_slice());
            },
            GameMessage::Broadcast { payload } => {
                put_u8(out, Self::BROADCAST);
                put_u64(out, payload.len() as u64);
                put_slice(out, payload.as_slice());
            },
            GameMessage::ClientInput { client_id, input } => {
                put_u8(out, Self::CLIENT_INPUT);
                Self::put_client(out, *client_id);
                put_u8(out, input.bits());
            },
            GameMessage::HandoffRequest { entity_id, pos, vel, state, border } => {
                put_u8(out, Self::HANDOFF_REQUEST);
                Self::put_motion(out, *entity_id, *pos, *vel);
                put_u8(out, border.to_byte());
                let block = state.to_bytes();
                put_slice(out, block.as_slice());
            },
            GameMessage::HandoffAccept { entity_id } => {
                put_u8(out, Self::HANDOFF_ACCEPT);
                put_u32(out, entity_id.0);
            },
            GameMessage::HandoffReject { entity_id } => {
                put_u8(out, Self::HANDOFF_REJECT);
                put_u32(out, entity_id.0);
            },
            GameMessage::GhostUpdate { entity_id, pos, vel, state } => {
                put_u8(out, Self::GHOST_UPDATE);
                Self::put_motion(out, *entity_id, *pos, *vel);
                let block = state.to_bytes();
                put_slice(out, block.as_slice());
            },
            GameMessage::HandoffComplete { entity_id, border } => {
                put_u8(out, Self::HANDOFF_COMPLETE);
                put_u32(out, entity_id.0);
                put_u8(out, border.to_byte());
            },
            GameMessage::ClientUpdate { entity_id, pos, vel, state } => {
                put_u8(out, Self::CLIENT_UPDATE);
                Self::put_motion(out, *entity_id, *pos, *vel);
                let block = state.to_bytes();
                put_slice(out, block.as_slice());
            },
            GameMessage::Register { client_id } => {
                put_u8(out, Self::REGISTER);
                Self::put_client(out, *client_id);
            },
        }
        assert(out@ =~= old(out)@ + encode_message(self@));
    }

    /// Whether reading a message from `data` would run out of bytes inside a
    /// topic's length field.
    pub fn topic_length_cut(data: &ByteReader) -> (r: bool)
        requires
            data.wf(),
        ensures
            r == topic_length_cut(data@),
    {
        let rem = data.remaining();
        if rem == 0 {
            return false;
        }
        let tag = data.data[data.pos];
        if tag == Self::SUBSCRIBE || tag == Self::UNSUBSCRIBE {
            rem - 1 >= 17 && PeerType::from_byte(data.data[data.pos + 1]).is_some() && rem - 1 < 19
        } else {
            tag == Self::PUBLISH && rem - 1 < 2
        }
    }

    fn read_client(data: &mut ByteReader) -> (r: Option<ClientId>)
        requires
            old(data).wf(),
            old(data)@.len() >= 17,
        ensures
            final(data).wf(),
            final(data).data == old(data).data,
            match peer_from_byte(old(data)@[0]) {
                None => r is None && final(data)@ == old(data)@.skip(1),
                Some(pt) => r == Some(
                    ClientId { peer_type: pt, value: read_u128(old(data)@.skip(1)) },
                ) && final(data)@ == old(data)@.skip(17),
            },
    {
        let pb = data.get_u8();
        match PeerType::from_byte(pb) {
            None => None,
            Some(peer_type) => {
                let value = data.get_u128();
                assert(data@ =~= old(data)@.skip(17));
                Some(ClientId { peer_type, value })
            },
        }
    }

    fn read_motion(data: &mut ByteReader) -> (r: (EntityId, WireVec2, WireVec2))
        requires
            old(data).wf(),
            old(data)@.len() >= 20,
        ensures
            final(data).wf(),
            final(data).data == old(data).data,
            final(data)@ == old(data)@.skip(20),
            r.0 == motion_id(old(data)@),
            r.1 == motion_pos(old(data)@),
            r.2 == motion_vel(old(data)@),
    {
        let ghost s = old(data)@;
        let entity = data.get_u32();
        assert(data@ =~= s.skip(4));
        let px = data.get_u32();
        assert(data@ =~= s.skip(8));
        let py = data.get_u32();
        assert(data@ =~= s.skip(12));
        let vx = data.get_u32();
        assert(data@ =~= s.skip(16));
        let vy = data.get_u32();
        assert(data@ =~= s.skip(20));
        (EntityId(entity), WireVec2 { x_bits: px, y_bits: py }, WireVec2 { x_bits: vx, y_bits: vy })
    }

    fn read_payload(data: &mut ByteReader) -> (r: Option<Vec<u8>>)
        requires
            old(data).wf(),
        ensures
            final(data).wf(),
            final(data).data == old(data).data,
            final(data)@ == old(data)@.skip(parse_payload(old(data)@, 0).1 as int),
            match r {
                Some(p) => parse_payload(old(data)@, 0).0 == Some(p@),
                None => parse_payload(old(data)@, 0).0 is None,
            },
    {
        if data.remaining() < 8 {
            assert(data@ =~= old(data)@.skip(0));
            return None;
        }
        let len = data.get_u64();
        if (data.remaining() as u64) < len {
            return None;
        }
        let payload = data.get_bytes(len as usize);
        assert(payload@ =~= old(data)@.subrange(8, 8 + len));
        assert(data@ =~= old(data)@.skip(8 + len));
        Some(payload)
    }

    /// Reads one message from the front of `data`. On success the message's
    /// bytes are consumed; on failure the bytes read up to the point where the
    /// input stopped fitting the format are consumed, as `parse_message` counts.
    pub fn from_bytes(data: &mut ByteReader) -> (r: Option<Self>)
        requires
            old(data).wf(),
            !topic_length_cut(old(data)@),
        ensures
            final(data).wf(),
            final(data).data == old(data).data,
            final(data)@ == old(data)@.skip(parse_message(old(data)@).1 as int),
            outcome_is(r, parse_message(old(data)@).0),
    {
        let ghost s = old(data)@;
        if data.remaining() == 0 {
            assert(data@ =~= s.skip(0));
            return None;
        }
        let tag = data.get_u8();
        let ghost b = s.skip(1);
        let r = if tag == Self::SUBSCRIBE || tag == Self::UNSUBSCRIBE {
            Self::read_subscription(tag, data)
        } else if tag == Self::PUBLISH {
            Self::read_publish(data)
        } else if tag == Self::BROADCAST {
            Self::read_broadcast(data)
        } else if tag == Self::CLIENT_INPUT {
            Self::read_client_input(data)
        } else if tag == Self::HANDOFF_REQUEST {
            Self::read_handoff_request(data)
        } else if tag == Self::HANDOFF_ACCEPT || tag == Self::HANDOFF_REJECT {
            Self::read_handoff_answer(tag, data)
        } else if tag == Self::GHOST_UPDATE || tag == Self::CLIENT_UPDATE {
            Self::read_update(tag, data)
        } else if tag == Self::HANDOFF_COMPLETE {
            Self::read_handoff_complete(data)
        } else if tag == Self::REGISTER {
            Self::read_register(data)
        } else {
            None
        };
        assert(data@ =~= s.skip(parse_message(s).1 as int));
        r
    }

    fn read_subscription(tag: u8, data: &mut ByteReader) -> (r: Option<Self>)
        requires
            old(data).wf(),
            tag == Self::SUBSCRIBE || tag == Self::UNSUBSCRIBE,
            !(old(data)@.len() >= 17 && peer_from_byte(old(data)@[0]) is Some && old(data)@.len() < 19),
        ensures
            body_read(tag, *old(data), *final(data), r),
    {
        let ghost b = old(data)@;
        if data.remaining() < 17 {
            assert(data@ =~= b.skip(0));
            return None;
        }
        let client_id = match Self::read_client(data) {
            None => {
                return None;
            },
            Some(c) => c,
        };
        let r = Topic::from_bytes(data);
        assert(data@ =~= b.skip(parse_body(tag, b).1 - 1));
        match r {
            None => None,
            Some(topic) => {
                if tag == Self::SUBSCRIBE {
                    Some(GameMessage::Subscribe { client_id, topic })
                } else {
                    Some(GameMessage::Unsubscribe { client_id, topic })
                }
            },
        }
    }

    fn read_publish(data: &mut ByteReader) -> (r: Option<Self>)
        requires
            old(data).wf(),
            old(data)@.len() >= 2,
        ensures
            body_read(Self::PUBLISH, *old(data), *final(data), r),
    {
        let ghost b = old(data)@;
        let t = Topic::from_bytes(data);
        let ghost tn = parse_topic(b).1;
        match t {
            None => None,
            Some(topic) => {
                let ghost mid = data@;
                let p = Self::read_payload(data);
                assert(mid =~= b.skip(tn as int));
                assert(data@ =~= b.skip(parse_body(Self::PUBLISH, b).1 - 1));
                match p {
                    None => None,
                    Some(payload) => Some(GameMessage::Publish { topic, payload }),
                }
            },
        }
    }

    fn read_broadcast(data: &mut ByteReader) -> (r: Option<Self>)
        requires
            old(data).wf(),
        ensures
            body_read(Self::BROADCAST, *old(data), *final(data), r),
    {
        let ghost b = old(data)@;
        let p = Self::read_payload(data);
        assert(data@ =~= b.skip(parse_body(Self::BROADCAST, b).1 - 1));
        match p {
            None => None,
            Some(payload) => Some(GameMessage::Broadcast { payload }),
        }
    }

    fn read_client_input(data: &mut ByteReader) -> (r: Option<Self>)
        requires
            old(data).wf(),
        ensures
            body_read(Self::CLIENT_INPUT, *old(data), *final(data), r),
    {
        let ghost b = old(data)@;
        if data.remaining() < 18 {
            assert(data@ =~= b.skip(0));
            return None;
        }
        let client_id = match Self::read_client(data) {
            None => {
                return None;
            },
            Some(c) => c,
        };
        let input = data.get_u8();
        assert(data@ =~= b.skip(18));
        Some(GameMessage::ClientInput { client_id, input: PlayerActionHolder::from_bits(input) })
    }

    fn read_handoff_request(data: &mut ByteReader) -> (r: Option<Self>)
        requires
            old(data).wf(),
        ensures
            body_read(Self::HANDOFF_REQUEST, *old(data), *final(data), r),
    {
        let ghost b = old(data)@;
        if data.remaining() < 85 {
            assert(data@ =~= b.skip(0));
            return None;
        }
        let (entity_id, pos, vel) = Self::read_motion(data);
        let bb = data.get_u8();
        assert(data@ =~= b.skip(21));
        let border = match Border::from_byte(bb) {
            None => {
                return None;
            },
            Some(x) => x,
        };
        assert(data@.take(64) =~= b.subrange(21, 85));
        let state = EntityState::from_bytes(data);
        assert(data@ =~= b.skip(85));
        match state {
            None => None,
            Some(state) => Some(GameMessage::HandoffRequest { entity_id, pos, vel, border, state }),
        }
    }

    fn read_handoff_answer(tag: u8, data: &mut ByteReader) -> (r: Option<Self>)
        requires
            old(data).wf(),
            tag == Self::HANDOFF_ACCEPT || tag == Self::HANDOFF_REJECT,
        ensures
            body_read(tag, *old(data), *final(data), r),
    {
        let ghost b = old(data)@;
        if data.remaining() < 4 {
            assert(data@ =~= b.skip(0));
            return None;
        }
        let entity = data.get_u32();
        if tag == Self::HANDOFF_ACCEPT {
            Some(GameMessage::HandoffAccept { entity_id: EntityId(entity) })
        } else {
            Some(GameMessage::HandoffReject { entity_id: EntityId(entity) })
        }
    }

    fn read_update(tag: u8, data: &mut ByteReader) -> (r: Option<Self>)
        requires
            old(data).wf(),
            tag == Self::GHOST_UPDATE || tag == Self::CLIENT_UPDATE,
        ensures
            body_read(tag, *old(data), *final(data), r),
    {
        let ghost b = old(data)@;
        if data.remaining() < 84 {
            assert(data@ =~= b.skip(0));
            return None;
        }
        let (entity_id, pos, vel) = Self::read_motion(data);
        assert(data@.take(64) =~= b.subrange(20, 84));
        let state = EntityState::from_bytes(data);
        assert(data@ =~= b.skip(84));
        match state {
            None => None,
            Some(state) => {
                if tag == Self::GHOST_UPDATE {
                    Some(GameMessage::GhostUpdate { entity_id, pos, vel, state })
                } else {
                    Some(GameMessage::ClientUpdate { entity_id, pos, vel, state })
                }
            },
        }
    }

    fn read_handoff_complete(data: &mut ByteReader) -> (r: Option<Self>)
        requires
            old(data).wf(),
        ensures
            body_read(Self::HANDOFF_COMPLETE, *old(data), *final(data), r),
    {
        let ghost b = old(data)@;
        if data.remaining() < 5 {
            assert(data@ =~= b.skip(0));
            return None;
        }
        let entity = data.get_u32();
        let bb = data.get_u8();
        assert(data@ =~= b.skip(5));
        match Border::from_byte(bb) {
            None => None,
            Some(border) => Some(GameMessage::HandoffComplete { entity_id: EntityId(entity), border }),
        }
    }

    fn read_register(data: &mut ByteReader) -> (r: Option<Self>)
        requires
            old(data).wf(),
        ensures
            body_read(Self::REGISTER, *old(data), *final(data), r),
    {
        let ghost b = old(data)@;
        if data.remaining() < 17 {
            assert(data@ =~= b.skip(0));
            return None;
        }
        match Self::read_client(data) {
            None => None,
            Some(client_id) => Some(GameMessage::Register { client_id }),
        }
    }
}

/// `r` is the message, or the absence of one, that `o` describes.
pub open spec fn outcome_is(r: Option<GameMessage>, o: Option<MessageModel>) -> bool {
    match r {
        Some(m) => o == Some(m@),
        None => o is None,
    }
}

/// Reading the body of a `tag` message moved the reader from `before` to
/// `after` as `parse_body` counts and gave the message it describes.
pub open spec fn body_read(tag: u8, before: ByteReader, after: ByteReader, r: Option<GameMessage>) -> bool {
    &&& after.wf()
    &&& after.data == before.data
    &&& after@ == before@.skip(parse_body(tag, before@).1 - 1)
    &&& outcome_is(r, parse_body(tag, before@).0)
}

} // verus!
