//! Elements of the client/server stream: a type byte, then the content; and
//! the compact 2-D transform (position in 1/1024 units, heading in 1/256 of
//! a turn) sent inside them.
use vstd::prelude::*;
use crate::wire::{be_i32, read_i32, put_i32, put_u8, ByteReader, lemma_i32_roundtrip,
    lemma_read_append};

verus! {

/// The kind of an element.
#[derive(Debug, Clone, Copy, PartialEq, Eq, Structural)]
pub enum BinaryDataType {
    /// A `u64` count, then that many elements.
    List,
    Transform2d,
    /// "JOIN { username }" in ASCII.
    Join,
    Welcome,
}

pub open spec fn data_type_byte(t: BinaryDataType) -> u8 {
    match t {
        BinaryDataType::Join => 0,
        BinaryDataType::Welcome => 1,
        BinaryDataType::List => 10,
        BinaryDataType::Transform2d => 11,
    }
}

pub open spec fn data_type_from_byte(b: u8) -> Option<BinaryDataType> {
    if b == 0 {
        Some(BinaryDataType::Join)
    } else if b == 1 {
        Some(BinaryDataType::Welcome)
    } else if b == 10 {
        Some(BinaryDataType::List)
    } else if b == 11 {
        Some(BinaryDataType::Transform2d)
    } else {
        None
    }
}

impl BinaryDataType {
    pub fn as_byte(self) -> (b: u8)
        ensures
            b == data_type_byte(self),
    {
        match self {
            BinaryDataType::Join => 0,
            BinaryDataType::Welcome => 1,
            BinaryDataType::List => 10,
            BinaryDataType::Transform2d => 11,
        }
    }

    pub fn from_byte(byte: u8) -> (r: Option<BinaryDataType>)
        ensures
            r == data_type_from_byte(byte),
    {
        match byte {
            0 => Some(BinaryDataType::Join),
            1 => Some(BinaryDataType::Welcome),
            10 => Some(BinaryDataType::List),
            11 => Some(BinaryDataType::Transform2d),
            _ => None,
        }
    }
}

/// Each kind reads back from its byte, and a byte names at most one kind.
pub proof fn lemma_data_type_roundtrip(t: BinaryDataType, b: u8)
    ensures
        data_type_from_byte(data_type_byte(t)) == Some(t),
        data_type_from_byte(b) matches Some(u) ==> data_type_byte(u) == b,
{
}

/// A 2-D transform as it travels: the position scaled by 1024 and cut to
/// integers, and the heading in steps of 1/256 of a turn.
#[derive(Debug, Clone, Copy, PartialEq, Eq, Structural)]
pub struct Transform2dWire {
    pub x: i32,
    pub y: i32,
    pub angle: u8,
}

pub open spec fn transform_bytes(t: Transform2dWire) -> Seq<u8> {
    be_i32(t.x) + be_i32(t.y) + seq![t.angle]
}

pub open spec fn read_transform(b: Seq<u8>) -> Transform2dWire {
    Transform2dWire { x: read_i32(b), y: read_i32(b.skip(4)), angle: b[8] }
}

/// The nine bytes of a transform.
pub fn unscaled_transform_2d_as_bytes(transform: Transform2dWire) -> (b: Vec<u8>)
    ensures
        b@ == transform_bytes(transform),
{
    let mut buf: Vec<u8> = Vec::new();
    put_i32(&mut buf, transform.x);
    put_i32(&mut buf, transform.y);
    put_u8(&mut buf, transform.angle);
    assert(buf@ =~= transform_bytes(transform));
    buf
}

/// Reads a transform from the first nine bytes.
pub fn bytes_as_unscaled_transform_2d(bytes: &[u8]) -> (t: Transform2dWire)
    requires
        bytes@.len() >= 9,
    ensures
        t == read_transform(bytes@),
{
    let mut reader = ByteReader::new(bytes);
    let x = reader.get_i32();
    let y = reader.get_i32();
    let angle = reader.get_u8();
    assert(bytes@.skip(4).skip(4) =~= bytes@.skip(8));
    Transform2dWire { x, y, angle }
}

/// A transform reads back as itself.
pub proof fn lemma_transform_roundtrip(t: Transform2dWire)
    ensures
        transform_bytes(t).len() == 9,
        read_transform(transform_bytes(t)) == t,
{
    let b = transform_bytes(t);
    lemma_i32_roundtrip(t.x);
    lemma_i32_roundtrip(t.y);
    assert(b =~= be_i32(t.x) + (be_i32(t.y) + seq![t.angle]));
    lemma_read_append(be_i32(t.x), be_i32(t.y) + seq![t.angle]);
    assert(b.skip(4) =~= be_i32(t.y) + seq![t.angle]);
    lemma_read_append(be_i32(t.y), seq![t.angle]);
}

} // verus!
