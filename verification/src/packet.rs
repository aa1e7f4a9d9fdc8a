//! A packet is a run of messages back to back; reading stops at the first
//! bytes that do not form a message.
use vstd::prelude::*;
use crate::wire::ByteReader;
use crate::game_message::{GameMessage, MessageModel, parse_message, parse_topic, topic_length_cut,
    encode_message, encodable, lemma_message_roundtrip};

verus! {

/// Reading a message never counts more bytes than there are, and a message
/// that is read takes at least one byte.
pub proof fn lemma_parse_within(s: Seq<u8>)
    requires
        !topic_length_cut(s),
    ensures
        parse_message(s).1 <= s.len(),
        parse_message(s).0 is Some ==> parse_message(s).1 >= 1,
{
    if s.len() > 0 {
        let b = s.skip(1);
        if b.len() >= 2 {
            let t = parse_topic(b);
            assert(t.1 <= b.len());
            if b.len() >= 19 {
                assert(parse_topic(b.skip(17)).1 <= b.len() - 17);
            }
        }
    }
}

/// The messages a packet holds, up to the first bytes that are not one.
pub open spec fn packet_messages(s: Seq<u8>) -> Seq<MessageModel>
    decreases s.len(),
{
    let (m, n) = parse_message(s);
    match m {
        Some(msg) => if 1 <= n <= s.len() {
            seq![msg] + packet_messages(s.skip(n as int))
        } else {
            seq![msg]
        },
        None => Seq::empty(),
    }
}

/// The number of bytes after the last message of a packet.
pub open spec fn packet_rest(s: Seq<u8>) -> nat
    decreases s.len(),
{
    let (m, n) = parse_message(s);
    match m {
        Some(_) => if 1 <= n <= s.len() {
            packet_rest(s.skip(n as int))
        } else {
            0
        },
        None => s.len(),
    }
}

/// Reading the packet's messages one after the other never runs out of
/// bytes inside a topic's length.
pub open spec fn packet_readable(s: Seq<u8>) -> bool
    decreases s.len(),
{
    &&& !topic_length_cut(s)
    &&& match parse_message(s).0 {
        Some(_) => 1 <= parse_message(s).1 <= s.len() ==> packet_readable(
            s.skip(parse_message(s).1 as int),
        ),
        None => true,
    }
}

/// Reads the messages of a packet, and counts the bytes left after the last
/// one.
#[verifier::rlimit(40)]
pub fn read_messages(data: &[u8]) -> (r: (Vec<GameMessage>, usize))
    requires
        packet_readable(data@),
    ensures
        r.0@.len() == packet_messages(data@).len(),
        forall|i: int| 0 <= i < r.0@.len() ==> #[trigger] r.0@[i]@ == packet_messages(data@)[i],
        r.1 == packet_rest(data@),
{
    let mut reader = ByteReader::new(data);
    let mut out: Vec<GameMessage> = Vec::new();
    let mut remaining = reader.remaining();
    loop
        invariant_except_break
            reader.wf(),
            reader.data@ == data@,
            packet_readable(reader@),
            remaining == reader@.len(),
            out@.len() + packet_messages(reader@).len() == packet_messages(data@).len(),
            forall|i: int|
                0 <= i < packet_messages(reader@).len() ==> #[trigger] packet_messages(reader@)[i]
                    == packet_messages(data@)[out@.len() + i],
            packet_rest(reader@) == packet_rest(data@),
        invariant
            forall|i: int| 0 <= i < out@.len() ==> #[trigger] out@[i]@ == packet_messages(data@)[i],
        ensures
            out@.len() == packet_messages(data@).len(),
            remaining == packet_rest(data@),
        decreases reader@.len(),
    {
        let ghost before = reader@;
        proof {
            lemma_parse_within(before);
        }
        match GameMessage::from_bytes(&mut reader) {
            Some(m) => {
                let ghost n = parse_message(before).1;
                assert(packet_messages(before) == seq![m@] + packet_messages(before.skip(n as int)));
                assert(packet_rest(before) == packet_rest(before.skip(n as int)));
                let ghost k: int = out@.len() as int;
                let ghost old_out = out@;
                assert(packet_messages(before)[0] == m@);
                assert(packet_messages(data@)[k + 0] == packet_messages(before)[0]);
                out.push(m);
                assert forall|i: int| 0 <= i < out@.len() implies #[trigger] out@[i]@ == packet_messages(
                    data@,
                )[i] by {
                    if i < k {
                        assert(out@[i] == old_out[i]);
                    }
                }
                remaining = reader.remaining();
                assert forall|i: int| 0 <= i < packet_messages(reader@).len() implies #[trigger] packet_messages(
                    reader@,
                )[i] == packet_messages(data@)[out@.len() + i] by {
                    assert(packet_messages(reader@)[i] == packet_messages(before)[i + 1]);
                }
            },
            None => {
                assert(packet_messages(before).len() == 0);
                assert(packet_rest(before) == before.len());
                break;
            },
        }
    }
    (out, remaining)
}

/// The bytes of messages written back to back.
pub open spec fn encode_all(ms: Seq<MessageModel>) -> Seq<u8>
    decreases ms.len(),
{
    if ms.len() == 0 {
        Seq::empty()
    } else {
        encode_message(ms[0]) + encode_all(ms.skip(1))
    }
}

/// One message read from the front of a packet.
proof fn lemma_packet_step(s: Seq<u8>, m: MessageModel, n: nat)
    requires
        parse_message(s) == (Some(m), n),
        1 <= n <= s.len(),
        !topic_length_cut(s),
    ensures
        packet_messages(s) == seq![m] + packet_messages(s.skip(n as int)),
        packet_rest(s) == packet_rest(s.skip(n as int)),
        packet_readable(s) == packet_readable(s.skip(n as int)),
{
}

/// Messages written back to back read back as the same messages, in order,
/// whatever non-message bytes follow them; the bytes that follow are what is
/// left.
#[verifier::rlimit(30)]
pub proof fn lemma_packet_roundtrip(ms: Seq<MessageModel>, rest: Seq<u8>)
    requires
        forall|i: int| 0 <= i < ms.len() ==> encodable(#[trigger] ms[i]),
        parse_message(rest).0 is None,
        !topic_length_cut(rest),
    ensures
        packet_readable(encode_all(ms) + rest),
        packet_messages(encode_all(ms) + rest) == ms,
        packet_rest(encode_all(ms) + rest) == rest.len(),
    decreases ms.len(),
{
    if ms.len() == 0 {
        assert(encode_all(ms) + rest =~= rest);
        assert(packet_messages(rest) =~= ms);
    } else {
        let m = ms[0];
        let tail = ms.skip(1);
        assert forall|i: int| 0 <= i < tail.len() implies encodable(#[trigger] tail[i]) by {
            assert(tail[i] == ms[i + 1]);
        }
        lemma_packet_roundtrip(tail, rest);
        let after = encode_all(tail) + rest;
        let s = encode_all(ms) + rest;
        assert(s =~= encode_message(m) + after);
        lemma_message_roundtrip(m, after);
        lemma_parse_within(s);
        let n = encode_message(m).len();
        assert(s.skip(n as int) =~= after);
        lemma_packet_step(s, m, n);
        assert(seq![m] + tail =~= ms);
    }
}

/// Whether reading the packet's messages one after the other stays clear of
/// a topic length cut short.
pub fn packet_is_readable(data: &[u8]) -> (r: bool)
    ensures
        r == packet_readable(data@),
{
    let mut reader = ByteReader::new(data);
    loop
        invariant
            reader.wf(),
            reader.data@ == data@,
            packet_readable(data@) == packet_readable(reader@),
        decreases reader@.len(),
    {
        if GameMessage::topic_length_cut(&reader) {
            return false;
        }
        let ghost before = reader@;
        proof {
            lemma_parse_within(before);
        }
        match GameMessage::from_bytes(&mut reader) {
            Some(_) => {},
            None => {
                return true;
            },
        }
    }
}

} // verus!
