//! The broker: peers register under a client identifier, subscribe to
//! topics and publish data on them; a change of a topic's data is queued as a
//! sub-packet for each of its subscribers, and the queues are flushed as
//! `Broadcast` messages.
use vstd::prelude::*;
use vstd::utf8::*;
use crate::assoc::{keys_unique, has_key, key_index, assoc_map, lemma_assoc_lookup, lemma_assoc_update,
    lemma_assoc_push, lemma_assoc_empty};
use crate::wire::{be_u16, be_u64, put_u8, put_u16, put_u64, put_slice, lemma_u64_roundtrip, bytes_eq, str_eq, ByteReader, string_from_chars};
use crate::game_message::{ClientId, GameMessage, MessageModel, encode_message, parse_message,
    topic_length_cut};

verus! {

/// Hex digits of bytes, two lower-case digits per byte.
pub open spec fn hex_digit(n: u8) -> char {
    if n < 10 {
        (('0' as u8) + n) as char
    } else {
        (('a' as u8) + (n - 10)) as char
    }
}

pub open spec fn hex_of(bytes: Seq<u8>) -> Seq<char>
    decreases bytes.len(),
{
    if bytes.len() == 0 {
        Seq::empty()
    } else {
        hex_of(bytes.drop_last()) + seq![hex_digit(bytes.last() / 16), hex_digit(bytes.last() % 16)]
    }
}

fn hex_char(n: u8) -> (c: char)
    requires
        n < 16,
    ensures
        c == hex_digit(n),
{
    if n < 10 {
        ((48u8 + n) as char)
    } else {
        ((97u8 + (n - 10)) as char)
    }
}

/// Writes bytes as lower-case hexadecimal, two digits per byte.
pub fn u8_slice_to_hex_string(bytes: &[u8]) -> (s: String)
    ensures
        s@ == hex_of(bytes@),
{
    let mut out: Vec<char> = Vec::new();
    let mut i: usize = 0;
    while i < bytes.len()
        invariant
            i <= bytes@.len(),
            out@ == hex_of(bytes@.take(i as int)),
        decreases bytes@.len() - i,
    {
        let b = bytes[i];
        out.push(hex_char(b / 16));
        out.push(hex_char(b % 16));
        assert(bytes@.take(i + 1).drop_last() =~= bytes@.take(i as int));
        i = i + 1;
    }
    assert(bytes@.take(i as int) =~= bytes@);
    string_from_chars(out)
}

/// First byte of the packets the broker exchanges.
#[allow(non_camel_case_types)]
#[derive(Clone, Copy, PartialEq, Eq, Structural)]
pub enum PubSubMsgType {
    NoMessage,
    Subscribe,
    Unsubscribe,
    Publish,
    Broadcast,
    ClientInput,
    Register,
}

/// A peer's connection and stream, by the numbers the network layer gives them.
#[derive(Clone, Copy, PartialEq, Eq, Debug, Structural)]
pub struct PeerSocketId(pub u64, pub u64);

impl View for PeerSocketId {
    type V = PeerSocketId;

    open spec fn view(&self) -> PeerSocketId {
        *self
    }
}

/// The broker's state as maps.
pub struct PubSubModel {
    pub peers: Map<ClientId, PeerSocketId>,
    pub data: Map<Seq<char>, Seq<u8>>,
    pub subs: Map<Seq<char>, Seq<PeerSocketId>>,
    pub buffers: Map<PeerSocketId, Seq<u8>>,
}

/// What `Vec::swap_remove(i)` leaves of `s`.
pub open spec fn swap_removed<T>(s: Seq<T>, i: int) -> Seq<T> {
    s.update(i, s.last()).drop_last()
}

impl PubSubModel {
    /// No topic lists a subscriber twice.
    pub open spec fn wf(self) -> bool {
        forall|t: Seq<char>| #[trigger] self.subs.contains_key(t) ==> self.subs[t].no_duplicates()
    }

    pub open spec fn with_peer(self, c: ClientId, p: PeerSocketId) -> Self {
        PubSubModel { peers: self.peers.insert(c, p), ..self }
    }

    pub open spec fn subscribers(self, t: Seq<char>) -> Seq<PeerSocketId> {
        if self.subs.contains_key(t) {
            self.subs[t]
        } else {
            Seq::empty()
        }
    }

    pub open spec fn after_subscribe(self, p: PeerSocketId, t: Seq<char>) -> Self {
        if !self.subs.contains_key(t) {
            PubSubModel { subs: self.subs.insert(t, seq![p]), ..self }
        } else if self.subs[t].contains(p) {
            self
        } else {
            PubSubModel { subs: self.subs.insert(t, self.subs[t].push(p)), ..self }
        }
    }

    pub open spec fn after_unsubscribe(self, p: PeerSocketId, t: Seq<char>) -> Self {
        if self.subs.contains_key(t) && self.subs[t].contains(p) {
            PubSubModel {
                subs: self.subs.insert(t, swap_removed(self.subs[t], self.subs[t].index_of(p))),
                ..self
            }
        } else {
            self
        }
    }

    pub open spec fn data_of(self, t: Seq<char>) -> Seq<u8> {
        if self.data.contains_key(t) {
            self.data[t]
        } else {
            Seq::empty()
        }
    }

    pub open spec fn buffer_of(self, p: PeerSocketId) -> Seq<u8> {
        if self.buffers.contains_key(p) {
            self.buffers[p]
        } else {
            Seq::empty()
        }
    }

    /// The sub-packet of a topic: `u16` topic length, topic, `u16` data
    /// length, data.
    pub open spec fn subpacket(self, t: Seq<char>) -> Seq<u8> {
        be_u16(encode_utf8(t).len() as u16) + encode_utf8(t) + be_u16(self.data_of(t).len() as u16)
            + self.data_of(t)
    }

    /// Broadcasting `t` does not overflow a length field: nobody listens, or
    /// topic and data are shorter than 65535 bytes.
    pub open spec fn broadcast_fits(self, t: Seq<char>) -> bool {
        !self.subs.contains_key(t) || (encode_utf8(t).len() < u16::MAX && self.data_of(t).len()
            < u16::MAX)
    }

    pub open spec fn after_broadcast(self, t: Seq<char>) -> Self {
        if !self.subs.contains_key(t) {
            self
        } else {
            PubSubModel { buffers: appended_to(self.buffers, self.subs[t], self.subpacket(t)), ..self }
        }
    }

    pub open spec fn data_unchanged(self, t: Seq<char>, d: Seq<u8>) -> bool {
        self.data.contains_key(t) && self.data[t] == d
    }

    pub open spec fn with_data(self, t: Seq<char>, d: Seq<u8>) -> Self {
        PubSubModel { data: self.data.insert(t, d), ..self }
    }

    pub open spec fn after_publish(self, t: Seq<char>, d: Seq<u8>) -> Self {
        if self.data_unchanged(t, d) {
            self.with_data(t, d)
        } else {
            self.with_data(t, d).after_broadcast(t)
        }
    }

    pub open spec fn publish_fits(self, t: Seq<char>, d: Seq<u8>) -> bool {
        self.data_unchanged(t, d) || self.with_data(t, d).broadcast_fits(t)
    }

    /// The state after handling the received bytes `s` from `from`.
    pub open spec fn after_packet(self, from: PeerSocketId, s: Seq<u8>) -> Self {
        match parse_message(s).0 {
            Some(MessageModel::Register { client_id }) => self.with_peer(client_id, from),
            Some(MessageModel::Subscribe { client_id, topic }) => if self.peers.contains_key(
                client_id,
            ) {
                self.after_subscribe(self.peers[client_id], topic)
            } else {
                self
            },
            Some(MessageModel::Unsubscribe { client_id, topic }) => if self.peers.contains_key(
                client_id,
            ) {
                self.after_unsubscribe(self.peers[client_id], topic)
            } else {
                self
            },
            Some(MessageModel::Publish { topic, payload }) => self.after_publish(topic, payload),
            _ => self,
        }
    }

    /// Handling `s` stays within the format's limits: no message cut inside a
    /// topic length, no broadcast that overflows a length field.
    pub open spec fn packet_fits(self, s: Seq<u8>) -> bool {
        &&& !topic_length_cut(s)
        &&& parse_message(s).0 matches Some(MessageModel::Publish { topic, payload })
            ==> self.publish_fits(topic, payload)
    }
}

/// Every peer of `subs` gets `pkt` appended to its queue.
pub open spec fn appended_to(
    buffers: Map<PeerSocketId, Seq<u8>>,
    subs: Seq<PeerSocketId>,
    pkt: Seq<u8>,
) -> Map<PeerSocketId, Seq<u8>> {
    Map::new(
        |p: PeerSocketId| buffers.contains_key(p) || subs.contains(p),
        |p: PeerSocketId|
            if subs.contains(p) {
                (if buffers.contains_key(p) {
                    buffers[p]
                } else {
                    Seq::empty()
                }) + pkt
            } else {
                buffers[p]
            },
    )
}

/// A peer's queue as it goes out: a whole `Broadcast` message, its header
/// first, whose payload is the sub-packets queued so far. Its view is that
/// payload.
struct PeerPacket {
    bytes: Vec<u8>,
}

impl View for PeerPacket {
    type V = Seq<u8>;

    closed spec fn view(&self) -> Seq<u8> {
        self.bytes@.skip(9)
    }
}

/// The queue is a whole message: the header, then the payload it counts.
spec fn packet_whole(p: PeerPacket) -> bool {
    p.bytes@.len() >= 9 && p.bytes@ == encode_message(MessageModel::Broadcast { payload: p@ })
}

spec fn packets_whole(s: Seq<(PeerSocketId, PeerPacket)>) -> bool {
    forall|i: int| 0 <= i < s.len() ==> packet_whole(#[trigger] s[i].1)
}

/// The broker's state. Its maps are kept as key/value lists with distinct
/// keys: client identifiers, topic texts and peer sockets have no hashing
/// that a proof can follow, so lookups are linear searches whose results are
/// proved.
#[derive(Default)]
pub struct PubSub {
    subs_peer_sockets: Vec<(ClientId, PeerSocketId)>,
    topic_data: Vec<(String, Vec<u8>)>,
    topic_subs: Vec<(String, Vec<PeerSocketId>)>,
    subs_buffers: Vec<(PeerSocketId, PeerPacket)>,
}

impl View for PubSub {
    type V = PubSubModel;

    closed spec fn view(&self) -> PubSubModel {
        PubSubModel {
            peers: assoc_map(self.subs_peer_sockets@),
            data: assoc_map(self.topic_data@),
            subs: assoc_map(self.topic_subs@),
            buffers: assoc_map(self.subs_buffers@),
        }
    }
}

fn find_client(list: &Vec<(ClientId, PeerSocketId)>, c: ClientId) -> (r: Option<usize>)
    ensures
        match r {
            Some(i) => i < list@.len() && list@[i as int].0 == c,
            None => !has_key(list@, c),
        },
{
    let mut i: usize = 0;
    while i < list.len()
        invariant
            i <= list@.len(),
            forall|j: int| 0 <= j < i ==> list@[j].0 != c,
        decreases list@.len() - i,
    {
        if list[i].0 == c {
            return Some(i);
        }
        i = i + 1;
    }
    None
}

fn find_topic<V>(list: &Vec<(String, V)>, t: &str) -> (r: Option<usize>)
    ensures
        match r {
            Some(i) => i < list@.len() && list@[i as int].0@ == t@,
            None => !has_key(list@, t@),
        },
{
    let mut i: usize = 0;
    while i < list.len()
        invariant
            i <= list@.len(),
            forall|j: int| 0 <= j < i ==> list@[j].0@ != t@,
        decreases list@.len() - i,
    {
        if str_eq(list[i].0.as_str(), t) {
            return Some(i);
        }
        i = i + 1;
    }
    None
}

fn find_peer<V>(list: &Vec<(PeerSocketId, V)>, p: PeerSocketId) -> (r: Option<usize>)
    ensures
        match r {
            Some(i) => i < list@.len() && list@[i as int].0 == p,
            None => !has_key(list@, p),
        },
{
    let mut i: usize = 0;
    while i < list.len()
        invariant
            i <= list@.len(),
            forall|j: int| 0 <= j < i ==> list@[j].0 != p,
        decreases list@.len() - i,
    {
        if list[i].0 == p {
            return Some(i);
        }
        i = i + 1;
    }
    None
}

fn peers_contain(v: &Vec<PeerSocketId>, p: PeerSocketId) -> (r: Option<usize>)
    ensures
        match r {
            Some(i) => i < v@.len() && v@[i as int] == p,
            None => !v@.contains(p),
        },
{
    let mut i: usize = 0;
    while i < v.len()
        invariant
            i <= v@.len(),
            forall|j: int| 0 <= j < i ==> v@[j] != p,
        decreases v@.len() - i,
    {
        if v[i] == p {
            return Some(i);
        }
        i = i + 1;
    }
    None
}

fn copy_bytes(bytes: &[u8]) -> (v: Vec<u8>)
    ensures
        v@ == bytes@,
{
    let mut v: Vec<u8> = Vec::new();
    put_slice(&mut v, bytes);
    assert(v@ =~= bytes@);
    v
}

/// Writes a `u64` over the bytes after the first one.
fn write_length(v: &mut Vec<u8>, len: u64)
    requires
        old(v)@.len() >= 9,
    ensures
        final(v)@ == old(v)@.take(1) + be_u64(len) + old(v)@.skip(9),
{
    let mut hdr: Vec<u8> = Vec::new();
    put_u64(&mut hdr, len);
    proof {
        lemma_u64_roundtrip(len);
    }
    let mut k: usize = 0;
    while k < 8
        invariant
            v@.len() == old(v)@.len(),
            old(v)@.len() >= 9,
            hdr@ == be_u64(len),
            hdr@.len() == 8,
            k <= 8,
            forall|j: int|
                0 <= j < v@.len() ==> #[trigger] v@[j] == if 1 <= j < 1 + k {
                    hdr@[j - 1]
                } else {
                    old(v)@[j]
                },
        decreases 8 - k,
    {
        v.set(1 + k, hdr[k]);
        k = k + 1;
    }
    assert(v@ =~= old(v)@.take(1) + be_u64(len) + old(v)@.skip(9));
}

impl PubSub {
    pub closed spec fn wf(&self) -> bool {
        &&& keys_unique(self.subs_peer_sockets@)
        &&& keys_unique(self.topic_data@)
        &&& keys_unique(self.topic_subs@)
        &&& keys_unique(self.subs_buffers@)
        &&& packets_whole(self.subs_buffers@)
        &&& self@.wf()
    }

    /// A well-formed broker never lists a subscriber twice for a topic.
    pub proof fn lemma_no_duplicate_subscribers(&self)
        requires
            self.wf(),
        ensures
            self@.wf(),
    {
    }

    pub fn new() -> (ps: Self)
        ensures
            ps.wf(),
            ps@.peers.is_empty(),
            ps@.data.is_empty(),
            ps@.subs.is_empty(),
            ps@.buffers.is_empty(),
    {
        let ps = PubSub {
            subs_peer_sockets: Vec::new(),
            topic_data: Vec::new(),
            topic_subs: Vec::new(),
            subs_buffers: Vec::new(),
        };
        proof {
            lemma_assoc_empty(ps.subs_peer_sockets@);
            lemma_assoc_empty(ps.topic_data@);
            lemma_assoc_empty(ps.topic_subs@);
            lemma_assoc_empty(ps.subs_buffers@);
        }
        ps
    }

    /// The socket a client registered with.
    pub fn get_peer_socket_id(&self, client_id: ClientId) -> (r: Option<PeerSocketId>)
        requires
            self.wf(),
        ensures
            r == (if self@.peers.contains_key(client_id) {
                Some(self@.peers[client_id])
            } else {
                None::<PeerSocketId>
            }),
    {
        match find_client(&self.subs_peer_sockets, client_id) {
            Some(i) => {
                proof {
                    lemma_assoc_lookup(self.subs_peer_sockets@, i as int);
                }
                Some(self.subs_peer_sockets[i].1)
            },
            None => None,
        }
    }

    /// Registers (or moves) a client to a socket.
    pub fn set_peer_socket_id(&mut self, client_id: ClientId, peer_socket_id: PeerSocketId)
        requires
            old(self).wf(),
        ensures
            final(self).wf(),
            final(self)@ == old(self)@.with_peer(client_id, peer_socket_id),
    {
        let ghost s = self.subs_peer_sockets@;
        match find_client(&self.subs_peer_sockets, client_id) {
            Some(i) => {
                self.subs_peer_sockets.set(i, (client_id, peer_socket_id));
                proof {
                    lemma_assoc_update(s, i as int, (client_id, peer_socket_id));
                }
            },
            None => {
                self.subs_peer_sockets.push((client_id, peer_socket_id));
                proof {
                    lemma_assoc_push(s, (client_id, peer_socket_id));
                }
            },
        }
        assert(self@ =~= old(self)@.with_peer(client_id, peer_socket_id));
    }

    /// Subscribes a socket to a topic; a socket is listed once per topic.
    pub fn subscribe(&mut self, peer_socket_id: PeerSocketId, topic: &str)
        requires
            old(self).wf(),
        ensures
            final(self).wf(),
            final(self)@ == old(self)@.after_subscribe(peer_socket_id, topic@),
    {
        let ghost s = self.topic_subs@;
        match find_topic(&self.topic_subs, topic) {
            None => {
                let mut v: Vec<PeerSocketId> = Vec::new();
                v.push(peer_socket_id);
                let entry = (topic.to_owned(), v);
                self.topic_subs.push(entry);
                proof {
                    lemma_assoc_push(s, entry);
                    assert(v@ =~= seq![peer_socket_id]);
                    assert(seq![peer_socket_id].no_duplicates());
                }
            },
            Some(i) => {
                proof {
                    lemma_assoc_lookup(s, i as int);
                    assert(old(self)@.subs.contains_key(topic@));
                    assert(s[i as int].1@.no_duplicates());
                }
                match peers_contain(&self.topic_subs[i].1, peer_socket_id) {
                    Some(_) => {},
                    None => {
                        let mut entry: (String, Vec<PeerSocketId>) = (String::new(), Vec::new());
                        self.topic_subs.set_and_swap(i, &mut entry);
                        let ghost old_entry = entry;
                        entry.1.push(peer_socket_id);
                        self.topic_subs.set(i, entry);
                        proof {
                            assert(self.topic_subs@ == s.update(i as int, entry));
                            lemma_assoc_update(s, i as int, entry);
                            assert(entry.1@ == old_entry.1@.push(peer_socket_id));
                            lemma_push_no_dup(old_entry.1@, peer_socket_id);
                        }
                    },
                }
            },
        }
        proof {
            let m = self@;
            assert forall|t: Seq<char>| #[trigger] m.subs.contains_key(t) implies m.subs[t].no_duplicates() by {
                if t != topic@ {
                    assert(old(self)@.subs.contains_key(t));
                }
            }
        }
        assert(self@ =~= old(self)@.after_subscribe(peer_socket_id, topic@));
    }

    /// Unsubscribes a socket from a topic, moving the topic's last
    /// subscriber into its place.
    pub fn unsubscribe(&mut self, peer_socket_id: PeerSocketId, topic: &str)
        requires
            old(self).wf(),
        ensures
            final(self).wf(),
            final(self)@ == old(self)@.after_unsubscribe(peer_socket_id, topic@),
    {
        let ghost s = self.topic_subs@;
        match find_topic(&self.topic_subs, topic) {
            Some(i) => {
                proof {
                    lemma_assoc_lookup(s, i as int);
                    assert(old(self)@.subs.contains_key(topic@));
                    assert(s[i as int].1@.no_duplicates());
                }
                match peers_contain(&self.topic_subs[i].1, peer_socket_id) {
                    None => {},
                    Some(found_id) => {
                        let mut entry: (String, Vec<PeerSocketId>) = (String::new(), Vec::new());
                        self.topic_subs.set_and_swap(i, &mut entry);
                        let ghost old_entry = entry;
                        entry.1.swap_remove(found_id);
                        self.topic_subs.set(i, entry);
                        proof {
                            assert(self.topic_subs@ == s.update(i as int, entry));
                            lemma_assoc_update(s, i as int, entry);
                            lemma_swap_remove_no_dup(old_entry.1@, found_id as int);
                            lemma_index_of_unique(old_entry.1@, found_id as int);
                        }
                    },
                }
            },
            None => {},
        }
        proof {
            let m = self@;
            assert forall|t: Seq<char>| #[trigger] m.subs.contains_key(t) implies m.subs[t].no_duplicates() by {
                if t != topic@ {
                    assert(old(self)@.subs.contains_key(t));
                }
            }
        }
        assert(self@ =~= old(self)@.after_unsubscribe(peer_socket_id, topic@));
    }

    /// Whether publishing `data` on `topic` stays within the broadcast
    /// length limits.
    pub fn publish_fits(&self, topic: &str, data: &[u8]) -> (r: bool)
        requires
            self.wf(),
        ensures
            r == self@.publish_fits(topic@, data@),
    {
        let unchanged = match find_topic(&self.topic_data, topic) {
            Some(i) => {
                proof {
                    lemma_assoc_lookup(self.topic_data@, i as int);
                }
                bytes_eq(self.topic_data[i].1.as_slice(), data)
            },
            None => false,
        };
        if unchanged {
            return true;
        }
        match find_topic(&self.topic_subs, topic) {
            None => {
                proof {
                    assert(!self@.subs.contains_key(topic@));
                }
                true
            },
            Some(_) => {
                proof {
                    encode_utf8_decode_utf8(topic@);
                }
                topic.as_bytes().len() < 65535 && data.len() < 65535
            },
        }
    }

    /// Stores a topic's data and, when it differs from what was stored,
    /// queues it for the topic's subscribers.
    pub fn publish(&mut self, topic: &str, data: &[u8])
        requires
            old(self).wf(),
            old(self)@.publish_fits(topic@, data@),
        ensures
            final(self).wf(),
            final(self)@ == old(self)@.after_publish(topic@, data@),
    {
        let ghost s = self.topic_data@;
        let unchanged = match find_topic(&self.topic_data, topic) {
            Some(i) => {
                proof {
                    lemma_assoc_lookup(s, i as int);
                }
                let same = bytes_eq(self.topic_data[i].1.as_slice(), data);
                let entry = (topic.to_owned(), copy_bytes(data));
                self.topic_data.set(i, entry);
                proof {
                    lemma_assoc_update(s, i as int, entry);
                }
                same
            },
            None => {
                let entry = (topic.to_owned(), copy_bytes(data));
                self.topic_data.push(entry);
                proof {
                    lemma_assoc_push(s, entry);
                }
                false
            },
        };
        assert(self@ =~= old(self)@.with_data(topic@, data@));
        if unchanged {
            return;
        }
        self.broadcast(topic);
    }

    /// Queues the topic's current data as a sub-packet for each subscriber.
    pub fn broadcast(&mut self, topic: &str)
        requires
            old(self).wf(),
            old(self)@.broadcast_fits(topic@),
        ensures
            final(self).wf(),
            final(self)@ == old(self)@.after_broadcast(topic@),
    {
        let si = match find_topic(&self.topic_subs, topic) {
            None => {
                return;
            },
            Some(i) => i,
        };
        proof {
            lemma_assoc_lookup(self.topic_subs@, si as int);
            assert(old(self)@.subs.contains_key(topic@));
        }
        let mut packet: Vec<u8> = Vec::new();
        let tbytes = topic.as_bytes();
        put_u16(&mut packet, tbytes.len() as u16);
        put_slice(&mut packet, tbytes);
        match find_topic(&self.topic_data, topic) {
            Some(di) => {
                proof {
                    lemma_assoc_lookup(self.topic_data@, di as int);
                }
                let d = self.topic_data[di].1.as_slice();
                put_u16(&mut packet, d.len() as u16);
                if d.len() > 0 {
                    put_slice(&mut packet, d);
                }
                assert(d@.len() == 0 ==> d@ =~= Seq::<u8>::empty());
            },
            None => {
                put_u16(&mut packet, 0);
            },
        }
        assert(packet@ =~= old(self)@.subpacket(topic@));
        let ghost subs = self.topic_subs@[si as int].1@;
        let ghost start = assoc_map(self.subs_buffers@);
        let n = self.topic_subs[si].1.len();
        let mut k: usize = 0;
        proof {
            assert(appended_to(start, subs.take(0), packet@) =~= start);
        }
        while k < n
            invariant
                self.topic_subs == old(self).topic_subs,
                self.topic_data == old(self).topic_data,
                self.subs_peer_sockets == old(self).subs_peer_sockets,
                si < self.topic_subs@.len(),
                subs == self.topic_subs@[si as int].1@,
                subs.no_duplicates(),
                n == subs.len(),
                k <= n,
                keys_unique(self.subs_buffers@),
                packets_whole(self.subs_buffers@),
                assoc_map(self.subs_buffers@) == appended_to(start, subs.take(k as int), packet@),
            decreases n - k,
        {
            let p = self.topic_subs[si].1[k];
            let ghost before = assoc_map(self.subs_buffers@);
            Self::add_subpacket_for_peer(&mut self.subs_buffers, p, packet.as_slice());
            proof {
                lemma_appended_step(start, subs, k as int, packet@);
            }
            k = k + 1;
        }
        proof {
            assert(subs.take(n as int) =~= subs);
        }
        assert(self@ =~= old(self)@.after_broadcast(topic@));
    }

    /// Appends a sub-packet to one peer's queue. A new queue starts with the
    /// `Broadcast` header, so that it is a whole packet followed by its
    /// sub-packets; the header's length is kept up to date as sub-packets
    /// are added.
    fn add_subpacket_for_peer(
        subs_buffers: &mut Vec<(PeerSocketId, PeerPacket)>,
        peer_socket_id: PeerSocketId,
        bytes: &[u8],
    )
        requires
            keys_unique(old(subs_buffers)@),
            packets_whole(old(subs_buffers)@),
        ensures
            keys_unique(final(subs_buffers)@),
            packets_whole(final(subs_buffers)@),
            assoc_map(final(subs_buffers)@) == assoc_map(old(subs_buffers)@).insert(
                peer_socket_id,
                (if assoc_map(old(subs_buffers)@).contains_key(peer_socket_id) {
                    assoc_map(old(subs_buffers)@)[peer_socket_id]
                } else {
                    Seq::empty()
                }) + bytes@,
            ),
    {
        let ghost s = subs_buffers@;
        match find_peer(subs_buffers, peer_socket_id) {
            Some(i) => {
                proof {
                    lemma_assoc_lookup(s, i as int);
                }
                let mut entry: (PeerSocketId, PeerPacket) = (peer_socket_id, PeerPacket { bytes: Vec::new() });
                subs_buffers.set_and_swap(i, &mut entry);
                let ghost old_entry = entry;
                let ghost old_payload = entry.1@;
                assert(packet_whole(s[i as int].1));
                put_slice(&mut entry.1.bytes, bytes);
                let n = entry.1.bytes.len() - 9;
                let ghost mid = entry.1.bytes@;
                write_length(&mut entry.1.bytes, n as u64);
                proof {
                    lemma_u64_roundtrip((old_payload.len()) as u64);
                    lemma_u64_roundtrip(n as u64);
                    assert(mid.skip(9) =~= old_payload + bytes@);
                    assert(entry.1@ =~= old_payload + bytes@);
                    assert(mid.take(1) =~= seq![GameMessage::BROADCAST]);
                    assert(entry.1.bytes@ =~= encode_message(MessageModel::Broadcast { payload: entry.1@ }));
                }
                subs_buffers.set(i, entry);
                proof {
                    assert(subs_buffers@ == s.update(i as int, entry));
                    lemma_assoc_update(s, i as int, entry);
                    assert forall|k: int| 0 <= k < subs_buffers@.len() implies packet_whole(#[trigger] subs_buffers@[k].1) by {
                        if k != i {
                            assert(subs_buffers@[k] == s[k]);
                        }
                    }
                }
            },
            None => {
                let mut new_packet: Vec<u8> = Vec::new();
                put_u8(&mut new_packet, GameMessage::BROADCAST);
                put_u64(&mut new_packet, bytes.len() as u64);
                put_slice(&mut new_packet, bytes);
                let entry = (peer_socket_id, PeerPacket { bytes: new_packet });
                proof {
                    lemma_u64_roundtrip(bytes@.len() as u64);
                    assert(entry.1@ =~= bytes@);
                    assert(entry.1.bytes@ =~= encode_message(MessageModel::Broadcast { payload: entry.1@ }));
                }
                subs_buffers.push(entry);
                proof {
                    lemma_assoc_push(s, entry);
                    assert(Seq::<u8>::empty() + bytes@ =~= bytes@);
                    assert forall|k: int| 0 <= k < subs_buffers@.len() implies packet_whole(#[trigger] subs_buffers@[k].1) by {
                        if k < s.len() {
                            assert(subs_buffers@[k] == s[k]);
                        }
                    }
                }
            },
        }
    }

    /// Takes out every queue that holds sub-packets, as the whole `Broadcast`
    /// packet it is, addressed to its peer, and empties all queues.
    pub fn flush_peer_buffers(&mut self) -> (out: Vec<(PeerSocketId, Vec<u8>)>)
        requires
            old(self).wf(),
        ensures
            final(self).wf(),
            final(self)@ == (PubSubModel { buffers: Map::empty(), ..old(self)@ }),
            keys_unique(out@),
            forall|i: int|
                0 <= i < out@.len() ==> #[trigger] old(self)@.buffers.contains_key(out@[i].0)
                    && old(self)@.buffers[out@[i].0].len() > 0 && out@[i].1@ == encode_message(
                    MessageModel::Broadcast { payload: old(self)@.buffers[out@[i].0] },
                ),
            forall|p: PeerSocketId|
                #[trigger] old(self)@.buffers.contains_key(p) && old(self)@.buffers[p].len() > 0
                    ==> has_key(out@, p),
    {
        let ghost bufs = self.subs_buffers@;
        let mut out: Vec<(PeerSocketId, Vec<u8>)> = Vec::new();
        let ghost mut src: Seq<int> = Seq::empty();
        let mut i: usize = 0;
        while i < self.subs_buffers.len()
            invariant
                self.subs_buffers@ == bufs,
                keys_unique(bufs),
                packets_whole(bufs),
                i <= bufs.len(),
                keys_unique(out@),
                src.len() == out@.len(),
                forall|j: int|
                    0 <= j < out@.len() ==> 0 <= #[trigger] src[j] < i && bufs[src[j]].0 == out@[j].0
                        && bufs[src[j]].1@.len() > 0 && out@[j].1@ == encode_message(
                        MessageModel::Broadcast { payload: bufs[src[j]].1@ },
                    ),
                forall|k: int| 0 <= k < i && bufs[k].1@.len() > 0 ==> has_key(out@, #[trigger] bufs[k].0),
            decreases bufs.len() - i,
        {
            proof {
                assert(packet_whole(bufs[i as int].1));
            }
            if self.subs_buffers[i].1.bytes.len() > 9 {
                let bytes = copy_bytes(self.subs_buffers[i].1.bytes.as_slice());
                let ghost before = out@;
                let ghost before_src = src;
                out.push((self.subs_buffers[i].0, bytes));
                proof {
                    src = src.push(i as int);
                    assert(!has_key(before, bufs[i as int].0)) by {
                        if has_key(before, bufs[i as int].0) {
                            let j = key_index(before, bufs[i as int].0);
                            assert(before_src[j] < i);
                            assert(bufs[before_src[j]].0 == bufs[i as int].0);
                        }
                    }
                    lemma_assoc_push(before, (self.subs_buffers@[i as int].0, bytes));
                    assert forall|k: int| 0 <= k < i + 1 && bufs[k].1@.len() > 0 implies has_key(
                        out@,
                        #[trigger] bufs[k].0,
                    ) by {
                        if k < i {
                            let j = key_index(before, bufs[k].0);
                            assert(out@[j] == before[j]);
                        } else {
                            assert(out@[before.len() as int].0 == bufs[k].0);
                        }
                    }
                    assert forall|j: int| 0 <= j < out@.len() implies 0 <= #[trigger] src[j] < i + 1
                        && bufs[src[j]].0 == out@[j].0 && bufs[src[j]].1@.len() > 0 && out@[j].1@
                        == encode_message(MessageModel::Broadcast { payload: bufs[src[j]].1@ }) by {
                        if j < before.len() {
                            assert(out@[j] == before[j]);
                            assert(src[j] == before_src[j]);
                        }
                    }
                }
            }
            i = i + 1;
        }
        proof {
            assert forall|j: int| 0 <= j < out@.len() implies #[trigger] old(self)@.buffers.contains_key(out@[j].0)
                && old(self)@.buffers[out@[j].0].len() > 0 && out@[j].1@ == encode_message(
                MessageModel::Broadcast { payload: old(self)@.buffers[out@[j].0] },
            ) by {
                lemma_assoc_lookup(bufs, src[j]);
            }
            assert forall|p: PeerSocketId|
                #[trigger] old(self)@.buffers.contains_key(p) && old(self)@.buffers[p].len() > 0 implies has_key(out@, p) by {
                let k = key_index(bufs, p);
                lemma_assoc_lookup(bufs, k);
            }
        }
        self.subs_buffers.clear();
        proof {
            lemma_assoc_empty(self.subs_buffers@);
        }
        assert(self@ =~= (PubSubModel { buffers: Map::empty(), ..old(self)@ }));
        out
    }

    /// Whether handling `bytes` stays within the format's limits: no message
    /// cut inside a topic length, no publication whose broadcast would
    /// overflow a length field.
    pub fn packet_fits(&self, bytes: &[u8]) -> (r: bool)
        requires
            self.wf(),
        ensures
            r == self@.packet_fits(bytes@),
    {
        let mut reader = ByteReader::new(bytes);
        if GameMessage::topic_length_cut(&reader) {
            return false;
        }
        match GameMessage::from_bytes(&mut reader) {
            Some(GameMessage::Publish { topic, payload }) => self.publish_fits(
                topic.0.as_str(),
                payload.as_slice(),
            ),
            _ => true,
        }
    }

    /// Decodes a received packet and applies it: registration, subscription
    /// changes of a registered client, or publication; other messages and
    /// undecodable bytes leave the state as it is.
    pub fn process_received_packet(&mut self, peer_socket_id: PeerSocketId, bytes: &[u8])
        requires
            old(self).wf(),
            old(self)@.packet_fits(bytes@),
        ensures
            final(self).wf(),
            final(self)@ == old(self)@.after_packet(peer_socket_id, bytes@),
    {
        let mut reader = ByteReader::new(bytes);
        if let Some(msg) = GameMessage::from_bytes(&mut reader) {
            match msg {
                GameMessage::Register { client_id } => {
                    self.set_peer_socket_id(client_id, peer_socket_id);
                },
                GameMessage::Subscribe { client_id, topic } => {
                    if let Some(peer_to_sub) = self.get_peer_socket_id(client_id) {
                        self.subscribe(peer_to_sub, topic.0.as_str());
                    }
                },
                GameMessage::Unsubscribe { client_id, topic } => {
                    if let Some(peer_to_sub) = self.get_peer_socket_id(client_id) {
                        self.unsubscribe(peer_to_sub, topic.0.as_str());
                    }
                },
                GameMessage::Publish { topic, payload } => {
                    self.publish(topic.0.as_str(), payload.as_slice());
                },
                _ => {},
            }
        }
    }
}

// ---------------------------------------------------------------------------
// Laws
// ---------------------------------------------------------------------------

/// Subscribing twice is subscribing once.
pub proof fn lemma_subscribe_idempotent(m: PubSubModel, p: PeerSocketId, t: Seq<char>)
    ensures
        m.after_subscribe(p, t).after_subscribe(p, t) == m.after_subscribe(p, t),
{
    let m1 = m.after_subscribe(p, t);
    assert(m1.subs.contains_key(t));
    if !m.subs.contains_key(t) {
        assert(m1.subs[t] =~= seq![p]);
        assert(m1.subs[t][0] == p);
    } else if !m.subs[t].contains(p) {
        assert(m1.subs[t][m.subs[t].len() as int] == p);
    }
    assert(m1.subs[t].contains(p));
}

/// After subscribing, the socket is among the topic's subscribers, and no
/// other topic changes.
pub proof fn lemma_subscribe_lists(m: PubSubModel, p: PeerSocketId, t: Seq<char>, u: Seq<char>)
    ensures
        m.after_subscribe(p, t).subscribers(t).contains(p),
        u != t ==> m.after_subscribe(p, t).subscribers(u) == m.subscribers(u),
        m.wf() ==> m.after_subscribe(p, t).wf(),
{
    let m1 = m.after_subscribe(p, t);
    if !m.subs.contains_key(t) {
        assert(m1.subs[t][0] == p);
        assert(seq![p].no_duplicates());
    } else if !m.subs[t].contains(p) {
        assert(m1.subs[t][m.subs[t].len() as int] == p);
        if m.wf() {
            lemma_push_no_dup(m.subs[t], p);
        }
    }
    if m.wf() {
        assert forall|v: Seq<char>| #[trigger] m1.subs.contains_key(v) implies m1.subs[v].no_duplicates() by {
            if v != t {
                assert(m.subs.contains_key(v));
            }
        }
    }
}

/// After unsubscribing, the socket is no longer among the topic's
/// subscribers and every other subscriber stays.
pub proof fn lemma_unsubscribe_unlists(m: PubSubModel, p: PeerSocketId, t: Seq<char>, q: PeerSocketId)
    requires
        m.wf(),
    ensures
        !m.after_unsubscribe(p, t).subscribers(t).contains(p),
        q != p ==> (m.after_unsubscribe(p, t).subscribers(t).contains(q) <==> m.subscribers(t).contains(q)),
        m.after_unsubscribe(p, t).wf(),
{
    let m1 = m.after_unsubscribe(p, t);
    if m.subs.contains_key(t) && m.subs[t].contains(p) {
        let s = m.subs[t];
        let i = s.index_of(p);
        assert(s[i] == p);
        lemma_swap_remove_no_dup(s, i);
        assert forall|v: Seq<char>| #[trigger] m1.subs.contains_key(v) implies m1.subs[v].no_duplicates() by {
            if v != t {
                assert(m.subs.contains_key(v));
            }
        }
    }
}

/// Unsubscribing a socket just subscribed to a topic it was not listed for
/// gives back every topic's subscribers as they were, in the same order.
pub proof fn lemma_subscribe_then_unsubscribe(m: PubSubModel, p: PeerSocketId, t: Seq<char>, u: Seq<char>)
    requires
        m.wf(),
        !m.subscribers(t).contains(p),
    ensures
        m.after_subscribe(p, t).after_unsubscribe(p, t).subscribers(u) == m.subscribers(u),
{
    let m1 = m.after_subscribe(p, t);
    let m2 = m1.after_unsubscribe(p, t);
    let s = m.subscribers(t);
    let s1 = s.push(p);
    assert(m1.subs.contains_key(t));
    if m.subs.contains_key(t) {
        assert(m1.subs[t] == s1);
    } else {
        assert(s =~= Seq::<PeerSocketId>::empty());
        assert(m1.subs[t] =~= s1);
    }
    assert(s1[s.len() as int] == p);
    assert(s1.contains(p));
    assert(s.no_duplicates());
    assert(s1.no_duplicates()) by {
        assert forall|a: int, b: int| 0 <= a < s1.len() && 0 <= b < s1.len() && a != b implies s1[a] != s1[b] by {
            if a < s.len() && b < s.len() {
                assert(s1[a] == s[a] && s1[b] == s[b]);
            } else if a < s.len() {
                assert(s1[a] == s[a]);
            } else {
                assert(s1[b] == s[b]);
            }
        }
    }
    lemma_index_of_unique(s1, s.len() as int);
    assert(swap_removed(s1, s.len() as int) =~= s);
    if u != t {
        assert(m2.subscribers(u) == m.subscribers(u));
    }
}

/// Publishing the data a topic already holds changes nothing: no sub-packet
/// is queued again.
pub proof fn lemma_publish_same_twice(m: PubSubModel, t: Seq<char>, d: Seq<u8>)
    ensures
        m.after_publish(t, d).after_publish(t, d) == m.after_publish(t, d),
        m.after_publish(t, d).publish_fits(t, d),
{
    let m1 = m.after_publish(t, d);
    assert(m1.data.contains_key(t) && m1.data[t] == d);
    assert(m1.with_data(t, d).data =~= m1.data);
    assert(m1.with_data(t, d) == m1);
}

/// A publication that changes a topic's data appends the topic's
/// sub-packet, carrying the new data, to the queue of every subscriber and
/// to no other queue.
pub proof fn lemma_publish_queues(m: PubSubModel, t: Seq<char>, d: Seq<u8>, p: PeerSocketId)
    requires
        !m.data_unchanged(t, d),
        m.subs.contains_key(t),
    ensures
        m.with_data(t, d).subpacket(t) == be_u16(encode_utf8(t).len() as u16) + encode_utf8(t)
            + be_u16(d.len() as u16) + d,
        m.subscribers(t).contains(p) ==> m.after_publish(t, d).buffer_of(p) == m.buffer_of(p)
            + m.with_data(t, d).subpacket(t),
        !m.subscribers(t).contains(p) ==> m.after_publish(t, d).buffer_of(p) == m.buffer_of(p),
        m.after_publish(t, d).data[t] == d,
{
}

/// The bytes of a subscription from a registered client, received by the
/// broker, subscribe that client's socket to the topic.
pub proof fn lemma_subscribe_packet(m: PubSubModel, from: PeerSocketId, c: ClientId, t: Seq<char>)
    requires
        m.peers.contains_key(c),
        encode_utf8(t).len() <= u16::MAX,
    ensures
        ({
            let bytes = encode_message(MessageModel::Subscribe { client_id: c, topic: t });
            m.packet_fits(bytes) && m.after_packet(from, bytes) == m.after_subscribe(m.peers[c], t)
        }),
{
    let msg = MessageModel::Subscribe { client_id: c, topic: t };
    crate::game_message::lemma_message_roundtrip(msg, Seq::empty());
    assert(encode_message(msg) + Seq::<u8>::empty() =~= encode_message(msg));
}

/// The bytes of an unsubscription from a registered client take that
/// client's socket off the topic's subscribers, and leave every other
/// subscriber and every other topic as they were.
pub proof fn lemma_unsubscribe_packet(m: PubSubModel, from: PeerSocketId, c: ClientId, t: Seq<char>, u: Seq<char>, q: PeerSocketId)
    requires
        m.wf(),
        m.peers.contains_key(c),
        encode_utf8(t).len() <= u16::MAX,
    ensures
        ({
            let bytes = encode_message(MessageModel::Unsubscribe { client_id: c, topic: t });
            let after = m.after_packet(from, bytes);
            &&& m.packet_fits(bytes)
            &&& !after.subscribers(t).contains(m.peers[c])
            &&& q != m.peers[c] ==> (after.subscribers(t).contains(q) <==> m.subscribers(t).contains(q))
            &&& u != t ==> after.subscribers(u) == m.subscribers(u)
            &&& after.peers == m.peers && after.data == m.data && after.buffers == m.buffers
        }),
{
    let msg = MessageModel::Unsubscribe { client_id: c, topic: t };
    crate::game_message::lemma_message_roundtrip(msg, Seq::empty());
    assert(encode_message(msg) + Seq::<u8>::empty() =~= encode_message(msg));
    lemma_unsubscribe_unlists(m, m.peers[c], t, q);
}

/// The bytes of a registration make the broker route that client to the
/// socket they arrived on.
pub proof fn lemma_register_packet(m: PubSubModel, from: PeerSocketId, c: ClientId)
    ensures
        ({
            let bytes = encode_message(MessageModel::Register { client_id: c });
            m.packet_fits(bytes) && m.after_packet(from, bytes).peers == m.peers.insert(c, from)
        }),
{
    let msg = MessageModel::Register { client_id: c };
    crate::game_message::lemma_message_roundtrip(msg, Seq::empty());
    assert(encode_message(msg) + Seq::<u8>::empty() =~= encode_message(msg));
}

/// Removing one element by swapping in the last keeps a list free of
/// duplicates and drops exactly that element.
pub proof fn lemma_swap_remove_no_dup<T>(s: Seq<T>, i: int)
    requires
        s.no_duplicates(),
        0 <= i < s.len(),
    ensures
        swap_removed(s, i).no_duplicates(),
        !swap_removed(s, i).contains(s[i]),
        forall|x: T| x != s[i] ==> (swap_removed(s, i).contains(x) <==> s.contains(x)),
{
    let r = swap_removed(s, i);
    let last = s.len() - 1;
    assert forall|a: int, b: int| 0 <= a < r.len() && 0 <= b < r.len() && a != b implies r[a] != r[b] by {
        let sa = if a == i { last } else { a };
        let sb = if b == i { last } else { b };
        assert(r[a] == s[sa]);
        assert(r[b] == s[sb]);
    }
    assert forall|x: T| x != s[i] implies (r.contains(x) <==> s.contains(x)) by {
        if s.contains(x) {
            let k = choose|k: int| 0 <= k < s.len() && s[k] == x;
            if k == last {
                assert(r[i] == x);
            } else {
                assert(r[k] == x);
            }
        }
        if r.contains(x) {
            let k = choose|k: int| 0 <= k < r.len() && r[k] == x;
            if k == i {
                assert(s[last] == x);
            } else {
                assert(s[k] == x);
            }
        }
    }
    if r.contains(s[i]) {
        let k = choose|k: int| 0 <= k < r.len() && r[k] == s[i];
        if k == i {
            assert(s[last] == s[i]);
        } else {
            assert(s[k] == s[i]);
        }
    }
}

/// Appending an element that is not there keeps a list free of duplicates.
pub proof fn lemma_push_no_dup<T>(s: Seq<T>, x: T)
    requires
        s.no_duplicates(),
        !s.contains(x),
    ensures
        s.push(x).no_duplicates(),
        s.push(x).contains(x),
{
    let r = s.push(x);
    assert forall|a: int, b: int| 0 <= a < r.len() && 0 <= b < r.len() && a != b implies r[a] != r[b] by {
        if a < s.len() && b < s.len() {
        } else if a < s.len() {
            assert(s[a] == r[a]);
        } else {
            assert(s[b] == r[b]);
        }
    }
    assert(r[s.len() as int] == x);
}

/// In a list without duplicates, an element's index is where it stands.
pub proof fn lemma_index_of_unique<T>(s: Seq<T>, i: int)
    requires
        s.no_duplicates(),
        0 <= i < s.len(),
    ensures
        s.index_of(s[i]) == i,
{
    assert(s.contains(s[i]));
    let k = s.index_of(s[i]);
    assert(s[k] == s[i]);
}

/// One more subscriber served extends the appended map by that subscriber.
proof fn lemma_appended_step(
    start: Map<PeerSocketId, Seq<u8>>,
    subs: Seq<PeerSocketId>,
    k: int,
    pkt: Seq<u8>,
)
    requires
        subs.no_duplicates(),
        0 <= k < subs.len(),
    ensures
        ({
            let prev = appended_to(start, subs.take(k), pkt);
            appended_to(start, subs.take(k + 1), pkt) =~= prev.insert(
                subs[k],
                (if prev.contains_key(subs[k]) {
                    prev[subs[k]]
                } else {
                    Seq::empty()
                }) + pkt,
            )
        }),
{
    let prev_s = subs.take(k);
    let next_s = subs.take(k + 1);
    assert(next_s =~= prev_s.push(subs[k]));
    assert(!prev_s.contains(subs[k])) by {
        if prev_s.contains(subs[k]) {
            let j = choose|j: int| 0 <= j < prev_s.len() && prev_s[j] == subs[k];
            assert(subs[j] == subs[k]);
        }
    }
    assert forall|p: PeerSocketId| #[trigger] next_s.contains(p) <==> (prev_s.contains(p) || p == subs[k]) by {
        if next_s.contains(p) {
            let j = choose|j: int| 0 <= j < next_s.len() && next_s[j] == p;
            if j < k {
                assert(prev_s[j] == p);
            }
        }
        if prev_s.contains(p) {
            let j = choose|j: int| 0 <= j < prev_s.len() && prev_s[j] == p;
            assert(next_s[j] == p);
        }
        if p == subs[k] {
            assert(next_s[k] == p);
        }
    }
}

} // verus!
