//! The heartbeat a game server sends to the orchestrator, and its binary
//! format: identifier (16 bytes), a flag byte (bit 0: IPv4, bit 1: full),
//! the address octets (4 or 16), the port, the zone as a `u64` length and
//! UTF-8 bytes, and the player count as a `u64`.
use vstd::prelude::*;
use vstd::utf8::*;
use crate::wire::{be_u16, be_u32, be_u64, be_u128, read_u16, read_u32, read_u64, read_u128,
    put_u8, put_u16, put_u32, put_u64, put_u128, put_slice, ByteReader, string_from_utf8,
    lemma_read_append, lemma_u16_roundtrip, lemma_u32_roundtrip, lemma_u64_roundtrip,
    lemma_u128_roundtrip};

verus! {

/// An IP address by its bits: four octets of IPv4 or sixteen of IPv6, most
/// significant first.
#[derive(Debug, Clone, Copy, PartialEq, Eq, Structural)]
pub enum IpAddress {
    V4(u32),
    V6(u128),
}

/// A socket address: IP address and port.
#[derive(Debug, Clone, Copy, PartialEq, Eq, Structural)]
pub struct ServerAddress {
    pub ip: IpAddress,
    pub port: u16,
}

#[derive(Debug)]
pub struct Heartbeat {
    /// The server's UUID, as its 128 bits.
    pub id: u128,
    pub addr: ServerAddress,
    pub zone: String,
    pub player_count: usize,
    pub is_full: bool,
}

pub struct HeartbeatModel {
    pub id: u128,
    pub addr: ServerAddress,
    pub zone: Seq<char>,
    pub player_count: usize,
    pub is_full: bool,
}

impl View for Heartbeat {
    type V = HeartbeatModel;

    open spec fn view(&self) -> HeartbeatModel {
        HeartbeatModel {
            id: self.id,
            addr: self.addr,
            zone: self.zone@,
            player_count: self.player_count,
            is_full: self.is_full,
        }
    }
}

pub open spec fn flags_byte(ipv4: bool, full: bool) -> u8 {
    ((if ipv4 { 1u8 } else { 0u8 }) | (if full { 2u8 } else { 0u8 })) as u8
}

pub open spec fn ip_bytes(ip: IpAddress) -> Seq<u8> {
    match ip {
        IpAddress::V4(bits) => be_u32(bits),
        IpAddress::V6(bits) => be_u128(bits),
    }
}

/// The bytes of a heartbeat.
pub open spec fn encode_heartbeat(h: HeartbeatModel) -> Seq<u8> {
    be_u128(h.id) + seq![flags_byte(h.addr.ip is V4, h.is_full)] + ip_bytes(h.addr.ip) + be_u16(
        h.addr.port,
    ) + be_u64(encode_utf8(h.zone).len() as u64) + encode_utf8(h.zone) + be_u64(
        h.player_count as u64,
    )
}

/// Where the zone length starts: after the identifier, flags, address and port.
pub open spec fn zone_offset(s: Seq<u8>) -> int {
    if s[16] & 1 == 1 {
        23
    } else {
        35
    }
}

pub open spec fn zone_len(s: Seq<u8>) -> int {
    read_u64(s.skip(zone_offset(s))) as int
}

pub open spec fn zone_raw(s: Seq<u8>) -> Seq<u8> {
    s.subrange(zone_offset(s) + 8, zone_offset(s) + 8 + zone_len(s))
}

/// The inputs that hold every field the reader looks at: reading stops at an
/// invalid zone, so the player count is only needed after a valid one.
pub open spec fn heartbeat_readable(s: Seq<u8>) -> bool {
    &&& s.len() >= 17
    &&& s.len() >= zone_offset(s) + 8
    &&& s.len() - zone_offset(s) - 8 >= zone_len(s)
    &&& valid_utf8(zone_raw(s)) ==> s.len() - zone_offset(s) - 8 - zone_len(s) >= 8
}

/// The heartbeat that readable bytes stand for, or `None` when the zone is
/// not UTF-8.
pub open spec fn parse_heartbeat(s: Seq<u8>) -> Option<HeartbeatModel> {
    let flags = s[16];
    let ip = if flags & 1 == 1 {
        IpAddress::V4(read_u32(s.skip(17)))
    } else {
        IpAddress::V6(read_u128(s.skip(17)))
    };
    let port = read_u16(s.skip(zone_offset(s) - 2));
    if valid_utf8(zone_raw(s)) {
        Some(
            HeartbeatModel {
                id: read_u128(s),
                addr: ServerAddress { ip, port },
                zone: decode_utf8(zone_raw(s)),
                player_count: read_u64(s.skip(zone_offset(s) + 8 + zone_len(s))) as usize,
                is_full: (flags >> 1u8) == 1,
            },
        )
    } else {
        None
    }
}

proof fn lemma_flags(ipv4: bool, full: bool)
    ensures
        (flags_byte(ipv4, full) & 1 == 1) == ipv4,
        ((flags_byte(ipv4, full) >> 1u8) == 1) == full,
{
    assert(((1u8 | 2u8) & 1u8) == 1u8 && ((1u8 | 2u8) >> 1u8) == 1u8) by (bit_vector);
    assert(((1u8 | 0u8) & 1u8) == 1u8 && ((1u8 | 0u8) >> 1u8) == 0u8) by (bit_vector);
    assert(((0u8 | 2u8) & 1u8) == 0u8 && ((0u8 | 2u8) >> 1u8) == 1u8) by (bit_vector);
    assert(((0u8 | 0u8) & 1u8) == 0u8 && ((0u8 | 0u8) >> 1u8) == 0u8) by (bit_vector);
}

impl Heartbeat {
    pub fn to_bytes(&self) -> (b: Vec<u8>)
        ensures
            b@ == encode_heartbeat(self@),
    {
        let mut res: Vec<u8> = Vec::new();
        put_u128(&mut res, self.id);
        let is_ipv4 = match self.addr.ip {
            IpAddress::V4(_) => true,
            IpAddress::V6(_) => false,
        };
        let flags: u8 = (if is_ipv4 { 1u8 } else { 0u8 }) | (if self.is_full { 2u8 } else { 0u8 });
        put_u8(&mut res, flags);
        match self.addr.ip {
            IpAddress::V4(bits) => put_u32(&mut res, bits),
            IpAddress::V6(bits) => put_u128(&mut res, bits),
        }
        put_u16(&mut res, self.addr.port);
        let zone = self.zone.as_str().as_bytes();
        put_u64(&mut res, zone.len() as u64);
        put_slice(&mut res, zone);
        put_u64(&mut res, self.player_count as u64);
        assert(res@ =~= encode_heartbeat(self@));
        res
    }

    /// Whether `data` holds every field `from_bytes` reads.
    pub fn is_readable(data: &[u8]) -> (r: bool)
        ensures
            r == heartbeat_readable(data@),
    {
        let ghost s = data@;
        if data.len() < 17 {
            return false;
        }
        let off: usize = if data[16] & 1 == 1 { 23 } else { 35 };
        if data.len() < off + 8 {
            return false;
        }
        let mut r = ByteReader::new(data);
        r.pos = off;
        assert(r@ =~= s.skip(off as int));
        let len = r.get_u64();
        let avail = (data.len() - off - 8) as u64;
        if avail < len {
            return false;
        }
        let zone = r.get_bytes(len as usize);
        assert(zone@ =~= zone_raw(s));
        let valid = match string_from_utf8(zone) {
            Some(_) => true,
            None => false,
        };
        !valid || avail - len >= 8
    }

    /// Reads a heartbeat; `None` when the zone is not valid UTF-8.
    pub fn from_bytes(data: &[u8]) -> (r: Option<Self>)
        requires
            heartbeat_readable(data@),
        ensures
            match r {
                Some(h) => parse_heartbeat(data@) == Some(h@),
                None => parse_heartbeat(data@) is None,
            },
    {
        let ghost s = data@;
        let mut r = ByteReader::new(data);
        let id = r.get_u128();
        let flags = r.get_u8();
        let is_ipv4 = flags & 1 == 1;
        let is_full = (flags >> 1u8) == 1;
        assert(r@ =~= s.skip(17));
        let ip = if is_ipv4 {
            IpAddress::V4(r.get_u32())
        } else {
            IpAddress::V6(r.get_u128())
        };
        assert(r@ =~= s.skip(zone_offset(s) - 2));
        let port = r.get_u16();
        assert(r@ =~= s.skip(zone_offset(s)));
        let len = r.get_u64();
        assert(flags == s[16]);
        assert(len as int == zone_len(s));
        let total = data.len();
        assert(len <= total);
        let n = len as usize;
        assert(n == len);
        let zone_bytes = r.get_bytes(n);
        assert(zone_bytes@ =~= zone_raw(s));
        let zone = match string_from_utf8(zone_bytes) {
            Some(z) => z,
            None => {
                return None;
            },
        };
        assert(r@ =~= s.skip(zone_offset(s) + 8 + zone_len(s)));
        let count = r.get_u64();
        Some(
            Heartbeat {
                id,
                addr: ServerAddress { ip, port },
                zone,
                player_count: #[verifier::truncate] (count as usize),
                is_full,
            },
        )
    }
}

proof fn lemma_heartbeat_head(h: HeartbeatModel)
    ensures
        ({
            let s = encode_heartbeat(h);
            &&& s.len() >= 17
            &&& read_u128(s) == h.id
            &&& s[16] == flags_byte(h.addr.ip is V4, h.is_full)
            &&& s.skip(17) =~= ip_bytes(h.addr.ip) + (be_u16(h.addr.port) + be_u64(
                encode_utf8(h.zone).len() as u64,
            ) + encode_utf8(h.zone) + be_u64(h.player_count as u64))
        }),
{
    let s = encode_heartbeat(h);
    let zone = encode_utf8(h.zone);
    let tail_after_id = seq![flags_byte(h.addr.ip is V4, h.is_full)] + ip_bytes(h.addr.ip)
        + be_u16(h.addr.port) + be_u64(zone.len() as u64) + zone + be_u64(h.player_count as u64);
    lemma_u128_roundtrip(h.id);
    assert(s =~= be_u128(h.id) + tail_after_id);
    lemma_read_append(be_u128(h.id), tail_after_id);
}

proof fn lemma_ip_read(ip: IpAddress, after: Seq<u8>)
    ensures
        ip is V4 ==> read_u32(ip_bytes(ip) + after) == ip->V4_0 && ip_bytes(ip).len() == 4,
        ip is V6 ==> read_u128(ip_bytes(ip) + after) == ip->V6_0 && ip_bytes(ip).len() == 16,
{
    match ip {
        IpAddress::V4(bits) => {
            lemma_u32_roundtrip(bits);
            lemma_read_append(be_u32(bits), after);
        },
        IpAddress::V6(bits) => {
            lemma_u128_roundtrip(bits);
            lemma_read_append(be_u128(bits), after);
        },
    }
}

#[verifier::rlimit(80)]
proof fn lemma_heartbeat_layout(h: HeartbeatModel)
    requires
        encode_utf8(h.zone).len() <= u64::MAX,
    ensures
        ({
            let s = encode_heartbeat(h);
            let off = zone_offset(s);
            let zl = encode_utf8(h.zone).len() as int;
            &&& s.len() == off + 8 + zl + 8
            &&& off == (if h.addr.ip is V4 { 23int } else { 35int })
            &&& (h.addr.ip is V4 ==> read_u32(s.skip(17)) == h.addr.ip->V4_0)
            &&& (h.addr.ip is V6 ==> read_u128(s.skip(17)) == h.addr.ip->V6_0)
            &&& read_u16(s.skip(off - 2)) == h.addr.port
            &&& zone_len(s) == zl
            &&& zone_raw(s) == encode_utf8(h.zone)
            &&& read_u64(s.skip(off + 8 + zl)) == h.player_count as u64
        }),
{
    let s = encode_heartbeat(h);
    let ipv4 = h.addr.ip is V4;
    let zone = encode_utf8(h.zone);
    let zl = zone.len();
    lemma_heartbeat_head(h);
    lemma_flags(ipv4, h.is_full);
    let ipb = ip_bytes(h.addr.ip);
    let after_port = be_u64(zl as u64) + zone + be_u64(h.player_count as u64);
    let after_ip = be_u16(h.addr.port) + after_port;
    assert(after_ip =~= be_u16(h.addr.port) + be_u64(zl as u64) + zone + be_u64(
        h.player_count as u64,
    ));
    lemma_ip_read(h.addr.ip, after_ip);
    let off = zone_offset(s);
    assert(off == 17 + ipb.len() + 2);
    assert(s.skip(off - 2) =~= be_u16(h.addr.port) + after_port);
    lemma_u16_roundtrip(h.addr.port);
    lemma_read_append(be_u16(h.addr.port), after_port);
    assert(s.skip(off) =~= be_u64(zl as u64) + (zone + be_u64(h.player_count as u64)));
    lemma_u64_roundtrip(zl as u64);
    lemma_read_append(be_u64(zl as u64), zone + be_u64(h.player_count as u64));
    assert(zone_len(s) == zl);
    assert(zone_raw(s) =~= zone);
    assert(s.skip(off + 8 + zl) =~= be_u64(h.player_count as u64));
    lemma_u64_roundtrip(h.player_count as u64);
}

/// A heartbeat's bytes are readable and read back as the heartbeat.
pub proof fn lemma_heartbeat_roundtrip(h: HeartbeatModel)
    requires
        encode_utf8(h.zone).len() <= u64::MAX,
    ensures
        heartbeat_readable(encode_heartbeat(h)),
        parse_heartbeat(encode_heartbeat(h)) == Some(h),
{
    let s = encode_heartbeat(h);
    lemma_heartbeat_head(h);
    lemma_flags(h.addr.ip is V4, h.is_full);
    lemma_heartbeat_layout(h);
    encode_utf8_valid_utf8(h.zone);
    encode_utf8_decode_utf8(h.zone);
    assert((h.player_count as u64) as usize == h.player_count);
    let p = parse_heartbeat(s).unwrap();
    assert(p.addr == h.addr);
    assert(p.zone == h.zone);
}

} // verus!
