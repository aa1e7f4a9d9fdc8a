//! The gatekeeper's decisions: who may log in, which server record is
//! usable, how the answer to a login reads, and how a stored record is
//! rendered as JSON.
use vstd::prelude::*;
use crate::wire::{str_eq, string_from_chars};
use crate::text::push_str;
use crate::login::LoginRequest;

verus! {

/// The zones of the game world.
#[allow(non_camel_case_types)]
#[derive(Debug, Clone, Copy, PartialEq, Eq, Structural)]
pub enum ServerZone {
    zone_A,
    zone_B,
    zone_C,
    zone_D,
    zone_E,
}

/// The zone a name stands for.
pub open spec fn zone_named(s: Seq<char>) -> Option<ServerZone> {
    if s == "zone_A"@ {
        Some(ServerZone::zone_A)
    } else if s == "zone_B"@ {
        Some(ServerZone::zone_B)
    } else if s == "zone_C"@ {
        Some(ServerZone::zone_C)
    } else if s == "zone_D"@ {
        Some(ServerZone::zone_D)
    } else if s == "zone_E"@ {
        Some(ServerZone::zone_E)
    } else {
        None
    }
}

impl ServerZone {
    /// The zone of a name, `None` for an unknown name.
    pub fn from_string(s: &str) -> (r: Option<ServerZone>)
        ensures
            r == zone_named(s@),
    {
        if str_eq(s, "zone_A") {
            Some(ServerZone::zone_A)
        } else if str_eq(s, "zone_B") {
            Some(ServerZone::zone_B)
        } else if str_eq(s, "zone_C") {
            Some(ServerZone::zone_C)
        } else if str_eq(s, "zone_D") {
            Some(ServerZone::zone_D)
        } else if str_eq(s, "zone_E") {
            Some(ServerZone::zone_E)
        } else {
            None
        }
    }
}

/// The server a player is sent to, as the gatekeeper answers it.
#[derive(Debug, Clone, Copy, PartialEq, Eq, Structural)]
pub struct ServerInfo {
    /// The IPv4 address, most significant octet first.
    pub ip: u32,
    pub port: u16,
    pub zone: ServerZone,
}

/// A server record as the orchestrator stores it.
pub struct ServerInfoInRedis {
    pub ip: u32,
    pub port: u16,
    pub zone: String,
    pub player_count: isize,
    pub status: String,
}

impl ServerInfoInRedis {
    /// The answerable form of the record; `None` when its zone is unknown.
    pub fn into_server_info(&self) -> (r: Option<ServerInfo>)
        ensures
            match zone_named(self.zone@) {
                Some(z) => r == Some(ServerInfo { ip: self.ip, port: self.port, zone: z }),
                None => r is None,
            },
    {
        let zone = match ServerZone::from_string(self.zone.as_str()) {
            Some(z) => z,
            None => return None,
        };
        Some(ServerInfo { ip: self.ip, port: self.port, zone })
    }
}

/// The health answer of the gatekeeper.
pub struct ServiceStatus {
    pub status: String,
}

/// The health answer: the service is up.
pub fn get_status() -> (s: ServiceStatus)
    ensures
        s.status@ == "ok"@,
{
    ServiceStatus { status: "ok".to_owned() }
}

// ---------------------------------------------------------------------------
// Login
// ---------------------------------------------------------------------------

/// The password every account has for now.
pub open spec fn accepted_password() -> Seq<char> {
    "1234"@
}

/// The bits a version 4 (random) UUID has fixed: its version nibble and its
/// variant bits.
pub open spec fn v4_fixed_bits(id: u128) -> u128 {
    id & 0xF000_C000_0000_0000_0000u128
}

pub open spec fn v4_marks() -> u128 {
    0x4000_8000_0000_0000_0000u128
}

/// `uuid::Uuid::new_v4`, read as its 128 bits with `as_u128`. The value is
/// random; the crate's source fixes the version nibble to 4 and the variant
/// bits to `10`, which is all the contract states.
#[verifier::external_body]
fn new_player_id() -> (id: u128)
    ensures
        v4_fixed_bits(id) == v4_marks(),
{
    uuid::Uuid::new_v4().as_u128()
}

/// A fresh player identifier when the password is accepted.
pub fn login_validate(login: &LoginRequest) -> (r: Option<u128>)
    ensures
        r is Some <==> login.password@ == accepted_password(),
        r matches Some(id) ==> v4_fixed_bits(id) == v4_marks(),
{
    if str_eq(login.password.as_str(), "1234") {
        Some(new_player_id())
    } else {
        None
    }
}

/// The answer to a successful login.
#[derive(Debug, Clone, Copy, PartialEq, Eq, Structural)]
pub struct LoginSuccess {
    pub player_id: u128,
    pub server: ServerInfo,
}

pub struct LoginUnauthorized {
    pub error: String,
}

impl Default for LoginUnauthorized {
    fn default() -> (r: Self)
        ensures
            r.error@ == "Authentification failed"@,
    {
        LoginUnauthorized { error: "Authentification failed".to_owned() }
    }
}

pub struct LoginUnavailable {
    pub error: String,
}

impl Default for LoginUnavailable {
    fn default() -> (r: Self)
        ensures
            r.error@ == "No server available"@,
    {
        LoginUnavailable { error: "No server available".to_owned() }
    }
}

/// The answer to a login attempt.
pub enum LoginResponse {
    Success(LoginSuccess),
    Unauthorized(LoginUnauthorized),
    Unavailable(LoginUnavailable),
}

/// The answer to a login, from the identifier the password check gave and
/// the server found for the player: a refused password is unauthorized,
/// a missing server is unavailable.
pub fn login_response(player: Option<u128>, server: Option<ServerInfo>) -> (r: LoginResponse)
    ensures
        player is None ==> (r matches LoginResponse::Unauthorized(u) && u.error@
            == "Authentification failed"@),
        player is Some && server is None ==> (r matches LoginResponse::Unavailable(u) && u.error@
            == "No server available"@),
        player matches Some(id) ==> (server matches Some(s) ==> r matches LoginResponse::Success(
            ok,
        ) && ok == (LoginSuccess { player_id: id, server: s })),
{
    let player_id = match player {
        Some(id) => id,
        None => return LoginResponse::Unauthorized(LoginUnauthorized::default()),
    };
    match server {
        Some(s) => LoginResponse::Success(LoginSuccess { player_id, server: s }),
        None => LoginResponse::Unavailable(LoginUnavailable::default()),
    }
}

// ---------------------------------------------------------------------------
// Redis helpers
// ---------------------------------------------------------------------------

/// How long a stored value lives.
#[derive(Debug, Clone, Copy, PartialEq, Eq, Structural)]
pub enum Expiry {
    /// Keep the time to live the key already has.
    KeepTtl,
    /// Expire after this many seconds.
    Seconds(u64),
}

/// The expiry of a value stored with a time to live: zero keeps the key's
/// current one.
pub fn expiry_for_ttl(ttl_sec: u64) -> (e: Expiry)
    ensures
        e == (if ttl_sec == 0 {
            Expiry::KeepTtl
        } else {
            Expiry::Seconds(ttl_sec)
        }),
{
    if ttl_sec == 0 {
        Expiry::KeepTtl
    } else {
        Expiry::Seconds(ttl_sec)
    }
}

/// A field as a JSON member: the name quoted, the value quoted unless it
/// reads as a number. Nothing is escaped.
pub open spec fn json_member(f: (String, String, bool)) -> Seq<char> {
    seq!['"'] + f.0@ + seq!['"', ' ', ':', ' '] + if f.2 {
        f.1@
    } else {
        seq!['"'] + f.1@ + seq!['"']
    }
}

/// The members of a record, separated by ", ".
pub open spec fn json_members(fs: Seq<(String, String, bool)>) -> Seq<char>
    decreases fs.len(),
{
    if fs.len() == 0 {
        Seq::empty()
    } else if fs.len() == 1 {
        json_member(fs[0])
    } else {
        json_members(fs.drop_last()) + seq![',', ' '] + json_member(fs.last())
    }
}

/// A record's fields as one JSON object. Each entry is a field's name, its
/// value, and whether the value reads as a number.
pub fn fields_as_json(fields: &Vec<(String, String, bool)>) -> (s: String)
    ensures
        s@ == seq!['{'] + json_members(fields@) + seq!['}'],
{
    let mut out: Vec<char> = Vec::new();
    out.push('{');
    let mut i: usize = 0;
    while i < fields.len()
        invariant
            i <= fields@.len(),
            out@ == seq!['{'] + json_members(fields@.take(i as int)),
        decreases fields@.len() - i,
    {
        let ghost before = out@;
        if i > 0 {
            out.push(',');
            out.push(' ');
        }
        let f = &fields[i];
        out.push('"');
        push_str(&mut out, f.0.as_str());
        out.push('"');
        out.push(' ');
        out.push(':');
        out.push(' ');
        if f.2 {
            push_str(&mut out, f.1.as_str());
        } else {
            out.push('"');
            push_str(&mut out, f.1.as_str());
            out.push('"');
        }
        proof {
            let t = fields@.take(i + 1);
            assert(t.drop_last() =~= fields@.take(i as int));
            assert(t.last() == fields@[i as int]);
            if i == 0 {
                assert(json_members(fields@.take(0)) =~= Seq::<char>::empty());
            }
            assert(out@ =~= seq!['{'] + json_members(t));
        }
        i = i + 1;
    }
    assert(fields@.take(i as int) =~= fields@);
    out.push('}');
    string_from_chars(out)
}

} // verus!
