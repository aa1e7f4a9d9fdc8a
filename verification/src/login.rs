//! What a client and the gatekeeper exchange to log in: the request, and
//! on success the player's identifier and the server to join.
use vstd::prelude::*;

verus! {

/// A login attempt.
pub struct LoginRequest {
    pub username: String,
    pub password: String,
}

/// The server a client is sent to, as the client reads it.
pub struct ServerInfo {
    /// The IPv4 address, most significant octet first.
    pub ip: u32,
    pub port: u16,
    pub zone: String,
}

/// A successful login: the player's UUID as its 128 bits, and the server.
pub struct LoginSuccess {
    pub player_id: u128,
    pub server: ServerInfo,
}

} // verus!
