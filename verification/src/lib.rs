//! Core logic of a small sharded multiplayer game: the binary wire formats
//! spoken between clients, game servers and the broker, the broker's
//! publish/subscribe state, the spatial quad tree that assigns positions to
//! shards, and the decisions of the surrounding services.
pub mod wire;
pub mod input;
pub mod entity;
pub mod game_message;
pub mod heartbeat;
pub mod assoc;
pub mod pubsub;
pub mod quad_tree;
pub mod rand;
pub mod text;
pub mod topic;
pub mod packet;
pub mod server;
pub mod client;
pub mod frames;
pub mod login;
pub mod gatekeeper;
pub mod orchestrator;
pub mod network;
