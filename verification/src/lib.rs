//! Verified core of a shared UI "world": a tree of nodes that client
//! connections render into, the changes that describe every update of that
//! tree, and the JSON-RPC protocol spoken between clients and the server.

pub mod json;
pub mod attrs;
pub mod names;
pub mod ids;
pub mod node;
pub mod tree;
pub mod update;
pub mod matchkey;
pub mod change;
pub mod connection;
pub mod event;
pub mod removal;
pub mod order;
pub mod world;
pub mod shape;
pub mod proto;
pub mod client;
pub mod server;
pub mod simple_world;
