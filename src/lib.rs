//! Server-to-client replication and network events.
//!
//! The library holds the decisions of the protocol: where a server event
//! goes, which channel carries it, how server entity ids map to client ids,
//! which components replicate, what a client is sent each tick and how it
//! applies what it receives, and how all of it is laid out in bytes.
pub mod channels;
pub mod codec;
pub mod decode;
pub mod differ;
pub mod entity_map;
pub mod events;
pub mod replica;
pub mod rules;
pub mod server;
pub mod world;
