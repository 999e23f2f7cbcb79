//! Client side of a streaming quote feed: ticker lists, the subscribe and
//! keepalive commands, their wire layout, and the decisions taken by the
//! keepalive and receive loops.

pub mod args;
pub mod error;
pub mod handshake;
pub mod model;
pub mod receiver;
pub mod sender;
pub mod text;
pub mod transport;
pub mod wire;
