//! A signaling relay for browser peers: a registry of live connections with
//! broadcast fan-out, a visitor counter, and the codec of the signaling envelope.

pub mod message;
pub mod registry;
pub mod json;
pub mod codec;
pub mod visitors;
pub mod connection;
