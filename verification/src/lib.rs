//! A multi-client session broker for an authenticated remote-shell transport.
//!
//! The broker accepts concurrent client connections, authenticates each
//! connecting identity against a key store, tracks every open logical channel
//! in a shared registry, relays received data to all other connected channels,
//! and plans outbound port-forwarding channels on request.
//!
//! The transport collaborator (the wire-level secure protocol) and the
//! persistence backend are external: they perform the actual I/O, while this
//! crate holds the verified decision logic they drive. Every value crossing
//! the boundary is plain data (byte strings, integers, strings).

pub mod auth;
pub mod dispatcher;
pub mod errors;
pub mod forward;
pub mod identity;
pub mod registry;
pub mod relay;
