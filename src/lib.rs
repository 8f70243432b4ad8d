//! A WebSocket server core: the opening handshake, the frame codec, the
//! connection registry and the per-connection state machine, each proved
//! against its contract.
pub mod bytes;
pub mod client_id;
pub mod connection;
pub mod frame;
pub mod handshake;
pub mod message;
pub mod registry;
