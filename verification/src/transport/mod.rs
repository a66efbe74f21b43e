//! The HTTP and WebSocket side of the control channel, without the sockets.
pub mod token;
pub mod ws;
