//! Binary packet framing and message encoding for the SSH transport layer.
pub mod codec;
pub mod message;
pub mod wire;
