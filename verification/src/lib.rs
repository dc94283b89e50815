//! A minimal server-side engine for a framed, bidirectional messaging
//! protocol layered over a byte stream, together with its own verified
//! implementations of the two primitives the opening handshake depends
//! on: a 160-bit secure hash and a binary-to-text encoder.

pub mod base64;
pub mod frame;
pub mod handshake;
pub mod lifecycle;
pub mod sha1;
