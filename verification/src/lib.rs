//! Protocol and storage core of an in-memory key-value server speaking a
//! RESP-style wire protocol: frame model, byte-exact encoder, streaming
//! decoder, typed commands, and the backing store they execute against.
//!
//! Bytes flow through the layers in order: the decoder turns a buffer into a
//! frame, the command model validates and extracts a typed command, the
//! dispatcher runs it against the store and yields a reply frame, and the
//! encoder turns that reply back into bytes.

pub mod frame;
pub mod text;
pub mod table;
pub mod encode;
pub mod decode;
pub mod roundtrip;
pub mod cmd;
pub mod backend;
