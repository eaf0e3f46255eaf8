//! A STOMP 1.2 client core: frame model, encoder, and incremental decoder.
//!
//! The wire format handled here is `COMMAND LF (name ':' value LF)* LF BODY? NUL [LF]`.
//! Frames are modelled over raw bytes so that bodies declared by a
//! `content-length` header stay binary-safe: a body may contain any byte,
//! including NUL, when its length is declared up front.
//!
//! Socket I/O, threading and payload interpretation live outside this
//! library; it only turns values into wire bytes and wire bytes back into
//! values.

pub mod commands;
pub mod decode;
pub mod frame;
pub mod header;
pub mod laws;
pub mod scan;
