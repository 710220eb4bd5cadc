//! A verified core for a minimal RESP (REdis Serialization Protocol) server:
//! the RESP value model with its binary encoding, a recursive decoder, and
//! the command model (PING and ECHO) with its dispatcher.
//!
//! The connection loop that owns the transport is not part of this crate's
//! logic: it reads raw bytes, hands them to [`server::handle_request`], and
//! writes the reply bytes back.

pub mod wire;
pub mod parser;
pub mod command;
pub mod server;
