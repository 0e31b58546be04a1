//! A resumable download client for a server that may cut a transfer short.
//!
//! The library holds the protocol: how a request is put on the wire, how a
//! response is split into header text and payload, how the received payload
//! pieces are accumulated, and which step follows which.  Connections, files
//! and the terminal belong to the program that drives it.

pub mod text;
pub mod decimal;
pub mod args;
pub mod headers;
pub mod response;
pub mod request;
pub mod transfer;
pub mod driver;
pub mod progress;
