//! A small key/value server core speaking a subset of the RESP wire protocol.
//!
//! The crate holds the protocol's value model, a decoder and an encoder for
//! its wire format, an in-memory store of strings and hashes, and the
//! dispatcher that runs a decoded command against the store. Every function
//! carries a contract over mathematical models of its data.

pub mod datastore;
pub mod decimal;
pub mod handler;
pub mod parser;
pub mod request;
pub mod round_trip;
pub mod stream;
pub mod text;
pub mod value;
pub mod writer;
