//! An in-memory key-value store driven by a line-oriented text protocol
//! with three commands (`ADD`, `GET`, `DEL`), together with the codec for an
//! append-only persistence log and the replay procedure that rebuilds the
//! store from that log at startup.

pub mod config;
pub mod executor;
pub mod laws;
pub mod lexer;
pub mod persist;
pub mod store;
