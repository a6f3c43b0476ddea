//! An in-memory key/value store speaking the RESP wire protocol, with a
//! decoder for the RDB snapshot format.
//!
//! The crate is organised around three verified cores:
//! - `resp` and `parser` (with `decimal` underneath): the RESP value model,
//!   its canonical encoding, and a streaming parser that is proved to invert
//!   the encoder;
//! - `keyspace` and `command`: the key/value mapping with expiry semantics,
//!   and the commands that read and write it;
//! - `rdb`: a decoder for the binary snapshot format, proved to recover the
//!   entries a snapshot holds.
//!
//! All I/O (sockets, files, clocks) stays outside the library: callers hand
//! in buffers and timestamps as plain values.

pub mod command;
pub mod decimal;
pub mod keyspace;
pub mod parser;
pub mod rdb;
pub mod resp;
