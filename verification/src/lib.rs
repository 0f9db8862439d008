//! Building blocks of the DTP block-transfer test tools.
//!
//! - [`loopbytes`]: a fixed-size ring of bytes.
//! - [`block`]: the block record and the 40-byte block header.
//! - [`streamparser`]: cuts a received byte stream into blocks.
//! - [`clock`]: the wall clock in microseconds.
//! - [`wire`]: the four-byte block count as it lies in memory.
//! - [`token`]: stateless retry tokens.
//! - [`config`]: what the server hands to its connection for each configured block.
//! - [`trace`]: one line of a block trace.
//! - [`hex`]: bytes written as hex.
//! - [`session`]: the decisions of the server's loop (new connections, sends) and the client's tally.

pub mod loopbytes;
pub mod block;
pub mod clock;
pub mod streamparser;
pub mod wire;
pub mod token;
pub mod config;
pub mod session;
pub mod hex;
pub mod trace;
