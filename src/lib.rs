//! Decoding of game-replay containers: a block-structured archive reader and
//! a schema-driven bit-level protocol decoder, with the small record types
//! that the analysis of decoded events fills.
//!
//! - `bitbuffer`: a cursor that reads bytes and runs of bits.
//! - `schema`, `value`: the type table and the values decoded against it.
//! - `bitpacked`, `versioned`, `decoder`: the two wire formats and their
//!   shared interface.
//! - `crypto`, `mpq`: the archive's hash and cipher, and the archive itself.
//! - `replay`: events and the walk over an event stream.
pub mod bitbuffer;
pub mod error;
pub mod value;
pub mod schema;
pub mod text;
pub mod bitpacked;
pub mod versioned;
pub mod decoder;
pub mod crypto;
pub mod mpq;
pub mod replay;
pub mod cluster;
pub mod game;
pub mod game_state;
pub mod index;
pub mod search;
pub mod summary;
