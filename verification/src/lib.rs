//! A MessagePack binary codec: a compact, self-describing, typed binary
//! encoding for nested scalar, sequence, and mapping data.
//!
//! The wire format is specified by spec functions over byte sequences in
//! [`format`]; the encoder, decoder and incremental slice parser are proved
//! against those functions.

pub mod casts;
pub mod format;
pub mod encoder;
pub mod decoder;
pub mod rpc;
pub mod slice_reader;
pub mod value;
