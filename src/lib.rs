//! A verified LZMA2 stream decoder.
//!
//! - `lzma2`: chunk framing and the stream decoder, with the laws that hold
//!   of whole streams;
//! - `decoder`: the LZMA symbol decoder (probability model, state automaton,
//!   rep distances);
//! - `rangecoder`: the binary range decoder;
//! - `lzbuffer`: the dictionary that back-references copy from;
//! - `bigendian`: big-endian integers read out of byte buffers.

pub mod bigendian;
pub mod rangecoder;
pub mod lzbuffer;
pub mod decoder;
pub mod lzma2;

pub use lzma2::{decode_stream, Lzma2Error};
