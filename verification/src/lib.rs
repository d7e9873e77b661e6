//! Receiving half of an authenticated, encrypted byte-stream transport.
//!
//! A sender splits a plaintext stream into frames ("boxes"): each frame is a
//! fixed-size encrypted header announcing the body's length, followed by the
//! encrypted body itself.  This crate accumulates the raw bytes of such a
//! stream, decrypts and authenticates each frame in place, and hands the
//! recovered plaintext back to the caller in order, across arbitrarily small
//! reads on either side.

use vstd::prelude::*;

pub mod bytes;
pub mod crypto;
pub mod unboxer;

pub use crate::crypto::{Key, Nonce, PlainHeader};
pub use crate::unboxer::{ReaderBuffer, ReaderBufferMode, UnboxError};

verus! {

/// Number of bytes a frame's encrypted header occupies on the wire.
pub const CYPHER_HEADER_SIZE: usize = 34;

/// Largest plaintext body length a header may announce.
pub const MAX_PACKET_USIZE: usize = 4096;

/// Largest plaintext body length a header may announce, as the header stores it.
pub const MAX_PACKET_SIZE: u16 = 4096;

} // verus!
