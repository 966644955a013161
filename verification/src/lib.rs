//! A byte-order-compatible variant of the Blowfish block cipher.
//!
//! A widely deployed legacy C library wrote Blowfish ciphertext with the
//! bytes of each 32-bit word swapped relative to the cipher's canonical
//! big-endian convention ("blowfish-compat"). This crate provides that
//! word-swapped mode: a word-reversal primitive, a cipher wrapper that
//! applies it around every block operation, the zero-padding and trailer
//! conventions the legacy tool layered on top, and block-by-block
//! decryption pipelines (in-place and streamed).

use vstd::prelude::*;

pub mod words;
pub mod raw_cipher;
pub mod compat;
pub mod framing;
pub mod pipeline;

pub use words::reverse_words;
pub use compat::BlowfishCompat;
pub use compat::InvalidKeyLength;
pub use framing::add_padding;
pub use framing::drain_tail;
pub use pipeline::decrypt_in_place;
pub use pipeline::decrypt_stream;
pub use pipeline::BlockSource;
pub use pipeline::BlockSink;
pub use pipeline::VecSource;
pub use pipeline::VecSink;

verus! {

/// Size (length) of a cipher block, in bytes.
pub const BLOCK_SIZE: usize = 8;

} // verus!
