//! Block-cipher modes of operation over AES-128, key derivation helpers, and
//! least-significant-bit steganography for 24-bit BMP images.

pub mod text;
pub mod block;
pub mod padding;
pub mod counter;
pub mod trace;
pub mod modes;
pub mod process;
pub mod keys;
pub mod stego;
