//! A minimal symmetric-cipher processing pipeline over the DES block primitive:
//! fixed-block encryption and decryption with zero-byte padding, and a
//! block-chaining digest ("signature") over arbitrary-length input.

use vstd::prelude::*;

pub mod crydec;
pub mod helper;
pub mod primitive;
pub mod signature;

verus! {

/// Block size of the cipher primitive, in bytes.
pub const CIPHER_BLOCK_SIZE: usize = 8;

/// Key size of the cipher primitive, in bytes.
pub const CIPHER_KEY_SIZE: usize = 8;

} // verus!
