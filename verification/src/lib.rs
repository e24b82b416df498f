//! Byte-sequence transforms for safer transmission: a Hamming block code that
//! corrects one flipped bit per block and detects two, a Vigenere cipher, SHA-2
//! digests, and the key type the cipher works with.

pub mod algorithms;
pub mod bits;
pub mod bitvec;
pub mod decrypt;
pub mod encrypt;
pub mod key;
pub mod text;

pub use decrypt::{Decrypt, TryDecrypt};
pub use encrypt::{Encrypt, TryEncrypt};
pub use key::Key;
