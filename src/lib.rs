//! Password-based encryption of short secrets: a key derived from a
//! passphrase with scrypt, AES-256 in CBC mode with PKCS#7 padding, and a
//! self-describing `salt:iv:ciphertext` text payload.

pub mod cbc;
pub mod cipher;
pub mod hex;
pub mod padding;
pub mod primitives;
pub mod wire;

pub use cipher::{decrypt, decrypt_bytes, encrypt, encrypt_with, CipherError};
