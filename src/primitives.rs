//! The outside primitives: AES-256 on one block, scrypt, the operating
//! system's random source, and UTF-8 decoding.
use vstd::prelude::*;
use vstd::utf8::{decode_utf8, valid_utf8};
use aes::cipher::{BlockDecrypt, BlockEncrypt, KeyInit};
use rand::RngCore;

verus! {

/// AES-256 encryption of one 16-byte block under a 32-byte key.
pub uninterp spec fn aes256_encrypt_block(key: Seq<u8>, block: Seq<u8>) -> Seq<u8>;

/// AES-256 decryption of one 16-byte block under a 32-byte key.
pub uninterp spec fn aes256_decrypt_block(key: Seq<u8>, block: Seq<u8>) -> Seq<u8>;

/// The scrypt key for a passphrase and a salt under the given cost
/// parameters and output length.
pub uninterp spec fn scrypt_key(
    passphrase: Seq<u8>,
    salt: Seq<u8>,
    log_n: u8,
    r: u32,
    p: u32,
    len: usize,
) -> Seq<u8>;

/// Relies on aes::Aes256 through cipher's `KeyInit::new_from_slice`, which
/// refuses exactly the keys that are not 32 bytes long, and
/// `BlockEncrypt::encrypt_block`, a permutation of 16-byte blocks that
/// `BlockDecrypt::decrypt_block` undoes under the same key.
#[verifier::external_body]
pub(crate) fn encrypt_block(key: &[u8], block: &[u8]) -> (r: Option<Vec<u8>>)
    requires
        block@.len() == 16,
    ensures
        r is Some <==> key@.len() == 32,
        r matches Some(c) ==> c@ == aes256_encrypt_block(key@, block@),
        r matches Some(c) ==> c@.len() == 16,
        r matches Some(c) ==> aes256_decrypt_block(key@, c@) == block@,
{
    let cipher = aes::Aes256::new_from_slice(key).ok()?;
    let mut b = aes::Block::clone_from_slice(block);
    cipher.encrypt_block(&mut b);
    Some(b.to_vec())
}

/// Relies on aes::Aes256 through cipher's `KeyInit::new_from_slice`, which
/// refuses exactly the keys that are not 32 bytes long, and
/// `BlockDecrypt::decrypt_block` on one 16-byte block.
#[verifier::external_body]
pub(crate) fn decrypt_block(key: &[u8], block: &[u8]) -> (r: Option<Vec<u8>>)
    requires
        block@.len() == 16,
    ensures
        r is Some <==> key@.len() == 32,
        r matches Some(p) ==> p@ == aes256_decrypt_block(key@, block@),
        r matches Some(p) ==> p@.len() == 16,
{
    let cipher = aes::Aes256::new_from_slice(key).ok()?;
    let mut b = aes::Block::clone_from_slice(block);
    cipher.decrypt_block(&mut b);
    Some(b.to_vec())
}

/// Relies on `scrypt::Params::new`, which accepts `log_n` up to 16 with
/// `r == 8`, `p == 1` and a length from 10 to 64, and on `scrypt::scrypt`,
/// which then fills the whole output with the derived key (it fails only on
/// an empty or oversized output).
#[verifier::external_body]
pub(crate) fn scrypt_derive(
    passphrase: &[u8],
    salt: &[u8],
    log_n: u8,
    r: u32,
    p: u32,
    len: usize,
) -> (out: Option<Vec<u8>>)
    ensures
        log_n <= 16 && r == 8 && p == 1 && 10 <= len <= 64 ==> out is Some,
        out matches Some(k) ==> k@ == scrypt_key(passphrase@, salt@, log_n, r, p, len),
        out matches Some(k) ==> k@.len() == len,
{
    let params = scrypt::Params::new(log_n, r, p, len).ok()?;
    let mut key = vec![0u8; len];
    scrypt::scrypt(passphrase, salt, &params, &mut key).ok()?;
    Some(key)
}

/// Relies on rand's `OsRng` (`RngCore::try_fill_bytes`): `n` bytes from the
/// operating system's secure source, or `None` where that source fails.
/// Nothing is known of the bytes but their number.
#[verifier::external_body]
pub(crate) fn random_bytes(n: usize) -> (r: Option<Vec<u8>>)
    ensures
        r matches Some(b) ==> b@.len() == n,
{
    let mut b = vec![0u8; n];
    rand::rngs::OsRng.try_fill_bytes(&mut b).ok()?;
    Some(b)
}

/// Relies on `String::from_utf8`: it accepts exactly the valid UTF-8 byte
/// strings and keeps the characters that they encode.
#[verifier::external_body]
pub(crate) fn text_from_utf8(b: Vec<u8>) -> (r: Option<String>)
    ensures
        r is Some <==> valid_utf8(b@),
        r matches Some(s) ==> s@ == decode_utf8(b@),
{
    String::from_utf8(b).ok()
}

} // verus!
