//! Encryption of a message under a passphrase, and its reverse.
use vstd::prelude::*;
use vstd::utf8::{
    decode_utf8, decode_utf8_encode_utf8, encode_utf8, is_leading_byte_width_1,
    partial_valid_utf8, partial_valid_utf8_extend_ascii_block, valid_utf8,
};
use crate::cbc::{cbc_decrypt, cbc_encrypt, decrypt_blocks, encrypt_blocks};
use crate::hex::{
    decode_hex, hex_decode, hex_encode, lemma_hex_encode_shape, lemma_hex_round_trip,
};
use crate::padding::{
    lemma_padded_len, lemma_unpad_pad, pad, pkcs7_pad, pkcs7_unpad, unpad, BLOCK_LEN,
};
use crate::primitives::{random_bytes, scrypt_derive, scrypt_key, text_from_utf8};
use crate::wire::{join_fields, join_payload, lemma_split_join, split_fields, split_payload};

verus! {

/// Length of the salt, in bytes.
pub const SALT_LEN: usize = 16;

/// Length of the IV, in bytes.
pub const IV_LEN: usize = 16;

/// Length of the derived key, in bytes.
pub const KEY_LEN: usize = 32;

/// scrypt cost: `N = 2^SCRYPT_LOG_N`.
pub const SCRYPT_LOG_N: u8 = 14;

/// scrypt block-size factor.
pub const SCRYPT_R: u32 = 8;

/// scrypt parallelism factor.
pub const SCRYPT_P: u32 = 1;

/// Why an encryption or a decryption failed.
#[derive(Clone, Copy, Debug, PartialEq, Eq, Structural)]
pub enum CipherError {
    /// The key-derivation parameters were refused.
    KeyDerivation,
    /// The key or the IV has a size that the cipher does not take.
    CipherInit,
    /// The payload does not have exactly three fields.
    MalformedPayload,
    /// A field is not hex text.
    Encoding,
    /// The salt or the IV is not 16 bytes long.
    InvalidLength,
    /// The padding is invalid: a wrong passphrase or a damaged ciphertext.
    Decryption,
    /// The recovered bytes are not UTF-8 text.
    TextDecode,
    /// The operating system's random source failed.
    RandomSource,
}

/// The key derived from a passphrase and a salt.
pub open spec fn derived_key(passphrase: Seq<u8>, salt: Seq<u8>) -> Seq<u8> {
    scrypt_key(passphrase, salt, SCRYPT_LOG_N, SCRYPT_R, SCRYPT_P, KEY_LEN)
}

/// The ciphertext of a message under a passphrase, a salt and an IV.
pub open spec fn sealed_ciphertext(
    message: Seq<u8>,
    passphrase: Seq<u8>,
    salt: Seq<u8>,
    iv: Seq<u8>,
) -> Seq<u8> {
    cbc_encrypt(derived_key(passphrase, salt), iv, pkcs7_pad(message))
}

/// The payload text of a message under a passphrase, a salt and an IV.
pub open spec fn sealed_payload(
    message: Seq<u8>,
    passphrase: Seq<u8>,
    salt: Seq<u8>,
    iv: Seq<u8>,
) -> Seq<u8> {
    join_fields(salt, iv, sealed_ciphertext(message, passphrase, salt, iv))
}

/// What decrypting the payload bytes under a passphrase gives.
pub open spec fn open_payload(payload: Seq<u8>, passphrase: Seq<u8>) -> Result<
    Seq<u8>,
    CipherError,
> {
    let f = split_fields(payload);
    if f.len() != 3 {
        Err(CipherError::MalformedPayload)
    } else {
        match (hex_decode(f[0]), hex_decode(f[1]), hex_decode(f[2])) {
            (Some(salt), Some(iv), Some(ct)) => {
                if salt.len() != 16 || iv.len() != 16 {
                    Err(CipherError::InvalidLength)
                } else if ct.len() % 16 != 0 {
                    Err(CipherError::Decryption)
                } else {
                    match pkcs7_unpad(cbc_decrypt(derived_key(passphrase, salt), iv, ct)) {
                        Some(m) => Ok(m),
                        None => Err(CipherError::Decryption),
                    }
                }
            },
            _ => Err(CipherError::Encoding),
        }
    }
}

/// What decrypting a payload text under a passphrase gives, as text.
pub open spec fn open_text(payload: Seq<char>, passphrase: Seq<u8>) -> Result<
    Seq<char>,
    CipherError,
> {
    match open_payload(encode_utf8(payload), passphrase) {
        Ok(m) => if valid_utf8(m) {
            Ok(decode_utf8(m))
        } else {
            Err(CipherError::TextDecode)
        },
        Err(e) => Err(e),
    }
}

/// The characters of a text result.
pub open spec fn text_result(r: Result<String, CipherError>) -> Result<Seq<char>, CipherError> {
    match r {
        Ok(s) => Ok(s@),
        Err(e) => Err(e),
    }
}

/// A payload opens to the message that was sealed in it, wherever the
/// block cipher undoes itself on the padded message.
pub proof fn lemma_open_sealed(message: Seq<u8>, passphrase: Seq<u8>, salt: Seq<u8>, iv: Seq<u8>)
    requires
        salt.len() == 16,
        iv.len() == 16,
        sealed_ciphertext(message, passphrase, salt, iv).len() == pkcs7_pad(message).len(),
        cbc_decrypt(
            derived_key(passphrase, salt),
            iv,
            sealed_ciphertext(message, passphrase, salt, iv),
        ) == pkcs7_pad(message),
    ensures
        open_payload(sealed_payload(message, passphrase, salt, iv), passphrase) == Ok::<
            Seq<u8>,
            CipherError,
        >(message),
{
    let ct = sealed_ciphertext(message, passphrase, salt, iv);
    lemma_split_join(salt, iv, ct);
    lemma_hex_round_trip(salt);
    lemma_hex_round_trip(iv);
    lemma_hex_round_trip(ct);
    lemma_padded_len(message);
    lemma_unpad_pad(message);
}

/// A payload without exactly three colon-separated fields is malformed,
/// whatever the passphrase.
pub proof fn lemma_field_count_rejected(payload: Seq<u8>, passphrase: Seq<u8>)
    requires
        split_fields(payload).len() != 3,
    ensures
        open_payload(payload, passphrase) == Err::<Seq<u8>, CipherError>(
            CipherError::MalformedPayload,
        ),
{
}

/// A payload of three fields, one of which is not hex text, is an encoding
/// error.
pub proof fn lemma_non_hex_rejected(payload: Seq<u8>, passphrase: Seq<u8>, i: int)
    requires
        split_fields(payload).len() == 3,
        0 <= i < 3,
        hex_decode(split_fields(payload)[i]) is None,
    ensures
        open_payload(payload, passphrase) == Err::<Seq<u8>, CipherError>(CipherError::Encoding),
{
}

/// A payload of three hex fields whose salt or IV is not 16 bytes long has
/// an invalid length.
pub proof fn lemma_bad_length_rejected(payload: Seq<u8>, passphrase: Seq<u8>)
    requires
        split_fields(payload).len() == 3,
        hex_decode(split_fields(payload)[0]) is Some,
        hex_decode(split_fields(payload)[1]) is Some,
        hex_decode(split_fields(payload)[2]) is Some,
        hex_decode(split_fields(payload)[0])->0.len() != 16 || hex_decode(
            split_fields(payload)[1],
        )->0.len() != 16,
    ensures
        open_payload(payload, passphrase) == Err::<Seq<u8>, CipherError>(
            CipherError::InvalidLength,
        ),
{
}

/// Bytes below 128 are valid UTF-8.
proof fn lemma_ascii_valid_utf8(b: Seq<u8>)
    requires
        forall|k: int| 0 <= k < b.len() ==> #[trigger] b[k] < 128,
    ensures
        valid_utf8(b),
{
    assert(b.subrange(0, 0) =~= Seq::<u8>::empty());
    assert(partial_valid_utf8(b, 0));
    assert forall|k: int| 0 <= 0 <= k < b.len() <= b.len() implies #[trigger]
        is_leading_byte_width_1(b[k]) by {
        assert(b[k] < 128);
    }
    partial_valid_utf8_extend_ascii_block(b, 0, b.len() as int);
    assert(b.subrange(0, b.len() as int) =~= b);
}

proof fn lemma_payload_ascii(salt: Seq<u8>, iv: Seq<u8>, ct: Seq<u8>)
    ensures
        valid_utf8(join_fields(salt, iv, ct)),
{
    lemma_hex_encode_shape(salt);
    lemma_hex_encode_shape(iv);
    lemma_hex_encode_shape(ct);
    let w = join_fields(salt, iv, ct);
    let (a, b, c) = (hex_encode(salt), hex_encode(iv), hex_encode(ct));
    assert forall|k: int| 0 <= k < w.len() implies #[trigger] w[k] < 128 by {
        if k < a.len() {
            assert(w[k] == a[k]);
        } else if k == a.len() {
        } else if k < a.len() + 1 + b.len() {
            assert(w[k] == b[k - a.len() - 1]);
        } else if k == a.len() + 1 + b.len() {
        } else {
            assert(w[k] == c[k - a.len() - 2 - b.len()]);
        }
    }
    lemma_ascii_valid_utf8(w);
}

/// Encrypts `message` under `passphrase` with the given salt and IV.
///
/// The payload's third field holds `16 * floor(n / 16) + 16` bytes for an
/// `n`-byte message, and the payload decrypts to the message under the same
/// passphrase.
pub fn encrypt_with(message: &[u8], passphrase: &[u8], salt: &[u8], iv: &[u8]) -> (r: Result<
    String,
    CipherError,
>)
    requires
        salt@.len() == SALT_LEN,
        iv@.len() == IV_LEN,
        message@.len() <= usize::MAX / 4,
    ensures
        r is Ok,
        r matches Ok(s) ==> encode_utf8(s@) == sealed_payload(message@, passphrase@, salt@, iv@),
        r matches Ok(s) ==> s@ == decode_utf8(sealed_payload(message@, passphrase@, salt@, iv@)),
        sealed_ciphertext(message@, passphrase@, salt@, iv@).len() == 16 * (message@.len() / 16)
            + 16,
        r matches Ok(s) ==> open_payload(encode_utf8(s@), passphrase@) == Ok::<
            Seq<u8>,
            CipherError,
        >(message@),
        r matches Ok(s) ==> (valid_utf8(message@) ==> open_text(s@, passphrase@) == Ok::<
            Seq<char>,
            CipherError,
        >(decode_utf8(message@))),
{
    let key = match scrypt_derive(passphrase, salt, SCRYPT_LOG_N, SCRYPT_R, SCRYPT_P, KEY_LEN) {
        Some(k) => k,
        None => { return Err(CipherError::KeyDerivation); },
    };
    let padded = pad(message);
    proof { lemma_padded_len(message@); }
    let ct = match encrypt_blocks(key.as_slice(), iv, padded.as_slice()) {
        Some(c) => c,
        None => { return Err(CipherError::CipherInit); },
    };
    let payload = join_payload(salt, iv, ct.as_slice());
    let ghost w = payload@;
    proof {
        lemma_payload_ascii(salt@, iv@, ct@);
        lemma_open_sealed(message@, passphrase@, salt@, iv@);
        decode_utf8_encode_utf8(w);
    }
    match text_from_utf8(payload) {
        Some(s) => Ok(s),
        None => Err(CipherError::TextDecode),
    }
}

/// Encrypts `message` under `passphrase` with a fresh random salt and IV;
/// fails only where the operating system's random source does.
pub fn encrypt(message: &[u8], passphrase: &[u8]) -> (r: Result<String, CipherError>)
    requires
        message@.len() <= usize::MAX / 4,
    ensures
        r is Err ==> r == Err::<String, CipherError>(CipherError::RandomSource),
        r matches Ok(s) ==> exists|salt: Seq<u8>, iv: Seq<u8>|
            salt.len() == 16 && iv.len() == 16 && #[trigger] sealed_payload(
                message@,
                passphrase@,
                salt,
                iv,
            ) == encode_utf8(s@) && sealed_ciphertext(message@, passphrase@, salt, iv).len()
                == 16 * (message@.len() / 16) + 16,
        r matches Ok(s) ==> open_payload(encode_utf8(s@), passphrase@) == Ok::<
            Seq<u8>,
            CipherError,
        >(message@),
        r matches Ok(s) ==> (valid_utf8(message@) ==> open_text(s@, passphrase@) == Ok::<
            Seq<char>,
            CipherError,
        >(decode_utf8(message@))),
{
    let salt = match random_bytes(SALT_LEN) {
        Some(b) => b,
        None => { return Err(CipherError::RandomSource); },
    };
    let iv = match random_bytes(IV_LEN) {
        Some(b) => b,
        None => { return Err(CipherError::RandomSource); },
    };
    encrypt_with(message, passphrase, salt.as_slice(), iv.as_slice())
}

/// Decrypts payload bytes under `passphrase` to the message bytes.
pub fn decrypt_bytes(payload: &[u8], passphrase: &[u8]) -> (r: Result<Vec<u8>, CipherError>)
    ensures
        match r {
            Ok(m) => open_payload(payload@, passphrase@) == Ok::<Seq<u8>, CipherError>(m@),
            Err(e) => open_payload(payload@, passphrase@) == Err::<Seq<u8>, CipherError>(e),
        },
{
    let (f0, f1, f2) = match split_payload(payload) {
        Some(f) => f,
        None => { return Err(CipherError::MalformedPayload); },
    };
    let salt = decode_hex(f0.as_slice());
    let iv = decode_hex(f1.as_slice());
    let ct = decode_hex(f2.as_slice());
    let (salt, iv, ct) = match (salt, iv, ct) {
        (Some(s), Some(i), Some(c)) => (s, i, c),
        _ => { return Err(CipherError::Encoding); },
    };
    if salt.len() != SALT_LEN || iv.len() != IV_LEN {
        return Err(CipherError::InvalidLength);
    }
    if ct.len() % BLOCK_LEN != 0 {
        return Err(CipherError::Decryption);
    }
    let derived = scrypt_derive(
        passphrase,
        salt.as_slice(),
        SCRYPT_LOG_N,
        SCRYPT_R,
        SCRYPT_P,
        KEY_LEN,
    );
    let key = match derived {
        Some(k) => k,
        None => { return Err(CipherError::KeyDerivation); },
    };
    let padded = match decrypt_blocks(key.as_slice(), iv.as_slice(), ct.as_slice()) {
        Some(p) => p,
        None => { return Err(CipherError::CipherInit); },
    };
    match unpad(padded.as_slice()) {
        Some(m) => Ok(m),
        None => Err(CipherError::Decryption),
    }
}

/// Decrypts a payload text under `passphrase` to the message text.
pub fn decrypt(payload: &str, passphrase: &[u8]) -> (r: Result<String, CipherError>)
    ensures
        text_result(r) == open_text(payload@, passphrase@),
{
    let m = match decrypt_bytes(payload.as_bytes(), passphrase) {
        Ok(m) => m,
        Err(e) => { return Err(e); },
    };
    match text_from_utf8(m) {
        Some(s) => Ok(s),
        None => Err(CipherError::TextDecode),
    }
}

} // verus!
