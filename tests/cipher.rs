use password_cipher::cbc::{decrypt_blocks, encrypt_blocks};
use password_cipher::hex::{decode_hex, push_hex};
use password_cipher::padding::{pad, unpad};
use password_cipher::wire::{join_payload, split_payload};
use password_cipher::{decrypt, decrypt_bytes, encrypt, encrypt_with, CipherError};

fn fields(payload: &str) -> Vec<Vec<u8>> {
    payload
        .split(':')
        .map(|f| decode_hex(f.as_bytes()).expect("hex field"))
        .collect()
}

#[test]
fn round_trip_ascii() {
    let p = encrypt(b"Secret", b"password123").unwrap();
    assert_eq!(decrypt(&p, b"password123").unwrap(), "Secret");
}

#[test]
fn round_trip_empty_message() {
    let p = encrypt(b"", b"pw").unwrap();
    let f = fields(&p);
    assert_eq!(f[2].len(), 16);
    assert_eq!(decrypt(&p, b"pw").unwrap(), "");
}

#[test]
fn round_trip_multibyte_text() {
    let m = "Grüße, 世界! 🔐";
    let p = encrypt(m.as_bytes(), "pässwörd".as_bytes()).unwrap();
    assert_eq!(decrypt(&p, "pässwörd".as_bytes()).unwrap(), m);
}

#[test]
fn encryptions_differ_but_both_decrypt() {
    let a = encrypt(b"same message", b"same pass").unwrap();
    let b = encrypt(b"same message", b"same pass").unwrap();
    assert_ne!(a, b);
    assert_eq!(decrypt(&a, b"same pass").unwrap(), "same message");
    assert_eq!(decrypt(&b, b"same pass").unwrap(), "same message");
}

#[test]
fn wrong_password_fails() {
    let p = encrypt(b"Secret", b"password123").unwrap();
    let r = decrypt(&p, b"password456");
    assert!(r.is_err());
    assert_ne!(r, Ok(String::from("Secret")));
}

#[test]
fn concrete_scenario() {
    let m = "Hello World! This is a secret message.";
    let p = encrypt(m.as_bytes(), b"super_secure_password").unwrap();
    assert_eq!(p.matches(':').count(), 2);
    let f = fields(&p);
    assert_eq!(f.len(), 3);
    assert_eq!(f[0].len(), 16);
    assert_eq!(f[1].len(), 16);
    assert_eq!(f[2].len() % 16, 0);
    assert_eq!(f[2].len(), 48);
    assert_eq!(decrypt(&p, b"super_secure_password").unwrap(), m);
}

#[test]
fn fixed_salt_and_iv_give_the_same_payload() {
    let salt: Vec<u8> = (0u8..16).collect();
    let iv: Vec<u8> = (16u8..32).collect();
    let a = encrypt_with(b"abcdefg", b"123456", &salt, &iv).unwrap();
    let b = encrypt_with(b"abcdefg", b"123456", &salt, &iv).unwrap();
    assert_eq!(a, b);
    assert!(a.starts_with("000102030405060708090a0b0c0d0e0f:101112131415161718191a1b1c1d1e1f:"));
    assert_eq!(a.len(), 32 + 1 + 32 + 1 + 32);
    assert_eq!(decrypt(&a, b"123456").unwrap(), "abcdefg");
}

#[test]
fn ciphertext_lengths() {
    let salt = [7u8; 16];
    let iv = [9u8; 16];
    let cases = [(0usize, 16usize), (1, 16), (15, 16), (16, 32), (17, 32), (31, 32), (32, 48)];
    for (n, expected) in cases {
        let m = vec![b'x'; n];
        let padded = pad(&m);
        assert_eq!(padded.len(), expected);
        let ct = encrypt_blocks(&[1u8; 32], &iv, &padded).unwrap();
        assert_eq!(ct.len(), expected);
    }
    let p = encrypt_with(&[b'x'; 16], b"k", &salt, &iv).unwrap();
    assert_eq!(fields(&p)[2].len(), 32);
}

#[test]
fn malformed_field_counts() {
    for payload in ["", "abcd", "00:11", "00:11:22:33", "::::"] {
        assert_eq!(decrypt(payload, b"pw"), Err(CipherError::MalformedPayload));
    }
}

#[test]
fn non_hex_field_is_an_encoding_error() {
    let good = "00".repeat(16);
    let payloads = [
        format!("zz{}:{}:{}", &good[2..], good, good),
        format!("{}:{}:0g", good, good),
        format!("{}:{}:abc", good, good),
    ];
    for payload in payloads.iter() {
        assert_eq!(decrypt(payload, b"pw"), Err(CipherError::Encoding));
    }
}

#[test]
fn short_salt_or_iv_is_an_invalid_length() {
    let sixteen = "00".repeat(16);
    let fifteen = "00".repeat(15);
    let ct = "00".repeat(16);
    let a = format!("{}:{}:{}", fifteen, sixteen, ct);
    let b = format!("{}:{}:{}", sixteen, "00".repeat(17), ct);
    assert_eq!(decrypt(&a, b"pw"), Err(CipherError::InvalidLength));
    assert_eq!(decrypt(&b, b"pw"), Err(CipherError::InvalidLength));
}

#[test]
fn partial_block_is_a_decryption_error() {
    let sixteen = "00".repeat(16);
    let payload = format!("{}:{}:{}", sixteen, sixteen, "00".repeat(15));
    assert_eq!(decrypt(&payload, b"pw"), Err(CipherError::Decryption));
    let empty_ct = format!("{}:{}:", sixteen, sixteen);
    assert_eq!(decrypt(&empty_ct, b"pw"), Err(CipherError::Decryption));
}

#[test]
fn invalid_text_is_a_text_decode_error() {
    let salt = [3u8; 16];
    let iv = [4u8; 16];
    let p = encrypt_with(&[0xff, 0xfe], b"pw", &salt, &iv).unwrap();
    assert_eq!(decrypt_bytes(p.as_bytes(), b"pw").unwrap(), vec![0xff, 0xfe]);
    assert_eq!(decrypt(&p, b"pw"), Err(CipherError::TextDecode));
}

#[test]
fn aes256_known_answer() {
    let key: Vec<u8> = (0u8..32).collect();
    let iv = [0u8; 16];
    let plain = [
        0x00, 0x11, 0x22, 0x33, 0x44, 0x55, 0x66, 0x77, 0x88, 0x99, 0xaa, 0xbb, 0xcc, 0xdd, 0xee,
        0xff,
    ];
    let expected = [
        0x8e, 0xa2, 0xb7, 0xca, 0x51, 0x67, 0x45, 0xbf, 0xea, 0xfc, 0x49, 0x90, 0x4b, 0x49, 0x60,
        0x89,
    ];
    let ct = encrypt_blocks(&key, &iv, &plain).unwrap();
    assert_eq!(ct, expected.to_vec());
    assert_eq!(decrypt_blocks(&key, &iv, &ct).unwrap(), plain.to_vec());
}

#[test]
fn cbc_chains_blocks() {
    let key = [5u8; 32];
    let iv = [6u8; 16];
    let plain = [0u8; 32];
    let ct = encrypt_blocks(&key, &iv, &plain).unwrap();
    assert_ne!(ct[..16], ct[16..]);
    assert_eq!(decrypt_blocks(&key, &iv, &ct).unwrap(), plain.to_vec());
    assert!(encrypt_blocks(&key[..31], &iv, &plain).is_none());
    assert!(decrypt_blocks(&key[..31], &iv, &ct).is_none());
}

#[test]
fn hex_encoding_is_lowercase() {
    let mut out = Vec::new();
    push_hex(&mut out, &[0x00, 0x0f, 0xa5, 0xff]);
    assert_eq!(out, b"000fa5ff".to_vec());
    assert_eq!(decode_hex(b"000FA5ff"), Some(vec![0x00, 0x0f, 0xa5, 0xff]));
    assert_eq!(decode_hex(b""), Some(vec![]));
    assert_eq!(decode_hex(b"abc"), None);
    assert_eq!(decode_hex(b"0x"), None);
}

#[test]
fn padding_values() {
    assert_eq!(pad(b""), vec![16u8; 16]);
    let mut expected = b"abc".to_vec();
    expected.extend(vec![13u8; 13]);
    assert_eq!(pad(b"abc"), expected);
    assert_eq!(unpad(&expected), Some(b"abc".to_vec()));
    assert_eq!(unpad(&[]), None);
    let mut bad = vec![1u8; 16];
    bad[15] = 0;
    assert_eq!(unpad(&bad), None);
    bad[15] = 17;
    assert_eq!(unpad(&bad), None);
    bad[15] = 3;
    bad[14] = 3;
    assert_eq!(unpad(&bad), None);
}

#[test]
fn payload_fields_split_and_join() {
    let joined = join_payload(&[0xab], &[0x01, 0x02], &[]);
    assert_eq!(joined, b"ab:0102:".to_vec());
    assert_eq!(
        split_payload(b"ab:0102:"),
        Some((b"ab".to_vec(), b"0102".to_vec(), Vec::new()))
    );
    assert_eq!(split_payload(b"a:b"), None);
    assert_eq!(split_payload(b"a:b:c:d"), None);
}

#[test]
fn fixed_payload_regression_vector() {
    let salt: Vec<u8> = (0u8..16).collect();
    let iv: Vec<u8> = (16u8..32).collect();
    let expected = [
        "000102030405060708090a0b0c0d0e0f",
        "101112131415161718191a1b1c1d1e1f",
        "4ec44d9d0f883840b683ee5c36501e0f",
    ]
    .join(":");
    let p = encrypt_with(b"abcdefg", b"123456", &salt, &iv).unwrap();
    assert_eq!(p, expected);
    assert_eq!(decrypt(&expected, b"123456").unwrap(), "abcdefg");
}
