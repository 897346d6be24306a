//! Cipher-block chaining over AES-256.
use vstd::prelude::*;
use crate::padding::BLOCK_LEN;
use crate::primitives::{
    aes256_decrypt_block, aes256_encrypt_block, decrypt_block, encrypt_block,
};

verus! {

/// Bytewise exclusive or of two blocks.
pub open spec fn xor_block(a: Seq<u8>, b: Seq<u8>) -> Seq<u8> {
    Seq::new(a.len(), |k: int| a[k] ^ b[k])
}

/// The block that the next one is chained to: the IV at the start, then the
/// last ciphertext block.
pub open spec fn chain_block(iv: Seq<u8>, done: Seq<u8>) -> Seq<u8> {
    if done.len() == 0 {
        iv
    } else {
        done.subrange(done.len() - 16, done.len() as int)
    }
}

/// CBC encryption of whole 16-byte blocks.
pub open spec fn cbc_encrypt(key: Seq<u8>, iv: Seq<u8>, p: Seq<u8>) -> Seq<u8>
    decreases p.len(),
{
    if p.len() < 16 {
        Seq::empty()
    } else {
        let prev = cbc_encrypt(key, iv, p.subrange(0, p.len() - 16));
        prev + aes256_encrypt_block(
            key,
            xor_block(p.subrange(p.len() - 16, p.len() as int), chain_block(iv, prev)),
        )
    }
}

/// CBC decryption of whole 16-byte blocks.
pub open spec fn cbc_decrypt(key: Seq<u8>, iv: Seq<u8>, c: Seq<u8>) -> Seq<u8>
    decreases c.len(),
{
    if c.len() < 16 {
        Seq::empty()
    } else {
        let q = c.subrange(0, c.len() - 16);
        cbc_decrypt(key, iv, q) + xor_block(
            aes256_decrypt_block(key, c.subrange(c.len() - 16, c.len() as int)),
            chain_block(iv, q),
        )
    }
}

proof fn lemma_xor_twice(a: Seq<u8>, b: Seq<u8>)
    requires
        a.len() == b.len(),
    ensures
        xor_block(xor_block(a, b), b) == a,
{
    assert forall|k: int| 0 <= k < a.len() implies #[trigger] xor_block(xor_block(a, b), b)[k]
        == a[k] by {
        let (x, y) = (a[k], b[k]);
        assert((x ^ y) ^ y == x) by (bit_vector);
    }
    assert(xor_block(xor_block(a, b), b) =~= a);
}

/// Copies `len` bytes of `s` from `start`.
fn copy_range(s: &[u8], start: usize, len: usize) -> (r: Vec<u8>)
    requires
        start + len <= s@.len(),
    ensures
        r@ == s@.subrange(start as int, start + len),
{
    let mut out: Vec<u8> = Vec::new();
    let mut i: usize = 0;
    while i < len
        invariant
            i <= len,
            start + len <= s.len(),
            out@ == s@.subrange(start as int, start + i),
        decreases len - i,
    {
        out.push(s[start + i]);
        i = i + 1;
        assert(out@ =~= s@.subrange(start as int, start + i));
    }
    out
}

/// The exclusive or of the 16 bytes of `s` from `start` with `b`.
fn xor_range(s: &[u8], start: usize, b: &[u8]) -> (r: Vec<u8>)
    requires
        start + 16 <= s@.len(),
        b@.len() == 16,
    ensures
        r@ == xor_block(s@.subrange(start as int, start + 16), b@),
{
    let mut out: Vec<u8> = Vec::new();
    let mut i: usize = 0;
    while i < 16
        invariant
            i <= 16,
            start + 16 <= s.len(),
            b@.len() == 16,
            out@ == xor_block(s@.subrange(start as int, start + i), b@.subrange(0, i as int)),
        decreases 16 - i,
    {
        out.push(s[start + i] ^ b[i]);
        i = i + 1;
        assert(out@ =~= xor_block(
            s@.subrange(start as int, start + i),
            b@.subrange(0, i as int),
        ));
    }
    assert(out@ =~= xor_block(s@.subrange(start as int, start + 16), b@));
    out
}

/// Encrypts whole blocks in CBC mode; `None` exactly when the key is not
/// 32 bytes long. The result has the input's length and decrypts back to it.
pub fn encrypt_blocks(key: &[u8], iv: &[u8], p: &[u8]) -> (r: Option<Vec<u8>>)
    requires
        iv@.len() == BLOCK_LEN,
        p@.len() % 16 == 0,
    ensures
        r is Some <==> key@.len() == 32,
        r matches Some(c) ==> c@ == cbc_encrypt(key@, iv@, p@),
        r matches Some(c) ==> c@.len() == p@.len(),
        r matches Some(c) ==> cbc_decrypt(key@, iv@, c@) == p@,
{
    if key.len() != 32 {
        return None;
    }
    let mut out: Vec<u8> = Vec::new();
    let mut chain: Vec<u8> = copy_range(iv, 0, 16);
    assert(chain@ =~= iv@);
    let mut i: usize = 0;
    while i < p.len()
        invariant
            key@.len() == 32,
            iv@.len() == 16,
            p@.len() % 16 == 0,
            i <= p@.len(),
            i % 16 == 0,
            out@.len() == i,
            out@ == cbc_encrypt(key@, iv@, p@.subrange(0, i as int)),
            cbc_decrypt(key@, iv@, out@) == p@.subrange(0, i as int),
            chain@ == chain_block(iv@, out@),
            chain@.len() == 16,
        decreases p@.len() - i,
    {
        let x = xor_range(p, i, chain.as_slice());
        let c = match encrypt_block(key, x.as_slice()) {
            Some(c) => c,
            None => { return None; },
        };
        let ghost before = out@;
        let ghost blk = p@.subrange(i as int, i + 16);
        let mut j: usize = 0;
        while j < 16
            invariant
                j <= 16,
                c@.len() == 16,
                out@ == before + c@.subrange(0, j as int),
            decreases 16 - j,
        {
            out.push(c[j]);
            j = j + 1;
            assert(out@ =~= before + c@.subrange(0, j as int));
        }
        proof {
            assert(c@.subrange(0, 16) =~= c@);
            let q = p@.subrange(0, i + 16);
            assert(q.subrange(0, q.len() - 16) =~= p@.subrange(0, i as int));
            assert(q.subrange(q.len() - 16, q.len() as int) =~= blk);
            assert(out@.subrange(0, out@.len() - 16) =~= before);
            assert(out@.subrange(out@.len() - 16, out@.len() as int) =~= c@);
            lemma_xor_twice(blk, chain@);
            assert(p@.subrange(0, i as int) + blk =~= q);
        }
        chain = c;
        i = i + 16;
    }
    assert(p@.subrange(0, p@.len() as int) =~= p@);
    Some(out)
}

/// Decrypts whole blocks in CBC mode; `None` exactly when the key is not
/// 32 bytes long.
pub fn decrypt_blocks(key: &[u8], iv: &[u8], c: &[u8]) -> (r: Option<Vec<u8>>)
    requires
        iv@.len() == BLOCK_LEN,
        c@.len() % 16 == 0,
    ensures
        r is Some <==> key@.len() == 32,
        r matches Some(p) ==> p@ == cbc_decrypt(key@, iv@, c@),
{
    if key.len() != 32 {
        return None;
    }
    let mut out: Vec<u8> = Vec::new();
    let mut chain: Vec<u8> = copy_range(iv, 0, 16);
    assert(chain@ =~= iv@);
    let mut i: usize = 0;
    while i < c.len()
        invariant
            key@.len() == 32,
            iv@.len() == 16,
            c@.len() % 16 == 0,
            i <= c@.len(),
            i % 16 == 0,
            out@ == cbc_decrypt(key@, iv@, c@.subrange(0, i as int)),
            chain@ == chain_block(iv@, c@.subrange(0, i as int)),
            chain@.len() == 16,
        decreases c@.len() - i,
    {
        let blk = copy_range(c, i, 16);
        let d = match decrypt_block(key, blk.as_slice()) {
            Some(d) => d,
            None => { return None; },
        };
        let x = xor_range(d.as_slice(), 0, chain.as_slice());
        let ghost before = out@;
        let mut j: usize = 0;
        while j < 16
            invariant
                j <= 16,
                x@.len() == 16,
                out@ == before + x@.subrange(0, j as int),
            decreases 16 - j,
        {
            out.push(x[j]);
            j = j + 1;
            assert(out@ =~= before + x@.subrange(0, j as int));
        }
        proof {
            assert(x@.subrange(0, 16) =~= x@);
            assert(d@.subrange(0, 16) =~= d@);
            let q = c@.subrange(0, i + 16);
            assert(q.subrange(0, q.len() - 16) =~= c@.subrange(0, i as int));
            assert(q.subrange(q.len() - 16, q.len() as int) =~= blk@);
        }
        chain = blk;
        i = i + 16;
    }
    assert(c@.subrange(0, c@.len() as int) =~= c@);
    Some(out)
}

} // verus!
