//! PKCS#7 padding to the 16-byte block size.
use vstd::prelude::*;

verus! {

/// The cipher's block size in bytes.
pub const BLOCK_LEN: usize = 16;

/// How many padding bytes follow a message of `n` bytes: 1 to 16.
pub open spec fn pad_len(n: nat) -> nat {
    (16 - n % 16) as nat
}

/// The message followed by `pad_len` bytes, each holding that count.
pub open spec fn pkcs7_pad(m: Seq<u8>) -> Seq<u8> {
    m + Seq::new(pad_len(m.len()), |k: int| pad_len(m.len()) as u8)
}

/// The message without its padding, or `None` where the last byte is not a
/// count from 1 to 16 that the bytes before it repeat.
pub open spec fn pkcs7_unpad(p: Seq<u8>) -> Option<Seq<u8>> {
    if p.len() == 0 {
        None
    } else {
        let v = p.last();
        if 1 <= v <= 16 && v <= p.len() && (forall|k: int|
            p.len() - v <= k < p.len() ==> #[trigger] p[k] == v) {
            Some(p.subrange(0, p.len() - v))
        } else {
            None
        }
    }
}

/// A padded message of `n` bytes is `16 * floor(n / 16) + 16` bytes long.
pub proof fn lemma_padded_len(m: Seq<u8>)
    ensures
        pkcs7_pad(m).len() == 16 * (m.len() / 16) + 16,
        pkcs7_pad(m).len() % 16 == 0,
        m.len() < pkcs7_pad(m).len() <= m.len() + 16,
{
    let n = m.len();
    assert(n == 16 * (n / 16) + n % 16) by (nonlinear_arith);
    assert((16 * (n / 16) + 16) % 16 == 0) by (nonlinear_arith);
}

/// Removing the padding gives the message back.
pub proof fn lemma_unpad_pad(m: Seq<u8>)
    ensures
        pkcs7_unpad(pkcs7_pad(m)) == Some(m),
{
    lemma_padded_len(m);
    let p = pkcs7_pad(m);
    let v = pad_len(m.len());
    assert(p.last() == v as u8);
    assert(p.subrange(0, p.len() - v) =~= m);
}

/// The message with its padding.
pub fn pad(m: &[u8]) -> (r: Vec<u8>)
    requires
        m@.len() + BLOCK_LEN <= usize::MAX,
    ensures
        r@ == pkcs7_pad(m@),
{
    let mut out: Vec<u8> = Vec::new();
    let mut i: usize = 0;
    while i < m.len()
        invariant
            i <= m@.len(),
            out@ == m@.subrange(0, i as int),
        decreases m@.len() - i,
    {
        out.push(m[i]);
        i = i + 1;
    }
    let v: u8 = (BLOCK_LEN - m.len() % BLOCK_LEN) as u8;
    let mut j: u8 = 0;
    while j < v
        invariant
            v as nat == pad_len(m@.len()),
            j <= v,
            out@ == m@ + Seq::new(j as nat, |k: int| v),
        decreases v - j,
    {
        out.push(v);
        j = j + 1;
        assert(out@ =~= m@ + Seq::new(j as nat, |k: int| v));
    }
    assert(out@ =~= pkcs7_pad(m@));
    out
}

/// The message without its padding, or `None` where the padding is invalid.
pub fn unpad(p: &[u8]) -> (r: Option<Vec<u8>>)
    ensures
        match r {
            Some(m) => pkcs7_unpad(p@) == Some(m@),
            None => pkcs7_unpad(p@) is None,
        },
{
    let n = p.len();
    if n == 0 {
        return None;
    }
    let v = p[n - 1];
    if v < 1 || v > 16 || (v as usize) > n {
        return None;
    }
    let start = n - v as usize;
    let mut k: usize = start;
    while k < n
        invariant
            start <= k <= n,
            n == p@.len(),
            start == n - v,
            p@.last() == v,
            1 <= v <= 16,
            forall|t: int| start <= t < k ==> #[trigger] p@[t] == v,
        decreases n - k,
    {
        if p[k] != v {
            assert(p@[k as int] != v);
            return None;
        }
        k = k + 1;
    }
    let mut out: Vec<u8> = Vec::new();
    let mut i: usize = 0;
    while i < start
        invariant
            i <= start <= n,
            n == p@.len(),
            out@ == p@.subrange(0, i as int),
            start == n - v,
            p@.last() == v,
            1 <= v <= 16,
            forall|t: int| start <= t < n ==> #[trigger] p@[t] == v,
        decreases start - i,
    {
        out.push(p[i]);
        i = i + 1;
    }
    Some(out)
}

} // verus!
