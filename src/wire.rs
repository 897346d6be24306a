//! The `salt:iv:ciphertext` payload: its fields and how they are joined.
use vstd::prelude::*;
use crate::hex::{hex_encode, is_lower_hex, lemma_hex_encode_shape, push_hex};

verus! {

/// The field separator, `:`.
pub const SEPARATOR: u8 = 58;

/// The text cut at every separator; always at least one field.
pub open spec fn split_fields(s: Seq<u8>) -> Seq<Seq<u8>>
    decreases s.len(),
{
    if s.len() == 0 {
        seq![Seq::empty()]
    } else {
        let p = split_fields(s.drop_last());
        if s.last() == SEPARATOR {
            p.push(Seq::empty())
        } else {
            p.update(p.len() - 1, p.last().push(s.last()))
        }
    }
}

/// The payload text for a salt, an IV and a ciphertext.
pub open spec fn join_fields(salt: Seq<u8>, iv: Seq<u8>, ct: Seq<u8>) -> Seq<u8> {
    hex_encode(salt) + seq![SEPARATOR] + hex_encode(iv) + seq![SEPARATOR] + hex_encode(ct)
}

pub open spec fn has_no_separator(s: Seq<u8>) -> bool {
    forall|k: int| 0 <= k < s.len() ==> #[trigger] s[k] != SEPARATOR
}

proof fn lemma_split_len_positive(s: Seq<u8>)
    ensures
        split_fields(s).len() >= 1,
    decreases s.len(),
{
    if s.len() > 0 {
        lemma_split_len_positive(s.drop_last());
    }
}

proof fn lemma_split_extend(p: Seq<u8>, y: Seq<u8>)
    requires
        has_no_separator(y),
    ensures
        split_fields(p + y) == split_fields(p).update(
            split_fields(p).len() - 1,
            split_fields(p).last() + y,
        ),
    decreases y.len(),
{
    lemma_split_len_positive(p);
    if y.len() == 0 {
        assert(p + y =~= p);
        assert(split_fields(p).last() + y =~= split_fields(p).last());
        assert(split_fields(p).update(split_fields(p).len() - 1, split_fields(p).last())
            =~= split_fields(p));
    } else {
        let y0 = y.drop_last();
        assert((p + y).drop_last() =~= p + y0);
        assert((p + y).last() == y.last());
        assert(y.last() == y[y.len() - 1]);
        lemma_split_extend(p, y0);
        assert(split_fields(p).last() + y0 + seq![y.last()] =~= split_fields(p).last() + y);
        assert((split_fields(p).last() + y0).push(y.last()) =~= split_fields(p).last() + y);
    }
}

proof fn lemma_split_separator(p: Seq<u8>)
    ensures
        split_fields(p + seq![SEPARATOR]) == split_fields(p).push(Seq::empty()),
{
    assert((p + seq![SEPARATOR]).drop_last() =~= p);
}

/// The fields of a joined payload are the three hex texts.
pub proof fn lemma_split_join(salt: Seq<u8>, iv: Seq<u8>, ct: Seq<u8>)
    ensures
        split_fields(join_fields(salt, iv, ct)) == seq![
            hex_encode(salt),
            hex_encode(iv),
            hex_encode(ct),
        ],
{
    let (a, b, c) = (hex_encode(salt), hex_encode(iv), hex_encode(ct));
    lemma_hex_encode_shape(salt);
    lemma_hex_encode_shape(iv);
    lemma_hex_encode_shape(ct);
    assert(has_no_separator(a) && has_no_separator(b) && has_no_separator(c)) by {
        assert(is_lower_hex(a) && is_lower_hex(b) && is_lower_hex(c));
    }
    let e = Seq::<u8>::empty();
    lemma_split_extend(e, a);
    assert(e + a =~= a);
    assert(split_fields(a) =~= seq![a]) by {
        assert(e + a =~= a);
        assert(seq![Seq::<u8>::empty()].update(0, e + a) =~= seq![a]);
    }
    let s1 = a + seq![SEPARATOR];
    lemma_split_separator(a);
    lemma_split_extend(s1, b);
    assert(split_fields(s1 + b) =~= seq![a, b]);
    let s2 = s1 + b + seq![SEPARATOR];
    lemma_split_separator(s1 + b);
    lemma_split_extend(s2, c);
    assert(split_fields(s2 + c) =~= seq![a, b, c]);
    assert(join_fields(salt, iv, ct) =~= s2 + c);
}

/// Writes the payload text for a salt, an IV and a ciphertext.
pub fn join_payload(salt: &[u8], iv: &[u8], ct: &[u8]) -> (r: Vec<u8>)
    requires
        2 * (salt@.len() + iv@.len() + ct@.len()) + 2 <= usize::MAX,
    ensures
        r@ == join_fields(salt@, iv@, ct@),
{
    proof {
        lemma_hex_encode_shape(salt@);
        lemma_hex_encode_shape(iv@);
    }
    let mut out: Vec<u8> = Vec::new();
    push_hex(&mut out, salt);
    out.push(SEPARATOR);
    push_hex(&mut out, iv);
    out.push(SEPARATOR);
    push_hex(&mut out, ct);
    assert(out@ =~= join_fields(salt@, iv@, ct@));
    out
}

/// The three fields of a payload, or `None` when it does not hold exactly
/// two separators.
pub fn split_payload(s: &[u8]) -> (r: Option<(Vec<u8>, Vec<u8>, Vec<u8>)>)
    ensures
        match r {
            Some((a, b, c)) => split_fields(s@) == seq![a@, b@, c@],
            None => split_fields(s@).len() != 3,
        },
{
    let mut done: Vec<Vec<u8>> = Vec::new();
    let mut cur: Vec<u8> = Vec::new();
    let ghost mut g: Seq<Seq<u8>> = Seq::empty();
    let mut i: usize = 0;
    while i < s.len()
        invariant
            i <= s@.len(),
            done@.len() == g.len(),
            forall|k: int| 0 <= k < g.len() ==> (#[trigger] done@[k])@ == g[k],
            split_fields(s@.subrange(0, i as int)) == g.push(cur@),
        decreases s@.len() - i,
    {
        let x = s[i];
        let ghost before = g.push(cur@);
        proof {
            let p = s@.subrange(0, i as int + 1);
            assert(p.drop_last() =~= s@.subrange(0, i as int));
            assert(p.last() == x);
        }
        if x == SEPARATOR {
            let ghost old_cur = cur@;
            done.push(cur);
            cur = Vec::new();
            proof {
                g = g.push(old_cur);
                assert(before.push(Seq::empty()) =~= g.push(cur@));
            }
        } else {
            cur.push(x);
            proof {
                assert(before.update(before.len() - 1, before.last().push(x)) =~= g.push(cur@));
            }
        }
        i = i + 1;
    }
    assert(s@.subrange(0, s@.len() as int) =~= s@);
    if done.len() != 2 {
        return None;
    }
    let c = cur;
    let b = done.pop().unwrap();
    let a = done.pop().unwrap();
    assert(g.push(c@) =~= seq![a@, b@, c@]);
    Some((a, b, c))
}

} // verus!
