//! Lowercase hexadecimal encoding and its decoding.
use vstd::prelude::*;

verus! {

/// The lowercase ASCII digit for a nibble.
pub open spec fn hex_digit(n: u8) -> u8
    recommends
        n < 16,
{
    if n < 10 {
        (48 + n) as u8
    } else {
        (87 + n) as u8
    }
}

/// The value of an ASCII hex digit, either case.
pub open spec fn hex_value(c: u8) -> Option<u8> {
    if 48 <= c <= 57 {
        Some((c - 48) as u8)
    } else if 97 <= c <= 102 {
        Some((c - 87) as u8)
    } else if 65 <= c <= 70 {
        Some((c - 55) as u8)
    } else {
        None
    }
}

/// Two lowercase digits per byte, high nibble first.
pub open spec fn hex_encode(b: Seq<u8>) -> Seq<u8>
    decreases b.len(),
{
    if b.len() == 0 {
        Seq::empty()
    } else {
        let x = b.last();
        hex_encode(b.drop_last()) + seq![hex_digit(x / 16), hex_digit(x % 16)]
    }
}

/// The bytes that a hex text stands for; `None` for an odd length or a
/// character that is not a hex digit.
pub open spec fn hex_decode(s: Seq<u8>) -> Option<Seq<u8>>
    decreases s.len(),
{
    if s.len() == 0 {
        Some(Seq::empty())
    } else if s.len() == 1 {
        None
    } else {
        match (
            hex_decode(s.subrange(0, s.len() - 2)),
            hex_value(s[s.len() - 2]),
            hex_value(s[s.len() - 1]),
        ) {
            (Some(p), Some(h), Some(l)) => Some(p.push((h * 16 + l) as u8)),
            _ => None,
        }
    }
}

/// Every byte of the text is a lowercase hex digit.
pub open spec fn is_lower_hex(s: Seq<u8>) -> bool {
    forall|k: int| 0 <= k < s.len() ==> (48 <= #[trigger] s[k] <= 57 || 97 <= s[k] <= 102)
}

proof fn lemma_digit_value(n: u8)
    requires
        n < 16,
    ensures
        hex_value(hex_digit(n)) == Some(n),
        48 <= hex_digit(n) <= 57 || 97 <= hex_digit(n) <= 102,
{
}

/// Encoding gives twice as many characters, each a lowercase hex digit.
pub proof fn lemma_hex_encode_shape(b: Seq<u8>)
    ensures
        hex_encode(b).len() == 2 * b.len(),
        is_lower_hex(hex_encode(b)),
    decreases b.len(),
{
    if b.len() > 0 {
        let x = b.last();
        lemma_hex_encode_shape(b.drop_last());
        lemma_digit_value(x / 16);
        lemma_digit_value(x % 16);
        let e = hex_encode(b);
        assert forall|k: int| 0 <= k < e.len() implies (48 <= #[trigger] e[k] <= 57 || 97 <= e[k]
            <= 102) by {
            if k < e.len() - 2 {
                assert(e[k] == hex_encode(b.drop_last())[k]);
            }
        }
    }
}

/// Decoding what was encoded gives the bytes back.
pub proof fn lemma_hex_round_trip(b: Seq<u8>)
    ensures
        hex_decode(hex_encode(b)) == Some(b),
    decreases b.len(),
{
    if b.len() > 0 {
        let x = b.last();
        let e = hex_encode(b);
        lemma_hex_encode_shape(b.drop_last());
        lemma_hex_round_trip(b.drop_last());
        lemma_digit_value(x / 16);
        lemma_digit_value(x % 16);
        assert(e.subrange(0, e.len() - 2) =~= hex_encode(b.drop_last()));
        assert(e[e.len() - 2] == hex_digit(x / 16));
        assert(e[e.len() - 1] == hex_digit(x % 16));
        assert(((x / 16) * 16 + x % 16) as u8 == x);
        assert(b.drop_last().push(x) =~= b);
    }
}

fn digit_of(n: u8) -> (c: u8)
    requires
        n < 16,
    ensures
        c == hex_digit(n),
{
    if n < 10 {
        48 + n
    } else {
        87 + n
    }
}

fn value_of(c: u8) -> (r: Option<u8>)
    ensures
        r == hex_value(c),
{
    if 48 <= c && c <= 57 {
        Some(c - 48)
    } else if 97 <= c && c <= 102 {
        Some(c - 87)
    } else if 65 <= c && c <= 70 {
        Some(c - 55)
    } else {
        None
    }
}

/// Appends the lowercase hex text of `b` to `out`.
pub fn push_hex(out: &mut Vec<u8>, b: &[u8])
    requires
        old(out)@.len() + 2 * b@.len() <= usize::MAX,
    ensures
        final(out)@ == old(out)@ + hex_encode(b@),
{
    let ghost start = out@;
    let mut i: usize = 0;
    while i < b.len()
        invariant
            i <= b@.len(),
            out@ == start + hex_encode(b@.subrange(0, i as int)),
        decreases b@.len() - i,
    {
        let x = b[i];
        out.push(digit_of(x / 16));
        out.push(digit_of(x % 16));
        proof {
            let p = b@.subrange(0, i as int + 1);
            assert(p.drop_last() =~= b@.subrange(0, i as int));
            assert(p.last() == x);
        }
        i = i + 1;
    }
    assert(b@.subrange(0, b@.len() as int) =~= b@);
}

/// The bytes that the hex text `s` stands for, either case of digit.
pub fn decode_hex(s: &[u8]) -> (r: Option<Vec<u8>>)
    ensures
        match r {
            Some(v) => hex_decode(s@) == Some(v@),
            None => hex_decode(s@) is None,
        },
{
    if s.len() % 2 != 0 {
        proof { lemma_odd_length_fails(s@); }
        return None;
    }
    let mut out: Vec<u8> = Vec::new();
    let mut i: usize = 0;
    while i < s.len()
        invariant
            i <= s@.len(),
            i % 2 == 0,
            s@.len() % 2 == 0,
            hex_decode(s@.subrange(0, i as int)) == Some(out@),
        decreases s@.len() - i,
    {
        let h = value_of(s[i]);
        let l = value_of(s[i + 1]);
        let ghost p = s@.subrange(0, i as int + 2);
        proof {
            assert(p.subrange(0, p.len() - 2) =~= s@.subrange(0, i as int));
            assert(p[p.len() - 2] == s@[i as int]);
            assert(p[p.len() - 1] == s@[i + 1]);
        }
        match (h, l) {
            (Some(hv), Some(lv)) => {
                out.push(hv * 16 + lv);
            },
            _ => {
                proof { lemma_prefix_failure_persists(s@, i as int + 2); }
                return None;
            },
        }
        i = i + 2;
    }
    assert(s@.subrange(0, s@.len() as int) =~= s@);
    Some(out)
}

proof fn lemma_odd_length_fails(s: Seq<u8>)
    requires
        s.len() % 2 == 1,
    ensures
        hex_decode(s) is None,
    decreases s.len(),
{
    if s.len() > 1 {
        lemma_odd_length_fails(s.subrange(0, s.len() - 2));
    }
}

/// Once an even-length prefix fails to decode, so does every longer text.
proof fn lemma_prefix_failure_persists(s: Seq<u8>, n: int)
    requires
        0 <= n <= s.len(),
        n % 2 == 0,
        s.len() % 2 == 0,
        hex_decode(s.subrange(0, n)) is None,
    ensures
        hex_decode(s) is None,
    decreases s.len() - n,
{
    if n < s.len() {
        let q = s.subrange(0, n + 2);
        assert(q.subrange(0, q.len() - 2) =~= s.subrange(0, n));
        lemma_prefix_failure_persists(s, n + 2);
    } else {
        assert(s.subrange(0, n) =~= s);
    }
}

} // verus!
