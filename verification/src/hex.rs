//! Hex coding of content hashes. A node hash travels in the manifest as
//! its fixed-width hex text form; decoding accepts either letter case,
//! encoding always emits lowercase.

use vstd::prelude::*;

verus! {

/// Whether `c` is an ASCII hex digit.
pub open spec fn is_hex_digit(c: u8) -> bool {
    (48 <= c <= 57) || (97 <= c <= 102) || (65 <= c <= 70)
}

/// Numeric value of a hex digit.
pub open spec fn hex_val(c: u8) -> u8
    recommends
        is_hex_digit(c),
{
    if 48 <= c <= 57 {
        (c - 48) as u8
    } else if 97 <= c <= 102 {
        (c - 97 + 10) as u8
    } else if 65 <= c <= 70 {
        (c - 65 + 10) as u8
    } else {
        0
    }
}

/// Lowercase hex digit for a value below 16.
pub open spec fn hex_digit_lower(n: u8) -> u8
    recommends
        n < 16,
{
    if n < 10 {
        (n + 48) as u8
    } else {
        (n - 10 + 97) as u8
    }
}

/// Whether `s` can be decoded: an even count of hex digits.
pub open spec fn valid_hex(s: Seq<u8>) -> bool {
    s.len() % 2 == 0 && forall|i: int| 0 <= i < s.len() ==> is_hex_digit(s[i])
}

/// Bytes denoted by a hex digit sequence, two digits per byte.
pub open spec fn decode_hex(s: Seq<u8>) -> Seq<u8>
    recommends
        valid_hex(s),
    decreases s.len(),
{
    if s.len() < 2 {
        Seq::empty()
    } else {
        seq![(16 * hex_val(s[0]) + hex_val(s[1])) as u8] + decode_hex(s.skip(2))
    }
}

/// Lowercase hex text for a byte sequence, two digits per byte.
pub open spec fn encode_hex(h: Seq<u8>) -> Seq<u8>
    decreases h.len(),
{
    if h.len() == 0 {
        Seq::empty()
    } else {
        seq![hex_digit_lower(h[0] / 16), hex_digit_lower(h[0] % 16)] + encode_hex(h.drop_first())
    }
}

/// Decoding halves the length.
pub proof fn lemma_decode_hex_len(s: Seq<u8>)
    ensures
        decode_hex(s).len() == s.len() / 2,
    decreases s.len(),
{
    if s.len() >= 2 {
        lemma_decode_hex_len(s.skip(2));
    }
}

/// Encoding doubles the length and yields valid (lowercase) hex digits.
pub proof fn lemma_encode_hex_valid(h: Seq<u8>)
    ensures
        encode_hex(h).len() == 2 * h.len(),
        valid_hex(encode_hex(h)),
    decreases h.len(),
{
    if h.len() != 0 {
        lemma_encode_hex_valid(h.drop_first());
    }
}

/// Decoding inverts encoding: the hex text of a byte sequence decodes
/// back to the same bytes.
pub proof fn lemma_decode_encode_hex(h: Seq<u8>)
    ensures
        decode_hex(encode_hex(h)) == h,
    decreases h.len(),
{
    if h.len() == 0 {
        assert(decode_hex(encode_hex(h)) =~= h);
    } else {
        lemma_decode_encode_hex(h.drop_first());
        let e = encode_hex(h);
        assert(e.skip(2) =~= encode_hex(h.drop_first()));
        assert(16 * hex_val(e[0]) + hex_val(e[1]) == h[0]);
        assert(decode_hex(e) =~= h);
    }
}

/// Decode a hex digit byte, if it is one.
fn hex_digit_value(c: u8) -> (r: Option<u8>)
    ensures
        r.is_some() <==> is_hex_digit(c),
        r.is_some() ==> r->Some_0 == hex_val(c) && r->Some_0 < 16,
{
    if 48 <= c && c <= 57 {
        Some(c - 48)
    } else if 97 <= c && c <= 102 {
        Some(c - 97 + 10)
    } else if 65 <= c && c <= 70 {
        Some(c - 65 + 10)
    } else {
        None
    }
}

/// Decode an even-length hex digit string into the bytes it denotes.
pub fn decode_hex_bytes(s: &[u8]) -> (r: Option<Vec<u8>>)
    ensures
        r.is_some() <==> valid_hex(s@),
        r.is_some() ==> r->Some_0@ == decode_hex(s@),
{
    if s.len() % 2 != 0 {
        return None;
    }
    let mut out: Vec<u8> = Vec::new();
    let mut i: usize = 0;
    proof {
        assert(s@.skip(0) =~= s@);
    }
    while i < s.len()
        invariant
            i <= s@.len(),
            i % 2 == 0,
            s@.len() % 2 == 0,
            forall|j: int| 0 <= j < i ==> is_hex_digit(s@[j]),
            valid_hex(s@) ==> decode_hex(s@) == out@ + decode_hex(s@.skip(i as int)),
            !valid_hex(s@.skip(i as int)) ==> !valid_hex(s@),
            out@.len() == i / 2,
        decreases s@.len() - i,
    {
        let hi = match hex_digit_value(s[i]) {
            Some(v) => v,
            None => {
                proof {
                    assert(!is_hex_digit(s@[i as int]));
                }
                return None;
            },
        };
        let lo = match hex_digit_value(s[i + 1]) {
            Some(v) => v,
            None => {
                proof {
                    assert(!is_hex_digit(s@[i as int + 1]));
                }
                return None;
            },
        };
        proof {
            let t = s@.skip(i as int);
            assert(t[0] == s@[i as int]);
            assert(t[1] == s@[i as int + 1]);
            assert(t.skip(2) =~= s@.skip(i as int + 2));
        }
        out.push(16 * hi + lo);
        i = i + 2;
    }
    proof {
        assert(s@.skip(i as int).len() == 0);
        assert(valid_hex(s@.skip(i as int)));
        assert(valid_hex(s@));
        assert(decode_hex(s@.skip(i as int)) =~= Seq::<u8>::empty());
        assert(out@ + decode_hex(s@.skip(i as int)) =~= out@);
    }
    Some(out)
}

/// Encode bytes as lowercase hex text.
pub fn encode_hex_bytes(h: &[u8]) -> (r: Vec<u8>)
    ensures
        r@ == encode_hex(h@),
{
    let mut out: Vec<u8> = Vec::new();
    let mut i: usize = 0;
    proof {
        assert(h@.skip(0) =~= h@);
    }
    while i < h.len()
        invariant
            i <= h@.len(),
            encode_hex(h@) == out@ + encode_hex(h@.skip(i as int)),
        decreases h@.len() - i,
    {
        let b = h[i];
        proof {
            let t = h@.skip(i as int);
            assert(t[0] == h@[i as int]);
            assert(t.drop_first() =~= h@.skip(i as int + 1));
        }
        let hi = b / 16;
        let lo = b % 16;
        if hi < 10 {
            out.push(hi + 48);
        } else {
            out.push(hi - 10 + 97);
        }
        if lo < 10 {
            out.push(lo + 48);
        } else {
            out.push(lo - 10 + 97);
        }
        i = i + 1;
    }
    proof {
        assert(h@.skip(i as int).len() == 0);
        assert(encode_hex(h@.skip(i as int)) =~= Seq::<u8>::empty());
        assert(out@ + encode_hex(h@.skip(i as int)) =~= out@);
    }
    out
}

} // verus!
