//! Percent-encoding of cookie keys and values, per standard URI component
//! encoding: every byte outside the RFC 3986 unreserved set is written as
//! `%` followed by two uppercase hexadecimal digits.

use vstd::prelude::*;

verus! {

/// RFC 3986 unreserved bytes: ALPHA, DIGIT, `-`, `.`, `_`, `~`.
pub open spec fn is_unreserved(b: u8) -> bool {
    (48 <= b <= 57) || (65 <= b <= 90) || (97 <= b <= 122) || b == 45 || b == 46 || b == 95
        || b == 126
}

/// The uppercase hexadecimal digit for a value below 16, as an ASCII byte.
pub open spec fn hex_digit_upper(n: u8) -> u8 {
    if n < 10 {
        (48 + n) as u8
    } else {
        (55 + n) as u8
    }
}

/// Percent-encoding of a byte sequence.
pub open spec fn pct_encode(s: Seq<u8>) -> Seq<u8>
    decreases s.len(),
{
    if s.len() == 0 {
        Seq::<u8>::empty()
    } else {
        (if is_unreserved(s[0]) {
            seq![s[0]]
        } else {
            seq![37u8, hex_digit_upper(s[0] / 16), hex_digit_upper(s[0] % 16)]
        }) + pct_encode(s.drop_first())
    }
}

/// An ASCII hexadecimal digit, either case.
pub open spec fn is_hex(b: u8) -> bool {
    (48 <= b <= 57) || (65 <= b <= 70) || (97 <= b <= 102)
}

/// The value of an ASCII hexadecimal digit.
pub open spec fn hex_val(b: u8) -> u8
    recommends
        is_hex(b),
{
    if 48 <= b <= 57 {
        (b - 48) as u8
    } else if 65 <= b <= 70 {
        (b - 55) as u8
    } else {
        (b - 87) as u8
    }
}

/// Percent-decoding of a byte sequence. A `%` followed by two hexadecimal
/// digits becomes the byte they denote; any other byte, including a `%`
/// without a well-formed escape behind it, stands for itself.
pub open spec fn pct_decode(s: Seq<u8>) -> Seq<u8>
    decreases s.len(),
{
    if s.len() == 0 {
        Seq::<u8>::empty()
    } else if s[0] == 37 && s.len() >= 3 && is_hex(s[1]) && is_hex(s[2]) {
        seq![(hex_val(s[1]) * 16 + hex_val(s[2])) as u8] + pct_decode(s.skip(3))
    } else {
        seq![s[0]] + pct_decode(s.drop_first())
    }
}

/// The bytes percent-encoding can emit: unreserved bytes, `%`, and
/// uppercase hexadecimal digits.
pub open spec fn is_wire_byte(b: u8) -> bool {
    is_unreserved(b) || b == 37 || (65 <= b <= 70)
}

/// Encoded output never holds a separator, an equals sign, whitespace, or a
/// colon, and is all ASCII.
pub proof fn lemma_pct_encode_wire(s: Seq<u8>)
    ensures
        forall|i: int| 0 <= i < pct_encode(s).len() ==> is_wire_byte(#[trigger] pct_encode(s)[i]),
    decreases s.len(),
{
    if s.len() > 0 {
        lemma_pct_encode_wire(s.drop_first());
        let head: Seq<u8> = if is_unreserved(s[0]) {
            seq![s[0]]
        } else {
            seq![37u8, hex_digit_upper(s[0] / 16), hex_digit_upper(s[0] % 16)]
        };
        let tail = pct_encode(s.drop_first());
        assert(pct_encode(s) == head + tail);
        assert(forall|i: int| 0 <= i < head.len() ==> is_wire_byte(#[trigger] head[i]));
        assert forall|i: int| 0 <= i < pct_encode(s).len() implies is_wire_byte(
            #[trigger] pct_encode(s)[i],
        ) by {
            if i < head.len() {
                assert(pct_encode(s)[i] == head[i]);
            } else {
                assert(pct_encode(s)[i] == tail[i - head.len()]);
            }
        }
    }
}

/// Decoding a sequence without `%` leaves it unchanged and continues behind it.
pub proof fn lemma_pct_decode_plain(s: Seq<u8>, rest: Seq<u8>)
    requires
        forall|i: int| 0 <= i < s.len() ==> s[i] != 37,
    ensures
        pct_decode(s + rest) == s + pct_decode(rest),
    decreases s.len(),
{
    if s.len() == 0 {
        assert(s + rest =~= rest);
        assert(s + pct_decode(rest) =~= pct_decode(rest));
    } else {
        let t = s + rest;
        assert(t[0] == s[0]);
        assert(t[0] != 37);
        assert(t.drop_first() =~= s.drop_first() + rest);
        lemma_pct_decode_plain(s.drop_first(), rest);
        assert(pct_decode(s + rest) =~= s + pct_decode(rest));
    }
}

/// Decoding undoes encoding, and continues behind the encoded prefix.
pub proof fn lemma_pct_decode_encode(s: Seq<u8>, rest: Seq<u8>)
    ensures
        pct_decode(pct_encode(s) + rest) == s + pct_decode(rest),
    decreases s.len(),
{
    if s.len() == 0 {
        assert(pct_encode(s) + rest =~= rest);
        assert(s + pct_decode(rest) =~= pct_decode(rest));
    } else {
        let b = s[0];
        let tail = pct_encode(s.drop_first()) + rest;
        lemma_pct_decode_encode(s.drop_first(), rest);
        if is_unreserved(b) {
            let t = pct_encode(s) + rest;
            assert(t =~= seq![b] + tail);
            assert(t[0] == b && b != 37);
            assert(t.drop_first() =~= tail);
            assert(pct_decode(t) =~= s + pct_decode(rest));
        } else {
            let h1 = hex_digit_upper(b / 16);
            let h2 = hex_digit_upper(b % 16);
            let t = pct_encode(s) + rest;
            assert(t =~= seq![37u8, h1, h2] + tail);
            assert(t[0] == 37 && t.len() >= 3 && t[1] == h1 && t[2] == h2);
            assert(is_hex(h1) && is_hex(h2));
            assert(hex_val(h1) == b / 16 && hex_val(h2) == b % 16);
            assert((hex_val(h1) * 16 + hex_val(h2)) as u8 == b);
            assert(t.skip(3) =~= tail);
            assert(pct_decode(t) =~= s + pct_decode(rest));
        }
    }
}

/// Decoding exactly undoes encoding.
pub proof fn lemma_pct_round_trip(s: Seq<u8>)
    ensures
        pct_decode(pct_encode(s)) == s,
{
    lemma_pct_decode_encode(s, Seq::<u8>::empty());
    assert(pct_encode(s) + Seq::<u8>::empty() =~= pct_encode(s));
    assert(s + pct_decode(Seq::<u8>::empty()) =~= s);
}

fn hex_upper_exec(n: u8) -> (r: u8)
    requires
        n < 16,
    ensures
        r == hex_digit_upper(n),
{
    if n < 10 {
        48 + n
    } else {
        55 + n
    }
}

/// Percent-encode a byte sequence.
pub fn percent_encode(s: &[u8]) -> (r: Vec<u8>)
    ensures
        r@ == pct_encode(s@),
{
    let mut r: Vec<u8> = Vec::new();
    let n = s.len();
    proof {
        assert(s@.skip(0) =~= s@);
    }
    for i in 0..n
        invariant
            n == s@.len(),
            pct_encode(s@) =~= r@ + pct_encode(s@.skip(i as int)),
    {
        let b = s[i];
        proof {
            assert(s@.skip(i as int)[0] == s@[i as int]);
            assert(s@.skip(i as int).drop_first() =~= s@.skip(i + 1));
        }
        if is_unreserved_exec(b) {
            r.push(b);
        } else {
            r.push(37);
            r.push(hex_upper_exec(b / 16));
            r.push(hex_upper_exec(b % 16));
        }
    }
    proof {
        assert(s@.skip(n as int) =~= Seq::<u8>::empty());
    }
    r
}

fn is_unreserved_exec(b: u8) -> (r: bool)
    ensures
        r == is_unreserved(b),
{
    (48 <= b && b <= 57) || (65 <= b && b <= 90) || (97 <= b && b <= 122) || b == 45 || b == 46
        || b == 95 || b == 126
}

fn is_hex_exec(b: u8) -> (r: bool)
    ensures
        r == is_hex(b),
{
    (48 <= b && b <= 57) || (65 <= b && b <= 70) || (97 <= b && b <= 102)
}

fn hex_val_exec(b: u8) -> (r: u8)
    requires
        is_hex(b),
    ensures
        r == hex_val(b),
{
    if 48 <= b && b <= 57 {
        b - 48
    } else if 65 <= b && b <= 70 {
        b - 55
    } else {
        b - 87
    }
}

/// Percent-decode a byte sequence.
pub fn percent_decode(s: &[u8]) -> (r: Vec<u8>)
    ensures
        r@ == pct_decode(s@),
{
    let mut r: Vec<u8> = Vec::new();
    let n = s.len();
    let mut i: usize = 0;
    proof {
        assert(s@.skip(0) =~= s@);
    }
    while i < n
        invariant
            i <= n,
            n == s@.len(),
            pct_decode(s@) =~= r@ + pct_decode(s@.skip(i as int)),
        decreases n - i,
    {
        let ghost t = s@.skip(i as int);
        proof {
            assert(t[0] == s@[i as int]);
        }
        if s[i] == 37 && n - i >= 3 && is_hex_exec(s[i + 1]) && is_hex_exec(s[i + 2]) {
            proof {
                assert(t.len() >= 3);
                assert(t[1] == s@[i + 1] && t[2] == s@[i + 2]);
                assert(t.skip(3) =~= s@.skip(i + 3));
            }
            let v = hex_val_exec(s[i + 1]) * 16 + hex_val_exec(s[i + 2]);
            r.push(v);
            i = i + 3;
        } else {
            proof {
                if t[0] == 37 && t.len() >= 3 {
                    assert(t[1] == s@[i + 1] && t[2] == s@[i + 2]);
                }
                assert(t.drop_first() =~= s@.skip(i + 1));
            }
            r.push(s[i]);
            i = i + 1;
        }
    }
    proof {
        assert(s@.skip(n as int) =~= Seq::<u8>::empty());
    }
    r
}

} // verus!
