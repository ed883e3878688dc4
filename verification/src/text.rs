//! Byte-level helpers shared by the codec: the bridge between byte
//! sequences and strings, lowercase hexadecimal rendering, and scanning a
//! byte sequence for separator bytes.

use vstd::prelude::*;
use vstd::string::StringSliceAdditionalSpecFns;
use vstd::utf8::*;

verus! {

/// The characters of an all-ASCII byte sequence, one character per byte.
pub open spec fn chars_of_bytes(s: Seq<u8>) -> Seq<char> {
    Seq::new(s.len(), |i: int| s[i] as char)
}

/// Every byte is ASCII (below 0x80).
pub open spec fn all_ascii(s: Seq<u8>) -> bool {
    forall|i: int| 0 <= i < s.len() ==> s[i] < 128
}

/// An all-ASCII byte sequence is the UTF-8 encoding of its own characters.
pub proof fn lemma_ascii_bytes_chars(s: Seq<u8>)
    requires
        all_ascii(s),
    ensures
        is_ascii_chars(chars_of_bytes(s)),
        encode_utf8(chars_of_bytes(s)) =~= s,
{
    let cs = chars_of_bytes(s);
    assert forall|i: int| 0 <= i < cs.len() implies '\0' <= #[trigger] cs[i] <= '\u{7f}' by {
        assert(s[i] < 128);
    }
    assert(is_ascii_chars(cs));
    is_ascii_chars_encode_utf8(cs);
    assert(encode_utf8(cs) =~= s);
}

/// An all-ASCII byte sequence is valid UTF-8 and decodes to its own
/// characters.
pub proof fn lemma_ascii_valid_utf8(s: Seq<u8>)
    requires
        all_ascii(s),
    ensures
        valid_utf8(s),
        decode_utf8(s) == chars_of_bytes(s),
{
    let cs = chars_of_bytes(s);
    lemma_ascii_bytes_chars(s);
    encode_utf8_valid_utf8(cs);
    encode_utf8_decode_utf8(cs);
}

/// How decoded cookie bytes become a `String`: valid UTF-8 decodes exactly,
/// and anything else falls back to the empty string.
pub open spec fn lossy_chars(b: Seq<u8>) -> Seq<char> {
    if valid_utf8(b) {
        decode_utf8(b)
    } else {
        Seq::<char>::empty()
    }
}

/// Relies on `String::from_utf8`: it accepts exactly the valid UTF-8 byte
/// sequences and decodes them. A rejected sequence becomes the empty string.
#[verifier::external_body]
pub fn utf8_or_empty(b: Vec<u8>) -> (r: String)
    ensures
        r@ == lossy_chars(b@),
{
    match String::from_utf8(b) {
        Ok(s) => s,
        Err(_) => String::new(),
    }
}

/// Materialize a valid UTF-8 byte sequence as a `String`.
pub fn bytes_to_string(b: Vec<u8>) -> (r: String)
    requires
        valid_utf8(b@),
    ensures
        r@ == decode_utf8(b@),
        encode_utf8(r@) == b@,
{
    let ghost bs = b@;
    let r = utf8_or_empty(b);
    proof {
        decode_utf8_encode_utf8(bs);
    }
    r
}

/// UTF-8 encoding distributes over concatenation.
pub proof fn lemma_encode_utf8_concat(a: Seq<char>, b: Seq<char>)
    ensures
        encode_utf8(a + b) == encode_utf8(a) + encode_utf8(b),
    decreases a.len(),
{
    if a.len() == 0 {
        assert(a + b =~= b);
        assert(encode_utf8(a) + encode_utf8(b) =~= encode_utf8(b));
    } else {
        let u = a + b;
        assert(u[0] == a[0]);
        assert(u.drop_first() =~= a.drop_first() + b);
        lemma_encode_utf8_concat(a.drop_first(), b);
        assert(encode_utf8(a + b) =~= encode_utf8(a) + encode_utf8(b));
    }
}

/// UTF-8 encoding is injective: equal encodings come from equal strings.
pub proof fn lemma_encode_utf8_injective(a: Seq<char>, b: Seq<char>)
    requires
        encode_utf8(a) == encode_utf8(b),
    ensures
        a == b,
{
    encode_utf8_decode_utf8(a);
    encode_utf8_decode_utf8(b);
}

/// Copy a string slice into an owned string.
pub fn string_from_str(s: &str) -> (r: String)
    ensures
        r@ == s@,
{
    s.to_owned()
}

/// Decide whether two string slices are equal.
pub fn str_eq(a: &str, b: &str) -> (r: bool)
    ensures
        r == (a@ == b@),
{
    let ab = a.as_bytes();
    let bb = b.as_bytes();
    let n = ab.len();
    if n != bb.len() {
        return false;
    }
    let mut i: usize = 0;
    while i < n
        invariant
            i <= n,
            n == ab@.len() == bb@.len(),
            ab@ == a.spec_bytes() && bb@ == b.spec_bytes(),
            forall|j: int| 0 <= j < i ==> ab@[j] == bb@[j],
        decreases n - i,
    {
        if ab[i] != bb[i] {
            return false;
        }
        i = i + 1;
    }
    proof {
        assert(ab@ =~= bb@);
        lemma_encode_utf8_injective(a@, b@);
    }
    true
}

/// Relies on `char::encode_utf8`: appends the UTF-8 bytes of one
/// character.
#[verifier::external_body]
pub fn push_char_utf8(out: &mut Vec<u8>, c: char)
    ensures
        final(out)@ == old(out)@ + encode_utf8(seq![c]),
{
    out.extend_from_slice(c.encode_utf8(&mut [0u8; 4]).as_bytes());
}

/// The lowercase hexadecimal digit for a value below 16, as an ASCII byte.
pub open spec fn hex_digit(n: u8) -> u8 {
    if n < 10 {
        (48 + n) as u8
    } else {
        (87 + n) as u8
    }
}

/// Lowercase hexadecimal rendering of a byte sequence, two digits per byte.
pub open spec fn hex_bytes(s: Seq<u8>) -> Seq<u8>
    decreases s.len(),
{
    if s.len() == 0 {
        Seq::<u8>::empty()
    } else {
        seq![hex_digit(s[0] / 16), hex_digit(s[0] % 16)] + hex_bytes(s.drop_first())
    }
}

pub fn hex_digit_exec(n: u8) -> (r: u8)
    requires
        n < 16,
    ensures
        r == hex_digit(n),
{
    if n < 10 {
        48 + n
    } else {
        87 + n
    }
}

/// Render a byte sequence in lowercase hexadecimal, two digits per byte.
pub fn to_hex(data: &[u8]) -> (r: Vec<u8>)
    ensures
        r@ == hex_bytes(data@),
{
    let mut r: Vec<u8> = Vec::new();
    let n = data.len();
    proof {
        assert(data@.skip(0) =~= data@);
    }
    for i in 0..n
        invariant
            n == data@.len(),
            hex_bytes(data@) =~= r@ + hex_bytes(data@.skip(i as int)),
    {
        let b = data[i];
        r.push(hex_digit_exec(b / 16));
        r.push(hex_digit_exec(b % 16));
        proof {
            assert(data@.skip(i as int)[0] == data@[i as int]);
            assert(data@.skip(i as int).drop_first() =~= data@.skip(i + 1));
        }
    }
    proof {
        assert(data@.skip(n as int) =~= Seq::<u8>::empty());
    }
    r
}

/// Every byte of a hexadecimal rendering is a lowercase hex digit.
pub open spec fn is_lower_hex_byte(b: u8) -> bool {
    48 <= b <= 57 || 97 <= b <= 102
}

pub proof fn lemma_hex_bytes_digits(s: Seq<u8>)
    ensures
        hex_bytes(s).len() == 2 * s.len(),
        forall|i: int|
            0 <= i < hex_bytes(s).len() ==> is_lower_hex_byte(#[trigger] hex_bytes(s)[i]),
    decreases s.len(),
{
    if s.len() > 0 {
        lemma_hex_bytes_digits(s.drop_first());
    }
}

/// The first position at or after the start of `s` holding byte `b`.
pub open spec fn find_first(s: Seq<u8>, b: u8) -> Option<int>
    decreases s.len(),
{
    if s.len() == 0 {
        None
    } else if s[0] == b {
        Some(0int)
    } else {
        match find_first(s.drop_first(), b) {
            Some(i) => Some(i + 1),
            None => None,
        }
    }
}

/// The last position in `s` holding byte `b`.
pub open spec fn find_last(s: Seq<u8>, b: u8) -> Option<int>
    decreases s.len(),
{
    if s.len() == 0 {
        None
    } else if s[s.len() - 1] == b {
        Some(s.len() - 1)
    } else {
        find_last(s.drop_last(), b)
    }
}

pub proof fn lemma_find_first(s: Seq<u8>, b: u8)
    ensures
        match find_first(s, b) {
            Some(i) => 0 <= i < s.len() && s[i] == b && forall|j: int| 0 <= j < i ==> s[j] != b,
            None => forall|j: int| 0 <= j < s.len() ==> s[j] != b,
        },
    decreases s.len(),
{
    if s.len() > 0 && s[0] != b {
        let t = s.drop_first();
        lemma_find_first(t, b);
        assert(forall|j: int| 0 <= j < t.len() ==> #[trigger] t[j] == s[j + 1]);
        match find_first(t, b) {
            Some(i) => {
                assert forall|j: int| 0 <= j < i + 1 implies s[j] != b by {
                    if j > 0 {
                        assert(t[j - 1] != b);
                    }
                }
            },
            None => {
                assert forall|j: int| 0 <= j < s.len() implies s[j] != b by {
                    if j > 0 {
                        assert(t[j - 1] != b);
                    }
                }
            },
        }
    }
}

pub proof fn lemma_find_last(s: Seq<u8>, b: u8)
    ensures
        match find_last(s, b) {
            Some(i) => 0 <= i < s.len() && s[i] == b && forall|j: int| i < j < s.len() ==> s[j] != b,
            None => forall|j: int| 0 <= j < s.len() ==> s[j] != b,
        },
    decreases s.len(),
{
    if s.len() > 0 && s[s.len() - 1] != b {
        let t = s.drop_last();
        lemma_find_last(t, b);
        assert(forall|j: int| 0 <= j < t.len() ==> #[trigger] t[j] == s[j]);
        match find_last(t, b) {
            Some(i) => {
                assert forall|j: int| i < j < s.len() implies s[j] != b by {
                    if j < s.len() - 1 {
                        assert(t[j] != b);
                    }
                }
            },
            None => {
                assert forall|j: int| 0 <= j < s.len() implies s[j] != b by {
                    if j < s.len() - 1 {
                        assert(t[j] != b);
                    }
                }
            },
        }
    }
}

/// A position with byte `b` and none before it is the first occurrence.
pub proof fn lemma_find_first_is(s: Seq<u8>, b: u8, i: int)
    requires
        0 <= i < s.len(),
        s[i] == b,
        forall|j: int| 0 <= j < i ==> s[j] != b,
    ensures
        find_first(s, b) == Some(i),
{
    lemma_find_first(s, b);
}

/// A sequence without byte `b` has no first occurrence of it.
pub proof fn lemma_find_first_none(s: Seq<u8>, b: u8)
    requires
        forall|j: int| 0 <= j < s.len() ==> s[j] != b,
    ensures
        find_first(s, b) is None,
{
    lemma_find_first(s, b);
}

/// A position with byte `b` and none after it is the last occurrence.
pub proof fn lemma_find_last_is(s: Seq<u8>, b: u8, i: int)
    requires
        0 <= i < s.len(),
        s[i] == b,
        forall|j: int| i < j < s.len() ==> s[j] != b,
    ensures
        find_last(s, b) == Some(i),
{
    lemma_find_last(s, b);
}

/// Scan for the first occurrence of `b` in `s` at or after `from`.
pub fn scan_first(s: &[u8], from: usize, b: u8) -> (r: Option<usize>)
    requires
        from <= s@.len(),
    ensures
        match r {
            Some(i) => from <= i < s@.len() && find_first(s@.skip(from as int), b) == Some(
                i - from,
            ),
            None => find_first(s@.skip(from as int), b) is None,
        },
{
    let n = s.len();
    let mut i = from;
    while i < n
        invariant
            from <= i <= n,
            n == s@.len(),
            forall|j: int| from <= j < i ==> s@[j] != b,
        decreases n - i,
    {
        if s[i] == b {
            proof {
                let t = s@.skip(from as int);
                assert(t[i - from] == b);
                assert forall|j: int| 0 <= j < i - from implies t[j] != b by {
                    assert(t[j] == s@[from + j]);
                }
                lemma_find_first_is(t, b, i - from);
            }
            return Some(i);
        }
        i = i + 1;
    }
    proof {
        let t = s@.skip(from as int);
        assert forall|j: int| 0 <= j < t.len() implies t[j] != b by {
            assert(t[j] == s@[from + j]);
        }
        lemma_find_first_none(t, b);
    }
    None
}

/// Scan for the last occurrence of `b` in `s`.
pub fn scan_last(s: &[u8], b: u8) -> (r: Option<usize>)
    ensures
        match r {
            Some(i) => i < s@.len() && find_last(s@, b) == Some(i as int),
            None => find_last(s@, b) is None,
        },
{
    let n = s.len();
    let mut i = n;
    while i > 0
        invariant
            i <= n,
            n == s@.len(),
            forall|j: int| i <= j < n ==> s@[j] != b,
        decreases i,
    {
        i = i - 1;
        if s[i] == b {
            proof {
                lemma_find_last_is(s@, b, i as int);
            }
            return Some(i);
        }
    }
    proof {
        lemma_find_last(s@, b);
    }
    None
}

} // verus!
