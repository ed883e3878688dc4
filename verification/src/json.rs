//! JSON values carried in `j:`-tagged cookies: a tree of plain values with
//! a verified compact serializer, and parsing through `serde_json`.
//!
//! Serialization of a well-formed value is byte-reproducible: objects
//! keep their entries in ascending key order, numbers keep their literal
//! text, and string contents are JSON-escaped between their quotes.

use vstd::prelude::*;
use vstd::utf8::*;
use crate::sorted::sorted_keys;
use crate::text::{hex_digit, hex_digit_exec, lemma_encode_utf8_concat, push_char_utf8};

verus! {

broadcast use vstd::std_specs::vec::axiom_vec_index_decreases;

/// A JSON document.
#[derive(Debug, PartialEq, Eq)]
pub enum JsonValue {
    Null,
    Bool(bool),
    /// A number, kept as its literal text.
    Num(String),
    Str(String),
    Arr(Vec<JsonValue>),
    Obj(Vec<(String, JsonValue)>),
}

/// The entries of a JSON object, or nothing for any other value.
pub open spec fn obj_entries(v: JsonValue) -> Seq<(String, JsonValue)> {
    match v {
        JsonValue::Obj(pairs) => pairs@,
        _ => Seq::<(String, JsonValue)>::empty(),
    }
}

/// The finite map a JSON object stands for, or the empty map for any
/// other value.
pub open spec fn obj_map(v: JsonValue) -> Map<Seq<char>, JsonValue> {
    crate::sorted::pairs_map(obj_entries(v))
}

/// A well-formed JSON value: every object, at every nesting level, keeps
/// its entries sorted by key with unique keys, as an ordered map would.
/// Objects built by sorted insertion, and documents parsed below, satisfy
/// it; serialization of a well-formed value is therefore byte-reproducible
/// with ascending key order.
pub open spec fn json_wf(v: JsonValue) -> bool
    decreases v, 0int, 0int,
{
    match v {
        JsonValue::Null => true,
        JsonValue::Bool(_) => true,
        JsonValue::Num(_) => true,
        JsonValue::Str(_) => true,
        JsonValue::Arr(elems) => json_list_wf(elems, 0),
        JsonValue::Obj(pairs) => sorted_keys(pairs@) && json_obj_wf(pairs, 0),
    }
}

/// Array elements from position `i` on are well formed.
pub open spec fn json_list_wf(elems: Vec<JsonValue>, i: int) -> bool
    decreases elems, 1int, elems.len() - i,
{
    if i < 0 || i >= elems.len() {
        true
    } else {
        json_wf(elems[i]) && json_list_wf(elems, i + 1)
    }
}

/// Object values from position `i` on are well formed.
pub open spec fn json_obj_wf(pairs: Vec<(String, JsonValue)>, i: int) -> bool
    decreases pairs, 1int, pairs.len() - i,
{
    if i < 0 || i >= pairs.len() {
        true
    } else {
        json_wf(pairs[i].1) && json_obj_wf(pairs, i + 1)
    }
}

/// What well-formedness of an object's entry list amounts to.
pub open spec fn obj_pairs_wf(pairs: Vec<(String, JsonValue)>) -> bool {
    sorted_keys(pairs@) && json_obj_wf(pairs, 0)
}

/// Well-formedness of the values runs pointwise over the entries.
pub proof fn lemma_json_obj_wf_pointwise(pairs: Vec<(String, JsonValue)>, i: int)
    requires
        0 <= i,
    ensures
        json_obj_wf(pairs, i) <==> (forall|j: int|
            i <= j < pairs.len() ==> json_wf(#[trigger] pairs[j].1)),
    decreases pairs.len() - i,
{
    if i < pairs.len() {
        lemma_json_obj_wf_pointwise(pairs, i + 1);
    }
}

/// The JSON escape of one character: quote, backslash and the named
/// control characters get a backslash form, other control characters a
/// `\u00..` form, and everything else stands for itself.
pub open spec fn esc_char(c: char) -> Seq<char> {
    let u = c as u32;
    if u == 34 {
        seq!['\\', '"']
    } else if u == 92 {
        seq!['\\', '\\']
    } else if u == 8 {
        seq!['\\', 'b']
    } else if u == 12 {
        seq!['\\', 'f']
    } else if u == 10 {
        seq!['\\', 'n']
    } else if u == 13 {
        seq!['\\', 'r']
    } else if u == 9 {
        seq!['\\', 't']
    } else if u < 32 {
        seq![
            '\\',
            'u',
            '0',
            '0',
            (hex_digit((u / 16) as u8) as char),
            (hex_digit((u % 16) as u8) as char),
        ]
    } else {
        seq![c]
    }
}

/// The JSON escape of a character sequence.
pub open spec fn esc_chars(s: Seq<char>) -> Seq<char>
    decreases s.len(),
{
    if s.len() == 0 {
        Seq::<char>::empty()
    } else {
        esc_char(s[0]) + esc_chars(s.drop_first())
    }
}

/// Escaping distributes over concatenation.
pub proof fn lemma_esc_chars_concat(a: Seq<char>, b: Seq<char>)
    ensures
        esc_chars(a + b) == esc_chars(a) + esc_chars(b),
    decreases a.len(),
{
    if a.len() == 0 {
        assert(a + b =~= b);
        assert(esc_chars(a) + esc_chars(b) =~= esc_chars(b));
    } else {
        let u = a + b;
        assert(u[0] == a[0]);
        assert(u.drop_first() =~= a.drop_first() + b);
        lemma_esc_chars_concat(a.drop_first(), b);
        assert(esc_chars(a + b) =~= esc_chars(a) + esc_chars(b));
    }
}

/// The serialized, escaped form of a string: its characters escaped, in
/// UTF-8.
pub open spec fn str_lit_bytes(s: Seq<char>) -> Seq<u8> {
    encode_utf8(esc_chars(s))
}

/// The compact serialization of a JSON value, as bytes.
pub open spec fn json_bytes(v: JsonValue) -> Seq<u8>
    decreases v, 0int, 0int,
{
    match v {
        JsonValue::Null => seq![110u8, 117u8, 108u8, 108u8],
        JsonValue::Bool(b) => if b {
            seq![116u8, 114u8, 117u8, 101u8]
        } else {
            seq![102u8, 97u8, 108u8, 115u8, 101u8]
        },
        JsonValue::Num(s) => encode_utf8(s@),
        JsonValue::Str(s) => seq![34u8] + str_lit_bytes(s@) + seq![34u8],
        JsonValue::Arr(elems) => seq![91u8] + json_list_bytes(elems, 0) + seq![93u8],
        JsonValue::Obj(pairs) => seq![123u8] + json_obj_bytes(pairs, 0) + seq![125u8],
    }
}

/// The serialization of array elements from position `i` on, each after a
/// comma except the first.
pub open spec fn json_list_bytes(elems: Vec<JsonValue>, i: int) -> Seq<u8>
    decreases elems, 1int, elems.len() - i,
{
    if i < 0 || i >= elems.len() {
        Seq::<u8>::empty()
    } else {
        (if i > 0 {
            seq![44u8]
        } else {
            Seq::<u8>::empty()
        }) + json_bytes(elems[i]) + json_list_bytes(elems, i + 1)
    }
}

/// The serialization of object entries from position `i` on: quoted key,
/// colon, value, each after a comma except the first.
pub open spec fn json_obj_bytes(pairs: Vec<(String, JsonValue)>, i: int) -> Seq<u8>
    decreases pairs, 1int, pairs.len() - i,
{
    if i < 0 || i >= pairs.len() {
        Seq::<u8>::empty()
    } else {
        (if i > 0 {
            seq![44u8]
        } else {
            Seq::<u8>::empty()
        }) + seq![34u8] + str_lit_bytes(pairs[i].0@) + seq![34u8, 58u8] + json_bytes(pairs[i].1)
            + json_obj_bytes(pairs, i + 1)
    }
}

/// Serialized JSON is valid UTF-8.
pub proof fn lemma_json_bytes_utf8(v: JsonValue)
    ensures
        valid_utf8(json_bytes(v)),
    decreases v, 0int, 0int,
{
    broadcast use valid_utf8_concat, encode_utf8_valid_utf8;

    lemma_ascii_seqs_utf8();
    match v {
        JsonValue::Null => {},
        JsonValue::Bool(b) => {},
        JsonValue::Num(s) => {},
        JsonValue::Str(s) => {
            assert(valid_utf8(seq![34u8] + str_lit_bytes(s@)));
            assert(valid_utf8(seq![34u8] + str_lit_bytes(s@) + seq![34u8]));
        },
        JsonValue::Arr(elems) => {
            lemma_json_list_bytes_utf8(elems, 0);
            assert(valid_utf8(seq![91u8] + json_list_bytes(elems, 0)));
            assert(valid_utf8(seq![91u8] + json_list_bytes(elems, 0) + seq![93u8]));
        },
        JsonValue::Obj(pairs) => {
            lemma_json_obj_bytes_utf8(pairs, 0);
            assert(valid_utf8(seq![123u8] + json_obj_bytes(pairs, 0)));
            assert(valid_utf8(seq![123u8] + json_obj_bytes(pairs, 0) + seq![125u8]));
        },
    }
}

proof fn lemma_json_list_bytes_utf8(elems: Vec<JsonValue>, i: int)
    ensures
        valid_utf8(json_list_bytes(elems, i)),
    decreases elems, 1int, elems.len() - i,
{
    broadcast use valid_utf8_concat;

    lemma_ascii_seqs_utf8();
    if 0 <= i < elems.len() {
        lemma_json_bytes_utf8(elems[i]);
        lemma_json_list_bytes_utf8(elems, i + 1);
        let head: Seq<u8> = if i > 0 {
            seq![44u8]
        } else {
            Seq::<u8>::empty()
        };
        assert(valid_utf8(head + json_bytes(elems[i])));
        assert(valid_utf8(head + json_bytes(elems[i]) + json_list_bytes(elems, i + 1)));
    }
}

proof fn lemma_json_obj_bytes_utf8(pairs: Vec<(String, JsonValue)>, i: int)
    ensures
        valid_utf8(json_obj_bytes(pairs, i)),
    decreases pairs, 1int, pairs.len() - i,
{
    broadcast use valid_utf8_concat, encode_utf8_valid_utf8;

    lemma_ascii_seqs_utf8();
    if 0 <= i < pairs.len() {
        lemma_json_bytes_utf8(pairs[i].1);
        lemma_json_obj_bytes_utf8(pairs, i + 1);
        let head: Seq<u8> = if i > 0 {
            seq![44u8]
        } else {
            Seq::<u8>::empty()
        };
        assert(valid_utf8(head + seq![34u8]));
        assert(valid_utf8(head + seq![34u8] + str_lit_bytes(pairs[i].0@)));
        assert(valid_utf8(head + seq![34u8] + str_lit_bytes(pairs[i].0@) + seq![34u8, 58u8]));
        assert(valid_utf8(
            head + seq![34u8] + str_lit_bytes(pairs[i].0@) + seq![34u8, 58u8] + json_bytes(
                pairs[i].1,
            ),
        ));
        assert(valid_utf8(
            head + seq![34u8] + str_lit_bytes(pairs[i].0@) + seq![34u8, 58u8] + json_bytes(
                pairs[i].1,
            ) + json_obj_bytes(pairs, i + 1),
        ));
    }
}

/// The short ASCII pieces the serializer emits are valid UTF-8.
proof fn lemma_ascii_seqs_utf8()
    ensures
        valid_utf8(Seq::<u8>::empty()),
        valid_utf8(seq![110u8, 117u8, 108u8, 108u8]),
        valid_utf8(seq![116u8, 114u8, 117u8, 101u8]),
        valid_utf8(seq![102u8, 97u8, 108u8, 115u8, 101u8]),
        valid_utf8(seq![34u8]),
        valid_utf8(seq![44u8]),
        valid_utf8(seq![34u8, 58u8]),
        valid_utf8(seq![91u8]),
        valid_utf8(seq![93u8]),
        valid_utf8(seq![123u8]),
        valid_utf8(seq![125u8]),
{
    crate::text::lemma_ascii_valid_utf8(Seq::<u8>::empty());
    crate::text::lemma_ascii_valid_utf8(seq![110u8, 117u8, 108u8, 108u8]);
    crate::text::lemma_ascii_valid_utf8(seq![116u8, 114u8, 117u8, 101u8]);
    crate::text::lemma_ascii_valid_utf8(seq![102u8, 97u8, 108u8, 115u8, 101u8]);
    crate::text::lemma_ascii_valid_utf8(seq![34u8]);
    crate::text::lemma_ascii_valid_utf8(seq![44u8]);
    crate::text::lemma_ascii_valid_utf8(seq![34u8, 58u8]);
    crate::text::lemma_ascii_valid_utf8(seq![91u8]);
    crate::text::lemma_ascii_valid_utf8(seq![93u8]);
    crate::text::lemma_ascii_valid_utf8(seq![123u8]);
    crate::text::lemma_ascii_valid_utf8(seq![125u8]);
}

/// Append the escaped, UTF-8-encoded form of a string.
fn write_escaped(out: &mut Vec<u8>, s: &str)
    ensures
        final(out)@ == old(out)@ + str_lit_bytes(s@),
{
    let ghost base = out@;
    let n = s.unicode_len();
    let mut i: usize = 0;
    proof {
        assert(s@.take(0) =~= Seq::<char>::empty());
        assert(base + encode_utf8(esc_chars(s@.take(0))) =~= base);
    }
    while i < n
        invariant
            i <= n,
            n == s@.len(),
            out@ == base + encode_utf8(esc_chars(s@.take(i as int))),
        decreases n - i,
    {
        let c = s.get_char(i);
        proof {
            lemma_esc_chars_concat(s@.take(i as int), seq![c]);
            assert(s@.take(i + 1) =~= s@.take(i as int) + seq![c]);
            assert(seq![c].len() == 1 && seq![c][0] == c);
            assert(seq![c].drop_first() =~= Seq::<char>::empty());
            assert(esc_chars(seq![c]) == esc_char(c) + esc_chars(Seq::<char>::empty()));
            assert(esc_chars(Seq::<char>::empty()) =~= Seq::<char>::empty());
            assert(esc_char(c) + Seq::<char>::empty() =~= esc_char(c));
            assert(esc_chars(seq![c]) == esc_char(c));
            lemma_encode_utf8_concat(esc_chars(s@.take(i as int)), esc_char(c));
        }
        let u = c as u32;
        if u == 34 {
            out.push(92);
            out.push(34);
            proof {
                lemma_esc_ascii_bytes(c, seq![92u8, 34u8]);
                assert(out@ =~= base + encode_utf8(esc_chars(s@.take(i + 1))));
            }
        } else if u == 92 {
            out.push(92);
            out.push(92);
            proof {
                lemma_esc_ascii_bytes(c, seq![92u8, 92u8]);
                assert(out@ =~= base + encode_utf8(esc_chars(s@.take(i + 1))));
            }
        } else if u == 8 {
            out.push(92);
            out.push(98);
            proof {
                lemma_esc_ascii_bytes(c, seq![92u8, 98u8]);
                assert(out@ =~= base + encode_utf8(esc_chars(s@.take(i + 1))));
            }
        } else if u == 12 {
            out.push(92);
            out.push(102);
            proof {
                lemma_esc_ascii_bytes(c, seq![92u8, 102u8]);
                assert(out@ =~= base + encode_utf8(esc_chars(s@.take(i + 1))));
            }
        } else if u == 10 {
            out.push(92);
            out.push(110);
            proof {
                lemma_esc_ascii_bytes(c, seq![92u8, 110u8]);
                assert(out@ =~= base + encode_utf8(esc_chars(s@.take(i + 1))));
            }
        } else if u == 13 {
            out.push(92);
            out.push(114);
            proof {
                lemma_esc_ascii_bytes(c, seq![92u8, 114u8]);
                assert(out@ =~= base + encode_utf8(esc_chars(s@.take(i + 1))));
            }
        } else if u == 9 {
            out.push(92);
            out.push(116);
            proof {
                lemma_esc_ascii_bytes(c, seq![92u8, 116u8]);
                assert(out@ =~= base + encode_utf8(esc_chars(s@.take(i + 1))));
            }
        } else if u < 32 {
            let b = u as u8;
            out.push(92);
            out.push(117);
            out.push(48);
            out.push(48);
            out.push(hex_digit_exec(b / 16));
            out.push(hex_digit_exec(b % 16));
            proof {
                let bs = seq![92u8, 117u8, 48u8, 48u8, hex_digit(b / 16), hex_digit(b % 16)];
                assert((u / 16) as u8 == b / 16 && (u % 16) as u8 == b % 16);
                assert forall|j: int| 0 <= j < bs.len() implies ((#[trigger] esc_char(c)[j]) as u32)
                    == bs[j] by {
                    if j == 4 {
                        assert(esc_char(c)[4] == (hex_digit(b / 16) as char));
                        assert(((hex_digit(b / 16) as char) as u32) == hex_digit(b / 16));
                    }
                    if j == 5 {
                        assert(esc_char(c)[5] == (hex_digit(b % 16) as char));
                        assert(((hex_digit(b % 16) as char) as u32) == hex_digit(b % 16));
                    }
                }
                lemma_esc_ascii_bytes(c, bs);
                assert(out@ =~= base + encode_utf8(esc_chars(s@.take(i + 1))));
            }
        } else {
            push_char_utf8(out, c);
            proof {
                assert(esc_char(c) =~= seq![c]);
                assert(out@ =~= base + encode_utf8(esc_chars(s@.take(i + 1))));
            }
        }
        i = i + 1;
    }
    proof {
        assert(s@.take(n as int) =~= s@);
    }
}

/// An all-ASCII escape sequence encodes to the named byte values.
proof fn lemma_esc_ascii_bytes(c: char, bs: Seq<u8>)
    requires
        esc_char(c).len() == bs.len(),
        crate::text::all_ascii(bs),
        forall|j: int| 0 <= j < bs.len() ==> ((#[trigger] esc_char(c)[j]) as u32) == bs[j],
    ensures
        encode_utf8(esc_char(c)) =~= bs,
{
    crate::text::lemma_ascii_bytes_chars(bs);
    let cs = esc_char(c);
    let cs2 = crate::text::chars_of_bytes(bs);
    assert forall|j: int| 0 <= j < bs.len() implies cs[j] == #[trigger] cs2[j] by {
        vstd::utf8::char_u32_cast(cs[j], cs[j] as u32);
        assert(((bs[j] as u32) as char) == (bs[j] as char));
    }
    assert(cs =~= cs2);
}

/// Append the compact serialization of `v` to `out`.
#[verifier::loop_isolation(false)]
#[verifier::rlimit(50)]
fn write_json(v: &JsonValue, out: &mut Vec<u8>)
    ensures
        final(out)@ == old(out)@ + json_bytes(*v),
    decreases v,
{
    match v {
        JsonValue::Null => {
            out.push(110);
            out.push(117);
            out.push(108);
            out.push(108);
            proof {
                assert(final(out)@ =~= old(out)@ + json_bytes(*v));
            }
        },
        JsonValue::Bool(b) => {
            if *b {
                out.push(116);
                out.push(114);
                out.push(117);
                out.push(101);
            } else {
                out.push(102);
                out.push(97);
                out.push(108);
                out.push(115);
                out.push(101);
            }
            proof {
                assert(final(out)@ =~= old(out)@ + json_bytes(*v));
            }
        },
        JsonValue::Num(s) => {
            out.extend_from_slice(s.as_str().as_bytes());
            proof {
                assert(final(out)@ =~= old(out)@ + json_bytes(*v));
            }
        },
        JsonValue::Str(s) => {
            out.push(34);
            write_escaped(out, s.as_str());
            out.push(34);
            proof {
                assert(final(out)@ =~= old(out)@ + json_bytes(*v));
            }
        },
        JsonValue::Arr(elems) => {
            out.push(91);
            let ghost base = out@;
            let n = elems.len();
            let mut i: usize = 0;
            while i < n
                invariant
                    n == elems.len(),
                    i <= n,
                    base + json_list_bytes(*elems, 0) =~= out@ + json_list_bytes(*elems, i as int),
                decreases n - i,
            {
                if i > 0 {
                    out.push(44);
                }
                write_json(&elems[i], out);
                i = i + 1;
            }
            out.push(93);
            proof {
                assert(final(out)@ =~= old(out)@ + json_bytes(*v));
            }
        },
        JsonValue::Obj(pairs) => {
            out.push(123);
            let ghost base = out@;
            let n = pairs.len();
            let mut i: usize = 0;
            while i < n
                invariant
                    n == pairs.len(),
                    i <= n,
                    base + json_obj_bytes(*pairs, 0) =~= out@ + json_obj_bytes(*pairs, i as int),
                decreases n - i,
            {
                if i > 0 {
                    out.push(44);
                }
                out.push(34);
                write_escaped(out, pairs[i].0.as_str());
                out.push(34);
                out.push(58);
                write_json(&pairs[i].1, out);
                i = i + 1;
            }
            out.push(125);
            proof {
                assert(final(out)@ =~= old(out)@ + json_bytes(*v));
            }
        },
    }
}

/// Serialize a well-formed JSON value compactly, object keys in
/// ascending order (their stored order, which well-formedness makes
/// sorted); equal values give byte-identical output.
pub fn stringify_json(v: &JsonValue) -> (r: String)
    requires
        json_wf(*v),
    ensures
        encode_utf8(r@) == json_bytes(*v),
        r@ == decode_utf8(json_bytes(*v)),
{
    let mut out: Vec<u8> = Vec::new();
    write_json(v, &mut out);
    proof {
        assert(out@ =~= json_bytes(*v));
        lemma_json_bytes_utf8(*v);
    }
    crate::text::bytes_to_string(out)
}

/// What `serde_json` parses a byte sequence to, with a parse failure
/// standing for a JSON null.
pub uninterp spec fn json_doc_of(s: Seq<u8>) -> JsonValue;

/// Relies on `serde_json::Value`: the parsed form of a JSON document,
/// carried only between `serde_json::from_slice` and the conversion below.
#[verifier::external_type_specification]
#[verifier::external_body]
pub struct ExSerdeValue(serde_json::Value);

/// Relies on the public variants of `serde_json::Value`: moves each variant
/// of the parsed tree into the library's own tree, keeping a number's
/// literal text. Converting half of `parse_json_bytes`.
#[verifier::external_body]
fn value_to_json(v: serde_json::Value) -> JsonValue {
    match v {
        serde_json::Value::Null => JsonValue::Null,
        serde_json::Value::Bool(b) => JsonValue::Bool(b),
        serde_json::Value::Number(n) => JsonValue::Num(n.to_string()),
        serde_json::Value::String(s) => JsonValue::Str(s),
        serde_json::Value::Array(a) => JsonValue::Arr(a.into_iter().map(value_to_json).collect()),
        serde_json::Value::Object(m) => JsonValue::Obj(
            m.into_iter().map(|(k, x)| (k, value_to_json(x))).collect(),
        ),
    }
}

/// Relies on `serde_json::from_slice`: parses one JSON document; the
/// result is a function of the bytes alone, and is well formed, because
/// `serde_json`'s map is a `BTreeMap` — object entries come back sorted
/// by key and unique, at every nesting level (a duplicate key keeps its
/// last value). A document `serde_json` rejects becomes `JsonValue::Null`.
#[verifier::external_body]
pub fn parse_json_bytes(b: &[u8]) -> (r: JsonValue)
    ensures
        r == json_doc_of(b@),
        json_wf(r),
{
    match serde_json::from_slice::<serde_json::Value>(b) {
        Ok(v) => value_to_json(v),
        Err(_) => JsonValue::Null,
    }
}

} // verus!
