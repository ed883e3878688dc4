//! The properties that tie the encoder and the decoder together: what a
//! compliant reader finds in a header this library rendered, and what it
//! refuses.

use vstd::prelude::*;
use vstd::utf8::*;
use crate::json::JsonValue;
use crate::parser::{
    apply_entry, apply_value, empty_state, parse_model, parse_entries, secret_bytes_of, sig_stage,
    split_eq, trim_ws, ws_byte, ParseState,
};
use crate::pct::{is_wire_byte, lemma_pct_decode_encode, lemma_pct_decode_plain,
    lemma_pct_encode_wire, lemma_pct_round_trip, pct_decode, pct_encode};
use crate::response::pair_bytes;
use crate::signer::{spec_signature, SigAlg};
use crate::text::{
    find_first, is_lower_hex_byte, lemma_find_first_is, lemma_find_first_none, lemma_find_last_is,
    lossy_chars,
};

verus! {

/// A decoded value that would be taken for a tagged one.
pub open spec fn tagged_value(v: Seq<u8>) -> bool {
    v.len() > 2 && (v[0] == 115 || v[0] == 106) && v[1] == 58
}

/// A decoded value that would be taken for a JSON-tagged one.
pub open spec fn json_tagged_value(v: Seq<u8>) -> bool {
    v.len() > 2 && v[0] == 106 && v[1] == 58
}

/// Percent-encoded output holds no separator, no equals sign, no
/// whitespace and no percent escapes left undone: none of the bytes the
/// decoder treats specially before unescaping.
proof fn lemma_pct_no_specials(s: Seq<u8>)
    ensures
        forall|i: int|
            0 <= i < pct_encode(s).len() ==> (#[trigger] pct_encode(s)[i]) != 59 && pct_encode(
                s,
            )[i] != 61 && !ws_byte(pct_encode(s)[i]),
{
    lemma_pct_encode_wire(s);
    assert forall|i: int|
        0 <= i < pct_encode(s).len() implies (#[trigger] pct_encode(s)[i]) != 59 && pct_encode(
        s,
    )[i] != 61 && !ws_byte(pct_encode(s)[i]) by {
        assert(is_wire_byte(pct_encode(s)[i]));
    }
}

/// A byte string with no leading whitespace trims to itself.
proof fn lemma_trim_nows(s: Seq<u8>)
    requires
        s.len() == 0 || !ws_byte(s[0]),
    ensures
        trim_ws(s) == s,
{
}

/// A header without separators parses as a single segment.
proof fn lemma_single_segment(w: Seq<u8>, sgn: bool, alg: SigAlg, sb: Seq<u8>)
    requires
        forall|i: int| 0 <= i < w.len() ==> (#[trigger] w[i]) != 59,
    ensures
        parse_model(w, sgn, alg, sb) == apply_entry(empty_state(), w, sgn, alg, sb),
{
    lemma_find_first_none(w, 59);
}

/// A segment built as an encoded key, an equals sign and a value splits
/// back into exactly those, and the key decodes back to its characters.
proof fn lemma_entry_shape(kb: Seq<u8>, vraw: Seq<u8>)
    ensures
        split_eq(pct_encode(kb) + seq![61u8] + vraw).0 == pct_encode(kb),
        split_eq(pct_encode(kb) + seq![61u8] + vraw).1 == vraw,
        lossy_chars(pct_decode(trim_ws(pct_encode(kb)))) == lossy_chars(kb),
{
    let ek = pct_encode(kb);
    let w = ek + seq![61u8] + vraw;
    lemma_pct_no_specials(kb);
    assert(w[ek.len() as int] == 61);
    assert forall|j: int| 0 <= j < ek.len() implies w[j] != 61 by {
        assert(w[j] == ek[j]);
    }
    lemma_find_first_is(w, 61, ek.len() as int);
    assert(w.subrange(0, ek.len() as int) =~= ek);
    assert(w.subrange(ek.len() + 1 as int, w.len() as int) =~= vraw);
    if ek.len() > 0 {
        assert(!ws_byte(ek[0]));
    }
    lemma_trim_nows(ek);
    lemma_pct_round_trip(kb);
}

/// Round trip without a secret: a pair rendered unsigned parses back to
/// exactly that pair, provided the value does not imitate an `s:` or
/// `j:` tag.
///
/// A value that begins with a tag of its own (such as `s:x`) is encoded
/// faithfully but is then dropped or re-routed by the strict reader, so
/// such values are left out here.
pub proof fn lemma_round_trip_plain(k: Seq<char>, v: Seq<char>, alg: SigAlg)
    requires
        !tagged_value(encode_utf8(v)),
    ensures
        ({
            let w = pair_bytes(encode_utf8(k), encode_utf8(v), None, alg);
            let m = parse_model(w, false, alg, secret_bytes_of(None));
            m.map == Map::<Seq<char>, Seq<char>>::empty().insert(k, v) && m.json == Map::<
                Seq<char>,
                JsonValue,
            >::empty()
        }),
{
    let kb = encode_utf8(k);
    let vb = encode_utf8(v);
    let ek = pct_encode(kb);
    let ev = pct_encode(vb);
    let w = pair_bytes(kb, vb, None, alg);
    assert(w == ek + seq![61u8] + ev);

    // no separators anywhere in the wire
    lemma_pct_no_specials(kb);
    lemma_pct_no_specials(vb);
    assert forall|i: int| 0 <= i < w.len() implies (#[trigger] w[i]) != 59 by {
        if i < ek.len() {
            assert(w[i] == ek[i]);
        } else if i == ek.len() {
            assert(w[i] == 61);
        } else {
            assert(w[i] == ev[i - ek.len() - 1]);
        }
    }
    lemma_single_segment(w, false, alg, secret_bytes_of(None));
    lemma_entry_shape(kb, ev);

    // the value side decodes back to the raw value bytes
    if ev.len() > 0 {
        assert(!ws_byte(ev[0]));
    }
    lemma_trim_nows(ev);
    lemma_pct_round_trip(vb);

    // the signature stage passes an untagged value through unsigned
    assert(sig_stage(vb, false, alg, secret_bytes_of(None)) == Some(vb));

    // the JSON stage files it in the plain map
    broadcast use encode_utf8_valid_utf8, encode_utf8_decode_utf8;

    assert(lossy_chars(kb) == k);
    assert(lossy_chars(vb) == v);
    let m = parse_model(w, false, alg, secret_bytes_of(None));
    assert(m.map =~= Map::<Seq<char>, Seq<char>>::empty().insert(k, v));
    assert(m.json =~= Map::<Seq<char>, JsonValue>::empty());
}

/// The percent-decoding of a signed wire value: the tag and the dot pass
/// through, the encoded payload decodes, the signature passes through.
proof fn lemma_signed_value_decode(vb: Seq<u8>, sig: Seq<u8>)
    requires
        forall|i: int| 0 <= i < sig.len() ==> (#[trigger] sig[i]) != 37,
    ensures
        pct_decode(seq![115u8, 58u8] + pct_encode(vb) + seq![46u8] + sig) == seq![115u8, 58u8] + vb
            + seq![46u8] + sig,
{
    let ev = pct_encode(vb);
    let tail2 = seq![46u8] + sig;
    let tail1 = ev + tail2;
    assert(seq![115u8, 58u8] + ev + seq![46u8] + sig =~= seq![115u8, 58u8] + tail1);
    lemma_pct_decode_plain(seq![115u8, 58u8], tail1);
    lemma_pct_decode_encode(vb, tail2);
    assert(tail2 + Seq::<u8>::empty() =~= tail2);
    lemma_pct_decode_plain(tail2, Seq::<u8>::empty());
    assert(pct_decode(Seq::<u8>::empty()) =~= Seq::<u8>::empty());
    assert(tail2 + pct_decode(Seq::<u8>::empty()) =~= tail2);
    assert(pct_decode(seq![115u8, 58u8] + ev + seq![46u8] + sig) =~= seq![115u8, 58u8] + (vb
        + tail2));
    assert(seq![115u8, 58u8] + (vb + tail2) =~= seq![115u8, 58u8] + vb + seq![46u8] + sig);
}

/// The signature stage on a decoded value of signed shape: kept with the
/// payload exactly when the trailing signature matches.
proof fn lemma_sig_stage_signed(vb: Seq<u8>, g: Seq<u8>, alg: SigAlg, sb: Seq<u8>)
    requires
        forall|i: int| 0 <= i < g.len() ==> (#[trigger] g[i]) != 46,
    ensures
        sig_stage(seq![115u8, 58u8] + vb + seq![46u8] + g, true, alg, sb) == (if g
            == spec_signature(alg, sb, vb) {
            Some(vb)
        } else {
            None::<Seq<u8>>
        }),
{
    let dv = seq![115u8, 58u8] + vb + seq![46u8] + g;
    assert(dv.len() == 3 + vb.len() + g.len());
    assert(dv[0] == 115 && dv[1] == 58);
    let d = 2 + vb.len() as int;
    assert(dv[d] == 46);
    assert forall|j: int| d < j < dv.len() implies dv[j] != 46 by {
        assert(dv[j] == g[j - d - 1]);
    }
    lemma_find_last_is(dv, 46, d);
    assert(dv.subrange(2, d) =~= vb);
    assert(dv.subrange(d + 1, dv.len() as int) =~= g);
}

/// Round trip with a signature: a pair rendered under a secret parses
/// back, under the same secret, to exactly that pair, and the signature
/// verification succeeds. A value that begins with a `j:` tag of its own
/// is re-routed into the JSON object and is left out here.
pub proof fn lemma_round_trip_signed(k: Seq<char>, v: Seq<char>, sec: Seq<char>, alg: SigAlg)
    requires
        !json_tagged_value(encode_utf8(v)),
    ensures
        ({
            let w = pair_bytes(encode_utf8(k), encode_utf8(v), Some(sec), alg);
            let m = parse_model(w, true, alg, secret_bytes_of(Some(sec)));
            m.map == Map::<Seq<char>, Seq<char>>::empty().insert(k, v) && m.json == Map::<
                Seq<char>,
                JsonValue,
            >::empty()
        }),
{
    let kb = encode_utf8(k);
    let vb = encode_utf8(v);
    let sb = secret_bytes_of(Some(sec));
    let ek = pct_encode(kb);
    let ev = pct_encode(vb);
    let sig = spec_signature(alg, encode_utf8(sec), vb);
    let w = pair_bytes(kb, vb, Some(sec), alg);
    let vraw = seq![115u8, 58u8] + ev + seq![46u8] + sig;
    assert(w =~= ek + seq![61u8] + vraw);

    crate::signer::lemma_signature_digits(alg, encode_utf8(sec), vb);
    lemma_pct_no_specials(kb);
    lemma_pct_no_specials(vb);
    assert forall|i: int| 0 <= i < w.len() implies (#[trigger] w[i]) != 59 by {
        if i < ek.len() {
            assert(w[i] == ek[i]);
        } else if i <= ek.len() + 2 {
        } else if i < ek.len() + 3 + ev.len() {
            assert(w[i] == ev[i - ek.len() - 3]);
        } else if i == ek.len() + 3 + ev.len() {
            assert(w[i] == 46);
        } else {
            assert(w[i] == sig[i - ek.len() - 4 - ev.len()]);
            assert(is_lower_hex_byte(w[i]));
        }
    }
    lemma_single_segment(w, true, alg, sb);
    lemma_entry_shape(kb, vraw);

    assert(trim_ws(vraw) == vraw) by {
        assert(vraw[0] == 115);
        lemma_trim_nows(vraw);
    }
    assert forall|i: int| 0 <= i < sig.len() implies (#[trigger] sig[i]) != 37 && sig[i] != 46 by {
        assert(is_lower_hex_byte(sig[i]));
    }
    lemma_signed_value_decode(vb, sig);
    let dv = seq![115u8, 58u8] + vb + seq![46u8] + sig;
    lemma_sig_stage_signed(vb, sig, alg, sb);
    assert(sig_stage(dv, true, alg, sb) == Some(vb));

    broadcast use encode_utf8_valid_utf8, encode_utf8_decode_utf8;

    assert(lossy_chars(kb) == k);
    assert(lossy_chars(vb) == v);
    let m = parse_model(w, true, alg, sb);
    assert(m.map =~= Map::<Seq<char>, Seq<char>>::empty().insert(k, v));
    assert(m.json =~= Map::<Seq<char>, JsonValue>::empty());
}

/// Forged signature rejection: an `s:`-shaped entry whose trailing
/// signature is not the signer's digest of its payload leaves no trace
/// in the parsed record. The payload and the forged signature may be any
/// bytes free of separators and percent escapes; the forged signature
/// also holds no dot, as a signature would not.
pub proof fn lemma_forged_signature_rejected(
    kb: Seq<u8>,
    p: Seq<u8>,
    g: Seq<u8>,
    sec: Seq<char>,
    alg: SigAlg,
)
    requires
        g != spec_signature(alg, encode_utf8(sec), p),
        forall|i: int| 0 <= i < p.len() ==> (#[trigger] p[i]) != 59 && p[i] != 37,
        forall|i: int| 0 <= i < g.len() ==> (#[trigger] g[i]) != 59 && g[i] != 37 && g[i] != 46,
    ensures
        ({
            let w = pct_encode(kb) + seq![61u8, 115u8, 58u8] + p + seq![46u8] + g;
            parse_model(w, true, alg, secret_bytes_of(Some(sec))) == empty_state()
        }),
{
    let sb = secret_bytes_of(Some(sec));
    let ek = pct_encode(kb);
    let vraw = seq![115u8, 58u8] + p + seq![46u8] + g;
    let w = pct_encode(kb) + seq![61u8, 115u8, 58u8] + p + seq![46u8] + g;
    assert(w =~= ek + seq![61u8] + vraw);

    lemma_pct_no_specials(kb);
    assert forall|i: int| 0 <= i < w.len() implies (#[trigger] w[i]) != 59 by {
        if i < ek.len() {
            assert(w[i] == ek[i]);
        } else if i <= ek.len() + 2 {
        } else if i < ek.len() + 3 + p.len() {
            assert(w[i] == p[i - ek.len() - 3]);
        } else if i == ek.len() + 3 + p.len() {
            assert(w[i] == 46);
        } else {
            assert(w[i] == g[i - ek.len() - 4 - p.len()]);
        }
    }
    lemma_single_segment(w, true, alg, sb);
    lemma_entry_shape(kb, vraw);

    assert(trim_ws(vraw) == vraw) by {
        assert(vraw[0] == 115);
        lemma_trim_nows(vraw);
    }
    assert forall|i: int| 0 <= i < vraw.len() implies (#[trigger] vraw[i]) != 37 by {
        if 2 <= i < 2 + p.len() {
            assert(vraw[i] == p[i - 2]);
        } else if i > 2 + p.len() {
            assert(vraw[i] == g[i - 3 - p.len()]);
        }
    }
    assert(vraw + Seq::<u8>::empty() =~= vraw);
    lemma_pct_decode_plain(vraw, Seq::<u8>::empty());
    assert(pct_decode(Seq::<u8>::empty()) =~= Seq::<u8>::empty());
    assert(vraw + pct_decode(Seq::<u8>::empty()) =~= vraw);
    assert(pct_decode(vraw) == vraw);
    assert(vraw =~= seq![115u8, 58u8] + p + seq![46u8] + g);
    lemma_sig_stage_signed(p, g, alg, sb);
    assert(sig_stage(vraw, true, alg, sb) is None);
    assert(parse_model(w, true, alg, sb) == empty_state());
}

/// One half of the silo property: a reader configured with a secret is
/// blind to plain, unsigned cookies — an entry whose value carries no
/// `s:` tag is dropped.
pub proof fn lemma_signed_reader_drops_plain(kb: Seq<u8>, vb: Seq<u8>, sec: Seq<char>, alg: SigAlg)
    requires
        !(vb.len() > 2 && vb[0] == 115 && vb[1] == 58),
    ensures
        parse_model(pair_bytes(kb, vb, None, alg), true, alg, secret_bytes_of(Some(sec)))
            == empty_state(),
{
    let sb = secret_bytes_of(Some(sec));
    let ek = pct_encode(kb);
    let ev = pct_encode(vb);
    let w = pair_bytes(kb, vb, None, alg);
    assert(w == ek + seq![61u8] + ev);

    lemma_pct_no_specials(kb);
    lemma_pct_no_specials(vb);
    assert forall|i: int| 0 <= i < w.len() implies (#[trigger] w[i]) != 59 by {
        if i < ek.len() {
            assert(w[i] == ek[i]);
        } else if i > ek.len() {
            assert(w[i] == ev[i - ek.len() - 1]);
        }
    }
    lemma_single_segment(w, true, alg, sb);
    lemma_entry_shape(kb, ev);
    if ev.len() > 0 {
        assert(!ws_byte(ev[0]));
    }
    lemma_trim_nows(ev);
    lemma_pct_round_trip(vb);
    assert(sig_stage(vb, true, alg, sb) is None);
    assert(parse_model(w, true, alg, sb) == empty_state());
}

/// The other half of the silo property: a reader without a secret drops
/// every `s:`-shaped entry rather than passing it through.
pub proof fn lemma_unsigned_reader_drops_signed(kb: Seq<u8>, rest: Seq<u8>, alg: SigAlg)
    requires
        rest.len() > 0,
        forall|i: int| 0 <= i < rest.len() ==> (#[trigger] rest[i]) != 59 && rest[i] != 37,
    ensures
        parse_model(
            pct_encode(kb) + seq![61u8, 115u8, 58u8] + rest,
            false,
            alg,
            secret_bytes_of(None),
        ) == empty_state(),
{
    let sb = secret_bytes_of(None);
    let ek = pct_encode(kb);
    let vraw = seq![115u8, 58u8] + rest;
    let w = pct_encode(kb) + seq![61u8, 115u8, 58u8] + rest;
    assert(w =~= ek + seq![61u8] + vraw);

    lemma_pct_no_specials(kb);
    assert forall|i: int| 0 <= i < w.len() implies (#[trigger] w[i]) != 59 by {
        if i < ek.len() {
            assert(w[i] == ek[i]);
        } else if i > ek.len() + 2 {
            assert(w[i] == rest[i - ek.len() - 3]);
        }
    }
    lemma_single_segment(w, false, alg, sb);
    lemma_entry_shape(kb, vraw);

    assert(trim_ws(vraw) == vraw) by {
        assert(vraw[0] == 115);
        lemma_trim_nows(vraw);
    }
    assert forall|i: int| 0 <= i < vraw.len() implies (#[trigger] vraw[i]) != 37 by {
        if i >= 2 {
            assert(vraw[i] == rest[i - 2]);
        }
    }
    assert(vraw + Seq::<u8>::empty() =~= vraw);
    lemma_pct_decode_plain(vraw, Seq::<u8>::empty());
    assert(pct_decode(Seq::<u8>::empty()) =~= Seq::<u8>::empty());
    assert(vraw + pct_decode(Seq::<u8>::empty()) =~= vraw);
    assert(pct_decode(vraw) == vraw);
    assert(vraw.len() > 2 && vraw[0] == 115 && vraw[1] == 58);
    assert(sig_stage(vraw, false, alg, sb) is None);
    assert(parse_model(w, false, alg, sb) == empty_state());
}

/// The full unsigned round trip, through the stored header string: the
/// `Set-Cookie` value the encoder stores for a pair, rendered with no
/// attribute suffix, parses back to exactly that pair.
pub proof fn lemma_header_round_trip_plain(
    k: Seq<char>,
    v: Seq<char>,
    alg: SigAlg,
    options: crate::response::HeaderCollection,
)
    requires
        !tagged_value(encode_utf8(v)),
        crate::response::av_bytes(options) == Seq::<u8>::empty(),
    ensures
        ({
            let stored = decode_utf8(
                crate::response::set_cookie_bytes(encode_utf8(k), encode_utf8(v), None, alg, options),
            );
            let m = parse_model(encode_utf8(stored), false, alg, secret_bytes_of(None));
            m.map == Map::<Seq<char>, Seq<char>>::empty().insert(k, v) && m.json == Map::<
                Seq<char>,
                JsonValue,
            >::empty()
        }),
{
    let kb = encode_utf8(k);
    let vb = encode_utf8(v);
    let scb = crate::response::set_cookie_bytes(kb, vb, None, alg, options);
    assert(scb =~= pair_bytes(kb, vb, None, alg));
    crate::response::lemma_set_cookie_bytes_valid(kb, vb, None, alg, options);
    decode_utf8_encode_utf8(scb);
    lemma_round_trip_plain(k, v, alg);
}

/// The full signed round trip, through the stored header string.
pub proof fn lemma_header_round_trip_signed(
    k: Seq<char>,
    v: Seq<char>,
    sec: Seq<char>,
    alg: SigAlg,
    options: crate::response::HeaderCollection,
)
    requires
        !json_tagged_value(encode_utf8(v)),
        crate::response::av_bytes(options) == Seq::<u8>::empty(),
    ensures
        ({
            let stored = decode_utf8(
                crate::response::set_cookie_bytes(
                    encode_utf8(k),
                    encode_utf8(v),
                    Some(sec),
                    alg,
                    options,
                ),
            );
            let m = parse_model(encode_utf8(stored), true, alg, secret_bytes_of(Some(sec)));
            m.map == Map::<Seq<char>, Seq<char>>::empty().insert(k, v) && m.json == Map::<
                Seq<char>,
                JsonValue,
            >::empty()
        }),
{
    let kb = encode_utf8(k);
    let vb = encode_utf8(v);
    let scb = crate::response::set_cookie_bytes(kb, vb, Some(sec), alg, options);
    assert(scb =~= pair_bytes(kb, vb, Some(sec), alg));
    crate::response::lemma_set_cookie_bytes_valid(kb, vb, Some(sec), alg, options);
    decode_utf8_encode_utf8(scb);
    lemma_round_trip_signed(k, v, sec, alg);
}


/// A parse state whose containers share no key.
pub open spec fn disjoint_state(st: ParseState) -> bool {
    forall|k: Seq<char>| !((#[trigger] st.map.contains_key(k)) && st.json.contains_key(k))
}

proof fn lemma_apply_entry_disjoint(
    st: ParseState,
    seg: Seq<u8>,
    sgn: bool,
    alg: SigAlg,
    sb: Seq<u8>,
)
    requires
        disjoint_state(st),
    ensures
        disjoint_state(apply_entry(st, seg, sgn, alg, sb)),
{
    let (rk, rv) = split_eq(seg);
    let key = lossy_chars(pct_decode(trim_ws(rk)));
    let vb = pct_decode(trim_ws(rv));
    match sig_stage(vb, sgn, alg, sb) {
        Some(v2) => {
            let st2 = apply_value(st, key, v2);
            assert forall|k: Seq<char>| !((#[trigger] st2.map.contains_key(k))
                && st2.json.contains_key(k)) by {
                if k != key {
                    assert(!(st.map.contains_key(k) && st.json.contains_key(k)));
                }
            }
        },
        None => {},
    }
}

proof fn lemma_parse_entries_disjoint(
    st: ParseState,
    s: Seq<u8>,
    sgn: bool,
    alg: SigAlg,
    sb: Seq<u8>,
)
    requires
        disjoint_state(st),
    ensures
        disjoint_state(parse_entries(st, s, sgn, alg, sb)),
    decreases s.len(),
{
    crate::text::lemma_find_first(s, 59);
    match find_first(s, 59) {
        Some(i) => {
            lemma_apply_entry_disjoint(st, s.subrange(0, i), sgn, alg, sb);
            lemma_parse_entries_disjoint(
                apply_entry(st, s.subrange(0, i), sgn, alg, sb),
                s.skip(i + 1),
                sgn,
                alg,
                sb,
            );
        },
        None => {
            lemma_apply_entry_disjoint(st, s, sgn, alg, sb);
        },
    }
}

/// Container disjointness: in every parsed record, a name is either a
/// scalar entry in the plain map or a JSON entry, never both.
pub proof fn lemma_parse_containers_disjoint(header: Seq<u8>, sgn: bool, alg: SigAlg, sb: Seq<u8>)
    ensures
        forall|k: Seq<char>|
            !((#[trigger] parse_model(header, sgn, alg, sb).map.contains_key(k)) && parse_model(
                header,
                sgn,
                alg,
                sb,
            ).json.contains_key(k)),
{
    assert(disjoint_state(empty_state()));
    lemma_parse_entries_disjoint(empty_state(), header, sgn, alg, sb);
}

} // verus!

