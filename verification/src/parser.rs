//! Parsing: turn one raw `Cookie` header into a [`Cookie`] record.
//!
//! The header splits on `;` into candidate pairs; each side of the first
//! `=` is stripped of leading whitespace and percent-decoded. A decoded
//! value starting with the tag `s:` carries a signature after its last
//! dot, which is verified in constant time and stripped; the entry is
//! dropped when the signature does not match, when no dot is present, or
//! when the parser holds no secret. A parser with a secret also drops
//! every entry that is not `s:`-tagged, so it only sees cookies set with
//! its own secret. A (remaining) value starting with the tag `j:` is
//! parsed as JSON into the record's JSON object instead of the plain map.

use vstd::prelude::*;
use vstd::string::StringSliceAdditionalSpecFns;
use vstd::utf8::*;
use vstd::slice::slice_subrange;
use crate::cookie::{Cookie, StrMap};
use crate::json::{json_doc_of, obj_map, parse_json_bytes, JsonValue};
use crate::pct::{pct_decode, percent_decode};
use crate::signer::{fixed_time_eq, signature_bytes, spec_signature, SigAlg};
use crate::sorted::{lemma_insert_pair_sorted, pairs_map, sorted_keys, vec_insert_sorted};
use crate::text::{find_first, find_last, lossy_chars, scan_first, scan_last, utf8_or_empty};

verus! {

/// Configuration for the parsing middleware: the optional shared secret.
#[derive(Clone)]
pub struct CookieSettings {
    pub secret: Option<String>,
}

/// The cookie parsing middleware: holds the trust context and turns
/// inbound `Cookie` headers into [`Cookie`] records.
pub struct CookieParser {
    secret: Option<String>,
    alg: SigAlg,
}

/// Whitespace stripped from the front of keys and values before
/// percent-decoding.
pub fn is_whitespace(c: &char) -> (r: bool)
    ensures
        r == (*c == ' ' || *c == '\r' || *c == '\t' || *c == '\n'),
{
    match *c {
        ' ' | '\r' | '\t' | '\n' => true,
        _ => false,
    }
}

/// A whitespace byte: space, CR, TAB or LF.
pub open spec fn ws_byte(b: u8) -> bool {
    b == 32 || b == 13 || b == 9 || b == 10
}

/// A byte sequence with its leading whitespace removed.
pub open spec fn trim_ws(s: Seq<u8>) -> Seq<u8>
    decreases s.len(),
{
    if s.len() > 0 && ws_byte(s[0]) {
        trim_ws(s.drop_first())
    } else {
        s
    }
}

/// A segment split at its first equals sign into key and value; with no
/// equals sign the whole segment is the key and the value is empty.
pub open spec fn split_eq(s: Seq<u8>) -> (Seq<u8>, Seq<u8>) {
    match find_first(s, 61) {
        Some(i) => (s.subrange(0, i), s.subrange(i + 1, s.len() as int)),
        None => (s, Seq::<u8>::empty()),
    }
}

/// The two containers a parse fills: the plain map and the JSON object.
pub struct ParseState {
    pub map: Map<Seq<char>, Seq<char>>,
    pub json: Map<Seq<char>, JsonValue>,
}

/// The bytes a signer's secret contributes to a signature.
pub open spec fn secret_bytes_of(secret: Option<Seq<char>>) -> Seq<u8> {
    match secret {
        Some(s) => encode_utf8(s),
        None => Seq::<u8>::empty(),
    }
}

/// The signature stage over a decoded value: what the value becomes, or
/// nothing when the entry is dropped.
///
/// An `s:`-tagged value survives only under a signer with a secret, only
/// with a dot, and only when the hexadecimal signature after the last dot
/// matches the signer's digest of the payload between tag and dot; it
/// becomes that payload. An untagged value survives only under a signer
/// without a secret.
pub open spec fn sig_stage(v: Seq<u8>, signed: bool, alg: SigAlg, secret: Seq<u8>) -> Option<
    Seq<u8>,
> {
    if v.len() > 2 && v[0] == 115 && v[1] == 58 {
        if !signed {
            None
        } else {
            match find_last(v, 46) {
                Some(d) => {
                    let payload = v.subrange(2, d);
                    let sig = v.subrange(d + 1, v.len() as int);
                    if sig == spec_signature(alg, secret, payload) {
                        Some(payload)
                    } else {
                        None
                    }
                },
                None => None,
            }
        }
    } else {
        if signed {
            None
        } else {
            Some(v)
        }
    }
}

/// The JSON stage: a `j:`-tagged value parses into the JSON object under
/// its key, and any other value enters the plain map as a string. The
/// entry leaves the other container, so a name is either a scalar entry
/// or a JSON entry, never both.
pub open spec fn apply_value(st: ParseState, key: Seq<char>, v: Seq<u8>) -> ParseState {
    if v.len() > 2 && v[0] == 106 && v[1] == 58 {
        ParseState {
            map: st.map.remove(key),
            json: st.json.insert(key, json_doc_of(v.subrange(2, v.len() as int))),
        }
    } else {
        ParseState { map: st.map.insert(key, lossy_chars(v)), json: st.json.remove(key) }
    }
}

/// The effect of one `;`-separated segment on the parse state.
pub open spec fn apply_entry(
    st: ParseState,
    seg: Seq<u8>,
    signed: bool,
    alg: SigAlg,
    secret: Seq<u8>,
) -> ParseState {
    let (rk, rv) = split_eq(seg);
    let key = lossy_chars(pct_decode(trim_ws(rk)));
    let vb = pct_decode(trim_ws(rv));
    match sig_stage(vb, signed, alg, secret) {
        Some(v2) => apply_value(st, key, v2),
        None => st,
    }
}

/// The parse of a whole header: its segments applied in order.
pub open spec fn parse_entries(
    st: ParseState,
    s: Seq<u8>,
    signed: bool,
    alg: SigAlg,
    secret: Seq<u8>,
) -> ParseState
    decreases s.len(),
    via parse_entries_decreases
{
    match find_first(s, 59) {
        Some(i) => parse_entries(
            apply_entry(st, s.subrange(0, i), signed, alg, secret),
            s.skip(i + 1),
            signed,
            alg,
            secret,
        ),
        None => apply_entry(st, s, signed, alg, secret),
    }
}

#[via_fn]
proof fn parse_entries_decreases(
    st: ParseState,
    s: Seq<u8>,
    signed: bool,
    alg: SigAlg,
    secret: Seq<u8>,
) {
    crate::text::lemma_find_first(s, 59);
}

/// The empty parse state.
pub open spec fn empty_state() -> ParseState {
    ParseState { map: Map::<Seq<char>, Seq<char>>::empty(), json: Map::<Seq<char>, JsonValue>::empty() }
}

/// The model of parsing a header under a trust context.
pub open spec fn parse_model(
    header: Seq<u8>,
    signed: bool,
    alg: SigAlg,
    secret: Seq<u8>,
) -> ParseState {
    parse_entries(empty_state(), header, signed, alg, secret)
}

/// Strip leading whitespace from a byte string.
fn trim_leading(s: &[u8]) -> (r: &[u8])
    ensures
        r@ == trim_ws(s@),
{
    let n = s.len();
    let mut i: usize = 0;
    proof {
        assert(s@.skip(0) =~= s@);
    }
    while i < n && (s[i] == 32 || s[i] == 13 || s[i] == 9 || s[i] == 10)
        invariant
            i <= n,
            n == s@.len(),
            trim_ws(s@) == trim_ws(s@.skip(i as int)),
        decreases n - i,
    {
        proof {
            assert(s@.skip(i as int)[0] == s@[i as int]);
            assert(s@.skip(i as int).drop_first() =~= s@.skip(i + 1));
        }
        i = i + 1;
    }
    proof {
        if i == n {
            assert(s@.skip(n as int) =~= Seq::<u8>::empty());
        } else {
            assert(s@.skip(i as int)[0] == s@[i as int]);
        }
    }
    slice_subrange(s, i, n)
}

/// Strip leading whitespace and percent-decode, as a cookie fragment is
/// normalized on arrival; invalid UTF-8 becomes the empty string.
pub fn from_rfc_compliant(s: &str) -> (r: String)
    ensures
        r@ == lossy_chars(pct_decode(trim_ws(s.spec_bytes()))),
{
    utf8_or_empty(percent_decode(trim_leading(s.as_bytes())))
}

impl CookieParser {
    /// The configured secret, as characters.
    pub closed spec fn spec_secret(&self) -> Option<Seq<char>> {
        match self.secret {
            Some(s) => Some(s@),
            None => None,
        }
    }

    /// The digest this parser's signer uses.
    pub closed spec fn spec_alg(&self) -> SigAlg {
        self.alg
    }

    /// Create a new instance of the cookie parsing middleware.
    ///
    /// This instance parses both plain pairs, `key=value; key=value`, and
    /// JSON-tagged values as set with `set_json_cookie`.
    pub fn new() -> (r: CookieParser)
        ensures
            r.spec_secret() is None,
            r.spec_alg() == SigAlg::HmacSha256,
    {
        CookieParser { secret: None, alg: SigAlg::HmacSha256 }
    }

    /// Create a cookie parser with a secret, for signed cookies.
    ///
    /// This instance only accepts cookies that were signed with the same
    /// secret, under HMAC SHA-256; every other entry is dropped.
    pub fn signed(secret: String) -> (r: CookieParser)
        ensures
            r.spec_secret() == Some(secret@),
            r.spec_alg() == SigAlg::HmacSha256,
    {
        CookieParser { secret: Some(secret), alg: SigAlg::HmacSha256 }
    }

    /// Create a signed cookie parser that verifies with the legacy
    /// digest, a bare SHA-256 over the secret followed by the payload.
    pub fn signed_legacy(secret: String) -> (r: CookieParser)
        ensures
            r.spec_secret() == Some(secret@),
            r.spec_alg() == SigAlg::LegacySha256,
    {
        CookieParser { secret: Some(secret), alg: SigAlg::LegacySha256 }
    }

    /// Create a parser from middleware configuration.
    pub fn from_settings(settings: CookieSettings) -> (r: CookieParser)
        ensures
            r.spec_secret() == settings.secret.deep_view(),
            r.spec_alg() == SigAlg::HmacSha256,
    {
        CookieParser { secret: settings.secret, alg: SigAlg::HmacSha256 }
    }

    fn clone_secret(&self) -> (r: Option<String>)
        ensures
            r.deep_view() == self.spec_secret(),
            (r is Some) == (self.spec_secret() is Some),
    {
        match &self.secret {
            Some(s) => Some(s.clone()),
            None => None,
        }
    }

    /// Apply one `;`-separated segment to the containers being filled.
    fn apply_segment(&self, seg: &[u8], map: &mut StrMap, jpairs: &mut Vec<(String, JsonValue)>)
        requires
            old(map).wf(),
            sorted_keys(old(jpairs)@),
            forall|j: int|
                0 <= j < old(jpairs)@.len() ==> crate::json::json_wf(
                    (#[trigger] old(jpairs)@[j]).1,
                ),
        ensures
            final(map).wf(),
            sorted_keys(final(jpairs)@),
            forall|j: int|
                0 <= j < final(jpairs)@.len() ==> crate::json::json_wf(
                    (#[trigger] final(jpairs)@[j]).1,
                ),
            (ParseState { map: final(map)@, json: pairs_map(final(jpairs)@) }) == apply_entry(
                (ParseState { map: old(map)@, json: pairs_map(old(jpairs)@) }),
                seg@,
                self.spec_secret() is Some,
                self.spec_alg(),
                secret_bytes_of(self.spec_secret()),
            ),
    {
        let ghost st0 = ParseState { map: map@, json: pairs_map(jpairs@) };
        let ghost spl = split_eq(seg@);
        proof {
            assert(seg@.skip(0) =~= seg@);
        }
        let n = seg.len();
        let (rk, rv): (&[u8], &[u8]) = match scan_first(seg, 0, 61) {
            Some(i) => {
                proof {
                    assert(spl.0 =~= seg@.subrange(0, i as int));
                    assert(spl.1 =~= seg@.subrange(i + 1, seg@.len() as int));
                }
                (slice_subrange(seg, 0, i), slice_subrange(seg, i + 1, n))
            },
            None => {
                proof {
                    assert(spl.0 =~= seg@);
                    assert(spl.1 =~= Seq::<u8>::empty());
                }
                (seg, slice_subrange(seg, n, n))
            },
        };
        proof {
            assert(rk@ == spl.0 && rv@ == spl.1);
        }
        let kb = percent_decode(trim_leading(rk));
        let vb = percent_decode(trim_leading(rv));
        let ghost vbs = vb@;
        let ghost key_spec = lossy_chars(pct_decode(trim_ws(spl.0)));
        let key = utf8_or_empty(kb);
        let ghost sgn = self.spec_secret() is Some;
        let ghost sb = secret_bytes_of(self.spec_secret());

        if vb.len() > 2 && vb[0] == 115 && vb[1] == 58 {
            let sec = match &self.secret {
                Some(s) => s,
                None => {
                    proof {
                        assert(sig_stage(vbs, sgn, self.spec_alg(), sb) is None);
                    }
                    return ;
                },
            };
            match scan_last(vb.as_slice(), 46) {
                None => {
                    proof {
                        assert(sig_stage(vbs, sgn, self.spec_alg(), sb) is None);
                    }
                    return ;
                },
                Some(d) => {
                    proof {
                        crate::text::lemma_find_last(vbs, 46);
                        assert(vbs[0] == 115 && vbs[1] == 58);
                        assert(d >= 2);
                    }
                    let payload = slice_subrange(vb.as_slice(), 2, d);
                    let sig = slice_subrange(vb.as_slice(), d + 1, vb.len());
                    let expected = signature_bytes(self.alg, sec.as_str().as_bytes(), payload);
                    if fixed_time_eq(sig, expected.as_slice()) {
                        proof {
                            assert(sig_stage(vbs, sgn, self.spec_alg(), sb) == Some(
                                vbs.subrange(2, d as int),
                            ));
                        }
                        self.place_value(key, payload, Ghost(st0), map, jpairs);
                    } else {
                        proof {
                            assert(sig_stage(vbs, sgn, self.spec_alg(), sb) is None);
                        }
                    }
                },
            }
        } else {
            if self.secret.is_some() {
                proof {
                    assert(sig_stage(vbs, sgn, self.spec_alg(), sb) is None);
                }
                return ;
            }
            proof {
                assert(sig_stage(vbs, sgn, self.spec_alg(), sb) == Some(vbs));
            }
            self.place_value(key, vb.as_slice(), Ghost(st0), map, jpairs);
        }
    }

    /// Place a surviving value: `j:`-tagged values parse into the JSON
    /// object, everything else enters the plain map.
    fn place_value(
        &self,
        key: String,
        v: &[u8],
        Ghost(st0): Ghost<ParseState>,
        map: &mut StrMap,
        jpairs: &mut Vec<(String, JsonValue)>,
    )
        requires
            old(map).wf(),
            sorted_keys(old(jpairs)@),
            forall|j: int|
                0 <= j < old(jpairs)@.len() ==> crate::json::json_wf(
                    (#[trigger] old(jpairs)@[j]).1,
                ),
            st0 == (ParseState { map: old(map)@, json: pairs_map(old(jpairs)@) }),
        ensures
            final(map).wf(),
            sorted_keys(final(jpairs)@),
            forall|j: int|
                0 <= j < final(jpairs)@.len() ==> crate::json::json_wf(
                    (#[trigger] final(jpairs)@[j]).1,
                ),
            (ParseState { map: final(map)@, json: pairs_map(final(jpairs)@) }) == apply_value(
                st0,
                key@,
                v@,
            ),
    {
        if v.len() > 2 && v[0] == 106 && v[1] == 58 {
            map.remove(key.as_str());
            let doc = parse_json_bytes(slice_subrange(v, 2, v.len()));
            proof {
                lemma_insert_pair_sorted(jpairs@, key, doc);
            }
            let ghost before = jpairs@;
            vec_insert_sorted(jpairs, key, doc);
            proof {
                assert forall|j: int|
                    0 <= j < jpairs@.len() implies crate::json::json_wf(
                    (#[trigger] jpairs@[j]).1,
                ) by {
                    crate::sorted::entry_after_insert(before, key, doc, j);
                }
            }
        } else {
            proof {
                crate::sorted::lemma_remove_pair_sorted(jpairs@, key@);
            }
            let ghost before = jpairs@;
            crate::sorted::vec_remove_key(jpairs, key.as_str());
            proof {
                assert forall|j: int|
                    0 <= j < jpairs@.len() implies crate::json::json_wf(
                    (#[trigger] jpairs@[j]).1,
                ) by {
                    let m = choose|m: int|
                        0 <= m < before.len() && (#[trigger] before[m]) == jpairs@[j];
                }
            }
            let sval = utf8_or_empty(slice_to_vec_u8(v));
            map.insert(key, sval);
        }
    }

    /// Parse the cookies received in an HTTP `Cookie` header.
    ///
    /// An absent header is a normal state and parses to an empty record.
    pub fn parse(&self, header: Option<&str>) -> (c: Cookie)
        ensures
            c.wf(),
            c.spec_signed() == (self.spec_secret() is Some),
            c.spec_secret() == self.spec_secret(),
            c.spec_alg() == self.spec_alg(),
            match header {
                Some(h) => {
                    let m = parse_model(
                        h.spec_bytes(),
                        self.spec_secret() is Some,
                        self.spec_alg(),
                        secret_bytes_of(self.spec_secret()),
                    );
                    c.spec_map() == m.map && obj_map(c.spec_json()) == m.json
                },
                None => c.spec_map() == Map::<Seq<char>, Seq<char>>::empty() && obj_map(
                    c.spec_json(),
                ) == Map::<Seq<char>, JsonValue>::empty(),
            },
    {
        let mut map = StrMap::new();
        let mut jpairs: Vec<(String, JsonValue)> = Vec::new();
        let ghost sgn = self.spec_secret() is Some;
        let ghost sb = secret_bytes_of(self.spec_secret());
        match header {
            None => {
                proof {
                    assert(crate::json::obj_pairs_wf(jpairs));
                }
                let c = Cookie::from_parts(self.clone_secret(), self.alg, map, jpairs);
                proof {
                    assert(obj_map(c.spec_json()) =~= Map::<Seq<char>, JsonValue>::empty());
                }
                c
            },
            Some(h) => {
                let bytes = h.as_bytes();
                let n = bytes.len();
                let ghost hb = h.spec_bytes();
                let mut pos: usize = 0;
                proof {
                    assert(hb.skip(0) =~= hb);
                }
                loop
                    invariant_except_break
                        parse_model(hb, sgn, self.spec_alg(), sb) == parse_entries(
                            (ParseState { map: map@, json: pairs_map(jpairs@) }),
                            hb.skip(pos as int),
                            sgn,
                            self.spec_alg(),
                            sb,
                        ),
                    invariant
                        pos <= n,
                        n == hb.len(),
                        bytes@ == hb,
                        map.wf(),
                        sorted_keys(jpairs@),
                        forall|j: int|
                            0 <= j < jpairs@.len() ==> crate::json::json_wf(
                                (#[trigger] jpairs@[j]).1,
                            ),
                        sgn == (self.spec_secret() is Some),
                        sb == secret_bytes_of(self.spec_secret()),
                    ensures
                        map.wf(),
                        sorted_keys(jpairs@),
                        forall|j: int|
                            0 <= j < jpairs@.len() ==> crate::json::json_wf(
                                (#[trigger] jpairs@[j]).1,
                            ),
                        parse_model(hb, sgn, self.spec_alg(), sb) == (ParseState {
                            map: map@,
                            json: pairs_map(jpairs@),
                        }),
                    decreases n - pos,
                {
                    let ghost rest = hb.skip(pos as int);
                    let ghost st_before = ParseState { map: map@, json: pairs_map(jpairs@) };
                    let end = match scan_first(bytes, pos, 59) {
                        Some(i) => i,
                        None => n,
                    };
                    let seg = slice_subrange(bytes, pos, end);
                    self.apply_segment(seg, &mut map, &mut jpairs);
                    let ghost st_after = ParseState { map: map@, json: pairs_map(jpairs@) };
                    if end == n {
                        proof {
                            assert(find_first(rest, 59) is None);
                            assert(seg@ =~= rest);
                            assert(parse_entries(st_before, rest, sgn, self.spec_alg(), sb)
                                == apply_entry(st_before, rest, sgn, self.spec_alg(), sb));
                        }
                        break ;
                    }
                    proof {
                        assert(find_first(rest, 59) == Some(end - pos));
                        assert(seg@ =~= rest.subrange(0, end - pos));
                        assert(rest.skip(end - pos + 1) =~= hb.skip(end + 1));
                        assert(parse_entries(st_before, rest, sgn, self.spec_alg(), sb)
                            == parse_entries(
                            st_after,
                            hb.skip(end + 1),
                            sgn,
                            self.spec_alg(),
                            sb,
                        ));
                    }
                    pos = end + 1;
                }
                proof {
                    crate::json::lemma_json_obj_wf_pointwise(jpairs, 0);
                    assert(crate::json::obj_pairs_wf(jpairs));
                }
                Cookie::from_parts(self.clone_secret(), self.alg, map, jpairs)
            },
        }
    }
}

/// Copy a byte slice into a vector.
fn slice_to_vec_u8(s: &[u8]) -> (r: Vec<u8>)
    ensures
        r@ == s@,
{
    vstd::slice::slice_to_vec(s)
}

} // verus!
