//! Setting: render one cookie pair and its RFC 6265 attribute directives
//! into a `Set-Cookie` header value, signing and percent-encoding the
//! pair on the way out.

use vstd::prelude::*;
use vstd::string::StringSliceAdditionalSpecFns;
use vstd::utf8::*;
use crate::cookie::Cookie;
use crate::json::{json_bytes, stringify_json, JsonValue};
use crate::pct::{lemma_pct_encode_wire, pct_encode, percent_encode, is_wire_byte};
use crate::signer::{spec_signature, SigAlg};
use crate::sorted::{insert_pair_sorted, sorted_keys, vec_insert_sorted};
use crate::text::{
    all_ascii, bytes_to_string, chars_of_bytes, lemma_ascii_valid_utf8, utf8_or_empty,
};

verus! {

/// A calendar time, broken down and taken as UTC, as far as cookie
/// expiry needs one.
///
/// The weekday is supplied, not computed: 0 stands for Sunday through 6
/// for Saturday; months count from 1. Out-of-range fields render as the
/// nearest name or a plain number rather than failing.
#[derive(Clone, Copy, Debug, PartialEq, Eq, Structural)]
pub struct Tm {
    pub year: u32,
    /// Month, 1 through 12.
    pub month: u8,
    /// Day of the month, 1 through 31.
    pub mday: u8,
    pub hour: u8,
    pub min: u8,
    pub sec: u8,
    /// Day of the week, 0 (Sunday) through 6 (Saturday).
    pub wday: u8,
}

/// The weekday abbreviation, as bytes.
pub open spec fn wday_name(w: u8) -> Seq<u8> {
    if w == 0 {
        ("Sun").spec_bytes()
    } else if w == 1 {
        ("Mon").spec_bytes()
    } else if w == 2 {
        ("Tue").spec_bytes()
    } else if w == 3 {
        ("Wed").spec_bytes()
    } else if w == 4 {
        ("Thu").spec_bytes()
    } else if w == 5 {
        ("Fri").spec_bytes()
    } else {
        ("Sat").spec_bytes()
    }
}

/// The month abbreviation, as bytes.
pub open spec fn month_name(m: u8) -> Seq<u8> {
    if m <= 1 {
        ("Jan").spec_bytes()
    } else if m == 2 {
        ("Feb").spec_bytes()
    } else if m == 3 {
        ("Mar").spec_bytes()
    } else if m == 4 {
        ("Apr").spec_bytes()
    } else if m == 5 {
        ("May").spec_bytes()
    } else if m == 6 {
        ("Jun").spec_bytes()
    } else if m == 7 {
        ("Jul").spec_bytes()
    } else if m == 8 {
        ("Aug").spec_bytes()
    } else if m == 9 {
        ("Sep").spec_bytes()
    } else if m == 10 {
        ("Oct").spec_bytes()
    } else if m == 11 {
        ("Nov").spec_bytes()
    } else {
        ("Dec").spec_bytes()
    }
}

/// A number as two ASCII digits, the tens digit first.
pub open spec fn pad2(n: u8) -> Seq<u8> {
    seq![(48 + n / 10) as u8, (48 + n % 10) as u8]
}

/// A number in ASCII decimal.
pub open spec fn dec_bytes(n: nat) -> Seq<u8>
    decreases n,
{
    if n < 10 {
        seq![(48 + n) as u8]
    } else {
        dec_bytes(n / 10) + seq![(48 + n % 10) as u8]
    }
}

/// An RFC 822 / RFC 1123 style date, as the `Expires` attribute carries
/// it: `Sun, 06 Nov 1994 08:49:37 GMT`.
pub open spec fn tm_bytes(t: Tm) -> Seq<u8> {
    wday_name(t.wday) + (", ").spec_bytes() + pad2(t.mday) + (" ").spec_bytes() + month_name(
        t.month,
    ) + (" ").spec_bytes() + dec_bytes(t.year as nat) + (" ").spec_bytes() + pad2(t.hour) + (
    ":").spec_bytes() + pad2(t.min) + (":").spec_bytes() + pad2(t.sec) + (" GMT").spec_bytes()
}

/// Extension attributes, kept sorted by name as an ordered map keeps its
/// keys.
pub struct Extensions {
    entries: Vec<(String, Option<String>)>,
}

impl Extensions {
    /// The extension entries, in the order they render.
    pub closed spec fn spec_entries(&self) -> Seq<(String, Option<String>)> {
        self.entries@
    }

    /// The entries stay sorted by name.
    pub closed spec fn wf(&self) -> bool {
        sorted_keys(self.entries@)
    }

    /// No extension attributes.
    pub fn new() -> (r: Extensions)
        ensures
            r.spec_entries() == Seq::<(String, Option<String>)>::empty(),
            r.wf(),
    {
        Extensions { entries: Vec::new() }
    }

    /// Add an extension attribute: a bare flag with `None`, `name=value`
    /// with `Some`. An attribute of the same name is replaced.
    pub fn insert(&mut self, name: String, value: Option<String>)
        requires
            old(self).wf(),
        ensures
            final(self).spec_entries() == insert_pair_sorted(old(self).spec_entries(), name, value),
            final(self).wf(),
    {
        proof {
            crate::sorted::lemma_insert_pair_sorted(self.entries@, name, value);
        }
        vec_insert_sorted(&mut self.entries, name, value);
    }
}

/// The headers used to set a cookie, as RFC 6265 defines them.
pub struct HeaderCollection {
    /// An absolute date/time at which this cookie should expire.
    pub expires: Option<Tm>,
    /// A relative time (in seconds) at which this cookie should expire.
    pub max_age: Option<u32>,
    /// The scope of the cookie.
    ///
    /// If set, the browser will send this cookie to the set domain and
    /// all subdomains; if not, only to the originating domain.
    pub domain: Option<String>,
    /// The scope of the cookie.
    pub path: Option<String>,
    /// A cookie with this flag should only be sent over secured
    /// connections; the browser will respect it.
    pub secure: bool,
    /// A cookie with this flag is only accessible through HTTP and
    /// HTTPS, which helps to prevent cross-site scripting attacks.
    pub http_only: bool,
    /// Any additional attributes, separated with `;` and written as
    /// `name` or `name=value`.
    pub extensions: Option<Extensions>,
}

/// One optional attribute: `; Name=value` when present, nothing when
/// absent.
pub open spec fn head_bytes(name: Seq<u8>, value: Option<Seq<u8>>) -> Seq<u8> {
    match value {
        Some(v) => ("; ").spec_bytes() + name + ("=").spec_bytes() + v,
        None => Seq::<u8>::empty(),
    }
}

/// One extension attribute: `; name` for a flag, `; name=value` otherwise.
pub open spec fn ext_bytes(name: Seq<u8>, value: Option<Seq<u8>>) -> Seq<u8> {
    match value {
        Some(v) => head_bytes(name, Some(v)),
        None => ("; ").spec_bytes() + name,
    }
}

/// The rendered extension entries from position `i` on.
pub open spec fn exts_bytes(s: Seq<(String, Option<String>)>, i: int) -> Seq<u8>
    decreases s.len() - i,
{
    if i < 0 || i >= s.len() {
        Seq::<u8>::empty()
    } else {
        ext_bytes(
            encode_utf8(s[i].0@),
            match s[i].1 {
                Some(v) => Some(encode_utf8(v@)),
                None => None,
            },
        ) + exts_bytes(s, i + 1)
    }
}

/// The whole attribute suffix: `Expires`, `Max-Age`, `Domain`, `Path`,
/// `Secure`, `Http-Only`, then the extensions in their stored (sorted)
/// order.
pub open spec fn av_bytes(h: HeaderCollection) -> Seq<u8> {
    (match h.expires {
        Some(t) => head_bytes(("Expires").spec_bytes(), Some(tm_bytes(t))),
        None => Seq::<u8>::empty(),
    }) + (match h.max_age {
        Some(n) => head_bytes(("Max-Age").spec_bytes(), Some(dec_bytes(n as nat))),
        None => Seq::<u8>::empty(),
    }) + (match h.domain {
        Some(d) => head_bytes(("Domain").spec_bytes(), Some(encode_utf8(d@))),
        None => Seq::<u8>::empty(),
    }) + (match h.path {
        Some(p) => head_bytes(("Path").spec_bytes(), Some(encode_utf8(p@))),
        None => Seq::<u8>::empty(),
    }) + (if h.secure {
        ("; Secure").spec_bytes()
    } else {
        Seq::<u8>::empty()
    }) + (if h.http_only {
        ("; Http-Only").spec_bytes()
    } else {
        Seq::<u8>::empty()
    }) + (match h.extensions {
        Some(e) => exts_bytes(e.spec_entries(), 0),
        None => Seq::<u8>::empty(),
    })
}

/// Append a string's bytes.
fn push_str_bytes(out: &mut Vec<u8>, s: &str)
    ensures
        final(out)@ == old(out)@ + s.spec_bytes(),
{
    out.extend_from_slice(s.as_bytes());
}

/// Append a number as two ASCII digits.
fn push_pad2(out: &mut Vec<u8>, n: u8)
    ensures
        final(out)@ == old(out)@ + pad2(n),
{
    out.push(48 + n / 10);
    out.push(48 + n % 10);
    proof {
        assert(final(out)@ =~= old(out)@ + pad2(n));
    }
}

/// Append a number in ASCII decimal.
fn push_dec(out: &mut Vec<u8>, n: u32)
    ensures
        final(out)@ == old(out)@ + dec_bytes(n as nat),
    decreases n,
{
    if n < 10 {
        out.push(48 + n as u8);
        proof {
            assert(final(out)@ =~= old(out)@ + dec_bytes(n as nat));
        }
    } else {
        push_dec(out, n / 10);
        out.push(48 + (n % 10) as u8);
        proof {
            assert(final(out)@ =~= old(out)@ + dec_bytes(n as nat));
        }
    }
}

/// Append a weekday abbreviation.
fn push_wday(out: &mut Vec<u8>, w: u8)
    ensures
        final(out)@ == old(out)@ + wday_name(w),
{
    if w == 0 {
        push_str_bytes(out, "Sun");
    } else if w == 1 {
        push_str_bytes(out, "Mon");
    } else if w == 2 {
        push_str_bytes(out, "Tue");
    } else if w == 3 {
        push_str_bytes(out, "Wed");
    } else if w == 4 {
        push_str_bytes(out, "Thu");
    } else if w == 5 {
        push_str_bytes(out, "Fri");
    } else {
        push_str_bytes(out, "Sat");
    }
}

/// Append a month abbreviation.
fn push_month(out: &mut Vec<u8>, m: u8)
    ensures
        final(out)@ == old(out)@ + month_name(m),
{
    if m <= 1 {
        push_str_bytes(out, "Jan");
    } else if m == 2 {
        push_str_bytes(out, "Feb");
    } else if m == 3 {
        push_str_bytes(out, "Mar");
    } else if m == 4 {
        push_str_bytes(out, "Apr");
    } else if m == 5 {
        push_str_bytes(out, "May");
    } else if m == 6 {
        push_str_bytes(out, "Jun");
    } else if m == 7 {
        push_str_bytes(out, "Jul");
    } else if m == 8 {
        push_str_bytes(out, "Aug");
    } else if m == 9 {
        push_str_bytes(out, "Sep");
    } else if m == 10 {
        push_str_bytes(out, "Oct");
    } else if m == 11 {
        push_str_bytes(out, "Nov");
    } else {
        push_str_bytes(out, "Dec");
    }
}

/// Append a rendered date.
fn push_tm(out: &mut Vec<u8>, t: &Tm)
    ensures
        final(out)@ == old(out)@ + tm_bytes(*t),
{
    push_wday(out, t.wday);
    push_str_bytes(out, ", ");
    push_pad2(out, t.mday);
    push_str_bytes(out, " ");
    push_month(out, t.month);
    push_str_bytes(out, " ");
    push_dec(out, t.year);
    push_str_bytes(out, " ");
    push_pad2(out, t.hour);
    push_str_bytes(out, ":");
    push_pad2(out, t.min);
    push_str_bytes(out, ":");
    push_pad2(out, t.sec);
    push_str_bytes(out, " GMT");
    proof {
        assert(final(out)@ =~= old(out)@ + tm_bytes(*t));
    }
}

/// One optional attribute, rendered: `; Name=value`, or nothing.
pub fn head(name: &str, value: Option<String>) -> (r: String)
    ensures
        encode_utf8(r@) == head_bytes(
            name.spec_bytes(),
            match value {
                Some(v) => Some(encode_utf8(v@)),
                None => None,
            },
        ),
{
    let ghost hb = head_bytes(
        name.spec_bytes(),
        match value {
            Some(ref v) => Some(encode_utf8(v@)),
            None => None,
        },
    );
    let mut out: Vec<u8> = Vec::new();
    match &value {
        Some(v) => {
            push_str_bytes(&mut out, "; ");
            push_str_bytes(&mut out, name);
            push_str_bytes(&mut out, "=");
            push_str_bytes(&mut out, v.as_str());
            proof {
                assert(out@ =~= head_bytes(name.spec_bytes(), Some(encode_utf8(v@))));
            }
        },
        None => {},
    }
    proof {
        assert(out@ == hb);
        match value {
            Some(ref v) => {
                broadcast use encode_utf8_valid_utf8;

                lemma_head_bytes_valid(name.spec_bytes(), Some(encode_utf8(v@)));
            },
            None => {
                lemma_ascii_valid_utf8(Seq::<u8>::empty());
            },
        }
    }
    bytes_to_string(out)
}

/// One extension attribute, rendered: `; name` for a flag, `; name=value`
/// otherwise.
pub fn extension(name: &String, value: Option<String>) -> (r: String)
    ensures
        encode_utf8(r@) == ext_bytes(
            encode_utf8(name@),
            match value {
                Some(v) => Some(encode_utf8(v@)),
                None => None,
            },
        ),
{
    match value {
        Some(v) => head(name.as_str(), Some(v)),
        None => {
            let mut out: Vec<u8> = Vec::new();
            push_str_bytes(&mut out, "; ");
            push_str_bytes(&mut out, name.as_str());
            proof {
                broadcast use valid_utf8_concat, encode_utf8_valid_utf8;

                assert(out@ =~= ("; ").spec_bytes() + encode_utf8(name@));
            }
            bytes_to_string(out)
        },
    }
}

impl HeaderCollection {
    /// Render the attribute suffix of a `Set-Cookie` value.
    pub fn to_cookie_av(self) -> (r: String)
        ensures
            encode_utf8(r@) == av_bytes(self),
    {
        let mut out: Vec<u8> = render_expires(&self.expires);
        let mut part = render_max_age(&self.max_age);
        out.append(&mut part);
        let mut part = render_named(&self.domain, "Domain");
        out.append(&mut part);
        let mut part = render_named(&self.path, "Path");
        out.append(&mut part);
        let mut part = render_flag(self.secure, "; Secure");
        out.append(&mut part);
        let mut part = render_flag(self.http_only, "; Http-Only");
        out.append(&mut part);
        let mut part = render_extensions(&self.extensions);
        out.append(&mut part);
        proof {
            assert(out@ =~= av_bytes(self));
            lemma_av_bytes_valid(self);
        }
        bytes_to_string(out)
    }

    /// Convenience function for a set of empty cookie headers.
    pub fn empty() -> (r: HeaderCollection)
        ensures
            r.expires is None,
            r.max_age is None,
            r.domain is None,
            r.path is None,
            !r.secure,
            !r.http_only,
            r.extensions is None,
            av_bytes(r) == Seq::<u8>::empty(),
    {
        let r = HeaderCollection {
            expires: None,
            max_age: None,
            domain: None,
            path: None,
            secure: false,
            http_only: false,
            extensions: None,
        };
        proof {
            assert(av_bytes(r) =~= Seq::<u8>::empty());
        }
        r
    }

    /// Convenience function for a set of cookie headers that will expire
    /// the cookie in `seconds` seconds.
    pub fn aged(seconds: u32) -> (r: HeaderCollection)
        ensures
            r.expires is None,
            r.max_age == Some(seconds),
            r.domain is None,
            r.path is None,
            !r.secure,
            !r.http_only,
            r.extensions is None,
            av_bytes(r) == head_bytes(("Max-Age").spec_bytes(), Some(dec_bytes(seconds as nat))),
    {
        let r = HeaderCollection {
            expires: None,
            max_age: Some(seconds),
            domain: None,
            path: None,
            secure: false,
            http_only: false,
            extensions: None,
        };
        proof {
            assert(av_bytes(r) =~= head_bytes(
                ("Max-Age").spec_bytes(),
                Some(dec_bytes(seconds as nat)),
            ));
        }
        r
    }

    /// Convenience function for a set of cookie headers declaring the
    /// cookie `Secure` and `Http-Only`.
    pub fn secured() -> (r: HeaderCollection)
        ensures
            r.expires is None,
            r.max_age is None,
            r.domain is None,
            r.path is None,
            r.secure,
            r.http_only,
            r.extensions is None,
            av_bytes(r) == ("; Secure").spec_bytes() + ("; Http-Only").spec_bytes(),
    {
        let r = HeaderCollection {
            expires: None,
            max_age: None,
            domain: None,
            path: None,
            secure: true,
            http_only: true,
            extensions: None,
        };
        proof {
            assert(av_bytes(r) =~= ("; Secure").spec_bytes() + ("; Http-Only").spec_bytes());
        }
        r
    }
}


/// Render the `Expires` attribute.
fn render_expires(e: &Option<Tm>) -> (r: Vec<u8>)
    ensures
        r@ == (match *e {
            Some(t) => head_bytes(("Expires").spec_bytes(), Some(tm_bytes(t))),
            None => Seq::<u8>::empty(),
        }),
{
    let mut out: Vec<u8> = Vec::new();
    match e {
        Some(t) => {
            push_str_bytes(&mut out, "; ");
            push_str_bytes(&mut out, "Expires");
            push_str_bytes(&mut out, "=");
            push_tm(&mut out, t);
            proof {
                assert(out@ =~= head_bytes(("Expires").spec_bytes(), Some(tm_bytes(*t))));
            }
        },
        None => {},
    }
    out
}

/// Render the `Max-Age` attribute.
fn render_max_age(a: &Option<u32>) -> (r: Vec<u8>)
    ensures
        r@ == (match *a {
            Some(n) => head_bytes(("Max-Age").spec_bytes(), Some(dec_bytes(n as nat))),
            None => Seq::<u8>::empty(),
        }),
{
    let mut out: Vec<u8> = Vec::new();
    match a {
        Some(n) => {
            push_str_bytes(&mut out, "; ");
            push_str_bytes(&mut out, "Max-Age");
            push_str_bytes(&mut out, "=");
            push_dec(&mut out, *n);
            proof {
                assert(out@ =~= head_bytes(("Max-Age").spec_bytes(), Some(dec_bytes(*n as nat))));
            }
        },
        None => {},
    }
    out
}

/// Render a named string attribute such as `Domain` or `Path`; its value
/// goes out as it stands.
fn render_named(v: &Option<String>, name: &str) -> (r: Vec<u8>)
    ensures
        r@ == (match *v {
            Some(ref d) => head_bytes(name.spec_bytes(), Some(encode_utf8(d@))),
            None => Seq::<u8>::empty(),
        }),
{
    let mut out: Vec<u8> = Vec::new();
    match v {
        Some(d) => {
            push_str_bytes(&mut out, "; ");
            push_str_bytes(&mut out, name);
            push_str_bytes(&mut out, "=");
            push_str_bytes(&mut out, d.as_str());
            proof {
                assert(out@ =~= head_bytes(name.spec_bytes(), Some(encode_utf8(d@))));
            }
        },
        None => {},
    }
    out
}

/// Render a flag attribute, written whole when set.
fn render_flag(on: bool, text: &str) -> (r: Vec<u8>)
    ensures
        r@ == (if on {
            text.spec_bytes()
        } else {
            Seq::<u8>::empty()
        }),
{
    let mut out: Vec<u8> = Vec::new();
    if on {
        push_str_bytes(&mut out, text);
    }
    out
}

/// Render the extension attributes in their stored order.
fn render_extensions(e: &Option<Extensions>) -> (r: Vec<u8>)
    ensures
        r@ == (match *e {
            Some(ref exts) => exts_bytes(exts.spec_entries(), 0),
            None => Seq::<u8>::empty(),
        }),
{
    let mut out: Vec<u8> = Vec::new();
    match e {
        Some(exts) => {
            let n = exts.entries.len();
            let mut i: usize = 0;
            while i < n
                invariant
                    i <= n,
                    n == exts.entries@.len(),
                    exts_bytes(exts.spec_entries(), 0) =~= out@ + exts_bytes(
                        exts.spec_entries(),
                        i as int,
                    ),
                decreases n - i,
            {
                let piece = extension(&exts.entries[i].0, clone_opt_string(&exts.entries[i].1));
                out.extend_from_slice(piece.as_str().as_bytes());
                proof {
                    assert(exts_bytes(exts.spec_entries(), i as int) == encode_utf8(piece@)
                        + exts_bytes(exts.spec_entries(), i + 1));
                }
                i = i + 1;
            }
            proof {
                assert(exts_bytes(exts.spec_entries(), n as int) =~= Seq::<u8>::empty());
            }
        },
        None => {},
    }
    out
}

/// Copy an optional string.
fn clone_opt_string(o: &Option<String>) -> (r: Option<String>)
    ensures
        r == *o,
{
    match o {
        Some(s) => Some(s.clone()),
        None => None,
    }
}

/// The rendered cookie pair: percent-encoded key and value around `=`;
/// with a secret, the value is tagged `s:` and followed by a dot and the
/// signature over the raw value bytes.
pub open spec fn pair_bytes(
    kb: Seq<u8>,
    vb: Seq<u8>,
    secret: Option<Seq<char>>,
    alg: SigAlg,
) -> Seq<u8> {
    match secret {
        None => pct_encode(kb) + seq![61u8] + pct_encode(vb),
        Some(sec) => pct_encode(kb) + seq![61u8, 115u8, 58u8] + pct_encode(vb) + seq![46u8]
            + spec_signature(alg, encode_utf8(sec), vb),
    }
}

/// A whole `Set-Cookie` value: the pair followed by the attribute suffix.
pub open spec fn set_cookie_bytes(
    kb: Seq<u8>,
    vb: Seq<u8>,
    secret: Option<Seq<char>>,
    alg: SigAlg,
    options: HeaderCollection,
) -> Seq<u8> {
    pair_bytes(kb, vb, secret, alg) + av_bytes(options)
}

/// The value bytes a JSON cookie carries: the `j:` tag and the compact
/// serialization.
pub open spec fn json_value_bytes(v: JsonValue) -> Seq<u8> {
    seq![106u8, 58u8] + json_bytes(v)
}

/// Decimal renderings hold ASCII digits only.
proof fn lemma_dec_bytes_ascii(n: nat)
    ensures
        all_ascii(dec_bytes(n)),
    decreases n,
{
    if n >= 10 {
        lemma_dec_bytes_ascii(n / 10);
        assert forall|i: int| 0 <= i < dec_bytes(n).len() implies dec_bytes(n)[i] < 128 by {
            if i < dec_bytes(n / 10).len() {
                assert(dec_bytes(n)[i] == dec_bytes(n / 10)[i]);
            }
        }
    }
}

/// A rendered date is valid UTF-8.
proof fn lemma_tm_bytes_valid(t: Tm)
    ensures
        valid_utf8(tm_bytes(t)),
{
    broadcast use valid_utf8_concat, encode_utf8_valid_utf8;

    lemma_dec_bytes_ascii(t.year as nat);
    lemma_ascii_valid_utf8(dec_bytes(t.year as nat));
    lemma_ascii_valid_utf8(pad2(t.mday));
    lemma_ascii_valid_utf8(pad2(t.hour));
    lemma_ascii_valid_utf8(pad2(t.min));
    lemma_ascii_valid_utf8(pad2(t.sec));
    let a1 = wday_name(t.wday) + (", ").spec_bytes();
    let a2 = a1 + pad2(t.mday);
    let a3 = a2 + (" ").spec_bytes();
    let a4 = a3 + month_name(t.month);
    let a5 = a4 + (" ").spec_bytes();
    let a6 = a5 + dec_bytes(t.year as nat);
    let a7 = a6 + (" ").spec_bytes();
    let a8 = a7 + pad2(t.hour);
    let a9 = a8 + (":").spec_bytes();
    let a10 = a9 + pad2(t.min);
    let a11 = a10 + (":").spec_bytes();
    let a12 = a11 + pad2(t.sec);
    assert(valid_utf8(a1));
    assert(valid_utf8(a2));
    assert(valid_utf8(a3));
    assert(valid_utf8(a4));
    assert(valid_utf8(a5));
    assert(valid_utf8(a6));
    assert(valid_utf8(a7));
    assert(valid_utf8(a8));
    assert(valid_utf8(a9));
    assert(valid_utf8(a10));
    assert(valid_utf8(a11));
    assert(valid_utf8(a12));
    assert(valid_utf8(a12 + (" GMT").spec_bytes()));
    assert(tm_bytes(t) == a12 + (" GMT").spec_bytes());
}

/// One rendered attribute is valid UTF-8 when its pieces are.
proof fn lemma_head_bytes_valid(name: Seq<u8>, value: Option<Seq<u8>>)
    requires
        valid_utf8(name),
        match value {
            Some(v) => valid_utf8(v),
            None => true,
        },
    ensures
        valid_utf8(head_bytes(name, value)),
{
    broadcast use valid_utf8_concat, encode_utf8_valid_utf8;

    match value {
        Some(v) => {
            assert(valid_utf8(("; ").spec_bytes() + name));
            assert(valid_utf8(("; ").spec_bytes() + name + ("=").spec_bytes()));
            assert(valid_utf8(("; ").spec_bytes() + name + ("=").spec_bytes() + v));
        },
        None => {
            lemma_ascii_valid_utf8(Seq::<u8>::empty());
        },
    }
}

/// The rendered extension entries are valid UTF-8.
proof fn lemma_exts_bytes_valid(s: Seq<(String, Option<String>)>, i: int)
    ensures
        valid_utf8(exts_bytes(s, i)),
    decreases s.len() - i,
{
    broadcast use valid_utf8_concat, encode_utf8_valid_utf8;

    lemma_ascii_valid_utf8(Seq::<u8>::empty());
    if 0 <= i < s.len() {
        lemma_exts_bytes_valid(s, i + 1);
        let nb = encode_utf8(s[i].0@);
        match s[i].1 {
            Some(v) => {
                lemma_head_bytes_valid(nb, Some(encode_utf8(v@)));
            },
            None => {
                assert(valid_utf8(("; ").spec_bytes() + nb));
            },
        }
    }
}

/// A rendered attribute suffix is valid UTF-8.
pub proof fn lemma_av_bytes_valid(h: HeaderCollection)
    ensures
        valid_utf8(av_bytes(h)),
{
    broadcast use valid_utf8_concat, encode_utf8_valid_utf8;

    lemma_ascii_valid_utf8(Seq::<u8>::empty());
    let p1: Seq<u8> = match h.expires {
        Some(t) => head_bytes(("Expires").spec_bytes(), Some(tm_bytes(t))),
        None => Seq::<u8>::empty(),
    };
    let p2: Seq<u8> = match h.max_age {
        Some(n) => head_bytes(("Max-Age").spec_bytes(), Some(dec_bytes(n as nat))),
        None => Seq::<u8>::empty(),
    };
    let p3: Seq<u8> = match h.domain {
        Some(ref d) => head_bytes(("Domain").spec_bytes(), Some(encode_utf8(d@))),
        None => Seq::<u8>::empty(),
    };
    let p4: Seq<u8> = match h.path {
        Some(ref p) => head_bytes(("Path").spec_bytes(), Some(encode_utf8(p@))),
        None => Seq::<u8>::empty(),
    };
    let p5: Seq<u8> = if h.secure {
        ("; Secure").spec_bytes()
    } else {
        Seq::<u8>::empty()
    };
    let p6: Seq<u8> = if h.http_only {
        ("; Http-Only").spec_bytes()
    } else {
        Seq::<u8>::empty()
    };
    let p7: Seq<u8> = match h.extensions {
        Some(ref e) => exts_bytes(e.spec_entries(), 0),
        None => Seq::<u8>::empty(),
    };
    match h.expires {
        Some(t) => {
            lemma_tm_bytes_valid(t);
            lemma_head_bytes_valid(("Expires").spec_bytes(), Some(tm_bytes(t)));
        },
        None => {},
    }
    match h.max_age {
        Some(n) => {
            lemma_dec_bytes_ascii(n as nat);
            lemma_ascii_valid_utf8(dec_bytes(n as nat));
            lemma_head_bytes_valid(("Max-Age").spec_bytes(), Some(dec_bytes(n as nat)));
        },
        None => {},
    }
    match h.domain {
        Some(ref d) => {
            lemma_head_bytes_valid(("Domain").spec_bytes(), Some(encode_utf8(d@)));
        },
        None => {},
    }
    match h.path {
        Some(ref p) => {
            lemma_head_bytes_valid(("Path").spec_bytes(), Some(encode_utf8(p@)));
        },
        None => {},
    }
    match h.extensions {
        Some(ref e) => {
            lemma_exts_bytes_valid(e.spec_entries(), 0);
        },
        None => {},
    }
    assert(valid_utf8(p1 + p2));
    assert(valid_utf8((p1 + p2) + p3));
    assert(valid_utf8(((p1 + p2) + p3) + p4));
    assert(valid_utf8((((p1 + p2) + p3) + p4) + p5));
    assert(valid_utf8(((((p1 + p2) + p3) + p4) + p5) + p6));
    assert(valid_utf8((((((p1 + p2) + p3) + p4) + p5) + p6) + p7));
    assert(av_bytes(h) == (((((p1 + p2) + p3) + p4) + p5) + p6) + p7);
}

/// Percent-encoded output is all ASCII.
pub proof fn lemma_pct_encode_ascii(s: Seq<u8>)
    ensures
        all_ascii(pct_encode(s)),
{
    lemma_pct_encode_wire(s);
    assert forall|i: int| 0 <= i < pct_encode(s).len() implies pct_encode(s)[i] < 128 by {
        assert(is_wire_byte(pct_encode(s)[i]));
    }
}

/// A whole rendered `Set-Cookie` value is valid UTF-8.
pub proof fn lemma_set_cookie_bytes_valid(
    kb: Seq<u8>,
    vb: Seq<u8>,
    secret: Option<Seq<char>>,
    alg: SigAlg,
    options: HeaderCollection,
)
    ensures
        valid_utf8(set_cookie_bytes(kb, vb, secret, alg, options)),
{
    broadcast use valid_utf8_concat;

    lemma_pct_encode_ascii(kb);
    lemma_pct_encode_ascii(vb);
    lemma_ascii_valid_utf8(pct_encode(kb));
    lemma_ascii_valid_utf8(pct_encode(vb));
    lemma_av_bytes_valid(options);
    match secret {
        None => {
            lemma_ascii_valid_utf8(seq![61u8]);
            assert(valid_utf8(pct_encode(kb) + seq![61u8]));
            assert(valid_utf8(pct_encode(kb) + seq![61u8] + pct_encode(vb)));
        },
        Some(sec) => {
            lemma_ascii_valid_utf8(seq![61u8, 115u8, 58u8]);
            lemma_ascii_valid_utf8(seq![46u8]);
            let sig = spec_signature(alg, encode_utf8(sec), vb);
            crate::signer::lemma_signature_digits(alg, encode_utf8(sec), vb);
            assert forall|i: int| 0 <= i < sig.len() implies sig[i] < 128 by {
                assert(crate::text::is_lower_hex_byte(sig[i]));
            }
            lemma_ascii_valid_utf8(sig);
            assert(valid_utf8(pct_encode(kb) + seq![61u8, 115u8, 58u8]));
            assert(valid_utf8(pct_encode(kb) + seq![61u8, 115u8, 58u8] + pct_encode(vb)));
            assert(valid_utf8(pct_encode(kb) + seq![61u8, 115u8, 58u8] + pct_encode(vb) + seq![
                46u8,
            ]));
            assert(valid_utf8(pct_encode(kb) + seq![61u8, 115u8, 58u8] + pct_encode(vb) + seq![46u8]
                + sig));
        },
    }
}

/// An outgoing response, as far as this codec touches one: its headers.
pub struct Response {
    /// Response headers by name; this codec writes `Set-Cookie`.
    pub headers: crate::cookie::StrMap,
}

impl Response {
    /// A response with no headers yet.
    pub fn new() -> (r: Response)
        ensures
            r.headers@ == Map::<Seq<char>, Seq<char>>::empty(),
            r.headers.wf(),
    {
        Response { headers: crate::cookie::StrMap::new() }
    }
}

/// Set cookies.
///
/// Mixed into a response type, this renders a cookie pair and its
/// attributes into that response's `Set-Cookie` header. One value is
/// tracked per response: a second call overwrites the first.
pub trait SetCookie {
    /// The sink keeps its own well-formedness across calls.
    spec fn spec_wf(&self) -> bool;

    /// The sink's headers by name.
    spec fn spec_headers(&self) -> Map<Seq<char>, Seq<char>>;

    /// The `Set-Cookie` value this sink currently holds.
    spec fn spec_set_cookie(&self) -> Option<Seq<char>>;

    /// Set a cookie.
    ///
    /// The key and value are percent-encoded on the way out, and the
    /// value is signed when the signer holds a secret. The rendered
    /// attributes follow.
    fn set_cookie(&mut self, signer: &Cookie, pair: (String, String), options: HeaderCollection)
        requires
            old(self).spec_wf(),
        ensures
            final(self).spec_wf(),
            final(self).spec_set_cookie() == Some(
                decode_utf8(
                    set_cookie_bytes(
                        encode_utf8(pair.0@),
                        encode_utf8(pair.1@),
                        signer.spec_secret(),
                        signer.spec_alg(),
                        options,
                    ),
                ),
            ),
            final(self).spec_headers() == old(self).spec_headers().insert(
                ("Set-Cookie")@,
                decode_utf8(
                    set_cookie_bytes(
                        encode_utf8(pair.0@),
                        encode_utf8(pair.1@),
                        signer.spec_secret(),
                        signer.spec_alg(),
                        options,
                    ),
                ),
            ),
    ;

    /// Set a cookie with a well-formed JSON value.
    ///
    /// The value is serialized compactly with sorted object keys, tagged
    /// `j:`, and then treated exactly as a plain value: the signature,
    /// when one is made, wraps the whole tagged payload.
    fn set_json_cookie(
        &mut self,
        signer: &Cookie,
        pair: (String, JsonValue),
        options: HeaderCollection,
    )
        requires
            old(self).spec_wf(),
            crate::json::json_wf(pair.1),
        ensures
            final(self).spec_wf(),
            final(self).spec_set_cookie() == Some(
                decode_utf8(
                    set_cookie_bytes(
                        encode_utf8(pair.0@),
                        json_value_bytes(pair.1),
                        signer.spec_secret(),
                        signer.spec_alg(),
                        options,
                    ),
                ),
            ),
            final(self).spec_headers() == old(self).spec_headers().insert(
                ("Set-Cookie")@,
                decode_utf8(
                    set_cookie_bytes(
                        encode_utf8(pair.0@),
                        json_value_bytes(pair.1),
                        signer.spec_secret(),
                        signer.spec_alg(),
                        options,
                    ),
                ),
            ),
    ;
}

impl SetCookie for Response {
    open spec fn spec_wf(&self) -> bool {
        self.headers.wf()
    }

    open spec fn spec_headers(&self) -> Map<Seq<char>, Seq<char>> {
        self.headers@
    }

    open spec fn spec_set_cookie(&self) -> Option<Seq<char>> {
        if self.headers@.contains_key(("Set-Cookie")@) {
            Some(self.headers@[("Set-Cookie")@])
        } else {
            None
        }
    }

    fn set_cookie(&mut self, signer: &Cookie, pair: (String, String), options: HeaderCollection) {
        let (key, value) = pair;
        let ghost kb = encode_utf8(key@);
        let ghost vb = encode_utf8(value@);
        let ghost opts = options;
        let mut wire: Vec<u8> = percent_encode(key.as_str().as_bytes());
        match signer.sign(&value) {
            Some(signature) => {
                wire.push(61);
                wire.push(115);
                wire.push(58);
                let ev = percent_encode(value.as_str().as_bytes());
                wire.extend_from_slice(ev.as_slice());
                wire.push(46);
                wire.extend_from_slice(signature.as_str().as_bytes());
                proof {
                    let sec = signer.spec_secret()->0;
                    let sig = spec_signature(signer.spec_alg(), encode_utf8(sec), vb);
                    crate::signer::lemma_signature_digits(signer.spec_alg(), encode_utf8(sec), vb);
                    assert forall|i: int| 0 <= i < sig.len() implies sig[i] < 128 by {
                        assert(crate::text::is_lower_hex_byte(sig[i]));
                    }
                    crate::text::lemma_ascii_bytes_chars(sig);
                    assert(signature@ == chars_of_bytes(sig));
                    assert(encode_utf8(signature@) == sig);
                    assert(wire@ =~= pair_bytes(kb, vb, signer.spec_secret(), signer.spec_alg()));
                }
            },
            None => {
                wire.push(61);
                let ev = percent_encode(value.as_str().as_bytes());
                wire.extend_from_slice(ev.as_slice());
                proof {
                    assert(wire@ =~= pair_bytes(kb, vb, signer.spec_secret(), signer.spec_alg()));
                }
            },
        }
        let av = options.to_cookie_av();
        push_str_bytes(&mut wire, av.as_str());
        proof {
            assert(wire@ =~= set_cookie_bytes(kb, vb, signer.spec_secret(), signer.spec_alg(), opts));
            lemma_set_cookie_bytes_valid(kb, vb, signer.spec_secret(), signer.spec_alg(), opts);
        }
        let rendered = utf8_or_empty(wire);
        let name = crate::text::string_from_str("Set-Cookie");
        self.headers.insert(name, rendered);
    }

    fn set_json_cookie(
        &mut self,
        signer: &Cookie,
        pair: (String, JsonValue),
        options: HeaderCollection,
    ) {
        let (key, value) = pair;
        let ghost jvb = json_value_bytes(value);
        let text = stringify_json(&value);
        let mut vb: Vec<u8> = Vec::new();
        vb.push(106);
        vb.push(58);
        push_str_bytes(&mut vb, text.as_str());
        proof {
            assert(vb@ =~= jvb);
            broadcast use valid_utf8_concat;

            lemma_ascii_valid_utf8(seq![106u8, 58u8]);
            crate::json::lemma_json_bytes_utf8(value);
            assert(valid_utf8(seq![106u8, 58u8] + json_bytes(value)));
            decode_utf8_encode_utf8(jvb);
        }
        let tagged = utf8_or_empty(vb);
        proof {
            assert(encode_utf8(tagged@) == jvb);
        }
        self.set_cookie(signer, (key, tagged), options);
    }
}

} // verus!
