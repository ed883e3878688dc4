//! The parsed cookie record: plain string pairs, a JSON object of tagged
//! values, and the signing context used to produce and re-sign them.

use vstd::prelude::*;
use vstd::utf8::*;
use crate::json::JsonValue;
use crate::signer::{signature_bytes, spec_signature, SigAlg};
use crate::sorted::{
    lemma_insert_pair_sorted, lemma_pairs_map_props, lemma_sorted_distinct, pairs_map, sorted_keys,
    vec_insert_sorted,
};
use crate::text::{
    all_ascii, bytes_to_string, chars_of_bytes, is_lower_hex_byte, lemma_ascii_valid_utf8, str_eq,
};

verus! {

/// A string-keyed map with unique keys, kept sorted by key.
pub struct StrMap {
    entries: Vec<(String, String)>,
}

impl View for StrMap {
    type V = Map<Seq<char>, Seq<char>>;

    closed spec fn view(&self) -> Map<Seq<char>, Seq<char>> {
        pairs_map(self.entries@).map_values(|v: String| v@)
    }
}

impl StrMap {
    /// The entries are kept sorted by key; constructors establish this and
    /// every method preserves it.
    pub closed spec fn wf(self) -> bool {
        sorted_keys(self.entries@)
    }

    /// An empty map.
    pub fn new() -> (r: StrMap)
        ensures
            r@ == Map::<Seq<char>, Seq<char>>::empty(),
            r.wf(),
    {
        let r = StrMap { entries: Vec::new() };
        proof {
            assert(r@ =~= Map::<Seq<char>, Seq<char>>::empty());
        }
        r
    }

    /// Insert a pair, replacing any pair with the same key.
    pub fn insert(&mut self, k: String, v: String)
        requires
            old(self).wf(),
        ensures
            final(self)@ == old(self)@.insert(k@, v@),
            final(self).wf(),
    {
        proof {
            lemma_insert_pair_sorted(self.entries@, k, v);
        }
        let ghost kv = k@;
        let ghost vv = v@;
        vec_insert_sorted(&mut self.entries, k, v);
        proof {
            assert(self@ =~= old(self)@.insert(kv, vv));
        }
    }

    /// Look a key up.
    #[verifier::loop_isolation(false)]
    pub fn get(&self, k: &str) -> (r: Option<&String>)
        requires
            self.wf(),
        ensures
            match r {
                Some(v) => self@.contains_key(k@) && self@[k@] == v@,
                None => !self@.contains_key(k@),
            },
    {
        proof {
            lemma_sorted_distinct(self.entries@);
            lemma_pairs_map_props(self.entries@);
        }
        let n = self.entries.len();
        let mut i: usize = 0;
        while i < n
            invariant
                i <= n,
                forall|j: int| 0 <= j < i ==> (#[trigger] self.entries@[j].0@) != k@,
            decreases n - i,
        {
            if str_eq(self.entries[i].0.as_str(), k) {
                proof {
                    assert(pairs_map(self.entries@)[k@] == self.entries@[i as int].1);
                }
                return Some(&self.entries[i].1);
            }
            i = i + 1;
        }
        proof {
            if self@.contains_key(k@) {
                let j = choose|j: int|
                    0 <= j < self.entries@.len() && (#[trigger] self.entries@[j].0@) == k@;
            }
        }
        None
    }

    /// Remove a key's pair, if one is present.
    pub fn remove(&mut self, k: &str)
        requires
            old(self).wf(),
        ensures
            final(self)@ == old(self)@.remove(k@),
            final(self).wf(),
    {
        proof {
            crate::sorted::lemma_remove_pair_sorted(self.entries@, k@);
        }
        crate::sorted::vec_remove_key(&mut self.entries, k);
        proof {
            assert(self@ =~= old(self)@.remove(k@));
        }
    }

    /// The number of pairs held.
    pub fn len(&self) -> (r: usize)
        requires
            self.wf(),
        ensures
            r == self@.dom().len(),
    {
        proof {
            lemma_sorted_distinct(self.entries@);
            lemma_pairs_map_props(self.entries@);
            assert(self@.dom() =~= pairs_map(self.entries@).dom());
        }
        self.entries.len()
    }
}

/// The parsed cookie.
///
/// Holds the decoded plain pairs, the JSON object gathered from
/// `j:`-tagged values, and the signing context (secret and digest choice)
/// the decoder was configured with, so a response can be signed the same
/// way.
pub struct Cookie {
    /// True to set and get signed cookies only.
    pub signed: bool,
    secret: Option<String>,
    alg: SigAlg,
    /// The parsed cookie pairs.
    pub map: StrMap,
    /// JSON-tagged cookie values, gathered into a single object.
    pub json: JsonValue,
}

impl Cookie {
    /// The configured secret, as characters.
    pub closed spec fn spec_secret(&self) -> Option<Seq<char>> {
        match self.secret {
            Some(s) => Some(s@),
            None => None,
        }
    }

    /// The digest this cookie's signer uses.
    pub closed spec fn spec_alg(&self) -> SigAlg {
        self.alg
    }

    /// The signed flag, for contracts written outside this module.
    pub closed spec fn spec_signed(&self) -> bool {
        self.signed
    }

    /// The map of plain pairs, for contracts written outside this module.
    pub closed spec fn spec_map(&self) -> Map<Seq<char>, Seq<char>> {
        self.map@
    }

    /// The JSON object, for contracts written outside this module.
    pub closed spec fn spec_json(&self) -> JsonValue {
        self.json
    }

    /// A cookie record is well formed when its signed flag reflects the
    /// presence of a secret, its map keeps its keys unique, and its JSON
    /// part is a well-formed object.
    pub closed spec fn wf(&self) -> bool {
        &&& self.signed == (self.spec_secret() is Some)
        &&& self.map.wf()
        &&& self.json is Obj
        &&& crate::json::json_wf(self.json)
    }

    /// The signature characters this cookie's signer produces over a
    /// payload, when a secret is present.
    pub open spec fn spec_sign(&self, payload: Seq<char>) -> Option<Seq<char>> {
        match self.spec_secret() {
            Some(sec) => Some(
                chars_of_bytes(
                    spec_signature(self.spec_alg(), encode_utf8(sec), encode_utf8(payload)),
                ),
            ),
            None => None,
        }
    }

    fn make(secret: Option<String>, alg: SigAlg) -> (r: Cookie)
        ensures
            r.signed == (secret is Some),
            r.spec_secret() == secret.deep_view(),
            r.spec_alg() == alg,
            r.map@ == Map::<Seq<char>, Seq<char>>::empty(),
            r.json is Obj,
            crate::json::obj_entries(r.json) == Seq::<(String, JsonValue)>::empty(),
            r.wf(),
    {
        let signed = secret.is_some();
        let json = JsonValue::Obj(Vec::new());
        proof {
            assert(crate::json::json_wf(json));
        }
        Cookie { signed, secret, alg, map: StrMap::new(), json }
    }

    /// Create a new cookie record.
    ///
    /// With a secret, signatures are authenticated with HMAC SHA-256.
    pub fn new(secret: Option<String>) -> (r: Cookie)
        ensures
            r.spec_signed() == (secret is Some),
            r.spec_secret() == secret.deep_view(),
            r.spec_alg() == SigAlg::HmacSha256,
            r.spec_map() == Map::<Seq<char>, Seq<char>>::empty(),
            r.spec_json() is Obj,
            crate::json::obj_entries(r.spec_json()) == Seq::<(String, JsonValue)>::empty(),
            r.wf(),
    {
        Cookie::make(secret, SigAlg::HmacSha256)
    }

    /// Create a cookie record whose signer uses the legacy digest: a bare
    /// SHA-256 over the secret followed by the payload.
    pub fn new_legacy(secret: Option<String>) -> (r: Cookie)
        ensures
            r.spec_signed() == (secret is Some),
            r.spec_secret() == secret.deep_view(),
            r.spec_alg() == SigAlg::LegacySha256,
            r.spec_map() == Map::<Seq<char>, Seq<char>>::empty(),
            r.spec_json() is Obj,
            crate::json::obj_entries(r.spec_json()) == Seq::<(String, JsonValue)>::empty(),
            r.wf(),
    {
        Cookie::make(secret, SigAlg::LegacySha256)
    }

    /// Assemble a parsed record from its parts; the decoder builds its
    /// containers first and wraps them here.
    pub fn from_parts(
        secret: Option<String>,
        alg: SigAlg,
        map: StrMap,
        json_pairs: Vec<(String, JsonValue)>,
    ) -> (r: Cookie)
        requires
            map.wf(),
            crate::json::obj_pairs_wf(json_pairs),
        ensures
            r.spec_signed() == (secret is Some),
            r.spec_secret() == secret.deep_view(),
            r.spec_alg() == alg,
            r.spec_map() == map@,
            r.spec_json() is Obj,
            crate::json::obj_entries(r.spec_json()) == json_pairs@,
            r.wf(),
    {
        let signed = secret.is_some();
        Cookie { signed, secret, alg, map, json: JsonValue::Obj(json_pairs) }
    }

    /// Encode your signature: the configured digest over the value as 64
    /// lowercase hexadecimal characters, or nothing when no secret is
    /// configured.
    pub fn sign(&self, value: &String) -> (r: Option<String>)
        ensures
            match r {
                Some(sig) => self.spec_sign(value@) == Some(sig@) && sig@.len() == 64,
                None => self.spec_secret() is None && self.spec_sign(value@) is None,
            },
    {
        match &self.secret {
            Some(s) => {
                let sig = signature_bytes(
                    self.alg,
                    s.as_str().as_bytes(),
                    value.as_str().as_bytes(),
                );
                proof {
                    crate::signer::lemma_signature_digits(
                        self.alg,
                        encode_utf8(s@),
                        encode_utf8(value@),
                    );
                    assert forall|i: int| 0 <= i < sig@.len() implies sig@[i] < 128 by {
                        assert(is_lower_hex_byte(sig@[i]));
                    }
                    assert(all_ascii(sig@));
                    lemma_ascii_valid_utf8(sig@);
                }
                Some(bytes_to_string(sig))
            },
            None => None,
        }
    }
}

} // verus!
