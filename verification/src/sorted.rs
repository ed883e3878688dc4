//! Association lists keyed by strings: a byte-wise lexicographic order,
//! insertion that keeps entries sorted and keys unique (the behaviour of an
//! ordered map), and the finite map such a list stands for.

use vstd::prelude::*;
use vstd::utf8::*;
use crate::text::{lemma_encode_utf8_injective, str_eq};

verus! {

/// Strict byte-wise lexicographic order; a proper prefix comes first.
pub open spec fn lex_lt(a: Seq<u8>, b: Seq<u8>) -> bool
    decreases a.len(),
{
    if b.len() == 0 {
        false
    } else if a.len() == 0 {
        true
    } else if a[0] < b[0] {
        true
    } else if a[0] > b[0] {
        false
    } else {
        lex_lt(a.drop_first(), b.drop_first())
    }
}

pub proof fn lemma_lex_irrefl(a: Seq<u8>)
    ensures
        !lex_lt(a, a),
    decreases a.len(),
{
    if a.len() > 0 {
        lemma_lex_irrefl(a.drop_first());
    }
}

pub proof fn lemma_lex_trichotomy(a: Seq<u8>, b: Seq<u8>)
    ensures
        lex_lt(a, b) || lex_lt(b, a) || a == b,
    decreases a.len(),
{
    if a.len() > 0 && b.len() > 0 && a[0] == b[0] {
        lemma_lex_trichotomy(a.drop_first(), b.drop_first());
        if a.drop_first() == b.drop_first() {
            assert(a.len() == b.len());
            assert forall|i: int| 0 <= i < a.len() implies a[i] == b[i] by {
                if i > 0 {
                    assert(a[i] == a.drop_first()[i - 1]);
                    assert(b[i] == b.drop_first()[i - 1]);
                }
            }
            assert(a =~= b);
        }
    }
}

pub proof fn lemma_lex_trans(a: Seq<u8>, b: Seq<u8>, c: Seq<u8>)
    requires
        lex_lt(a, b),
        lex_lt(b, c),
    ensures
        lex_lt(a, c),
    decreases a.len(),
{
    if a.len() > 0 && b.len() > 0 && c.len() > 0 {
        if a[0] == b[0] && b[0] == c[0] {
            lemma_lex_trans(a.drop_first(), b.drop_first(), c.drop_first());
        }
    }
}

/// Compare two byte strings in lexicographic order.
pub fn bytes_lt(a: &[u8], b: &[u8]) -> (r: bool)
    ensures
        r == lex_lt(a@, b@),
{
    let na = a.len();
    let nb = b.len();
    let mut i: usize = 0;
    proof {
        assert(a@.skip(0) =~= a@);
        assert(b@.skip(0) =~= b@);
    }
    while i < na && i < nb
        invariant
            i <= na && i <= nb,
            na == a@.len() && nb == b@.len(),
            lex_lt(a@, b@) == lex_lt(a@.skip(i as int), b@.skip(i as int)),
        decreases na - i,
    {
        let ghost (ta, tb) = (a@.skip(i as int), b@.skip(i as int));
        proof {
            assert(ta[0] == a@[i as int] && tb[0] == b@[i as int]);
            assert(ta.drop_first() =~= a@.skip(i + 1));
            assert(tb.drop_first() =~= b@.skip(i + 1));
        }
        if a[i] < b[i] {
            return true;
        }
        if a[i] > b[i] {
            return false;
        }
        i = i + 1;
    }
    proof {
        if i == na {
            assert(a@.skip(i as int) =~= Seq::<u8>::empty());
        } else {
            assert(b@.skip(i as int) =~= Seq::<u8>::empty());
        }
    }
    i == na && i < nb
}

/// The bytes of a string's UTF-8 form, used as its sort key.
pub open spec fn key_bytes(s: Seq<char>) -> Seq<u8> {
    encode_utf8(s)
}

/// Entries strictly sorted by key, which also makes the keys unique.
pub open spec fn sorted_keys<V>(s: Seq<(String, V)>) -> bool {
    forall|i: int, j: int|
        0 <= i < j < s.len() ==> lex_lt(
            key_bytes(#[trigger] s[i].0@),
            key_bytes(#[trigger] s[j].0@),
        )
}

/// No two entries share a key.
pub open spec fn distinct_keys<V>(s: Seq<(String, V)>) -> bool {
    forall|i: int, j: int| 0 <= i < j < s.len() ==> (#[trigger] s[i].0@) != (#[trigger] s[j].0@)
}

pub proof fn lemma_sorted_distinct<V>(s: Seq<(String, V)>)
    requires
        sorted_keys(s),
    ensures
        distinct_keys(s),
{
    assert forall|i: int, j: int| 0 <= i < j < s.len() implies (#[trigger] s[i].0@)
        != (#[trigger] s[j].0@) by {
        lemma_lex_irrefl(key_bytes(s[i].0@));
    }
}

/// Insertion into a sorted association list: an entry with the same key is
/// replaced in place, otherwise the new entry enters before the first
/// larger key.
pub open spec fn insert_pair_sorted<V>(s: Seq<(String, V)>, k: String, x: V) -> Seq<(String, V)>
    decreases s.len(),
{
    if s.len() == 0 {
        seq![(k, x)]
    } else if k@ == s[0].0@ {
        seq![(k, x)] + s.drop_first()
    } else if lex_lt(key_bytes(k@), key_bytes(s[0].0@)) {
        seq![(k, x)] + s
    } else {
        seq![s[0]] + insert_pair_sorted(s.drop_first(), k, x)
    }
}

/// The finite map an association list stands for; a later entry overrides
/// an earlier one with the same key.
pub open spec fn pairs_map<V>(s: Seq<(String, V)>) -> Map<Seq<char>, V>
    decreases s.len(),
{
    if s.len() == 0 {
        Map::<Seq<char>, V>::empty()
    } else {
        pairs_map(s.drop_last()).insert(s.last().0@, s.last().1)
    }
}

/// With distinct keys the map reads off the entries pointwise.
pub proof fn lemma_pairs_map_props<V>(s: Seq<(String, V)>)
    requires
        distinct_keys(s),
    ensures
        forall|k: Seq<char>|
            pairs_map(s).contains_key(k) <==> exists|i: int|
                0 <= i < s.len() && (#[trigger] s[i].0@) == k,
        forall|i: int|
            0 <= i < s.len() ==> pairs_map(s).contains_key(#[trigger] s[i].0@) && pairs_map(s)[s[i].0@]
                == s[i].1,
        pairs_map(s).dom().finite(),
        pairs_map(s).dom().len() == s.len(),
    decreases s.len(),
{
    if s.len() > 0 {
        let t = s.drop_last();
        lemma_pairs_map_props(t);
        assert(forall|i: int| 0 <= i < t.len() ==> #[trigger] t[i] == s[i]);
        let lk = s.last().0@;
        assert(!pairs_map(t).contains_key(lk)) by {
            if pairs_map(t).contains_key(lk) {
                let i = choose|i: int| 0 <= i < t.len() && (#[trigger] t[i].0@) == lk;
                assert(s[i].0@ == s[s.len() - 1].0@);
            }
        }
        assert(pairs_map(s).dom() =~= pairs_map(t).dom().insert(lk));
        vstd::set::axiom_set_insert_len(pairs_map(t).dom(), lk);
        assert forall|k: Seq<char>| pairs_map(s).contains_key(k) implies exists|i: int|
            0 <= i < s.len() && (#[trigger] s[i].0@) == k by {
            if k == lk {
                assert(s[s.len() - 1].0@ == k);
            } else {
                let i = choose|i: int| 0 <= i < t.len() && (#[trigger] t[i].0@) == k;
                assert(s[i].0@ == k);
            }
        }
        assert forall|i: int|
            0 <= i < s.len() implies pairs_map(s).contains_key(#[trigger] s[i].0@) && pairs_map(
            s,
        )[s[i].0@] == s[i].1 by {
            if i < s.len() - 1 {
                assert(t[i] == s[i]);
                assert(s[i].0@ != lk);
                assert(pairs_map(t)[t[i].0@] == t[i].1);
            }
        }
    }
}

/// Prepending an entry whose key occurs nowhere in the list inserts it
/// into the list's map.
pub proof fn lemma_pairs_map_prepend<V>(a: (String, V), t: Seq<(String, V)>)
    requires
        forall|m: int| 0 <= m < t.len() ==> (#[trigger] t[m].0@) != a.0@,
    ensures
        pairs_map(seq![a] + t) == pairs_map(t).insert(a.0@, a.1),
    decreases t.len(),
{
    let u = seq![a] + t;
    if t.len() == 0 {
        assert(u.len() == 1);
        assert(u.last() == a);
        assert(u.drop_last() =~= Seq::<(String, V)>::empty());
        assert(pairs_map(u) == pairs_map(u.drop_last()).insert(a.0@, a.1));
        assert(pairs_map(u.drop_last()) == Map::<Seq<char>, V>::empty());
        assert(pairs_map(t) == Map::<Seq<char>, V>::empty());
        assert(pairs_map(u) =~= pairs_map(t).insert(a.0@, a.1));
    } else {
        let td = t.drop_last();
        assert(forall|m: int| 0 <= m < td.len() ==> #[trigger] td[m] == t[m]);
        lemma_pairs_map_prepend(a, td);
        assert(u.drop_last() =~= seq![a] + td);
        assert(u.last() == t.last());
        assert(t.last().0@ != a.0@);
        assert(pairs_map(u) == pairs_map(td).insert(a.0@, a.1).insert(t.last().0@, t.last().1));
        assert(pairs_map(u) =~= pairs_map(td).insert(t.last().0@, t.last().1).insert(a.0@, a.1));
        assert(pairs_map(t) == pairs_map(td).insert(t.last().0@, t.last().1));
    }
}

/// Sorted insertion keeps the list sorted and updates its map by one key.
pub proof fn lemma_insert_pair_sorted<V>(s: Seq<(String, V)>, k: String, x: V)
    requires
        sorted_keys(s),
    ensures
        sorted_keys(insert_pair_sorted(s, k, x)),
        pairs_map(insert_pair_sorted(s, k, x)) == pairs_map(s).insert(k@, x),
    decreases s.len(),
{
    lemma_sorted_distinct(s);
    let r = insert_pair_sorted(s, k, x);
    if s.len() == 0 {
        assert(r.len() == 1);
        assert(r.last() == (k, x));
        assert(r.drop_last() =~= Seq::<(String, V)>::empty());
        assert(pairs_map(r) == pairs_map(r.drop_last()).insert(k@, x));
        assert(pairs_map(r.drop_last()) == Map::<Seq<char>, V>::empty());
        assert(pairs_map(s) == Map::<Seq<char>, V>::empty());
        assert(pairs_map(r) =~= pairs_map(s).insert(k@, x));
    } else if k@ == s[0].0@ {
        let t = s.drop_first();
        assert(r == seq![(k, x)] + t);
        assert(forall|m: int| 0 <= m < t.len() ==> #[trigger] t[m] == s[m + 1]);
        assert(sorted_keys(r)) by {
            assert forall|i: int, j: int| 0 <= i < j < r.len() implies lex_lt(
                key_bytes(#[trigger] r[i].0@),
                key_bytes(#[trigger] r[j].0@),
            ) by {
                if i == 0 {
                    assert(r[j] == s[j]);
                    assert(r[0].0@ == s[0].0@);
                } else {
                    assert(r[i] == s[i] && r[j] == s[j]);
                }
            }
        }
        assert(forall|m: int| 0 <= m < t.len() ==> (#[trigger] t[m].0@) != k@);
        lemma_pairs_map_prepend((k, x), t);
        assert(pairs_map(r) == pairs_map(t).insert(k@, x));
        assert(forall|m: int| 0 <= m < t.len() ==> (#[trigger] t[m].0@) != s[0].0@);
        lemma_pairs_map_prepend(s[0], t);
        assert(s =~= seq![s[0]] + t);
        assert(pairs_map(s) == pairs_map(t).insert(s[0].0@, s[0].1));
        assert(pairs_map(r) =~= pairs_map(s).insert(k@, x));
    } else if lex_lt(key_bytes(k@), key_bytes(s[0].0@)) {
        assert(r == seq![(k, x)] + s);
        assert(sorted_keys(r)) by {
            assert forall|i: int, j: int| 0 <= i < j < r.len() implies lex_lt(
                key_bytes(#[trigger] r[i].0@),
                key_bytes(#[trigger] r[j].0@),
            ) by {
                if i == 0 {
                    assert(r[j] == s[j - 1]);
                    if j > 1 {
                        lemma_lex_trans(key_bytes(k@), key_bytes(s[0].0@), key_bytes(s[j - 1].0@));
                    }
                } else {
                    assert(r[i] == s[i - 1] && r[j] == s[j - 1]);
                }
            }
        }
        assert forall|m: int| 0 <= m < s.len() implies (#[trigger] s[m].0@) != k@ by {
            if m > 0 {
                lemma_lex_trans(key_bytes(k@), key_bytes(s[0].0@), key_bytes(s[m].0@));
            }
            lemma_lex_irrefl(key_bytes(k@));
        }
        lemma_pairs_map_prepend((k, x), s);
        assert(pairs_map(r) =~= pairs_map(s).insert(k@, x));
    } else {
        let t = s.drop_first();
        assert(forall|m: int| 0 <= m < t.len() ==> #[trigger] t[m] == s[m + 1]);
        assert(sorted_keys(t));
        lemma_insert_pair_sorted(t, k, x);
        let rt = insert_pair_sorted(t, k, x);
        assert(r == seq![s[0]] + rt);
        lemma_lex_trichotomy(key_bytes(k@), key_bytes(s[0].0@));
        assert(lex_lt(key_bytes(s[0].0@), key_bytes(k@))) by {
            if key_bytes(s[0].0@) == key_bytes(k@) {
                lemma_encode_utf8_injective(s[0].0@, k@);
            }
            lemma_lex_irrefl(key_bytes(k@));
        }
        assert forall|j: int| 0 <= j < rt.len() implies lex_lt(
            key_bytes(s[0].0@),
            key_bytes(#[trigger] rt[j].0@),
        ) by {
            entry_after_insert(t, k, x, j);
            if rt[j] == (k, x) {
            } else {
                let m = choose|m: int| 0 <= m < t.len() && (#[trigger] t[m]) == rt[j];
                assert(s[m + 1] == t[m]);
            }
        }
        assert(sorted_keys(r)) by {
            assert forall|i: int, j: int| 0 <= i < j < r.len() implies lex_lt(
                key_bytes(#[trigger] r[i].0@),
                key_bytes(#[trigger] r[j].0@),
            ) by {
                if i == 0 {
                    assert(r[j] == rt[j - 1]);
                } else {
                    assert(r[i] == rt[i - 1] && r[j] == rt[j - 1]);
                }
            }
        }
        assert forall|j: int| 0 <= j < rt.len() implies (#[trigger] rt[j].0@) != s[0].0@ by {
            lemma_lex_irrefl(key_bytes(s[0].0@));
        }
        lemma_pairs_map_prepend(s[0], rt);
        assert(pairs_map(r) == pairs_map(rt).insert(s[0].0@, s[0].1));
        lemma_sorted_distinct(s);
        assert(forall|m: int| 0 <= m < t.len() ==> (#[trigger] t[m].0@) != s[0].0@);
        lemma_pairs_map_prepend(s[0], t);
        assert(s =~= seq![s[0]] + t);
        assert(pairs_map(s) == pairs_map(t).insert(s[0].0@, s[0].1));
        assert(s[0].0@ != k@) by {
            lemma_lex_irrefl(key_bytes(k@));
        }
        assert(pairs_map(r) =~= pairs_map(s).insert(k@, x));
    }
}

/// Every entry of a sorted insertion's result is the new pair or one of
/// the old entries.
pub proof fn entry_after_insert<V>(s: Seq<(String, V)>, k: String, x: V, j: int)
    requires
        sorted_keys(s),
        0 <= j < insert_pair_sorted(s, k, x).len(),
    ensures
        insert_pair_sorted(s, k, x)[j] == (k, x) || exists|m: int|
            0 <= m < s.len() && (#[trigger] s[m]) == insert_pair_sorted(s, k, x)[j],
    decreases s.len(),
{
    let r = insert_pair_sorted(s, k, x);
    if s.len() == 0 {
        assert(r[0] == (k, x));
    } else if k@ == s[0].0@ {
        if j == 0 {
            assert(r[0] == (k, x));
        } else {
            assert(r[j] == s.drop_first()[j - 1]);
            assert(s[j] == s.drop_first()[j - 1]);
        }
    } else if lex_lt(key_bytes(k@), key_bytes(s[0].0@)) {
        if j == 0 {
            assert(r[0] == (k, x));
        } else {
            assert(r[j] == s[j - 1]);
        }
    } else {
        if j == 0 {
            assert(r[0] == s[0]);
        } else {
            let t = s.drop_first();
            assert(forall|m: int| 0 <= m < t.len() ==> #[trigger] t[m] == s[m + 1]);
            assert(sorted_keys(t));
            let rt = insert_pair_sorted(t, k, x);
            assert(r[j] == rt[j - 1]);
            entry_after_insert(t, k, x, j - 1);
            if rt[j - 1] == (k, x) {
            } else {
                let m = choose|m: int| 0 <= m < t.len() && (#[trigger] t[m]) == rt[j - 1];
                assert(s[m + 1] == t[m]);
            }
        }
    }
}

/// Insert into a sorted association list, keeping it sorted: replace the
/// entry with the same key, or place the new entry before the first larger
/// key.
pub fn vec_insert_sorted<V>(entries: &mut Vec<(String, V)>, k: String, x: V)
    ensures
        final(entries)@ == insert_pair_sorted(old(entries)@, k, x),
{
    let ghost orig = entries@;
    let n = entries.len();
    let mut i: usize = 0;
    proof {
        assert(orig.skip(0) =~= orig);
        assert(orig.subrange(0, 0) =~= Seq::<(String, V)>::empty());
        assert(Seq::<(String, V)>::empty() + insert_pair_sorted(orig, k, x) =~= insert_pair_sorted(
            orig,
            k,
            x,
        ));
    }
    while i < n
        invariant
            i <= n,
            n == entries@.len(),
            entries@ == orig,
            orig == old(entries)@,
            insert_pair_sorted(orig, k, x) == orig.subrange(0, i as int) + insert_pair_sorted(
                orig.skip(i as int),
                k,
                x,
            ),
        decreases n - i,
    {
        let ghost t = orig.skip(i as int);
        proof {
            assert(t[0] == orig[i as int]);
        }
        if str_eq(entries[i].0.as_str(), k.as_str()) {
            proof {
                assert(insert_pair_sorted(t, k, x) == seq![(k, x)] + t.drop_first());
                assert(t.drop_first() =~= orig.skip(i + 1));
            }
            entries.remove(i);
            entries.insert(i, (k, x));
            proof {
                assert(entries@ =~= orig.subrange(0, i as int) + (seq![(k, x)] + orig.skip(i + 1)));
            }
            return ;
        }
        if bytes_lt(k.as_str().as_bytes(), entries[i].0.as_str().as_bytes()) {
            proof {
                assert(insert_pair_sorted(t, k, x) == seq![(k, x)] + t);
            }
            entries.insert(i, (k, x));
            proof {
                assert(entries@ =~= orig.subrange(0, i as int) + (seq![(k, x)] + t));
            }
            return ;
        }
        proof {
            assert(insert_pair_sorted(t, k, x) == seq![t[0]] + insert_pair_sorted(
                t.drop_first(),
                k,
                x,
            ));
            assert(t.drop_first() =~= orig.skip(i + 1));
            assert(orig.subrange(0, i as int) + (seq![t[0]] + insert_pair_sorted(
                orig.skip(i + 1),
                k,
                x,
            )) =~= orig.subrange(0, i + 1) + insert_pair_sorted(orig.skip(i + 1), k, x));
        }
        i = i + 1;
    }
    proof {
        assert(orig.skip(n as int) =~= Seq::<(String, V)>::empty());
        assert(insert_pair_sorted(orig.skip(n as int), k, x) == seq![(k, x)]);
        assert(orig.subrange(0, n as int) =~= orig);
    }
    entries.push((k, x));
    proof {
        assert(entries@ =~= orig + seq![(k, x)]);
        assert(orig + seq![(k, x)] =~= orig.subrange(0, n as int) + insert_pair_sorted(
            orig.skip(n as int),
            k,
            x,
        ));
    }
}


/// Removal from an association list: the first entry with the given key
/// leaves; the rest stand unchanged.
pub open spec fn remove_pair<V>(s: Seq<(String, V)>, k: Seq<char>) -> Seq<(String, V)>
    decreases s.len(),
{
    if s.len() == 0 {
        s
    } else if s[0].0@ == k {
        s.drop_first()
    } else {
        seq![s[0]] + remove_pair(s.drop_first(), k)
    }
}

/// Sorted removal keeps the list sorted, takes one key out of its map,
/// and leaves only entries that were already there.
pub proof fn lemma_remove_pair_sorted<V>(s: Seq<(String, V)>, k: Seq<char>)
    requires
        sorted_keys(s),
    ensures
        sorted_keys(remove_pair(s, k)),
        pairs_map(remove_pair(s, k)) == pairs_map(s).remove(k),
        forall|j: int|
            0 <= j < remove_pair(s, k).len() ==> exists|m: int|
                0 <= m < s.len() && (#[trigger] s[m]) == (#[trigger] remove_pair(s, k)[j]),
    decreases s.len(),
{
    lemma_sorted_distinct(s);
    let r = remove_pair(s, k);
    if s.len() == 0 {
        assert(pairs_map(r) =~= pairs_map(s).remove(k));
    } else {
        let t = s.drop_first();
        assert(forall|m: int| 0 <= m < t.len() ==> #[trigger] t[m] == s[m + 1]);
        assert(sorted_keys(t));
        lemma_sorted_distinct(t);
        lemma_pairs_map_props(t);
        assert(forall|m: int| 0 <= m < t.len() ==> (#[trigger] t[m].0@) != s[0].0@);
        lemma_pairs_map_prepend(s[0], t);
        assert(s =~= seq![s[0]] + t);
        assert(pairs_map(s) == pairs_map(t).insert(s[0].0@, s[0].1));
        if s[0].0@ == k {
            assert(r == t);
            assert(!pairs_map(t).contains_key(k));
            assert(pairs_map(r) =~= pairs_map(s).remove(k));
            assert forall|j: int| 0 <= j < r.len() implies exists|m: int|
                0 <= m < s.len() && (#[trigger] s[m]) == (#[trigger] r[j]) by {
                assert(s[j + 1] == r[j]);
            }
        } else {
            lemma_remove_pair_sorted(t, k);
            let rt = remove_pair(t, k);
            assert(r == seq![s[0]] + rt);
            assert forall|j: int| 0 <= j < rt.len() implies lex_lt(
                key_bytes(s[0].0@),
                key_bytes(#[trigger] rt[j].0@),
            ) by {
                let m = choose|m: int| 0 <= m < t.len() && (#[trigger] t[m]) == rt[j];
                assert(s[m + 1] == t[m]);
            }
            assert(sorted_keys(r)) by {
                assert forall|i: int, j: int| 0 <= i < j < r.len() implies lex_lt(
                    key_bytes(#[trigger] r[i].0@),
                    key_bytes(#[trigger] r[j].0@),
                ) by {
                    if i == 0 {
                        assert(r[j] == rt[j - 1]);
                    } else {
                        assert(r[i] == rt[i - 1] && r[j] == rt[j - 1]);
                    }
                }
            }
            assert forall|j: int| 0 <= j < rt.len() implies (#[trigger] rt[j].0@) != s[0].0@ by {
                lemma_lex_irrefl(key_bytes(s[0].0@));
            }
            lemma_pairs_map_prepend(s[0], rt);
            assert(pairs_map(r) == pairs_map(rt).insert(s[0].0@, s[0].1));
            assert(pairs_map(r) =~= pairs_map(s).remove(k));
            assert forall|j: int| 0 <= j < r.len() implies exists|m: int|
                0 <= m < s.len() && (#[trigger] s[m]) == (#[trigger] r[j]) by {
                if j == 0 {
                    assert(s[0] == r[0]);
                } else {
                    let m = choose|m: int| 0 <= m < t.len() && (#[trigger] t[m]) == rt[j - 1];
                    assert(s[m + 1] == r[j]);
                }
            }
        }
    }
}

/// Remove the entry with the given key from a sorted association list, if
/// one is present.
pub fn vec_remove_key<V>(entries: &mut Vec<(String, V)>, k: &str)
    ensures
        final(entries)@ == remove_pair(old(entries)@, k@),
{
    let ghost orig = entries@;
    let n = entries.len();
    let mut i: usize = 0;
    proof {
        assert(orig.skip(0) =~= orig);
        assert(orig.subrange(0, 0) =~= Seq::<(String, V)>::empty());
        assert(Seq::<(String, V)>::empty() + remove_pair(orig, k@) =~= remove_pair(orig, k@));
    }
    while i < n
        invariant
            i <= n,
            n == entries@.len(),
            entries@ == orig,
            orig == old(entries)@,
            remove_pair(orig, k@) == orig.subrange(0, i as int) + remove_pair(
                orig.skip(i as int),
                k@,
            ),
        decreases n - i,
    {
        let ghost t = orig.skip(i as int);
        proof {
            assert(t[0] == orig[i as int]);
        }
        if str_eq(entries[i].0.as_str(), k) {
            proof {
                assert(remove_pair(t, k@) == t.drop_first());
                assert(t.drop_first() =~= orig.skip(i + 1));
            }
            entries.remove(i);
            proof {
                assert(entries@ =~= orig.subrange(0, i as int) + orig.skip(i + 1));
            }
            return ;
        }
        proof {
            assert(remove_pair(t, k@) == seq![t[0]] + remove_pair(t.drop_first(), k@));
            assert(t.drop_first() =~= orig.skip(i + 1));
            assert(orig.subrange(0, i as int) + (seq![t[0]] + remove_pair(orig.skip(i + 1), k@))
                =~= orig.subrange(0, i + 1) + remove_pair(orig.skip(i + 1), k@));
        }
        i = i + 1;
    }
    proof {
        assert(orig.skip(n as int) =~= Seq::<(String, V)>::empty());
        assert(remove_pair(orig.skip(n as int), k@) =~= Seq::<(String, V)>::empty());
        assert(orig.subrange(0, n as int) =~= orig);
        assert(orig.subrange(0, n as int) + remove_pair(orig.skip(n as int), k@) =~= orig);
    }
}

} // verus!
