use crate::canonical::{
    canon, canon_entries, canon_list, enc, insert_entry, key_lt, key_lt_from,
    lemma_canon_entries, lemma_canon_list, lemma_insert_entry_at, sort_entries,
};
use crate::decode::{decodes_to, lemma_decodes_to_unique};
use crate::fields::lookup;
use crate::torrent::{info_digest, info_of};
use crate::value::{keys_unique, valid, Bencode};
use vstd::prelude::*;

verus! {

broadcast use {vstd::seq::group_seq_axioms, vstd::seq_lib::group_seq_properties};

/// No key of `d` sorts before a key that comes earlier.
pub open spec fn keys_in_order(d: Seq<(Seq<u8>, Bencode)>) -> bool {
    forall|i: int, j: int| 0 <= i < j < d.len() ==> !key_lt(#[trigger] d[j].0, #[trigger] d[i].0)
}

/// Every dictionary in `m`, at every depth, holds its keys in order.
pub open spec fn in_canonical_order(m: Bencode) -> bool
    decreases m,
{
    match m {
        Bencode::List(l) => forall|i: int| 0 <= i < l.len() ==> in_canonical_order(#[trigger] l[i]),
        Bencode::Dict(d) => keys_in_order(d) && forall|i: int|
            0 <= i < d.len() ==> in_canonical_order(#[trigger] d[i].1),
        _ => true,
    }
}

/// Sorting entries that are already in order leaves them as they are.
pub proof fn lemma_sort_in_order(d: Seq<(Seq<u8>, Bencode)>)
    requires
        keys_in_order(d),
    ensures
        sort_entries(d) == d,
    decreases d.len(),
{
    if d.len() > 0 {
        let s = d.drop_last();
        assert(keys_in_order(s)) by {
            assert forall|i: int, j: int| 0 <= i < j < s.len() implies !key_lt(
                #[trigger] s[j].0,
                #[trigger] s[i].0,
            ) by {
                assert(s[i] == d[i] && s[j] == d[j]);
            }
        }
        lemma_sort_in_order(s);
        let x = d.last();
        assert forall|t: int| 0 <= t < s.len() implies !key_lt(x.0, #[trigger] s[t].0) by {
            assert(s[t] == d[t]);
            assert(x == d[d.len() - 1]);
        }
        lemma_insert_entry_at(s, x, s.len() as int);
        assert(insert_entry(s, x) =~= d);
    }
}

/// A value whose dictionaries are all in order is its own canonical form.
pub proof fn lemma_canon_of_ordered(m: Bencode)
    requires
        in_canonical_order(m),
    ensures
        canon(m) == m,
    decreases m,
{
    match m {
        Bencode::List(l) => {
            lemma_canon_list(l);
            assert forall|i: int| 0 <= i < l.len() implies canon_list(l)[i] == l[i] by {
                lemma_canon_of_ordered(l[i]);
            }
            assert(canon_list(l) =~= l);
        },
        Bencode::Dict(d) => {
            lemma_canon_entries(d);
            assert forall|i: int| 0 <= i < d.len() implies canon_entries(d)[i] == d[i] by {
                lemma_canon_of_ordered(d[i].1);
            }
            assert(canon_entries(d) =~= d);
            lemma_sort_in_order(d);
        },
        _ => {},
    }
}

/// Round trip: a document whose dictionaries are already in key order
/// encodes back to exactly the bytes it was decoded from.
pub proof fn law_canonical_round_trip(b: Seq<u8>, m: Bencode)
    requires
        decodes_to(b, m),
        in_canonical_order(m),
    ensures
        enc(m) == b,
{
    lemma_canon_of_ordered(m);
}

/// A value stored in a dictionary whose keys are distinct is found under its key.
pub proof fn lemma_lookup_entry(d: Seq<(Seq<u8>, Bencode)>, k: Seq<u8>)
    requires
        keys_unique(d),
    ensures
        lookup(d, k) is None <==> forall|i: int| 0 <= i < d.len() ==> #[trigger] d[i].0 != k,
        forall|i: int| 0 <= i < d.len() && #[trigger] d[i].0 == k ==> lookup(d, k) == Some(d[i].1),
    decreases d.len(),
{
    if d.len() > 0 {
        let s = d.drop_last();
        assert(keys_unique(s)) by {
            assert forall|i: int, j: int| 0 <= i < j < s.len() implies #[trigger] s[i].0
                != #[trigger] s[j].0 by {
                assert(s[i] == d[i] && s[j] == d[j]);
            }
        }
        lemma_lookup_entry(s, k);
        assert forall|i: int| 0 <= i < d.len() && #[trigger] d[i].0 == k implies lookup(d, k) == Some(
            d[i].1,
        ) by {
            if i < d.len() - 1 {
                assert(s[i] == d[i]);
                assert(d[i].0 != d[d.len() - 1].0);
            }
        }
        if lookup(d, k) is None {
            assert forall|i: int| 0 <= i < d.len() implies #[trigger] d[i].0 != k by {
                if i < d.len() - 1 {
                    assert(s[i] == d[i]);
                }
            }
        }
        if forall|i: int| 0 <= i < d.len() ==> #[trigger] d[i].0 != k {
            assert forall|i: int| 0 <= i < s.len() implies #[trigger] s[i].0 != k by {
                assert(s[i] == d[i]);
            }
            assert(d[d.len() - 1].0 != k);
        }
    }
}

/// `d1` and `d2` hold the same entries, perhaps in another order.
pub open spec fn same_entries(d1: Seq<(Seq<u8>, Bencode)>, d2: Seq<(Seq<u8>, Bencode)>) -> bool {
    &&& forall|i: int| 0 <= i < d1.len() ==> d2.contains(#[trigger] d1[i])
    &&& forall|j: int| 0 <= j < d2.len() ==> d1.contains(#[trigger] d2[j])
}

/// Looking up a key does not depend on the order of the entries.
pub proof fn lemma_lookup_reordered(
    d1: Seq<(Seq<u8>, Bencode)>,
    d2: Seq<(Seq<u8>, Bencode)>,
    k: Seq<u8>,
)
    requires
        keys_unique(d1),
        keys_unique(d2),
        same_entries(d1, d2),
    ensures
        lookup(d1, k) == lookup(d2, k),
{
    lemma_lookup_entry(d1, k);
    lemma_lookup_entry(d2, k);
    if exists|i: int| 0 <= i < d1.len() && #[trigger] d1[i].0 == k {
        let i = choose|i: int| 0 <= i < d1.len() && #[trigger] d1[i].0 == k;
        assert(d2.contains(d1[i]));
        let j = choose|j: int| 0 <= j < d2.len() && d2[j] == d1[i];
        assert(d2[j].0 == k);
    } else if exists|j: int| 0 <= j < d2.len() && #[trigger] d2[j].0 == k {
        let j = choose|j: int| 0 <= j < d2.len() && #[trigger] d2[j].0 == k;
        assert(d1.contains(d2[j]));
        let i = choose|i: int| 0 <= i < d1.len() && d1[i] == d2[j];
        assert(d1[i].0 == k);
    }
}

/// Hash determinism: two info dictionaries that hold the same entries in a
/// different order read as the same Info, and so give the same info hash.
pub proof fn law_info_hash_ignores_key_order(
    d1: Seq<(Seq<u8>, Bencode)>,
    d2: Seq<(Seq<u8>, Bencode)>,
)
    requires
        keys_unique(d1),
        keys_unique(d2),
        same_entries(d1, d2),
    ensures
        info_of(Bencode::Dict(d1)) == info_of(Bencode::Dict(d2)),
        info_of(Bencode::Dict(d1)) matches Ok(i1) ==> info_digest(i1) == info_digest(
            info_of(Bencode::Dict(d2))->Ok_0,
        ),
{
    assert forall|k: Seq<u8>| lookup(d1, k) == lookup(d2, k) by {
        lemma_lookup_reordered(d1, d2, k);
    }
}

proof fn lemma_key_lt_from_asym(a: Seq<u8>, b: Seq<u8>, i: int)
    requires
        0 <= i,
    ensures
        !(key_lt_from(a, b, i) && key_lt_from(b, a, i)),
    decreases a.len() - i,
{
    if i < a.len() && i < b.len() && a[i] == b[i] {
        lemma_key_lt_from_asym(a, b, i + 1);
    }
}

proof fn lemma_key_lt_from_trans(a: Seq<u8>, b: Seq<u8>, c: Seq<u8>, i: int)
    requires
        0 <= i,
        key_lt_from(a, b, i),
        key_lt_from(b, c, i),
    ensures
        key_lt_from(a, c, i),
    decreases a.len() - i,
{
    if i < a.len() && i < b.len() && i < c.len() && a[i] == b[i] && b[i] == c[i] {
        lemma_key_lt_from_trans(a, b, c, i + 1);
    }
}

proof fn lemma_key_lt_from_total(a: Seq<u8>, b: Seq<u8>, i: int)
    requires
        0 <= i <= a.len(),
        i <= b.len(),
        a.subrange(0, i) == b.subrange(0, i),
        a != b,
    ensures
        key_lt_from(a, b, i) || key_lt_from(b, a, i),
    decreases a.len() - i,
{
    if i == a.len() && i == b.len() {
        assert(a =~= a.subrange(0, i));
        assert(b =~= b.subrange(0, i));
    } else if i < a.len() && i < b.len() && a[i] == b[i] {
        assert(a.subrange(0, i + 1) =~= a.subrange(0, i).push(a[i]));
        assert(b.subrange(0, i + 1) =~= b.subrange(0, i).push(b[i]));
        lemma_key_lt_from_total(a, b, i + 1);
    }
}

/// Two distinct keys are ordered one way or the other.
pub proof fn lemma_key_lt_total(a: Seq<u8>, b: Seq<u8>)
    requires
        a != b,
    ensures
        key_lt(a, b) || key_lt(b, a),
{
    assert(a.subrange(0, 0) =~= b.subrange(0, 0));
    if a.len() <= b.len() {
        lemma_key_lt_from_total(a, b, 0);
    } else {
        lemma_key_lt_from_total(b, a, 0);
    }
}

/// The order on keys is a strict order.
pub proof fn lemma_key_lt_strict(a: Seq<u8>, b: Seq<u8>, c: Seq<u8>)
    ensures
        !(key_lt(a, b) && key_lt(b, a)),
        key_lt(a, b) && key_lt(b, c) ==> key_lt(a, c),
{
    lemma_key_lt_from_asym(a, b, 0);
    if key_lt(a, b) && key_lt(b, c) {
        lemma_key_lt_from_trans(a, b, c, 0);
    }
}

proof fn lemma_insert_entry_props(s: Seq<(Seq<u8>, Bencode)>, x: (Seq<u8>, Bencode))
    ensures
        insert_entry(s, x).len() == s.len() + 1,
        forall|e: (Seq<u8>, Bencode)| #[trigger]
            insert_entry(s, x).contains(e) ==> e == x || s.contains(e),
        insert_entry(s, x).contains(x),
        forall|t: int| 0 <= t < s.len() ==> insert_entry(s, x).contains(#[trigger] s[t]),
        keys_in_order(s) ==> keys_in_order(insert_entry(s, x)),
        keys_unique(s) && (forall|t: int| 0 <= t < s.len() ==> #[trigger] s[t].0 != x.0)
            ==> keys_unique(insert_entry(s, x)),
    decreases s.len(),
{
    let r = insert_entry(s, x);
    if s.len() == 0 {
        assert(r[0] == x);
        assert forall|e: (Seq<u8>, Bencode)| #[trigger] r.contains(e) implies e == x || s.contains(
            e,
        ) by {
            let j = choose|j: int| 0 <= j < r.len() && r[j] == e;
        }
    } else if key_lt(x.0, s[0].0) {
        assert(r == seq![x] + s);
        assert(r[0] == x);
        assert forall|t: int| 0 <= t < s.len() implies r.contains(#[trigger] s[t]) by {
            assert(r[t + 1] == s[t]);
        }
        assert forall|e: (Seq<u8>, Bencode)| #[trigger] r.contains(e) implies e == x || s.contains(
            e,
        ) by {
            let j = choose|j: int| 0 <= j < r.len() && r[j] == e;
            if j > 0 {
                assert(s[j - 1] == e);
            }
        }
        if keys_in_order(s) {
            assert forall|i: int, j: int| 0 <= i < j < r.len() implies !key_lt(
                #[trigger] r[j].0,
                #[trigger] r[i].0,
            ) by {
                if i == 0 {
                    lemma_key_lt_strict(r[j].0, x.0, s[0].0);
                    if j > 1 {
                        assert(!key_lt(s[j - 1].0, s[0].0));
                    }
                } else {
                    assert(r[i] == s[i - 1] && r[j] == s[j - 1]);
                }
            }
        }
        if keys_unique(s) && (forall|t: int| 0 <= t < s.len() ==> #[trigger] s[t].0 != x.0) {
            assert forall|i: int, j: int| 0 <= i < j < r.len() implies #[trigger] r[i].0
                != #[trigger] r[j].0 by {
                if i == 0 {
                    assert(r[j] == s[j - 1]);
                } else {
                    assert(r[i] == s[i - 1] && r[j] == s[j - 1]);
                }
            }
        }
    } else {
        let rest = s.drop_first();
        lemma_insert_entry_props(rest, x);
        let q = insert_entry(rest, x);
        assert(r == seq![s[0]] + q);
        let jx = choose|j: int| 0 <= j < q.len() && q[j] == x;
        assert(r[jx + 1] == x);
        assert forall|t: int| 0 <= t < s.len() implies r.contains(#[trigger] s[t]) by {
            if t == 0 {
                assert(r[0] == s[0]);
            } else {
                assert(rest[t - 1] == s[t]);
                assert(q.contains(rest[t - 1]));
                let j = choose|j: int| 0 <= j < q.len() && q[j] == rest[t - 1];
                assert(r[j + 1] == s[t]);
            }
        }
        assert forall|e: (Seq<u8>, Bencode)| #[trigger] r.contains(e) implies e == x || s.contains(
            e,
        ) by {
            let j = choose|j: int| 0 <= j < r.len() && r[j] == e;
            if j > 0 {
                assert(q[j - 1] == e);
                assert(q.contains(e));
                if e != x {
                    let t = choose|t: int| 0 <= t < rest.len() && rest[t] == e;
                    assert(s[t + 1] == e);
                }
            } else {
                assert(s[0] == e);
            }
        }
        if keys_in_order(s) {
            assert(keys_in_order(rest)) by {
                assert forall|i: int, j: int| 0 <= i < j < rest.len() implies !key_lt(
                    #[trigger] rest[j].0,
                    #[trigger] rest[i].0,
                ) by {
                    assert(rest[i] == s[i + 1] && rest[j] == s[j + 1]);
                }
            }
            assert forall|i: int, j: int| 0 <= i < j < r.len() implies !key_lt(
                #[trigger] r[j].0,
                #[trigger] r[i].0,
            ) by {
                if i == 0 {
                    assert(r[j] == q[j - 1]);
                    assert(q.contains(q[j - 1]));
                    if q[j - 1] != x {
                        let t = choose|t: int| 0 <= t < rest.len() && rest[t] == q[j - 1];
                        assert(s[t + 1] == q[j - 1]);
                    }
                } else {
                    assert(r[i] == q[i - 1] && r[j] == q[j - 1]);
                }
            }
        }
        if keys_unique(s) && (forall|t: int| 0 <= t < s.len() ==> #[trigger] s[t].0 != x.0) {
            assert(keys_unique(rest)) by {
                assert forall|i: int, j: int| 0 <= i < j < rest.len() implies #[trigger] rest[i].0
                    != #[trigger] rest[j].0 by {
                    assert(rest[i] == s[i + 1] && rest[j] == s[j + 1]);
                }
            }
            assert forall|t: int| 0 <= t < rest.len() implies #[trigger] rest[t].0 != x.0 by {
                assert(rest[t] == s[t + 1]);
            }
            assert forall|i: int, j: int| 0 <= i < j < r.len() implies #[trigger] r[i].0
                != #[trigger] r[j].0 by {
                if i == 0 {
                    assert(r[j] == q[j - 1]);
                    assert(q.contains(q[j - 1]));
                    if q[j - 1] != x {
                        let t = choose|t: int| 0 <= t < rest.len() && rest[t] == q[j - 1];
                        assert(s[t + 1] == q[j - 1]);
                    }
                } else {
                    assert(r[i] == q[i - 1] && r[j] == q[j - 1]);
                }
            }
        }
    }
}

/// Sorting gives entries in key order, each taken from the input, with keys
/// as distinct as they were.
pub proof fn lemma_sort_entries_props(d: Seq<(Seq<u8>, Bencode)>)
    ensures
        sort_entries(d).len() == d.len(),
        forall|e: (Seq<u8>, Bencode)| #[trigger] sort_entries(d).contains(e) ==> d.contains(e),
        forall|t: int| 0 <= t < d.len() ==> sort_entries(d).contains(#[trigger] d[t]),
        keys_in_order(sort_entries(d)),
        keys_unique(d) ==> keys_unique(sort_entries(d)),
    decreases d.len(),
{
    if d.len() > 0 {
        let s = d.drop_last();
        let x = d.last();
        lemma_sort_entries_props(s);
        let ss = sort_entries(s);
        lemma_insert_entry_props(ss, x);
        assert forall|t: int| 0 <= t < d.len() implies sort_entries(d).contains(#[trigger] d[t]) by {
            if t < d.len() - 1 {
                assert(s[t] == d[t]);
                assert(ss.contains(s[t]));
                let u = choose|u: int| 0 <= u < ss.len() && ss[u] == s[t];
                assert(sort_entries(d).contains(ss[u]));
            }
        }
        assert forall|e: (Seq<u8>, Bencode)| #[trigger] sort_entries(d).contains(e) implies d.contains(
            e,
        ) by {
            if e == x {
                assert(d[d.len() - 1] == e);
            } else {
                assert(ss.contains(e));
                assert(s.contains(e));
                let t = choose|t: int| 0 <= t < s.len() && s[t] == e;
                assert(d[t] == e);
            }
        }
        if keys_unique(d) {
            assert(keys_unique(s)) by {
                assert forall|i: int, j: int| 0 <= i < j < s.len() implies #[trigger] s[i].0
                    != #[trigger] s[j].0 by {
                    assert(s[i] == d[i] && s[j] == d[j]);
                }
            }
            assert forall|t: int| 0 <= t < ss.len() implies #[trigger] ss[t].0 != x.0 by {
                assert(ss.contains(ss[t]));
                assert(s.contains(ss[t]));
                let u = choose|u: int| 0 <= u < s.len() && s[u] == ss[t];
                assert(d[u] == ss[t]);
            }
        }
    }
}

/// The canonical form has every dictionary in key order, and is valid when
/// the value is.
pub proof fn lemma_canon_props(m: Bencode)
    ensures
        in_canonical_order(canon(m)),
        valid(m) ==> valid(canon(m)),
    decreases m,
{
    match m {
        Bencode::List(l) => {
            lemma_canon_list(l);
            assert forall|i: int| 0 <= i < l.len() implies in_canonical_order(
                #[trigger] canon_list(l)[i],
            ) && (valid(l[i]) ==> valid(canon_list(l)[i])) by {
                lemma_canon_props(l[i]);
            }
        },
        Bencode::Dict(d) => {
            lemma_canon_entries(d);
            let ce = canon_entries(d);
            assert forall|i: int| 0 <= i < d.len() implies in_canonical_order(#[trigger] ce[i].1)
                && (valid(d[i].1) ==> valid(ce[i].1)) by {
                lemma_canon_props(d[i].1);
            }
            lemma_sort_entries_props(ce);
            let s = sort_entries(ce);
            assert forall|j: int| 0 <= j < s.len() implies in_canonical_order(#[trigger] s[j].1)
                && (valid(m) ==> valid(s[j].1)) by {
                assert(s.contains(s[j]));
                assert(ce.contains(s[j]));
                let i = choose|i: int| 0 <= i < ce.len() && ce[i] == s[j];
            }
            if valid(m) {
                assert(keys_unique(ce)) by {
                    assert forall|i: int, j: int| 0 <= i < j < ce.len() implies #[trigger] ce[i].0
                        != #[trigger] ce[j].0 by {
                        assert(d[i].0 != d[j].0);
                    }
                }
            }
        },
        _ => {},
    }
}

/// Canonical idempotence: decoding the canonical encoding of a valid value
/// succeeds, and whatever it yields encodes to the same bytes again.
pub proof fn law_canonical_idempotent(v: Bencode)
    requires
        valid(v),
    ensures
        decodes_to(enc(v), canon(v)),
        forall|w: Bencode| decodes_to(enc(v), w) ==> enc(w) == enc(v),
{
    lemma_canon_props(v);
    lemma_canon_of_ordered(canon(v));
    assert forall|w: Bencode| decodes_to(enc(v), w) implies enc(w) == enc(v) by {
        lemma_decodes_to_unique(enc(v), w, canon(v));
    }
}

/// Entries in key order with distinct keys are fixed by the set of entries
/// they hold.
pub proof fn lemma_ordered_entries_unique(
    s1: Seq<(Seq<u8>, Bencode)>,
    s2: Seq<(Seq<u8>, Bencode)>,
)
    requires
        keys_in_order(s1),
        keys_in_order(s2),
        keys_unique(s1),
        keys_unique(s2),
        same_entries(s1, s2),
    ensures
        s1 == s2,
    decreases s1.len(),
{
    if s1.len() == 0 {
        if s2.len() > 0 {
            assert(s1.contains(s2[0]));
        }
        assert(s1 =~= s2);
    } else if s2.len() == 0 {
        assert(s2.contains(s1[0]));
    } else {
        assert(s2.contains(s1[0]));
        assert(s1.contains(s2[0]));
        let j = choose|j: int| 0 <= j < s2.len() && s2[j] == s1[0];
        let i = choose|i: int| 0 <= i < s1.len() && s1[i] == s2[0];
        if i > 0 && j > 0 {
            assert(s1[i].0 != s1[0].0);
            lemma_key_lt_total(s1[i].0, s1[0].0);
            assert(!key_lt(s1[i].0, s1[0].0));
            assert(!key_lt(s2[j].0, s2[0].0));
            assert(false);
        }
        assert(s1[0] == s2[0]);
        let t1 = s1.drop_first();
        let t2 = s2.drop_first();
        assert forall|a: int| 0 <= a < t1.len() implies t2.contains(#[trigger] t1[a]) by {
            assert(t1[a] == s1[a + 1]);
            assert(s2.contains(s1[a + 1]));
            let b = choose|b: int| 0 <= b < s2.len() && s2[b] == s1[a + 1];
            assert(s1[a + 1].0 != s1[0].0);
            assert(b != 0);
            assert(t2[b - 1] == s2[b]);
        }
        assert forall|b: int| 0 <= b < t2.len() implies t1.contains(#[trigger] t2[b]) by {
            assert(t2[b] == s2[b + 1]);
            assert(s1.contains(s2[b + 1]));
            let a = choose|a: int| 0 <= a < s1.len() && s1[a] == s2[b + 1];
            assert(s2[b + 1].0 != s2[0].0);
            assert(a != 0);
            assert(t1[a - 1] == s1[a]);
        }
        assert(keys_in_order(t1)) by {
            assert forall|x: int, y: int| 0 <= x < y < t1.len() implies !key_lt(
                #[trigger] t1[y].0,
                #[trigger] t1[x].0,
            ) by {
                assert(t1[x] == s1[x + 1] && t1[y] == s1[y + 1]);
            }
        }
        assert(keys_in_order(t2)) by {
            assert forall|x: int, y: int| 0 <= x < y < t2.len() implies !key_lt(
                #[trigger] t2[y].0,
                #[trigger] t2[x].0,
            ) by {
                assert(t2[x] == s2[x + 1] && t2[y] == s2[y + 1]);
            }
        }
        assert(keys_unique(t1)) by {
            assert forall|x: int, y: int| 0 <= x < y < t1.len() implies #[trigger] t1[x].0
                != #[trigger] t1[y].0 by {
                assert(t1[x] == s1[x + 1] && t1[y] == s1[y + 1]);
            }
        }
        assert(keys_unique(t2)) by {
            assert forall|x: int, y: int| 0 <= x < y < t2.len() implies #[trigger] t2[x].0
                != #[trigger] t2[y].0 by {
                assert(t2[x] == s2[x + 1] && t2[y] == s2[y + 1]);
            }
        }
        lemma_ordered_entries_unique(t1, t2);
        assert(s1 =~= seq![s1[0]] + t1);
        assert(s2 =~= seq![s2[0]] + t2);
    }
}

/// Key-order independence: two dictionaries that hold the same entries, with
/// distinct keys, have the same canonical encoding.
pub proof fn law_encoding_ignores_key_order(
    d1: Seq<(Seq<u8>, Bencode)>,
    d2: Seq<(Seq<u8>, Bencode)>,
)
    requires
        keys_unique(d1),
        keys_unique(d2),
        same_entries(d1, d2),
    ensures
        enc(Bencode::Dict(d1)) == enc(Bencode::Dict(d2)),
{
    lemma_canon_entries(d1);
    lemma_canon_entries(d2);
    let c1 = canon_entries(d1);
    let c2 = canon_entries(d2);
    assert(keys_unique(c1)) by {
        assert forall|i: int, j: int| 0 <= i < j < c1.len() implies #[trigger] c1[i].0
            != #[trigger] c1[j].0 by {
            assert(d1[i].0 != d1[j].0);
        }
    }
    assert(keys_unique(c2)) by {
        assert forall|i: int, j: int| 0 <= i < j < c2.len() implies #[trigger] c2[i].0
            != #[trigger] c2[j].0 by {
            assert(d2[i].0 != d2[j].0);
        }
    }
    assert forall|i: int| 0 <= i < c1.len() implies c2.contains(#[trigger] c1[i]) by {
        assert(d2.contains(d1[i]));
        let j = choose|j: int| 0 <= j < d2.len() && d2[j] == d1[i];
        assert(c2[j] == c1[i]);
    }
    assert forall|j: int| 0 <= j < c2.len() implies c1.contains(#[trigger] c2[j]) by {
        assert(d1.contains(d2[j]));
        let i = choose|i: int| 0 <= i < d1.len() && d1[i] == d2[j];
        assert(c1[i] == c2[j]);
    }
    lemma_sort_entries_props(c1);
    lemma_sort_entries_props(c2);
    let s1 = sort_entries(c1);
    let s2 = sort_entries(c2);
    assert forall|i: int| 0 <= i < s1.len() implies s2.contains(#[trigger] s1[i]) by {
        assert(s1.contains(s1[i]));
        assert(c1.contains(s1[i]));
        let a = choose|a: int| 0 <= a < c1.len() && c1[a] == s1[i];
        assert(c2.contains(c1[a]));
        let b = choose|b: int| 0 <= b < c2.len() && c2[b] == c1[a];
        assert(s2.contains(c2[b]));
    }
    assert forall|j: int| 0 <= j < s2.len() implies s1.contains(#[trigger] s2[j]) by {
        assert(s2.contains(s2[j]));
        assert(c2.contains(s2[j]));
        let a = choose|a: int| 0 <= a < c2.len() && c2[a] == s2[j];
        assert(c1.contains(c2[a]));
        let b = choose|b: int| 0 <= b < c1.len() && c1[b] == c2[a];
        assert(s1.contains(c1[b]));
    }
    lemma_ordered_entries_unique(s1, s2);
}

} // verus!
