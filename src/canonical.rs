use crate::digits::{canonical_digits, is_digit, lemma_nat_digits, nat_digits};
use crate::value::Bencode;
use vstd::prelude::*;

verus! {

broadcast use {vstd::seq::group_seq_axioms, vstd::seq_lib::group_seq_properties};

/// The decimal text of an integer: digits, after a `-` when it is negative.
pub open spec fn int_text(i: int) -> Seq<u8> {
    if i < 0 {
        seq![45u8] + nat_digits((-i) as nat)
    } else {
        nat_digits(i as nat)
    }
}

/// A byte string as bencode writes it: its length, a colon, the bytes.
pub open spec fn bytes_enc(b: Seq<u8>) -> Seq<u8> {
    nat_digits(b.len()) + seq![58u8] + b
}

/// The bytes of `v` with every list and dictionary written in the order it holds.
pub open spec fn raw_enc(v: Bencode) -> Seq<u8>
    decreases v,
{
    match v {
        Bencode::Int(i) => seq![105u8] + int_text(i) + seq![101u8],
        Bencode::Bytes(b) => bytes_enc(b),
        Bencode::List(l) => seq![108u8] + raw_enc_list(l) + seq![101u8],
        Bencode::Dict(d) => seq![100u8] + raw_enc_dict(d) + seq![101u8],
    }
}

pub open spec fn raw_enc_list(l: Seq<Bencode>) -> Seq<u8>
    decreases l,
{
    if l.len() == 0 {
        Seq::empty()
    } else {
        raw_enc_list(l.drop_last()) + raw_enc(l.last())
    }
}

pub open spec fn raw_enc_dict(d: Seq<(Seq<u8>, Bencode)>) -> Seq<u8>
    decreases d,
{
    if d.len() == 0 {
        Seq::empty()
    } else {
        raw_enc_dict(d.drop_last()) + bytes_enc(d.last().0) + raw_enc(d.last().1)
    }
}

/// Lexicographic order on raw bytes, looking from position `i` on.
pub open spec fn key_lt_from(a: Seq<u8>, b: Seq<u8>, i: int) -> bool
    decreases a.len() - i,
{
    if i < 0 || i >= a.len() {
        i < b.len()
    } else if i >= b.len() {
        false
    } else if a[i] != b[i] {
        a[i] < b[i]
    } else {
        key_lt_from(a, b, i + 1)
    }
}

/// `a` sorts before `b`: lexicographic order on raw bytes, a proper prefix first.
pub open spec fn key_lt(a: Seq<u8>, b: Seq<u8>) -> bool {
    key_lt_from(a, b, 0)
}

/// Places `x` after every entry of `s` whose key does not sort after its own.
pub open spec fn insert_entry(s: Seq<(Seq<u8>, Bencode)>, x: (Seq<u8>, Bencode)) -> Seq<
    (Seq<u8>, Bencode),
>
    decreases s.len(),
{
    if s.len() == 0 {
        seq![x]
    } else if key_lt(x.0, s[0].0) {
        seq![x] + s
    } else {
        seq![s[0]] + insert_entry(s.drop_first(), x)
    }
}

/// The entries of `d` ordered by key, ascending; entries with equal keys keep
/// their relative order.
pub open spec fn sort_entries(d: Seq<(Seq<u8>, Bencode)>) -> Seq<(Seq<u8>, Bencode)>
    decreases d.len(),
{
    if d.len() == 0 {
        d
    } else {
        insert_entry(sort_entries(d.drop_last()), d.last())
    }
}

/// `v` with every dictionary, at every depth, ordered by key.
pub open spec fn canon(v: Bencode) -> Bencode
    decreases v,
{
    match v {
        Bencode::List(l) => Bencode::List(canon_list(l)),
        Bencode::Dict(d) => Bencode::Dict(sort_entries(canon_entries(d))),
        _ => v,
    }
}

pub open spec fn canon_list(l: Seq<Bencode>) -> Seq<Bencode>
    decreases l,
{
    if l.len() == 0 {
        Seq::empty()
    } else {
        canon_list(l.drop_last()).push(canon(l.last()))
    }
}

pub open spec fn canon_entries(d: Seq<(Seq<u8>, Bencode)>) -> Seq<(Seq<u8>, Bencode)>
    decreases d,
{
    if d.len() == 0 {
        Seq::empty()
    } else {
        canon_entries(d.drop_last()).push((d.last().0, canon(d.last().1)))
    }
}

/// The canonical bencoding of `v`: dictionaries ordered by key, at every depth.
pub open spec fn enc(v: Bencode) -> Seq<u8> {
    raw_enc(canon(v))
}

pub proof fn lemma_canon_list(l: Seq<Bencode>)
    ensures
        canon_list(l).len() == l.len(),
        forall|i: int| 0 <= i < l.len() ==> #[trigger] canon_list(l)[i] == canon(l[i]),
    decreases l.len(),
{
    if l.len() > 0 {
        lemma_canon_list(l.drop_last());
    }
}

pub proof fn lemma_canon_entries(d: Seq<(Seq<u8>, Bencode)>)
    ensures
        canon_entries(d).len() == d.len(),
        forall|i: int|
            0 <= i < d.len() ==> #[trigger] canon_entries(d)[i] == (d[i].0, canon(d[i].1)),
    decreases d.len(),
{
    if d.len() > 0 {
        lemma_canon_entries(d.drop_last());
    }
}

/// Where `insert_entry` puts `x`: before the first entry whose key sorts after its own.
pub proof fn lemma_insert_entry_at(s: Seq<(Seq<u8>, Bencode)>, x: (Seq<u8>, Bencode), p: int)
    requires
        0 <= p <= s.len(),
        forall|t: int| 0 <= t < p ==> !key_lt(x.0, #[trigger] s[t].0),
        p < s.len() ==> key_lt(x.0, s[p].0),
    ensures
        insert_entry(s, x) == s.take(p) + seq![x] + s.skip(p),
    decreases s.len(),
{
    if s.len() == 0 {
        assert(insert_entry(s, x) =~= s.take(p) + seq![x] + s.skip(p));
    } else if p == 0 {
        assert(insert_entry(s, x) =~= s.take(p) + seq![x] + s.skip(p));
    } else {
        assert(!key_lt(x.0, s[0].0));
        let r = s.drop_first();
        assert forall|t: int| 0 <= t < p - 1 implies !key_lt(x.0, #[trigger] r[t].0) by {
            assert(r[t] == s[t + 1]);
        }
        lemma_insert_entry_at(r, x, p - 1);
        assert(insert_entry(s, x) =~= s.take(p) + seq![x] + s.skip(p));
    }
}

/// The first byte of an encoding names its kind: `i`, a digit, `l` or `d`.
pub proof fn lemma_raw_enc_first(m: Bencode)
    ensures
        raw_enc(m).len() > 0,
        match m {
            Bencode::Int(_) => raw_enc(m)[0] == 105u8,
            Bencode::Bytes(_) => is_digit(raw_enc(m)[0]),
            Bencode::List(_) => raw_enc(m)[0] == 108u8,
            Bencode::Dict(_) => raw_enc(m)[0] == 100u8,
        },
{
    if let Bencode::Bytes(x) = m {
        lemma_nat_digits(x.len());
        assert(canonical_digits(nat_digits(x.len())));
        assert(raw_enc(m)[0] == nat_digits(x.len())[0]);
    }
}

pub proof fn lemma_raw_enc_list_concat(a: Seq<Bencode>, c: Seq<Bencode>)
    ensures
        raw_enc_list(a + c) == raw_enc_list(a) + raw_enc_list(c),
    decreases c.len(),
{
    if c.len() == 0 {
        assert(a + c =~= a);
        assert(raw_enc_list(a) + raw_enc_list(c) =~= raw_enc_list(a));
    } else {
        lemma_raw_enc_list_concat(a, c.drop_last());
        assert((a + c).drop_last() =~= a + c.drop_last());
        assert(raw_enc_list(a + c) =~= raw_enc_list(a) + raw_enc_list(c));
    }
}

pub proof fn lemma_raw_enc_dict_concat(a: Seq<(Seq<u8>, Bencode)>, c: Seq<(Seq<u8>, Bencode)>)
    ensures
        raw_enc_dict(a + c) == raw_enc_dict(a) + raw_enc_dict(c),
    decreases c.len(),
{
    if c.len() == 0 {
        assert(a + c =~= a);
        assert(raw_enc_dict(a) + raw_enc_dict(c) =~= raw_enc_dict(a));
    } else {
        lemma_raw_enc_dict_concat(a, c.drop_last());
        assert((a + c).drop_last() =~= a + c.drop_last());
        assert(raw_enc_dict(a + c) =~= raw_enc_dict(a) + raw_enc_dict(c));
    }
}

/// The encoding of a list splits at any element: what precedes it, the element, what follows.
pub proof fn lemma_raw_enc_list_split(l: Seq<Bencode>, k: int)
    requires
        0 <= k < l.len(),
    ensures
        raw_enc_list(l) == raw_enc_list(l.take(k)) + raw_enc(l[k]) + raw_enc_list(l.skip(k + 1)),
        raw_enc_list(l.take(k + 1)) == raw_enc_list(l.take(k)) + raw_enc(l[k]),
{
    lemma_raw_enc_list_concat(l.take(k + 1), l.skip(k + 1));
    assert(l.take(k + 1) + l.skip(k + 1) =~= l);
    assert(l.take(k + 1).drop_last() =~= l.take(k));
}

pub proof fn lemma_raw_enc_dict_split(d: Seq<(Seq<u8>, Bencode)>, k: int)
    requires
        0 <= k < d.len(),
    ensures
        raw_enc_dict(d) == raw_enc_dict(d.take(k)) + bytes_enc(d[k].0) + raw_enc(d[k].1)
            + raw_enc_dict(d.skip(k + 1)),
        raw_enc_dict(d.take(k + 1)) == raw_enc_dict(d.take(k)) + bytes_enc(d[k].0) + raw_enc(
            d[k].1,
        ),
{
    lemma_raw_enc_dict_concat(d.take(k + 1), d.skip(k + 1));
    assert(d.take(k + 1) + d.skip(k + 1) =~= d);
    assert(d.take(k + 1).drop_last() =~= d.take(k));
}

/// `a` is a prefix of `s`.
pub open spec fn is_prefix(a: Seq<u8>, s: Seq<u8>) -> bool {
    a.len() <= s.len() && s.subrange(0, a.len() as int) == a
}

proof fn lemma_prefix_split(a: Seq<u8>, c: Seq<u8>, s: Seq<u8>)
    requires
        is_prefix(a + c, s),
    ensures
        is_prefix(a, s),
        is_prefix(c, s.skip(a.len() as int)),
{
    assert(s.subrange(0, a.len() as int) =~= (a + c).subrange(0, a.len() as int));
    assert((a + c).subrange(0, a.len() as int) =~= a);
    assert forall|i: int| 0 <= i < c.len() implies s.skip(a.len() as int).subrange(
        0,
        c.len() as int,
    )[i] == c[i] by {
        assert(s.subrange(0, (a + c).len() as int)[a.len() + i] == (a + c)[a.len() + i]);
    }
    assert(s.skip(a.len() as int).subrange(0, c.len() as int) =~= c);
}

/// Two runs that both stand at the start of `s`, each followed by a byte that
/// neither holds, are the same run.
proof fn lemma_delim(a1: Seq<u8>, a2: Seq<u8>, c: u8, s: Seq<u8>)
    requires
        is_prefix(a1.push(c), s),
        is_prefix(a2.push(c), s),
        forall|i: int| 0 <= i < a1.len() ==> a1[i] != c,
        forall|i: int| 0 <= i < a2.len() ==> a2[i] != c,
    ensures
        a1 == a2,
{
    let n1 = a1.len() as int;
    let n2 = a2.len() as int;
    assert(s.subrange(0, n1 + 1)[n1] == a1.push(c)[n1]);
    assert(s.subrange(0, n2 + 1)[n2] == a2.push(c)[n2]);
    if n1 < n2 {
        assert(s.subrange(0, n2 + 1)[n1] == a2.push(c)[n1]);
        assert(false);
    }
    if n2 < n1 {
        assert(s.subrange(0, n1 + 1)[n2] == a1.push(c)[n2]);
        assert(false);
    }
    assert forall|i: int| 0 <= i < n1 implies a1[i] == a2[i] by {
        assert(s.subrange(0, n1 + 1)[i] == a1.push(c)[i]);
        assert(s.subrange(0, n2 + 1)[i] == a2.push(c)[i]);
    }
    assert(a1 =~= a2);
}

proof fn lemma_digits_no(n: nat, c: u8)
    requires
        !is_digit(c),
    ensures
        forall|i: int| 0 <= i < nat_digits(n).len() ==> nat_digits(n)[i] != c,
{
    lemma_nat_digits(n);
    assert forall|i: int| 0 <= i < nat_digits(n).len() implies nat_digits(n)[i] != c by {
        assert(is_digit(nat_digits(n)[i]));
    }
}

proof fn lemma_bytes_prefix_unique(x1: Seq<u8>, x2: Seq<u8>, s: Seq<u8>)
    requires
        is_prefix(bytes_enc(x1), s),
        is_prefix(bytes_enc(x2), s),
    ensures
        x1 == x2,
{
    let d1 = nat_digits(x1.len());
    let d2 = nat_digits(x2.len());
    assert(bytes_enc(x1) == d1.push(58u8) + x1);
    assert(bytes_enc(x2) == d2.push(58u8) + x2);
    lemma_prefix_split(d1.push(58u8), x1, s);
    lemma_prefix_split(d2.push(58u8), x2, s);
    lemma_digits_no(x1.len(), 58u8);
    lemma_digits_no(x2.len(), 58u8);
    lemma_delim(d1, d2, 58u8, s);
    lemma_nat_digits(x1.len());
    lemma_nat_digits(x2.len());
    assert(x1.len() == x2.len());
}

proof fn lemma_int_text_unique(i1: int, i2: int, s: Seq<u8>)
    requires
        is_prefix(int_text(i1).push(101u8), s),
        is_prefix(int_text(i2).push(101u8), s),
    ensures
        i1 == i2,
{
    let n1: nat = if i1 < 0 { (-i1) as nat } else { i1 as nat };
    let n2: nat = if i2 < 0 { (-i2) as nat } else { i2 as nat };
    lemma_nat_digits(n1);
    lemma_nat_digits(n2);
    lemma_digits_no(n1, 101u8);
    lemma_digits_no(n2, 101u8);
    let t1 = int_text(i1);
    let t2 = int_text(i2);
    assert forall|i: int| 0 <= i < t1.len() implies t1[i] != 101u8 by {
        if i1 < 0 && i > 0 {
            assert(t1[i] == nat_digits(n1)[i - 1]);
        }
    }
    assert forall|i: int| 0 <= i < t2.len() implies t2[i] != 101u8 by {
        if i2 < 0 && i > 0 {
            assert(t2[i] == nat_digits(n2)[i - 1]);
        }
    }
    lemma_delim(t1, t2, 101u8, s);
    assert(is_digit(nat_digits(n1)[0]));
    assert(is_digit(nat_digits(n2)[0]));
    if i1 < 0 {
        assert(t1[0] == 45u8);
        assert(i2 < 0);
        assert(nat_digits(n1) =~= t1.drop_first());
        assert(nat_digits(n2) =~= t2.drop_first());
    } else {
        assert(t2[0] != 45u8);
    }
}

proof fn lemma_raw_enc_list_front(l: Seq<Bencode>)
    requires
        l.len() > 0,
    ensures
        raw_enc_list(l) == raw_enc(l[0]) + raw_enc_list(l.drop_first()),
{
    lemma_raw_enc_list_concat(seq![l[0]], l.drop_first());
    assert(seq![l[0]] + l.drop_first() =~= l);
    let one = seq![l[0]];
    assert(one.drop_last() =~= Seq::<Bencode>::empty());
    assert(raw_enc_list(one.drop_last()) =~= Seq::<u8>::empty());
    assert(one.last() == l[0]);
    assert(raw_enc_list(one) =~= raw_enc(l[0]));
}

proof fn lemma_raw_enc_dict_front(d: Seq<(Seq<u8>, Bencode)>)
    requires
        d.len() > 0,
    ensures
        raw_enc_dict(d) == bytes_enc(d[0].0) + raw_enc(d[0].1) + raw_enc_dict(d.drop_first()),
{
    lemma_raw_enc_dict_concat(seq![d[0]], d.drop_first());
    assert(seq![d[0]] + d.drop_first() =~= d);
    let one = seq![d[0]];
    assert(one.drop_last() =~= Seq::<(Seq<u8>, Bencode)>::empty());
    assert(raw_enc_dict(one.drop_last()) =~= Seq::<u8>::empty());
    assert(one.last() == d[0]);
    assert(raw_enc_dict(one) =~= bytes_enc(d[0].0) + raw_enc(d[0].1));
}

/// An encoding determines its value: no two values have encodings of which
/// one starts the other.
pub proof fn lemma_raw_enc_prefix_unique(m1: Bencode, m2: Bencode, s: Seq<u8>)
    requires
        is_prefix(raw_enc(m1), s),
        is_prefix(raw_enc(m2), s),
    ensures
        m1 == m2,
    decreases m1,
{
    lemma_raw_enc_first(m1);
    lemma_raw_enc_first(m2);
    assert(s.subrange(0, raw_enc(m1).len() as int)[0] == raw_enc(m1)[0]);
    assert(s.subrange(0, raw_enc(m2).len() as int)[0] == raw_enc(m2)[0]);
    match m1 {
        Bencode::Int(i1) => {
            let i2 = m2->Int_0;
            assert(raw_enc(m1) =~= seq![105u8] + int_text(i1).push(101u8));
            assert(raw_enc(m2) =~= seq![105u8] + int_text(i2).push(101u8));
            lemma_prefix_split(seq![105u8], int_text(i1).push(101u8), s);
            lemma_prefix_split(seq![105u8], int_text(i2).push(101u8), s);
            lemma_int_text_unique(i1, i2, s.skip(1));
        },
        Bencode::Bytes(x1) => {
            lemma_bytes_prefix_unique(x1, m2->Bytes_0, s);
        },
        Bencode::List(l1) => {
            let l2 = m2->List_0;
            assert(raw_enc(m1) =~= seq![108u8] + raw_enc_list(l1).push(101u8));
            assert(raw_enc(m2) =~= seq![108u8] + raw_enc_list(l2).push(101u8));
            lemma_prefix_split(seq![108u8], raw_enc_list(l1).push(101u8), s);
            lemma_prefix_split(seq![108u8], raw_enc_list(l2).push(101u8), s);
            lemma_list_prefix_unique(l1, l2, s.skip(1));
        },
        Bencode::Dict(d1) => {
            let d2 = m2->Dict_0;
            assert(raw_enc(m1) =~= seq![100u8] + raw_enc_dict(d1).push(101u8));
            assert(raw_enc(m2) =~= seq![100u8] + raw_enc_dict(d2).push(101u8));
            lemma_prefix_split(seq![100u8], raw_enc_dict(d1).push(101u8), s);
            lemma_prefix_split(seq![100u8], raw_enc_dict(d2).push(101u8), s);
            lemma_dict_prefix_unique(d1, d2, s.skip(1));
        },
    }
}

proof fn lemma_list_prefix_unique(l1: Seq<Bencode>, l2: Seq<Bencode>, t: Seq<u8>)
    requires
        is_prefix(raw_enc_list(l1).push(101u8), t),
        is_prefix(raw_enc_list(l2).push(101u8), t),
    ensures
        l1 == l2,
    decreases l1,
{
    if l1.len() == 0 && l2.len() == 0 {
        assert(l1 =~= l2);
    } else if l1.len() == 0 || l2.len() == 0 {
        let l = if l1.len() == 0 { l2 } else { l1 };
        let o = if l1.len() == 0 { l1 } else { l2 };
        lemma_raw_enc_list_front(l);
        lemma_raw_enc_first(l[0]);
        assert(raw_enc_list(o) =~= Seq::<u8>::empty());
        assert(t.subrange(0, 1)[0] == raw_enc_list(o).push(101u8)[0]);
        assert(t.subrange(0, raw_enc_list(l).len() as int + 1)[0] == raw_enc_list(l).push(101u8)[0]);
        assert(false);
    } else {
        lemma_raw_enc_list_front(l1);
        lemma_raw_enc_list_front(l2);
        let r1 = raw_enc_list(l1.drop_first()).push(101u8);
        let r2 = raw_enc_list(l2.drop_first()).push(101u8);
        assert(raw_enc_list(l1).push(101u8) =~= raw_enc(l1[0]) + r1);
        assert(raw_enc_list(l2).push(101u8) =~= raw_enc(l2[0]) + r2);
        lemma_prefix_split(raw_enc(l1[0]), r1, t);
        lemma_prefix_split(raw_enc(l2[0]), r2, t);
        lemma_raw_enc_prefix_unique(l1[0], l2[0], t);
        lemma_list_prefix_unique(l1.drop_first(), l2.drop_first(), t.skip(raw_enc(l1[0]).len() as int));
        assert(l1 =~= seq![l1[0]] + l1.drop_first());
        assert(l2 =~= seq![l2[0]] + l2.drop_first());
    }
}

proof fn lemma_dict_prefix_unique(d1: Seq<(Seq<u8>, Bencode)>, d2: Seq<(Seq<u8>, Bencode)>, t: Seq<u8>)
    requires
        is_prefix(raw_enc_dict(d1).push(101u8), t),
        is_prefix(raw_enc_dict(d2).push(101u8), t),
    ensures
        d1 == d2,
    decreases d1,
{
    if d1.len() == 0 && d2.len() == 0 {
        assert(d1 =~= d2);
    } else if d1.len() == 0 || d2.len() == 0 {
        let d = if d1.len() == 0 { d2 } else { d1 };
        let o = if d1.len() == 0 { d1 } else { d2 };
        lemma_raw_enc_dict_front(d);
        lemma_raw_enc_first(Bencode::Bytes(d[0].0));
        assert(raw_enc_dict(o) =~= Seq::<u8>::empty());
        assert(t.subrange(0, 1)[0] == raw_enc_dict(o).push(101u8)[0]);
        assert(t.subrange(0, raw_enc_dict(d).len() as int + 1)[0] == raw_enc_dict(d).push(101u8)[0]);
        assert(raw_enc_dict(d)[0] == bytes_enc(d[0].0)[0]);
        assert(false);
    } else {
        lemma_raw_enc_dict_front(d1);
        lemma_raw_enc_dict_front(d2);
        let k1 = bytes_enc(d1[0].0);
        let k2 = bytes_enc(d2[0].0);
        let r1 = raw_enc(d1[0].1) + raw_enc_dict(d1.drop_first()).push(101u8);
        let r2 = raw_enc(d2[0].1) + raw_enc_dict(d2.drop_first()).push(101u8);
        assert(raw_enc_dict(d1).push(101u8) =~= k1 + r1);
        assert(raw_enc_dict(d2).push(101u8) =~= k2 + r2);
        lemma_prefix_split(k1, r1, t);
        lemma_prefix_split(k2, r2, t);
        lemma_bytes_prefix_unique(d1[0].0, d2[0].0, t);
        let t1 = t.skip(k1.len() as int);
        let q1 = raw_enc_dict(d1.drop_first()).push(101u8);
        let q2 = raw_enc_dict(d2.drop_first()).push(101u8);
        lemma_prefix_split(raw_enc(d1[0].1), q1, t1);
        lemma_prefix_split(raw_enc(d2[0].1), q2, t1);
        lemma_raw_enc_prefix_unique(d1[0].1, d2[0].1, t1);
        lemma_dict_prefix_unique(d1.drop_first(), d2.drop_first(), t1.skip(raw_enc(d1[0].1).len() as int));
        assert(d1 =~= seq![d1[0]] + d1.drop_first());
        assert(d2 =~= seq![d2[0]] + d2.drop_first());
    }
}

} // verus!
