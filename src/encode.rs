use crate::canonical::{
    bytes_enc, canon, canon_entries, enc, insert_entry, int_text, key_lt, key_lt_from,
    lemma_canon_entries, lemma_canon_list, lemma_insert_entry_at, raw_enc, raw_enc_dict,
    raw_enc_list, sort_entries, canon_list,
};
use crate::digits::push_nat;
use crate::value::{lemma_view_entries, lemma_view_list, view_entries, view_list, Bencode, Value};
use vstd::prelude::*;

verus! {

broadcast use {vstd::seq::group_seq_axioms, vstd::std_specs::vec::group_vec_axioms};

/// Compares two keys by raw byte value; `true` when `a` sorts before `b`.
pub fn key_less(a: &[u8], b: &[u8]) -> (r: bool)
    ensures
        r == key_lt(a@, b@),
{
    let mut i: usize = 0;
    while i < a.len() && i < b.len() && a[i] == b[i]
        invariant
            i <= a.len(),
            i <= b.len(),
            key_lt(a@, b@) == key_lt_from(a@, b@, i as int),
        decreases a.len() - i,
    {
        i += 1;
    }
    if i < a.len() && i < b.len() {
        a[i] < b[i]
    } else {
        i == a.len() && i < b.len()
    }
}

/// Appends the bytes of `b` to `out`.
pub fn push_bytes(out: &mut Vec<u8>, b: &[u8])
    ensures
        final(out)@ == old(out)@ + b@,
{
    let mut i: usize = 0;
    while i < b.len()
        invariant
            i <= b.len(),
            out@ == old(out)@ + b@.take(i as int),
        decreases b.len() - i,
    {
        out.push(b[i]);
        i += 1;
        assert(out@ =~= old(out)@ + b@.take(i as int));
    }
    assert(b@.take(b.len() as int) =~= b@);
}

/// Appends the decimal text of `i` to `out`.
fn push_int(i: i64, out: &mut Vec<u8>)
    ensures
        final(out)@ == old(out)@ + int_text(i as int),
{
    if i < 0 {
        out.push(45u8);
        let m: u64 = (0i128 - i as i128) as u64;
        push_nat(m, out);
        assert(out@ =~= old(out)@ + int_text(i as int));
    } else {
        push_nat(i as u64, out);
    }
}

/// Appends a byte string as bencode writes it: length, colon, bytes.
fn push_byte_string(out: &mut Vec<u8>, b: &[u8])
    ensures
        final(out)@ == old(out)@ + bytes_enc(b@),
{
    push_nat(b.len() as u64, out);
    out.push(58u8);
    push_bytes(out, b);
    assert(out@ =~= old(out)@ + bytes_enc(b@));
}

/// Appends the canonical bencoding of `v` to `out`.
pub fn encode_into(v: &Value, out: &mut Vec<u8>)
    ensures
        final(out)@ == old(out)@ + enc(v@),
    decreases v,
{
    match v {
        Value::Int(i) => {
            out.push(105u8);
            push_int(*i, out);
            out.push(101u8);
            assert(out@ =~= old(out)@ + enc(v@));
        },
        Value::Bytes(b) => {
            push_byte_string(out, b.as_slice());
        },
        Value::List(l) => {
            let ghost cl = canon_list(view_list(l@));
            proof {
                lemma_view_list(l@);
                lemma_canon_list(view_list(l@));
            }
            out.push(108u8);
            let mut i: usize = 0;
            while i < l.len()
                invariant
                    i <= l.len(),
                    *v == Value::List(*l),
                    cl.len() == l.len(),
                    forall|j: int| 0 <= j < l.len() ==> #[trigger] cl[j] == canon(l@[j]@),
                    out@ == old(out)@ + seq![108u8] + raw_enc_list(cl.take(i as int)),
                decreases l.len() - i,
            {
                proof {
                    vstd::std_specs::vec::axiom_vec_index_decreases(*l, i as int);
                    assert(decreases_to!(*v => v->List_0));
                    assert(decreases_to!(*v => l[i as int]));
                }
                encode_into(&l[i], out);
                assert(cl.take(i + 1).drop_last() =~= cl.take(i as int));
                i += 1;
            }
            out.push(101u8);
            assert(cl.take(l.len() as int) =~= cl);
            assert(out@ =~= old(out)@ + enc(v@));
        },
        Value::Dict(d) => {
            let ghost cd = canon_entries(view_entries(d@));
            proof {
                lemma_view_entries(d@);
                lemma_canon_entries(view_entries(d@));
            }
            let mut entries: Vec<(Vec<u8>, Vec<u8>)> = Vec::new();
            let ghost mut s: Seq<(Seq<u8>, Bencode)> = Seq::empty();
            let mut i: usize = 0;
            assert(cd.take(0) =~= Seq::<(Seq<u8>, Bencode)>::empty());
            while i < d.len()
                invariant
                    i <= d.len(),
                    *v == Value::Dict(*d),
                    cd.len() == d.len(),
                    forall|j: int|
                        0 <= j < d.len() ==> #[trigger] cd[j] == (d@[j].0@, canon(d@[j].1@)),
                    s == sort_entries(cd.take(i as int)),
                    entries@.len() == s.len(),
                    forall|j: int|
                        0 <= j < s.len() ==> (#[trigger] entries@[j]).0@ == s[j].0
                            && entries@[j].1@ == raw_enc(s[j].1),
                decreases d.len() - i,
            {
                let key = &d[i].0;
                let mut ev: Vec<u8> = Vec::new();
                proof {
                    vstd::std_specs::vec::axiom_vec_index_decreases(*d, i as int);
                    assert(decreases_to!(*v => v->Dict_0));
                    assert(decreases_to!(*v => d[i as int]));
                    assert(decreases_to!(*v => d[i as int].1));
                }
                encode_into(&d[i].1, &mut ev);
                let ghost x = cd[i as int];
                let mut p: usize = 0;
                while p < entries.len() && !key_less(key.as_slice(), entries[p].0.as_slice())
                    invariant
                        p <= entries@.len(),
                        entries@.len() == s.len(),
                        x.0 == key@,
                        forall|j: int|
                            0 <= j < s.len() ==> (#[trigger] entries@[j]).0@ == s[j].0,
                        forall|t: int| 0 <= t < p ==> !key_lt(x.0, #[trigger] s[t].0),
                    decreases entries@.len() - p,
                {
                    p += 1;
                }
                proof {
                    lemma_insert_entry_at(s, x, p as int);
                    assert(cd.take(i + 1).drop_last() =~= cd.take(i as int));
                }
                let k2 = key.clone();
                assert(k2@ == key@);
                let ghost old_s = s;
                let ghost old_entries = entries@;
                entries.insert(p, (k2, ev));
                proof {
                    s = insert_entry(s, x);
                    assert forall|j: int| 0 <= j < s.len() implies (#[trigger] entries@[j]).0@
                        == s[j].0 && entries@[j].1@ == raw_enc(s[j].1) by {
                        if j > p {
                            assert(s[j] == old_s[j - 1]);
                            assert(entries@[j] == old_entries[j - 1]);
                        } else if j < p {
                            assert(s[j] == old_s[j]);
                            assert(entries@[j] == old_entries[j]);
                        }
                    }
                }
                i += 1;
            }
            assert(cd.take(d.len() as int) =~= cd);
            out.push(100u8);
            let mut j: usize = 0;
            while j < entries.len()
                invariant
                    j <= entries@.len(),
                    entries@.len() == s.len(),
                    forall|t: int|
                        0 <= t < s.len() ==> (#[trigger] entries@[t]).0@ == s[t].0
                            && entries@[t].1@ == raw_enc(s[t].1),
                    out@ == old(out)@ + seq![100u8] + raw_enc_dict(s.take(j as int)),
                decreases entries@.len() - j,
            {
                push_byte_string(out, entries[j].0.as_slice());
                push_bytes(out, entries[j].1.as_slice());
                assert(s.take(j + 1).drop_last() =~= s.take(j as int));
                j += 1;
            }
            out.push(101u8);
            assert(s.take(s.len() as int) =~= s);
            assert(out@ =~= old(out)@ + enc(v@));
        },
    }
}

/// The canonical bencoding of `v`.
pub fn encode(v: &Value) -> (r: Vec<u8>)
    ensures
        r@ == enc(v@),
{
    let mut out: Vec<u8> = Vec::new();
    encode_into(v, &mut out);
    assert(out@ =~= enc(v@));
    out
}

} // verus!
