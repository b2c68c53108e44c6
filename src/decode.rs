use crate::canonical::{
    bytes_enc, int_text, lemma_raw_enc_dict_split, lemma_raw_enc_prefix_unique, lemma_raw_enc_first, lemma_raw_enc_list_split,
    raw_enc, raw_enc_dict, raw_enc_list,
};
use crate::digits::{
    canonical_digits, digits_value, is_digit, lemma_canonical_digits_unique,
    lemma_digits_value_prefix, lemma_nat_digits, nat_digits,
};
use crate::error::Error;
use crate::value::{
    keys_unique, lemma_view_entries, lemma_view_list, valid, view_entries, view_list, Bencode,
    Value,
};
use vstd::prelude::*;

verus! {

broadcast use {vstd::seq::group_seq_axioms, vstd::std_specs::vec::group_vec_axioms};

/// `m` is a valid value whose encoding stands in `b` from `pos` on.
pub open spec fn encoded_at(b: Seq<u8>, pos: int, m: Bencode) -> bool {
    &&& valid(m)
    &&& 0 <= pos
    &&& pos + raw_enc(m).len() <= b.len()
    &&& b.subrange(pos, pos + raw_enc(m).len()) == raw_enc(m)
}

/// The digits of `k` stand in `b` from `pos` on, followed by a byte that is no digit.
pub open spec fn digits_at(b: Seq<u8>, pos: int, k: nat) -> bool {
    &&& 0 <= pos
    &&& pos + nat_digits(k).len() < b.len()
    &&& b.subrange(pos, pos + nat_digits(k).len()) == nat_digits(k)
    &&& !is_digit(b[pos + nat_digits(k).len()])
}

/// Reads the run of digits that starts at `pos`, a number no greater than `cap`.
fn scan_digits(b: &[u8], pos: usize, cap: u64, Ghost(k): Ghost<nat>) -> (r: Result<
    (u64, usize),
    Error,
>)
    requires
        pos <= b.len(),
    ensures
        r matches Ok((n, end)) ==> {
            &&& pos < end <= b.len()
            &&& canonical_digits(b@.subrange(pos as int, end as int))
            &&& n as nat == digits_value(b@.subrange(pos as int, end as int))
            &&& n <= cap
        },
        r matches Err(e) ==> e == Error::StructuralError,
        k <= cap && digits_at(b@, pos as int, k) ==> r == Ok::<(u64, usize), Error>(
            (k as u64, (pos + nat_digits(k).len()) as usize),
        ),
{
    let ghost h = k <= cap && digits_at(b@, pos as int, k);
    let ghost e = pos + nat_digits(k).len();
    proof {
        lemma_nat_digits(k);
    }
    let mut i: usize = pos;
    let mut acc: u128 = 0;
    while i < b.len() && 48 <= b[i] && b[i] <= 57
        invariant
            pos <= i <= b.len(),
            acc <= cap,
            acc == digits_value(b@.subrange(pos as int, i as int)),
            forall|t: int| pos <= t < i ==> is_digit(#[trigger] b@[t]),
            h == (k <= cap && digits_at(b@, pos as int, k)),
            e == pos + nat_digits(k).len(),
            h ==> i <= e,
            h ==> b@.subrange(pos as int, e) == nat_digits(k),
            h ==> !is_digit(b@[e]),
            h ==> canonical_digits(nat_digits(k)) && digits_value(nat_digits(k)) == k,
            e < b.len() || !h,
        decreases b.len() - i,
    {
        proof {
            assert(b@.subrange(pos as int, i + 1).drop_last() =~= b@.subrange(pos as int, i as int));
            if h {
                if i == e {
                    assert(false);
                }
                let s = nat_digits(k);
                assert forall|t: int| 0 <= t < s.len() implies is_digit(#[trigger] s[t]) by {}
                lemma_digits_value_prefix(s, i + 1 - pos);
                assert(s.take(i + 1 - pos) =~= b@.subrange(pos as int, i + 1));
            }
        }
        acc = acc * 10 + (b[i] - 48) as u128;
        i += 1;
        assert(acc == digits_value(b@.subrange(pos as int, i as int)));
        assert(h ==> acc <= k);
        if acc > cap as u128 {
            return Err(Error::StructuralError);
        }
    }
    proof {
        if h {
            let s2 = nat_digits(k);
            if i < e {
                assert(b@[i as int] == s2[i - pos]);
                assert(is_digit(s2[i - pos]));
            }
            assert(i == e);
            assert(b@[pos as int] == s2[0]);
        }
    }
    if i == pos || (b[pos] == 48 && i > pos + 1) {
        return Err(Error::StructuralError);
    }
    proof {
        let s = b@.subrange(pos as int, i as int);
        assert(s[0] == b@[pos as int]);
        assert forall|t: int| 0 <= t < s.len() implies is_digit(#[trigger] s[t]) by {
            assert(s[t] == b@[pos + t]);
        }
        if h {
            let s2 = nat_digits(k);
            if i < e {
                assert(b@[i as int] == s2[i - pos]);
                assert(is_digit(s2[i - pos]));
            }
            assert(i == e);
            assert(s =~= s2);
            assert(acc == k);
        }
    }
    Ok((acc as u64, i))
}

/// Bytes that stand inside a larger run stand in `b` at the matching offset.
proof fn lemma_inner(b: Seq<u8>, pos: int, whole: Seq<u8>, off: int, part: Seq<u8>)
    requires
        0 <= pos,
        pos + whole.len() <= b.len(),
        b.subrange(pos, pos + whole.len()) == whole,
        0 <= off,
        off + part.len() <= whole.len(),
        whole.subrange(off, off + part.len()) == part,
    ensures
        b.subrange(pos + off, pos + off + part.len()) == part,
{
    assert forall|t: int| 0 <= t < part.len() implies b.subrange(
        pos + off,
        pos + off + part.len(),
    )[t] == part[t] by {
        assert(part[t] == whole.subrange(off, off + part.len())[t]);
        assert(whole[off + t] == b.subrange(pos, pos + whole.len())[off + t]);
    }
    assert(b.subrange(pos + off, pos + off + part.len()) =~= part);
}

/// Copies `b[start..stop]` into a new vector.
fn copy_range(b: &[u8], start: usize, stop: usize) -> (r: Vec<u8>)
    requires
        start <= stop <= b.len(),
    ensures
        r@ == b@.subrange(start as int, stop as int),
{
    let mut r: Vec<u8> = Vec::new();
    let mut i: usize = start;
    while i < stop
        invariant
            start <= i <= stop <= b.len(),
            r@ == b@.subrange(start as int, i as int),
        decreases stop - i,
    {
        r.push(b[i]);
        i += 1;
        assert(r@ =~= b@.subrange(start as int, i as int));
    }
    r
}

/// True when the two byte runs are equal.
pub fn bytes_eq(a: &[u8], c: &[u8]) -> (r: bool)
    ensures
        r == (a@ == c@),
{
    if a.len() != c.len() {
        return false;
    }
    let mut i: usize = 0;
    while i < a.len()
        invariant
            i <= a.len() == c.len(),
            forall|t: int| 0 <= t < i ==> a@[t] == c@[t],
        decreases a.len() - i,
    {
        if a[i] != c[i] {
            return false;
        }
        i += 1;
    }
    assert(a@ =~= c@);
    true
}

/// Reads the integer whose `i` stands at `pos`, through its closing `e`.
fn parse_int(b: &[u8], pos: usize, Ghost(hint): Ghost<int>) -> (r: Result<(i64, usize), Error>)
    requires
        pos < b.len(),
        b@[pos as int] == 105u8,
    ensures
        r matches Ok((x, end)) ==> pos < end <= b.len() && b@.subrange(pos as int, end as int)
            == raw_enc(Bencode::Int(x as int)),
        r matches Err(e) ==> e == Error::StructuralError,
        encoded_at(b@, pos as int, Bencode::Int(hint)) ==> r == Ok::<(i64, usize), Error>(
            (hint as i64, (pos + raw_enc(Bencode::Int(hint)).len()) as usize),
        ),
{
    let ghost h = encoded_at(b@, pos as int, Bencode::Int(hint));
    let ghost raw = raw_enc(Bencode::Int(hint));
    let ghost k: nat = if hint < 0 { (-hint) as nat } else { hint as nat };
    proof {
        lemma_nat_digits(k);
        if h {
            assert(b@[pos + 1] == raw[1]);
            if hint >= 0 {
                assert(raw[1] == nat_digits(k)[0]);
                assert(is_digit(nat_digits(k)[0]));
                let off = 1int;
                assert(raw.subrange(off, off + nat_digits(k).len()) =~= nat_digits(k));
                lemma_inner(b@, pos as int, raw, off, nat_digits(k));
                assert(b@[pos + off + nat_digits(k).len()] == raw[off + nat_digits(k).len()]);
            } else {
                let off = 2int;
                assert(raw.subrange(off, off + nat_digits(k).len()) =~= nat_digits(k));
                lemma_inner(b@, pos as int, raw, off, nat_digits(k));
                assert(b@[pos + off + nat_digits(k).len()] == raw[off + nat_digits(k).len()]);
            }
        }
    }
    let start = pos + 1;
    if start >= b.len() {
        return Err(Error::StructuralError);
    }
    let neg = b[start] == 45u8;
    let dstart = if neg {
        start + 1
    } else {
        start
    };
    let cap: u64 = if neg {
        9223372036854775808u64
    } else {
        9223372036854775807u64
    };
    let (n, end) = match scan_digits(b, dstart, cap, Ghost(k)) {
        Ok(t) => t,
        Err(e) => {
            return Err(e);
        },
    };
    if end >= b.len() || b[end] != 101u8 || (neg && n == 0) {
        return Err(Error::StructuralError);
    }
    let x: i64 = if neg {
        (0i128 - n as i128) as i64
    } else {
        n as i64
    };
    proof {
        let ds = b@.subrange(dstart as int, end as int);
        lemma_canonical_digits_unique(ds);
        assert(b@.subrange(pos as int, end + 1) =~= seq![105u8] + int_text(x as int) + seq![
            101u8,
        ]);
    }
    Ok((x, end + 1))
}

/// Reads the byte string whose length prefix starts at `pos`.
fn parse_bytes(b: &[u8], pos: usize, Ghost(hint): Ghost<Seq<u8>>) -> (r: Result<
    (Vec<u8>, usize),
    Error,
>)
    requires
        pos < b.len(),
    ensures
        r matches Ok((x, end)) ==> pos < end <= b.len() && b@.subrange(pos as int, end as int)
            == bytes_enc(x@),
        r matches Err(e) ==> e == Error::StructuralError,
        encoded_at(b@, pos as int, Bencode::Bytes(hint)) ==> (r matches Ok((x, end)) && x@ == hint
            && end == pos + bytes_enc(hint).len()),
{
    let ghost h = encoded_at(b@, pos as int, Bencode::Bytes(hint));
    let ghost raw = bytes_enc(hint);
    let ghost k: nat = hint.len();
    proof {
        lemma_nat_digits(k);
        if h {
            assert(raw == raw_enc(Bencode::Bytes(hint)));
            assert(raw.subrange(0int, nat_digits(k).len() as int) =~= nat_digits(k));
            lemma_inner(b@, pos as int, raw, 0int, nat_digits(k));
            assert(b@[pos + nat_digits(k).len()] == raw[nat_digits(k).len() as int]);
            let off: int = nat_digits(k).len() as int + 1;
            assert(raw.subrange(off, off + hint.len()) =~= hint);
            lemma_inner(b@, pos as int, raw, off, hint);
        }
    }
    let (n, end) = match scan_digits(b, pos, b.len() as u64, Ghost(k)) {
        Ok(t) => t,
        Err(e) => {
            return Err(e);
        },
    };
    if end >= b.len() || b[end] != 58u8 {
        return Err(Error::StructuralError);
    }
    let start = end + 1;
    if n as usize > b.len() - start {
        return Err(Error::StructuralError);
    }
    let stop = start + n as usize;
    let x = copy_range(b, start, stop);
    proof {
        let ds = b@.subrange(pos as int, end as int);
        lemma_canonical_digits_unique(ds);
        assert(b@.subrange(pos as int, stop as int) =~= bytes_enc(x@));
    }
    Ok((x, stop))
}

/// Reads the value that starts at `pos`; on success, also where it ends.
fn parse_value(b: &[u8], pos: usize, Ghost(hint): Ghost<Bencode>) -> (r: Result<
    (Value, usize),
    Error,
>)
    requires
        pos <= b.len(),
    ensures
        r matches Ok((v, end)) ==> pos < end <= b.len() && valid(v@) && b@.subrange(
            pos as int,
            end as int,
        ) == raw_enc(v@),
        r matches Err(e) ==> e == Error::StructuralError,
        encoded_at(b@, pos as int, hint) ==> (r matches Ok((v, end)) && v@ == hint && end == pos
            + raw_enc(hint).len()),
    decreases b.len() - pos,
{
    let ghost h = encoded_at(b@, pos as int, hint);
    let ghost raw = raw_enc(hint);
    proof {
        lemma_raw_enc_first(hint);
        if h {
            assert(b@[pos as int] == raw[0]);
        }
    }
    if pos >= b.len() {
        return Err(Error::StructuralError);
    }
    let c = b[pos];
    if c == 105u8 {
        let ghost ih: int = match hint {
            Bencode::Int(i) => i,
            _ => 0,
        };
        match parse_int(b, pos, Ghost(ih)) {
            Ok((x, end)) => Ok((Value::Int(x), end)),
            Err(e) => Err(e),
        }
    } else if 48 <= c && c <= 57 {
        let ghost bh: Seq<u8> = match hint {
            Bencode::Bytes(x) => x,
            _ => Seq::empty(),
        };
        match parse_bytes(b, pos, Ghost(bh)) {
            Ok((x, end)) => Ok((Value::Bytes(x), end)),
            Err(e) => Err(e),
        }
    } else if c == 108u8 {
        let ghost ms: Seq<Bencode> = match hint {
            Bencode::List(l) => l,
            _ => Seq::empty(),
        };
        let mut items: Vec<Value> = Vec::new();
        let mut p: usize = pos + 1;
        assert(b@.subrange(pos + 1, p as int) =~= Seq::<u8>::empty());
        assert(ms.take(0) =~= Seq::<Bencode>::empty());
        loop
            invariant
                pos < p <= b.len(),
                b@.subrange(pos + 1, p as int) == raw_enc_list(view_list(items@)),
                forall|j: int| 0 <= j < items@.len() ==> valid(#[trigger] view_list(items@)[j]),
                h == encoded_at(b@, pos as int, hint),
                raw == raw_enc(hint),
                h ==> hint == Bencode::List(ms),
                h ==> items@.len() <= ms.len() && view_list(items@) == ms.take(items@.len() as int)
                    && p == pos + 1 + raw_enc_list(ms.take(items@.len() as int)).len(),
            ensures
                p < b.len(),
                b@[p as int] == 101u8,
                b@.subrange(pos + 1, p as int) == raw_enc_list(view_list(items@)),
                forall|j: int| 0 <= j < items@.len() ==> valid(#[trigger] view_list(items@)[j]),
                h ==> view_list(items@) == ms,
            decreases b.len() - p,
        {
            proof {
                lemma_view_list(items@);
            }
            let ghost k = items@.len() as int;
            let ghost ih: Bencode = if k < ms.len() {
                ms[k]
            } else {
                hint
            };
            proof {
                if h {
                    assert(raw == seq![108u8] + raw_enc_list(ms) + seq![101u8]);
                    if k < ms.len() {
                        lemma_raw_enc_list_split(ms, k);
                        lemma_raw_enc_first(ms[k]);
                        let off: int = 1 + raw_enc_list(ms.take(k)).len() as int;
                        assert(raw.subrange(off, off + raw_enc(ms[k]).len()) =~= raw_enc(ms[k]));
                        lemma_inner(b@, pos as int, raw, off, raw_enc(ms[k]));
                        assert(b@[p as int] == raw_enc(ms[k])[0]);
                        assert(valid(ms[k]));
                    } else {
                        assert(ms.take(k) =~= ms);
                        assert(b@[p as int] == raw[p - pos]);
                    }
                }
            }
            if p >= b.len() {
                return Err(Error::StructuralError);
            }
            if b[p] == 101u8 {
                proof {
                    if h {
                        assert(ms.take(k) =~= ms);
                    }
                }
                break;
            }
            match parse_value(b, p, Ghost(ih)) {
                Ok((v, e)) => {
                    let ghost old_items = items@;
                    items.push(v);
                    proof {
                        assert(items@.drop_last() =~= old_items);
                        assert(view_list(items@) == view_list(old_items).push(v@));
                        assert(view_list(old_items).push(v@).drop_last() =~= view_list(old_items));
                        assert(b@.subrange(pos + 1, e as int) =~= b@.subrange(pos + 1, p as int)
                            + b@.subrange(p as int, e as int));
                        if h {
                            lemma_raw_enc_list_split(ms, k);
                            assert(ms.take(k + 1) =~= ms.take(k).push(ms[k]));
                        }
                        assert forall|j: int| 0 <= j < items@.len() implies valid(
                            #[trigger] view_list(items@)[j],
                        ) by {
                            if j < old_items.len() {
                                assert(view_list(items@)[j] == view_list(old_items)[j]);
                            }
                        }
                    }
                    p = e;
                },
                Err(e) => {
                    return Err(e);
                },
            }
        }
        proof {
            lemma_view_list(items@);
            assert(b@.subrange(pos as int, p + 1) =~= seq![108u8] + b@.subrange(pos + 1, p as int)
                + seq![101u8]);
            if h {
                assert(raw == seq![108u8] + raw_enc_list(ms) + seq![101u8]);
            }
        }
        Ok((Value::List(items), p + 1))
    } else if c == 100u8 {
        let ghost ms: Seq<(Seq<u8>, Bencode)> = match hint {
            Bencode::Dict(d) => d,
            _ => Seq::empty(),
        };
        let mut items: Vec<(Vec<u8>, Value)> = Vec::new();
        let mut p: usize = pos + 1;
        assert(b@.subrange(pos + 1, p as int) =~= Seq::<u8>::empty());
        assert(ms.take(0) =~= Seq::<(Seq<u8>, Bencode)>::empty());
        loop
            invariant
                pos < p <= b.len(),
                b@.subrange(pos + 1, p as int) == raw_enc_dict(view_entries(items@)),
                forall|j: int|
                    0 <= j < items@.len() ==> valid(#[trigger] view_entries(items@)[j].1),
                keys_unique(view_entries(items@)),
                h == encoded_at(b@, pos as int, hint),
                raw == raw_enc(hint),
                h ==> hint == Bencode::Dict(ms),
                h ==> items@.len() <= ms.len() && view_entries(items@) == ms.take(
                    items@.len() as int,
                ) && p == pos + 1 + raw_enc_dict(ms.take(items@.len() as int)).len(),
            ensures
                p < b.len(),
                b@[p as int] == 101u8,
                b@.subrange(pos + 1, p as int) == raw_enc_dict(view_entries(items@)),
                forall|j: int|
                    0 <= j < items@.len() ==> valid(#[trigger] view_entries(items@)[j].1),
                keys_unique(view_entries(items@)),
                h ==> view_entries(items@) == ms,
            decreases b.len() - p,
        {
            proof {
                lemma_view_entries(items@);
            }
            let ghost k = items@.len() as int;
            let ghost kh: Seq<u8> = if k < ms.len() {
                ms[k].0
            } else {
                Seq::empty()
            };
            let ghost vh: Bencode = if k < ms.len() {
                ms[k].1
            } else {
                hint
            };
            let ghost kraw = bytes_enc(kh);
            proof {
                if h {
                    assert(raw == seq![100u8] + raw_enc_dict(ms) + seq![101u8]);
                    if k < ms.len() {
                        lemma_raw_enc_dict_split(ms, k);
                        lemma_raw_enc_first(Bencode::Bytes(kh));
                        let off: int = 1 + raw_enc_dict(ms.take(k)).len() as int;
                        assert(raw.subrange(off, off + kraw.len()) =~= kraw);
                        lemma_inner(b@, pos as int, raw, off, kraw);
                        assert(b@[p as int] == kraw[0]);
                        let off2: int = off + kraw.len() as int;
                        assert(raw.subrange(off2, off2 + raw_enc(vh).len()) =~= raw_enc(vh));
                        lemma_inner(b@, pos as int, raw, off2, raw_enc(vh));
                        assert(valid(vh));
                    } else {
                        assert(ms.take(k) =~= ms);
                        assert(b@[p as int] == raw[p - pos]);
                    }
                }
            }
            if p >= b.len() {
                return Err(Error::StructuralError);
            }
            if b[p] == 101u8 {
                proof {
                    if h {
                        assert(ms.take(k) =~= ms);
                    }
                }
                break;
            }
            if !(48 <= b[p] && b[p] <= 57) {
                return Err(Error::StructuralError);
            }
            let (key, e1) = match parse_bytes(b, p, Ghost(kh)) {
                Ok(t) => t,
                Err(e) => {
                    return Err(e);
                },
            };
            let (v, e2) = match parse_value(b, e1, Ghost(vh)) {
                Ok(t) => t,
                Err(e) => {
                    return Err(e);
                },
            };
            let mut j: usize = 0;
            while j < items.len()
                invariant
                    j <= items@.len(),
                    view_entries(items@).len() == items@.len(),
                    forall|t: int|
                        0 <= t < items@.len() ==> (#[trigger] view_entries(items@)[t]).0
                            == items@[t].0@,
                    forall|t: int| 0 <= t < j ==> view_entries(items@)[t].0 != key@,
                    k == items@.len(),
                    h == encoded_at(b@, pos as int, hint),
                    h ==> view_entries(items@) == ms.take(k),
                    h ==> k < ms.len() && keys_unique(ms) && key@ == ms[k].0,
                decreases items@.len() - j,
            {
                if bytes_eq(items[j].0.as_slice(), key.as_slice()) {
                    proof {
                        if h {
                            assert(view_entries(items@)[j as int].0 == key@);
                            assert(ms.take(k)[j as int] == ms[j as int]);
                            assert(ms[j as int].0 == key@);
                            assert(ms[j as int].0 != ms[k].0);
                        }
                    }
                    return Err(Error::StructuralError);
                }
                j += 1;
            }
            let ghost old_items = items@;
            items.push((key, v));
            proof {
                assert(items@.drop_last() =~= old_items);
                let ve = view_entries(items@);
                assert(ve == view_entries(old_items).push((key@, v@)));
                assert(view_entries(old_items).push((key@, v@)).drop_last() =~= view_entries(
                    old_items,
                ));
                lemma_view_entries(items@);
                assert(b@.subrange(pos + 1, e2 as int) =~= b@.subrange(pos + 1, p as int)
                    + b@.subrange(p as int, e1 as int) + b@.subrange(e1 as int, e2 as int));
                if h {
                    lemma_raw_enc_dict_split(ms, k);
                    assert(ms.take(k + 1) =~= ms.take(k).push(ms[k]));
                }
                assert forall|j1: int| 0 <= j1 < items@.len() implies valid(
                    #[trigger] view_entries(items@)[j1].1,
                ) by {
                    if j1 < old_items.len() {
                        assert(ve[j1] == view_entries(old_items)[j1]);
                    }
                }
                assert forall|i1: int, j1: int| 0 <= i1 < j1 < ve.len() implies #[trigger] ve[i1].0
                    != #[trigger] ve[j1].0 by {
                    if j1 < old_items.len() {
                        assert(ve[i1] == view_entries(old_items)[i1]);
                        assert(ve[j1] == view_entries(old_items)[j1]);
                    } else {
                        assert(ve[i1] == view_entries(old_items)[i1]);
                    }
                }
            }
            p = e2;
        }
        proof {
            lemma_view_entries(items@);
            assert(b@.subrange(pos as int, p + 1) =~= seq![100u8] + b@.subrange(pos + 1, p as int)
                + seq![101u8]);
            if h {
                assert(raw == seq![100u8] + raw_enc_dict(ms) + seq![101u8]);
            }
        }
        Ok((Value::Dict(items), p + 1))
    } else {
        Err(Error::StructuralError)
    }
}

/// `b` is exactly the encoding of the valid value `m`.
pub open spec fn decodes_to(b: Seq<u8>, m: Bencode) -> bool {
    valid(m) && raw_enc(m) == b
}

/// A document decodes to one value at most.
pub proof fn lemma_decodes_to_unique(b: Seq<u8>, m1: Bencode, m2: Bencode)
    requires
        decodes_to(b, m1),
        decodes_to(b, m2),
    ensures
        m1 == m2,
{
    assert(b.subrange(0, b.len() as int) =~= b);
    lemma_raw_enc_prefix_unique(m1, m2, b);
}

/// Decodes a whole bencoded document.
///
/// Succeeds exactly when `b` is the encoding of some valid value, with nothing
/// after it; the value returned encodes back to `b`.
pub fn decode(b: &[u8]) -> (r: Result<Value, Error>)
    ensures
        r matches Ok(v) ==> decodes_to(b@, v@),
        r is Ok <==> exists|m: Bencode| decodes_to(b@, m),
        forall|m: Bencode| decodes_to(b@, m) ==> (r matches Ok(v) && v@ == m),
        r matches Err(e) ==> e == Error::StructuralError,
{
    let ghost hint = choose|m: Bencode| valid(m) && raw_enc(m) == b@;
    proof {
        if exists|m: Bencode| valid(m) && raw_enc(m) == b@ {
            assert(b@.subrange(0, raw_enc(hint).len() as int) =~= b@);
            assert(encoded_at(b@, 0, hint));
        }
    }
    match parse_value(b, 0, Ghost(hint)) {
        Ok((v, end)) => {
            if end != b.len() {
                return Err(Error::StructuralError);
            }
            assert(b@.subrange(0, end as int) =~= b@);
            proof {
                assert forall|m: Bencode| decodes_to(b@, m) implies m == v@ by {
                    lemma_decodes_to_unique(b@, m, v@);
                }
            }
            Ok(v)
        },
        Err(e) => Err(e),
    }
}

} // verus!
