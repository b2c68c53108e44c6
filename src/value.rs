use vstd::prelude::*;

verus! {

broadcast use {vstd::seq::group_seq_axioms, vstd::std_specs::vec::group_vec_axioms};

/// A bencoded value as the decoder produces it and the encoder consumes it.
///
/// Dictionary entries keep the order in which they were read; the encoder
/// orders them by key.
pub enum Value {
    Int(i64),
    Bytes(Vec<u8>),
    List(Vec<Value>),
    Dict(Vec<(Vec<u8>, Value)>),
}

/// The mathematical model of a bencoded value.
pub ghost enum Bencode {
    Int(int),
    Bytes(Seq<u8>),
    List(Seq<Bencode>),
    Dict(Seq<(Seq<u8>, Bencode)>),
}

pub open spec fn view_list(l: Seq<Value>) -> Seq<Bencode>
    decreases l,
{
    if l.len() == 0 {
        Seq::empty()
    } else {
        view_list(l.drop_last()).push(view_value(l.last()))
    }
}

pub open spec fn view_entries(d: Seq<(Vec<u8>, Value)>) -> Seq<(Seq<u8>, Bencode)>
    decreases d,
{
    if d.len() == 0 {
        Seq::empty()
    } else {
        view_entries(d.drop_last()).push((d.last().0@, view_value(d.last().1)))
    }
}

pub open spec fn view_value(v: Value) -> Bencode
    decreases v,
{
    match v {
        Value::Int(i) => Bencode::Int(i as int),
        Value::Bytes(b) => Bencode::Bytes(b@),
        Value::List(l) => Bencode::List(view_list(l@)),
        Value::Dict(d) => Bencode::Dict(view_entries(d@)),
    }
}

pub proof fn lemma_view_list(l: Seq<Value>)
    ensures
        view_list(l).len() == l.len(),
        forall|i: int| 0 <= i < l.len() ==> #[trigger] view_list(l)[i] == view_value(l[i]),
    decreases l.len(),
{
    if l.len() > 0 {
        lemma_view_list(l.drop_last());
    }
}

pub proof fn lemma_view_entries(d: Seq<(Vec<u8>, Value)>)
    ensures
        view_entries(d).len() == d.len(),
        forall|i: int|
            0 <= i < d.len() ==> #[trigger] view_entries(d)[i] == (d[i].0@, view_value(d[i].1)),
    decreases d.len(),
{
    if d.len() > 0 {
        lemma_view_entries(d.drop_last());
    }
}

/// True when the keys of `d` are pairwise distinct.
pub open spec fn keys_unique(d: Seq<(Seq<u8>, Bencode)>) -> bool {
    forall|i: int, j: int| 0 <= i < j < d.len() ==> #[trigger] d[i].0 != #[trigger] d[j].0
}

/// A value that a bencoded document can carry: integers fit in 64 bits and no
/// dictionary repeats a key.
pub open spec fn valid(v: Bencode) -> bool
    decreases v,
{
    match v {
        Bencode::Int(i) => i64::MIN <= i <= i64::MAX,
        Bencode::Bytes(_) => true,
        Bencode::List(l) => forall|i: int| 0 <= i < l.len() ==> valid(#[trigger] l[i]),
        Bencode::Dict(d) => keys_unique(d) && forall|i: int|
            0 <= i < d.len() ==> valid(#[trigger] d[i].1),
    }
}

impl View for Value {
    type V = Bencode;

    open spec fn view(&self) -> Bencode {
        view_value(*self)
    }
}

} // verus!
