use crate::decode::bytes_eq;
use crate::error::Error;
use crate::value::{lemma_view_entries, lemma_view_list, view_entries, view_list, Bencode, Value};
use vstd::prelude::*;
use vstd::string::StringSliceAdditionalSpecFns;
use vstd::utf8::{decode_utf8, valid_utf8};

verus! {

broadcast use {vstd::seq::group_seq_axioms, vstd::std_specs::vec::group_vec_axioms};

/// The value stored under `k` in a dictionary; the last one where a key repeats.
pub open spec fn lookup(d: Seq<(Seq<u8>, Bencode)>, k: Seq<u8>) -> Option<Bencode>
    decreases d.len(),
{
    if d.len() == 0 {
        None
    } else if d.last().0 == k {
        Some(d.last().1)
    } else {
        lookup(d.drop_last(), k)
    }
}

/// A text field: a byte string holding UTF-8.
pub open spec fn text_of(m: Bencode) -> Result<Seq<char>, Error> {
    match m {
        Bencode::Bytes(b) => if valid_utf8(b) {
            Ok(decode_utf8(b))
        } else {
            Err(Error::TypeMismatchError)
        },
        _ => Err(Error::TypeMismatchError),
    }
}

pub open spec fn texts_of(l: Seq<Bencode>) -> Result<Seq<Seq<char>>, Error>
    decreases l.len(),
{
    if l.len() == 0 {
        Ok(Seq::empty())
    } else {
        match texts_of(l.drop_last()) {
            Err(e) => Err(e),
            Ok(s) => match text_of(l.last()) {
                Err(e) => Err(e),
                Ok(t) => Ok(s.push(t)),
            },
        }
    }
}

/// A list of text fields.
pub open spec fn text_list_of(m: Bencode) -> Result<Seq<Seq<char>>, Error> {
    match m {
        Bencode::List(l) => texts_of(l),
        _ => Err(Error::TypeMismatchError),
    }
}

/// An integer field.
pub open spec fn int_of(m: Bencode) -> Result<int, Error> {
    match m {
        Bencode::Int(i) => Ok(i),
        _ => Err(Error::TypeMismatchError),
    }
}

/// A length or size: an integer that is not negative.
pub open spec fn size_of(m: Bencode) -> Result<int, Error> {
    match m {
        Bencode::Int(i) => if i < 0 {
            Err(Error::RangeError)
        } else {
            Ok(i)
        },
        _ => Err(Error::TypeMismatchError),
    }
}

/// A one-byte flag.
pub open spec fn flag_of(m: Bencode) -> Result<int, Error> {
    match m {
        Bencode::Int(i) => if 0 <= i <= 255 {
            Ok(i)
        } else {
            Err(Error::RangeError)
        },
        _ => Err(Error::TypeMismatchError),
    }
}

/// An optional text field.
pub open spec fn opt_text_field(d: Seq<(Seq<u8>, Bencode)>, k: Seq<u8>) -> Result<
    Option<Seq<char>>,
    Error,
> {
    match lookup(d, k) {
        None => Ok(None),
        Some(m) => match text_of(m) {
            Ok(x) => Ok(Some(x)),
            Err(e) => Err(e),
        },
    }
}

/// An optional list of text fields.
pub open spec fn opt_texts_field(d: Seq<(Seq<u8>, Bencode)>, k: Seq<u8>) -> Result<
    Option<Seq<Seq<char>>>,
    Error,
> {
    match lookup(d, k) {
        None => Ok(None),
        Some(m) => match text_list_of(m) {
            Ok(x) => Ok(Some(x)),
            Err(e) => Err(e),
        },
    }
}

/// An optional integer field.
pub open spec fn opt_int_field(d: Seq<(Seq<u8>, Bencode)>, k: Seq<u8>) -> Result<
    Option<int>,
    Error,
> {
    match lookup(d, k) {
        None => Ok(None),
        Some(m) => match int_of(m) {
            Ok(x) => Ok(Some(x)),
            Err(e) => Err(e),
        },
    }
}

/// An optional length or size.
pub open spec fn opt_size_field(d: Seq<(Seq<u8>, Bencode)>, k: Seq<u8>) -> Result<
    Option<int>,
    Error,
> {
    match lookup(d, k) {
        None => Ok(None),
        Some(m) => match size_of(m) {
            Ok(x) => Ok(Some(x)),
            Err(e) => Err(e),
        },
    }
}

/// An optional one-byte flag.
pub open spec fn opt_flag_field(d: Seq<(Seq<u8>, Bencode)>, k: Seq<u8>) -> Result<
    Option<int>,
    Error,
> {
    match lookup(d, k) {
        None => Ok(None),
        Some(m) => match flag_of(m) {
            Ok(x) => Ok(Some(x)),
            Err(e) => Err(e),
        },
    }
}

/// The text of an optional string, as a model.
pub open spec fn opt_text(s: Option<String>) -> Option<Seq<char>> {
    match s {
        Some(t) => Some(t@),
        None => None,
    }
}

/// The texts of an optional list of strings, as a model.
pub open spec fn opt_texts(s: Option<Vec<String>>) -> Option<Seq<Seq<char>>> {
    match s {
        Some(t) => Some(t.deep_view()),
        None => None,
    }
}

/// Relies on `String::from_utf8`: it succeeds exactly on valid UTF-8 and keeps
/// the text that the bytes encode.
#[verifier::external_body]
pub(crate) fn string_from_utf8(b: Vec<u8>) -> (r: Option<String>)
    ensures
        r is Some <==> valid_utf8(b@),
        r matches Some(s) ==> s@ == decode_utf8(b@),
{
    String::from_utf8(b).ok()
}

/// Finds the value stored under `k`.
pub fn find<'a>(d: &'a Vec<(Vec<u8>, Value)>, k: &[u8]) -> (r: Option<&'a Value>)
    ensures
        r matches Some(v) ==> lookup(view_entries(d@), k@) == Some(v@),
        r is None ==> lookup(view_entries(d@), k@) is None,
{
    proof {
        lemma_view_entries(d@);
    }
    let ghost s = view_entries(d@);
    let mut i: usize = d.len();
    assert(s.take(i as int) =~= s);
    while i > 0
        invariant
            i <= d@.len(),
            s == view_entries(d@),
            s.len() == d@.len(),
            forall|t: int| 0 <= t < d@.len() ==> #[trigger] s[t] == (d@[t].0@, d@[t].1@),
            lookup(s, k@) == lookup(s.take(i as int), k@),
        decreases i,
    {
        i -= 1;
        assert(s.take(i + 1).drop_last() =~= s.take(i as int));
        assert(s.take(i + 1).last() == s[i as int]);
        if bytes_eq(d[i].0.as_slice(), k) {
            return Some(&d[i].1);
        }
    }
    None
}

/// Reads a text field.
pub fn get_text(v: &Value) -> (r: Result<String, Error>)
    ensures
        match r {
            Ok(s) => text_of(v@) == Ok::<Seq<char>, Error>(s@),
            Err(e) => text_of(v@) == Err::<Seq<char>, Error>(e),
        },
{
    match v {
        Value::Bytes(b) => match string_from_utf8(b.clone()) {
            Some(s) => Ok(s),
            None => Err(Error::TypeMismatchError),
        },
        _ => Err(Error::TypeMismatchError),
    }
}

/// Reads a list of text fields.
pub fn get_texts(v: &Value) -> (r: Result<Vec<String>, Error>)
    ensures
        match r {
            Ok(s) => text_list_of(v@) == Ok::<Seq<Seq<char>>, Error>(s.deep_view()),
            Err(e) => text_list_of(v@) == Err::<Seq<Seq<char>>, Error>(e),
        },
{
    match v {
        Value::List(l) => {
            proof {
                lemma_view_list(l@);
            }
            let ghost vl = view_list(l@);
            let mut out: Vec<String> = Vec::new();
            let mut i: usize = 0;
            assert(vl.take(0) =~= Seq::<Bencode>::empty());
            assert(out.deep_view() =~= Seq::<Seq<char>>::empty());
            while i < l.len()
                invariant
                    i <= l@.len(),
                    vl == view_list(l@),
                    *v == Value::List(*l),
                    vl.len() == l@.len(),
                    forall|t: int| 0 <= t < l@.len() ==> #[trigger] vl[t] == l@[t]@,
                    texts_of(vl.take(i as int)) == Ok::<Seq<Seq<char>>, Error>(out.deep_view()),
                decreases l@.len() - i,
            {
                assert(vl.take(i + 1).drop_last() =~= vl.take(i as int));
                let s = match get_text(&l[i]) {
                    Ok(s) => s,
                    Err(e) => {
                        proof {
                            assert(vl.take(i + 1).last() == vl[i as int]);
                            assert(texts_of(vl.take(i + 1)) == Err::<Seq<Seq<char>>, Error>(e));
                            lemma_texts_prefix_err(vl, i as int + 1, e);
                        }
                        return Err(e);
                    },
                };
                let ghost old_out = out.deep_view();
                out.push(s);
                assert(out.deep_view() =~= old_out.push(s@));
                i += 1;
            }
            assert(vl.take(l@.len() as int) =~= vl);
            Ok(out)
        },
        _ => Err(Error::TypeMismatchError),
    }
}

/// An error in a prefix of a list is the error of the whole list.
pub proof fn lemma_texts_prefix_err(l: Seq<Bencode>, k: int, e: Error)
    requires
        0 <= k <= l.len(),
        texts_of(l.take(k)) == Err::<Seq<Seq<char>>, Error>(e),
    ensures
        texts_of(l) == Err::<Seq<Seq<char>>, Error>(e),
    decreases l.len() - k,
{
    if k < l.len() {
        assert(l.take(k + 1).drop_last() =~= l.take(k));
        lemma_texts_prefix_err(l, k + 1, e);
    } else {
        assert(l.take(k) =~= l);
    }
}

/// Reads an integer field.
pub fn get_int(v: &Value) -> (r: Result<i64, Error>)
    ensures
        match r {
            Ok(x) => int_of(v@) == Ok::<int, Error>(x as int),
            Err(e) => int_of(v@) == Err::<int, Error>(e),
        },
{
    match v {
        Value::Int(i) => Ok(*i),
        _ => Err(Error::TypeMismatchError),
    }
}

/// Reads a length or size field.
pub fn get_size(v: &Value) -> (r: Result<i64, Error>)
    ensures
        match r {
            Ok(x) => size_of(v@) == Ok::<int, Error>(x as int),
            Err(e) => size_of(v@) == Err::<int, Error>(e),
        },
{
    match v {
        Value::Int(i) => if *i < 0 {
            Err(Error::RangeError)
        } else {
            Ok(*i)
        },
        _ => Err(Error::TypeMismatchError),
    }
}

/// Reads a one-byte flag.
pub fn get_flag(v: &Value) -> (r: Result<u8, Error>)
    ensures
        match r {
            Ok(x) => flag_of(v@) == Ok::<int, Error>(x as int),
            Err(e) => flag_of(v@) == Err::<int, Error>(e),
        },
{
    match v {
        Value::Int(i) => if 0 <= *i && *i <= 255 {
            Ok(*i as u8)
        } else {
            Err(Error::RangeError)
        },
        _ => Err(Error::TypeMismatchError),
    }
}

/// Reads an optional text field.
pub fn find_text(d: &Vec<(Vec<u8>, Value)>, k: &str) -> (r: Result<Option<String>, Error>)
    ensures
        match r {
            Ok(x) => opt_text_field(view_entries(d@), k.spec_bytes()) == Ok::<
                Option<Seq<char>>,
                Error,
            >(opt_text(x)),
            Err(e) => opt_text_field(view_entries(d@), k.spec_bytes()) == Err::<
                Option<Seq<char>>,
                Error,
            >(e),
        },
{
    match find(d, k.as_bytes()) {
        None => Ok(None),
        Some(v) => match get_text(v) {
            Ok(s) => Ok(Some(s)),
            Err(e) => Err(e),
        },
    }
}

/// Reads an optional list of text fields.
pub fn find_texts(d: &Vec<(Vec<u8>, Value)>, k: &str) -> (r: Result<Option<Vec<String>>, Error>)
    ensures
        match r {
            Ok(x) => opt_texts_field(view_entries(d@), k.spec_bytes()) == Ok::<
                Option<Seq<Seq<char>>>,
                Error,
            >(opt_texts(x)),
            Err(e) => opt_texts_field(view_entries(d@), k.spec_bytes()) == Err::<
                Option<Seq<Seq<char>>>,
                Error,
            >(e),
        },
{
    match find(d, k.as_bytes()) {
        None => Ok(None),
        Some(v) => match get_texts(v) {
            Ok(s) => Ok(Some(s)),
            Err(e) => Err(e),
        },
    }
}

/// Reads an optional integer field.
pub fn find_int(d: &Vec<(Vec<u8>, Value)>, k: &str) -> (r: Result<Option<i64>, Error>)
    ensures
        match r {
            Ok(x) => opt_int_field(view_entries(d@), k.spec_bytes()) == Ok::<Option<int>, Error>(
                match x {
                    Some(i) => Some(i as int),
                    None => None,
                },
            ),
            Err(e) => opt_int_field(view_entries(d@), k.spec_bytes()) == Err::<Option<int>, Error>(
                e,
            ),
        },
{
    match find(d, k.as_bytes()) {
        None => Ok(None),
        Some(v) => match get_int(v) {
            Ok(s) => Ok(Some(s)),
            Err(e) => Err(e),
        },
    }
}

/// Reads an optional length or size.
pub fn find_size(d: &Vec<(Vec<u8>, Value)>, k: &str) -> (r: Result<Option<i64>, Error>)
    ensures
        match r {
            Ok(x) => opt_size_field(view_entries(d@), k.spec_bytes()) == Ok::<Option<int>, Error>(
                match x {
                    Some(i) => Some(i as int),
                    None => None,
                },
            ),
            Err(e) => opt_size_field(view_entries(d@), k.spec_bytes()) == Err::<
                Option<int>,
                Error,
            >(e),
        },
{
    match find(d, k.as_bytes()) {
        None => Ok(None),
        Some(v) => match get_size(v) {
            Ok(s) => Ok(Some(s)),
            Err(e) => Err(e),
        },
    }
}

/// Reads an optional one-byte flag.
pub fn find_flag(d: &Vec<(Vec<u8>, Value)>, k: &str) -> (r: Result<Option<u8>, Error>)
    ensures
        match r {
            Ok(x) => opt_flag_field(view_entries(d@), k.spec_bytes()) == Ok::<Option<int>, Error>(
                match x {
                    Some(i) => Some(i as int),
                    None => None,
                },
            ),
            Err(e) => opt_flag_field(view_entries(d@), k.spec_bytes()) == Err::<
                Option<int>,
                Error,
            >(e),
        },
{
    match find(d, k.as_bytes()) {
        None => Ok(None),
        Some(v) => match get_flag(v) {
            Ok(s) => Ok(Some(s)),
            Err(e) => Err(e),
        },
    }
}

} // verus!
