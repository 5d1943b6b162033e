//! Bencoded terms as JSON values, for showing them to a reader.

use crate::error::Error;
use crate::text::text_from_utf8;
use crate::value::{Bencoded, Term};
use vstd::prelude::*;
use vstd::slice::slice_to_vec;
use vstd::utf8::{decode_utf8, valid_utf8};

verus! {

/// A JSON value as it comes out of a bencoded term: there are no floats, no
/// booleans and no null.
#[derive(Debug, PartialEq, Eq)]
pub enum Json {
    String(String),
    Number(i64),
    Array(Vec<Json>),
    Object(Vec<(String, Json)>),
}

/// A JSON value as sequences and unbounded integers.
pub enum JsonTerm {
    String(Seq<char>),
    Number(int),
    Array(Seq<JsonTerm>),
    Object(Seq<(Seq<char>, JsonTerm)>),
}

/// The JSON values that a sequence of values stands for.
pub open spec fn array_view(items: Seq<Json>) -> Seq<JsonTerm>
    decreases items,
{
    Seq::new(
        items.len(),
        |i: int|
            if 0 <= i < items.len() {
                items[i]@
            } else {
                JsonTerm::Number(0)
            },
    )
}

/// The members that a sequence of names and values stands for.
pub open spec fn object_view(members: Seq<(String, Json)>) -> Seq<(Seq<char>, JsonTerm)>
    decreases members,
{
    Seq::new(
        members.len(),
        |i: int|
            if 0 <= i < members.len() {
                (members[i].0@, members[i].1@)
            } else {
                (Seq::empty(), JsonTerm::Number(0))
            },
    )
}

impl View for Json {
    type V = JsonTerm;

    open spec fn view(&self) -> JsonTerm
        decreases self,
    {
        match self {
            Json::String(s) => JsonTerm::String(s@),
            Json::Number(n) => JsonTerm::Number(*n as int),
            Json::Array(items) => JsonTerm::Array(array_view(items@)),
            Json::Object(members) => JsonTerm::Object(object_view(members@)),
        }
    }
}

/// Every byte string in the term, keys too, is valid UTF-8.
pub open spec fn is_text(t: Term) -> bool
    decreases t,
{
    match t {
        Term::Bytes(b) => valid_utf8(b),
        Term::Int(_) => true,
        Term::List(l) => forall|i: int| 0 <= i < l.len() ==> is_text(#[trigger] l[i]),
        Term::Dict(d) => forall|i: int|
            0 <= i < d.len() ==> valid_utf8((#[trigger] d[i]).0) && is_text(d[i].1),
    }
}

/// The JSON value of a term: a byte string becomes the text that it encodes,
/// an integer a number, a list an array, and a dictionary an object with its
/// members in the order of the keys.
pub open spec fn json_of(t: Term) -> JsonTerm
    decreases t,
{
    match t {
        Term::Bytes(b) => JsonTerm::String(decode_utf8(b)),
        Term::Int(i) => JsonTerm::Number(i),
        Term::List(l) => JsonTerm::Array(
            Seq::new(
                l.len(),
                |i: int|
                    if 0 <= i < l.len() {
                        json_of(l[i])
                    } else {
                        JsonTerm::Number(0)
                    },
            ),
        ),
        Term::Dict(d) => JsonTerm::Object(
            Seq::new(
                d.len(),
                |i: int|
                    if 0 <= i < d.len() {
                        (decode_utf8(d[i].0), json_of(d[i].1))
                    } else {
                        (Seq::empty(), JsonTerm::Number(0))
                    },
            ),
        ),
    }
}

/// Turns a bencoded term into a JSON value. Fails with `SchemaError` where a
/// byte string or a key in it is not valid UTF-8.
pub fn convert_bencode_to_json(value: &Bencoded) -> (r: Result<Json, Error>)
    ensures
        match r {
            Ok(json) => is_text(value@) && json@ == json_of(value@),
            Err(e) => !is_text(value@) && e == Error::SchemaError,
        },
    decreases value@,
{
    match value {
        Bencoded::String(b) => match text_from_utf8(slice_to_vec(b.as_slice())) {
            Some(text) => Ok(Json::String(text)),
            None => Err(Error::SchemaError),
        },
        Bencoded::Integer(i) => Ok(Json::Number(*i)),
        Bencoded::List(l) => {
            let ghost items = value@->List_0;
            let mut out: Vec<Json> = Vec::new();
            let mut i: usize = 0;
            while i < l.len()
                invariant
                    i <= l.len(),
                    value@ == Term::List(items),
                    items.len() == l.len(),
                    forall|j: int| 0 <= j < l.len() ==> items[j] == (#[trigger] l@[j])@,
                    out.len() == i,
                    forall|j: int| 0 <= j < i ==> is_text(#[trigger] items[j]),
                    forall|j: int| 0 <= j < i ==> (#[trigger] out@[j])@ == json_of(items[j]),
                decreases l.len() - i,
            {
                proof {
                    let ghost whole = value@;
                    assert(whole is List && whole->List_0 == items);
                    assert(decreases_to!(whole => whole->List_0));
                    assert(decreases_to!(items => items[i as int]));
                }
                match convert_bencode_to_json(&l[i]) {
                    Ok(json) => {
                        out.push(json);
                    },
                    Err(_) => {
                        assert(!is_text(items[i as int]));
                        return Err(Error::SchemaError);
                    },
                }
                i += 1;
            }
            let json = Json::Array(out);
            assert(json@->Array_0 =~= json_of(value@)->Array_0);
            Ok(json)
        },
        Bencoded::Dict(d) => {
            let ghost entries = d@;
            let n = d.len();
            let mut out: Vec<(String, Json)> = Vec::new();
            let mut i: usize = 0;
            while i < n
                invariant
                    i <= n,
                    n == entries.len(),
                    entries == d@,
                    value@ == Term::Dict(entries),
                    out.len() == i,
                    forall|j: int|
                        0 <= j < i ==> valid_utf8((#[trigger] entries[j]).0) && is_text(
                            entries[j].1,
                        ),
                    forall|j: int|
                        0 <= j < i ==> (#[trigger] out@[j]).0@ == decode_utf8(entries[j].0)
                            && out@[j].1@ == json_of(entries[j].1),
                decreases n - i,
            {
                match d.entry(i) {
                    Some((k, v)) => {
                        let name = match text_from_utf8(slice_to_vec(k.as_slice())) {
                            Some(name) => name,
                            None => {
                                assert(!valid_utf8(entries[i as int].0));
                                return Err(Error::SchemaError);
                            },
                        };
                        proof {
                            let ghost whole = value@;
                            assert(whole is Dict && whole->Dict_0 == entries);
                            assert(decreases_to!(whole => whole->Dict_0));
                            assert(decreases_to!(entries => entries[i as int]));
                            assert(decreases_to!(entries[i as int] => entries[i as int].1));
                        }
                        match convert_bencode_to_json(v) {
                            Ok(json) => {
                                out.push((name, json));
                            },
                            Err(_) => {
                                assert(!is_text(entries[i as int].1));
                                return Err(Error::SchemaError);
                            },
                        }
                    },
                    None => {},
                }
                i += 1;
            }
            let json = Json::Object(out);
            assert(json@->Object_0 =~= json_of(value@)->Object_0);
            Ok(json)
        },
    }
}

} // verus!
