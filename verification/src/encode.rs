//! The canonical byte form of a bencoded term, and the function that writes it.

use crate::syntax::{COLON, DICT_TAG, END, INT_TAG, LIST_TAG, MINUS};
use crate::value::{Bencoded, Term};
use vstd::prelude::*;

verus! {

/// The decimal digits of `n` as ASCII bytes, without leading zeros.
pub open spec fn decimal_digits(n: nat) -> Seq<u8>
    decreases n,
{
    if n < 10 {
        seq![(48 + n) as u8]
    } else {
        decimal_digits(n / 10).push((48 + n % 10) as u8)
    }
}

/// An integer between `i` and `e`, with a minus sign where it is negative.
pub open spec fn encoded_int(i: int) -> Seq<u8> {
    if i < 0 {
        seq![INT_TAG, MINUS] + decimal_digits((-i) as nat) + seq![END]
    } else {
        seq![INT_TAG] + decimal_digits(i as nat) + seq![END]
    }
}

/// A byte string behind its length and a colon.
pub open spec fn encoded_bytes(b: Seq<u8>) -> Seq<u8> {
    decimal_digits(b.len()) + seq![COLON] + b
}

/// The canonical encoding of a term. Dictionary entries are written in the
/// order in which the term holds them.
pub open spec fn encoded(t: Term) -> Seq<u8>
    decreases t, 0nat,
{
    match t {
        Term::Bytes(b) => encoded_bytes(b),
        Term::Int(i) => encoded_int(i),
        Term::List(l) => seq![LIST_TAG] + encoded_list(l) + seq![END],
        Term::Dict(d) => seq![DICT_TAG] + encoded_entries(d) + seq![END],
    }
}

/// The encodings of the items of a list, one after the other.
pub open spec fn encoded_list(l: Seq<Term>) -> Seq<u8>
    decreases l, 1nat,
{
    if l.len() == 0 {
        Seq::empty()
    } else {
        encoded(l[0]) + encoded_list(l.skip(1))
    }
}

/// The encodings of the entries of a dictionary, each key before its value.
pub open spec fn encoded_entries(d: Seq<(Seq<u8>, Term)>) -> Seq<u8>
    decreases d, 1nat,
{
    if d.len() == 0 {
        Seq::empty()
    } else {
        encoded_bytes(d[0].0) + encoded(d[0].1) + encoded_entries(d.skip(1))
    }
}

/// Writing one more item behind a list appends its encoding.
pub proof fn lemma_encoded_list_push(l: Seq<Term>, x: Term)
    ensures
        encoded_list(l.push(x)) == encoded_list(l) + encoded(x),
    decreases l.len(),
{
    let m = l.push(x);
    if l.len() == 0 {
        assert(m.skip(1) =~= Seq::<Term>::empty());
        assert(m[0] == x);
        assert(encoded_list(m.skip(1)) =~= Seq::<u8>::empty());
        assert(encoded_list(l) =~= Seq::<u8>::empty());
        assert(encoded_list(m) =~= encoded_list(l) + encoded(x));
    } else {
        assert(m.skip(1) =~= l.skip(1).push(x));
        lemma_encoded_list_push(l.skip(1), x);
        assert(encoded_list(m) =~= encoded_list(l) + encoded(x));
    }
}

/// Writing one more entry behind a dictionary appends its key and value.
pub proof fn lemma_encoded_entries_push(d: Seq<(Seq<u8>, Term)>, key: Seq<u8>, value: Term)
    ensures
        encoded_entries(d.push((key, value))) == encoded_entries(d) + encoded_bytes(key) + encoded(
            value,
        ),
    decreases d.len(),
{
    let m = d.push((key, value));
    if d.len() == 0 {
        assert(m.skip(1) =~= Seq::<(Seq<u8>, Term)>::empty());
        assert(m[0] == (key, value));
        assert(encoded_entries(m.skip(1)) =~= Seq::<u8>::empty());
        assert(encoded_entries(d) =~= Seq::<u8>::empty());
        assert(encoded_entries(m) =~= encoded_entries(d) + encoded_bytes(key) + encoded(value));
    } else {
        assert(m.skip(1) =~= d.skip(1).push((key, value)));
        lemma_encoded_entries_push(d.skip(1), key, value);
        assert(encoded_entries(m) =~= encoded_entries(d) + encoded_bytes(key) + encoded(value));
    }
}

/// Appends the decimal digits of `n`.
fn push_decimal(out: &mut Vec<u8>, n: u64)
    ensures
        final(out)@ == old(out)@ + decimal_digits(n as nat),
    decreases n,
{
    if n >= 10 {
        push_decimal(out, n / 10);
    }
    out.push(48 + (n % 10) as u8);
    assert(out@ =~= old(out)@ + decimal_digits(n as nat));
}

/// Appends a byte string: its length, a colon, its bytes.
fn push_bytes(out: &mut Vec<u8>, b: &Vec<u8>)
    ensures
        final(out)@ == old(out)@ + encoded_bytes(b@),
{
    push_decimal(out, b.len() as u64);
    out.push(COLON);
    let ghost head = out@;
    let mut i: usize = 0;
    while i < b.len()
        invariant
            i <= b.len(),
            out@ == head + b@.take(i as int),
        decreases b.len() - i,
    {
        out.push(b[i]);
        assert(b@.take(i + 1) =~= b@.take(i as int).push(b@[i as int]));
        i += 1;
    }
    assert(b@.take(i as int) =~= b@);
    assert(out@ =~= old(out)@ + encoded_bytes(b@));
}

/// Appends an integer between `i` and `e`.
fn push_int(out: &mut Vec<u8>, i: i64)
    ensures
        final(out)@ == old(out)@ + encoded_int(i as int),
{
    out.push(INT_TAG);
    if i < 0 {
        out.push(MINUS);
        let magnitude: u64 = if i == i64::MIN {
            9223372036854775808u64
        } else {
            (-i) as u64
        };
        push_decimal(out, magnitude);
    } else {
        push_decimal(out, i as u64);
    }
    out.push(END);
    assert(out@ =~= old(out)@ + encoded_int(i as int));
}

/// Appends the encoding of `value`. On the way it sees every dictionary in
/// it, each with its keys in order.
fn push_term(out: &mut Vec<u8>, value: &Bencoded)
    ensures
        final(out)@ == old(out)@ + encoded(value@),
        value@.wf(),
    decreases value@,
{
    match value {
        Bencoded::String(b) => {
            push_bytes(out, b);
        },
        Bencoded::Integer(i) => {
            push_int(out, *i);
        },
        Bencoded::List(l) => {
            out.push(LIST_TAG);
            let ghost head = out@;
            let ghost items = value@->List_0;
            let mut i: usize = 0;
            while i < l.len()
                invariant
                    i <= l.len(),
                    value@ == Term::List(items),
                    items.len() == l.len(),
                    forall|j: int| 0 <= j < l.len() ==> items[j] == (#[trigger] l@[j])@,
                    forall|j: int| 0 <= j < i ==> (#[trigger] items[j]).wf(),
                    out@ == head + encoded_list(items.take(i as int)),
                decreases l.len() - i,
            {
                proof {
                    let ghost whole = value@;
                    assert(whole is List && whole->List_0 == items);
                    assert(decreases_to!(whole => whole->List_0));
                    assert(decreases_to!(items => items[i as int]));
                }
                push_term(out, &l[i]);
                proof {
                    lemma_encoded_list_push(items.take(i as int), items[i as int]);
                    assert(items.take(i + 1) =~= items.take(i as int).push(items[i as int]));
                    assert(out@ =~= head + encoded_list(items.take(i + 1)));
                }
                i += 1;
            }
            out.push(END);
            assert(items.take(i as int) =~= items);
            assert(out@ =~= old(out)@ + encoded(value@));
        },
        Bencoded::Dict(d) => {
            out.push(DICT_TAG);
            let ghost head = out@;
            let ghost entries = d@;
            let n = d.len();
            let mut i: usize = 0;
            while i < n
                invariant
                    i <= n,
                    n == entries.len(),
                    entries == d@,
                    value@ == Term::Dict(entries),
                    forall|j: int| 0 <= j < i ==> (#[trigger] entries[j]).1.wf(),
                    out@ == head + encoded_entries(entries.take(i as int)),
                decreases n - i,
            {
                match d.entry(i) {
                    Some((k, v)) => {
                        push_bytes(out, k);
                        proof {
                            let ghost whole = value@;
                            assert(whole is Dict && whole->Dict_0 == entries);
                            assert(decreases_to!(whole => whole->Dict_0));
                            assert(decreases_to!(entries => entries[i as int]));
                            assert(decreases_to!(entries[i as int] => entries[i as int].1));
                        }
                        push_term(out, v);
                        proof {
                            lemma_encoded_entries_push(
                                entries.take(i as int),
                                entries[i as int].0,
                                entries[i as int].1,
                            );
                            assert(entries.take(i + 1) =~= entries.take(i as int).push(
                                entries[i as int],
                            ));
                            assert(out@ =~= head + encoded_entries(entries.take(i + 1)));
                        }
                    },
                    None => {},
                }
                i += 1;
            }
            out.push(END);
            assert(entries.take(i as int) =~= entries);
            assert(out@ =~= old(out)@ + encoded(value@));
        },
    }
}

impl Bencoded {
    /// The canonical encoding of this value: integers without leading zeros,
    /// dictionary keys in ascending byte order.
    pub fn encode(&self) -> (out: Vec<u8>)
        ensures
            out@ == encoded(self@),
            self@.wf(),
    {
        let mut out: Vec<u8> = Vec::new();
        push_term(&mut out, self);
        assert(out@ =~= encoded(self@));
        out
    }
}

} // verus!
