//! What holds of the codec as a whole: decoding undoes encoding, and a
//! dictionary does not depend on the order in which it was filled.

use crate::decode::{
    collected, decimal_value, decoded, decoded_bytes, decoded_int, decoded_items, decoded_pairs,
    digit_run, lemma_collected_wf, lemma_decoded_wf,
};
use crate::digest::sha1_digest;
use crate::encode::{
    decimal_digits, encoded, encoded_bytes, encoded_entries, encoded_int, encoded_list,
};
use crate::metainfo::{dict_at, is_metainfo, metainfo_fields, Metainfo};
use crate::order::{lemma_lex_asymmetric, lex_lt};
use crate::syntax::{is_digit, COLON, DICT_TAG, END, INT_TAG, LIST_TAG, MINUS};
use crate::value::{inserted, keys_ascending, lemma_inserted_ascending, lookup, values_wf, Term};
use vstd::prelude::*;
use vstd::string::*;

verus! {

/// The digits of a number are digits, and there is at least one.
pub proof fn lemma_digits_are_digits(n: nat)
    ensures
        decimal_digits(n).len() >= 1,
        forall|i: int|
            0 <= i < decimal_digits(n).len() ==> is_digit(#[trigger] decimal_digits(n)[i]),
    decreases n,
{
    if n >= 10 {
        lemma_digits_are_digits(n / 10);
    }
}

/// Reading the digits of a number gives the number back.
pub proof fn lemma_decimal_round_trip(n: nat)
    ensures
        decimal_value(decimal_digits(n)) == n,
    decreases n,
{
    let ds = decimal_digits(n);
    if n < 10 {
        assert(ds.drop_last() =~= Seq::<u8>::empty());
        assert(decimal_value(ds.drop_last()) == 0);
    } else {
        lemma_decimal_round_trip(n / 10);
        assert(ds.drop_last() =~= decimal_digits(n / 10));
    }
}

/// A run of digits in front of a byte that is none is counted in full.
pub proof fn lemma_digit_run_prefix(ds: Seq<u8>, rest: Seq<u8>)
    requires
        forall|i: int| 0 <= i < ds.len() ==> is_digit(#[trigger] ds[i]),
        rest.len() == 0 || !is_digit(rest[0]),
    ensures
        digit_run(ds + rest) == ds.len(),
    decreases ds.len(),
{
    let s = ds + rest;
    if ds.len() == 0 {
        assert(s =~= rest);
    } else {
        assert(s[0] == ds[0]);
        assert(s.skip(1) =~= ds.skip(1) + rest);
        let tail = ds.skip(1);
        assert forall|i: int| 0 <= i < tail.len() implies is_digit(#[trigger] tail[i]) by {
            assert(tail[i] == ds[i + 1]);
        }
        lemma_digit_run_prefix(ds.skip(1), rest);
    }
}

/// A byte string decodes from its encoding, whatever follows.
pub proof fn lemma_round_trip_bytes(b: Seq<u8>, rest: Seq<u8>)
    ensures
        decoded_bytes(encoded_bytes(b) + rest) == Some((Term::Bytes(b), encoded_bytes(b).len())),
        is_digit((encoded_bytes(b) + rest)[0]),
{
    let ds = decimal_digits(b.len());
    let s = encoded_bytes(b) + rest;
    let tail = seq![COLON] + b + rest;
    lemma_digits_are_digits(b.len());
    lemma_decimal_round_trip(b.len());
    assert(s =~= ds + tail);
    assert(tail[0] == COLON);
    lemma_digit_run_prefix(ds, tail);
    let n = ds.len();
    assert(s.take(n as int) =~= ds);
    assert(s[n as int] == tail[0]);
    assert(s.subrange(n as int + 1, n as int + 1 + b.len()) =~= b);
    assert(s[0] == ds[0]);
}

/// An integer of 64 bits decodes from its encoding, whatever follows.
pub proof fn lemma_round_trip_int(i: int, rest: Seq<u8>)
    requires
        i64::MIN <= i <= i64::MAX,
    ensures
        decoded_int(encoded_int(i) + rest) == Some((Term::Int(i), encoded_int(i).len())),
        (encoded_int(i) + rest)[0] == INT_TAG,
{
    let s = encoded_int(i) + rest;
    let tail = seq![END] + rest;
    if i < 0 {
        let ds = decimal_digits((-i) as nat);
        lemma_digits_are_digits((-i) as nat);
        lemma_decimal_round_trip((-i) as nat);
        assert(s =~= seq![INT_TAG, MINUS] + ds + tail);
        assert(s[1] == MINUS);
        assert(s.skip(2) =~= ds + tail);
        assert(tail[0] == END);
        lemma_digit_run_prefix(ds, tail);
        assert(s.subrange(2, 2int + ds.len()) =~= ds);
        assert(s[2int + ds.len()] == tail[0]);
    } else {
        let ds = decimal_digits(i as nat);
        lemma_digits_are_digits(i as nat);
        lemma_decimal_round_trip(i as nat);
        assert(s =~= seq![INT_TAG] + ds + tail);
        assert(s[1] == ds[0]);
        assert(s.skip(1) =~= ds + tail);
        assert(tail[0] == END);
        lemma_digit_run_prefix(ds, tail);
        assert(s.subrange(1, 1int + ds.len()) =~= ds);
        assert(s[1int + ds.len()] == tail[0]);
    }
}

/// An encoding is never empty and never starts with the closing `e`.
pub proof fn lemma_encoded_first_byte(t: Term)
    ensures
        encoded(t).len() > 0,
        encoded(t)[0] != END,
{
    match t {
        Term::Bytes(b) => {
            lemma_digits_are_digits(b.len());
            assert(encoded(t)[0] == decimal_digits(b.len())[0]);
        },
        Term::Int(i) => {},
        Term::List(l) => {},
        Term::Dict(d) => {},
    }
}

/// Filling a dictionary with entries whose keys already ascend gives those
/// entries.
pub proof fn lemma_collected_ascending(d: Seq<(Seq<u8>, Term)>)
    requires
        keys_ascending(d),
    ensures
        collected(d) == d,
    decreases d.len(),
{
    if d.len() == 0 {
        assert(d =~= Seq::empty());
    } else {
        let front = d.drop_last();
        assert(keys_ascending(front)) by {
            assert forall|i: int, j: int| 0 <= i < j < front.len() implies lex_lt(
                front[i].0,
                front[j].0,
            ) by {
                assert(lex_lt(d[i].0, d[j].0));
            }
        }
        lemma_collected_ascending(front);
        if front.len() > 0 {
            assert(lex_lt(d[d.len() - 2].0, d[d.len() - 1].0));
            assert(front.last() == d[d.len() - 2]);
        }
        assert(inserted(front, d.last().0, d.last().1) =~= d);
    }
}

/// A well-formed term decodes from its encoding, whatever follows: the
/// decoder gives the term back and takes exactly the bytes of the encoding.
pub proof fn lemma_round_trip_term(t: Term, rest: Seq<u8>)
    requires
        t.wf(),
    ensures
        decoded(encoded(t) + rest) == Some((t, encoded(t).len())),
    decreases t, 0nat,
{
    let s = encoded(t) + rest;
    lemma_encoded_first_byte(t);
    match t {
        Term::Bytes(b) => {
            lemma_round_trip_bytes(b, rest);
        },
        Term::Int(i) => {
            lemma_round_trip_int(i, rest);
        },
        Term::List(l) => {
            assert(s[0] == LIST_TAG);
            assert(s.skip(1) =~= encoded_list(l) + seq![END] + rest);
            lemma_round_trip_items(l, rest);
        },
        Term::Dict(d) => {
            assert(s[0] == DICT_TAG);
            assert(s.skip(1) =~= encoded_entries(d) + seq![END] + rest);
            lemma_round_trip_pairs(d, rest);
            lemma_collected_ascending(d);
        },
    }
}

/// The items of a list decode from their encodings and the closing `e`.
pub proof fn lemma_round_trip_items(l: Seq<Term>, rest: Seq<u8>)
    requires
        forall|i: int| 0 <= i < l.len() ==> (#[trigger] l[i]).wf(),
    ensures
        decoded_items(encoded_list(l) + seq![END] + rest) == Some((l, encoded_list(l).len() + 1)),
    decreases l, 1nat,
{
    let s = encoded_list(l) + seq![END] + rest;
    if l.len() == 0 {
        assert(s[0] == END);
        assert(l =~= Seq::empty());
    } else {
        let head = encoded(l[0]);
        let after = encoded_list(l.skip(1)) + seq![END] + rest;
        lemma_encoded_first_byte(l[0]);
        assert(s =~= head + after);
        assert(s[0] == head[0]);
        lemma_round_trip_term(l[0], after);
        assert(s.skip(head.len() as int) =~= after);
        assert forall|i: int| 0 <= i < l.skip(1).len() implies (#[trigger] l.skip(1)[i]).wf() by {
            assert(l.skip(1)[i] == l[i + 1]);
        }
        lemma_round_trip_items(l.skip(1), rest);
        assert(seq![l[0]] + l.skip(1) =~= l);
    }
}

/// The entries of a dictionary decode from their encodings and the closing
/// `e`, in the order in which they were written.
pub proof fn lemma_round_trip_pairs(d: Seq<(Seq<u8>, Term)>, rest: Seq<u8>)
    requires
        forall|i: int| 0 <= i < d.len() ==> (#[trigger] d[i]).1.wf(),
    ensures
        decoded_pairs(encoded_entries(d) + seq![END] + rest) == Some(
            (d, encoded_entries(d).len() + 1),
        ),
    decreases d, 1nat,
{
    let s = encoded_entries(d) + seq![END] + rest;
    if d.len() == 0 {
        assert(s[0] == END);
        assert(d =~= Seq::empty());
    } else {
        let key = encoded_bytes(d[0].0);
        let value = encoded(d[0].1);
        let after = encoded_entries(d.skip(1)) + seq![END] + rest;
        assert(s =~= key + (value + after));
        lemma_round_trip_bytes(d[0].0, value + after);
        assert(s[0] != END && s[0] != INT_TAG && s[0] != LIST_TAG && s[0] != DICT_TAG);
        assert(decoded(s) == decoded_bytes(s));
        assert(s.skip(key.len() as int) =~= value + after);
        assert(decreases_to!(d => d[0]));
        assert(decreases_to!(d[0] => d[0].1));
        lemma_round_trip_term(d[0].1, after);
        lemma_encoded_first_byte(d[0].1);
        assert(s.skip(key.len() as int + value.len()) =~= after);
        assert forall|i: int| 0 <= i < d.skip(1).len() implies (#[trigger] d.skip(1)[i]).1.wf() by {
            assert(d.skip(1)[i] == d[i + 1]);
        }
        lemma_round_trip_pairs(d.skip(1), rest);
        assert(seq![(d[0].0, d[0].1)] + d.skip(1) =~= d);
    }
}

/// A buffer is canonical where it is the encoding of a well-formed term:
/// integers without leading zeros, dictionary keys ascending and none twice,
/// and nothing behind the term.
pub open spec fn is_canonical(x: Seq<u8>) -> bool {
    exists|t: Term| t.wf() && x == #[trigger] encoded(t)
}

/// Decoding a canonical buffer and encoding the outcome gives the buffer
/// back, byte for byte, and the decoder takes all of it.
pub proof fn law_round_trip(x: Seq<u8>)
    requires
        is_canonical(x),
    ensures
        decoded(x) matches Some((u, n)) && n == x.len() && u.wf() && encoded(u) == x,
{
    let t = choose|t: Term| t.wf() && x == #[trigger] encoded(t);
    lemma_round_trip_term(t, Seq::empty());
    assert(encoded(t) + Seq::<u8>::empty() =~= encoded(t));
}

/// Whatever a buffer decodes to encodes canonically: the encoding decodes to
/// the same term again, so decoding and encoding a second time change nothing.
pub proof fn law_decoded_encodes_canonically(s: Seq<u8>)
    requires
        decoded(s) is Some,
    ensures
        is_canonical(encoded(decoded(s).unwrap().0)),
        decoded(encoded(decoded(s).unwrap().0)) == Some(
            (decoded(s).unwrap().0, encoded(decoded(s).unwrap().0).len()),
        ),
{
    let t = decoded(s).unwrap().0;
    lemma_decoded_wf(s);
    lemma_round_trip_term(t, Seq::empty());
    assert(encoded(t) + Seq::<u8>::empty() =~= encoded(t));
}

/// `part` stands somewhere in `whole` as a run of bytes.
pub open spec fn occurs_in(part: Seq<u8>, whole: Seq<u8>) -> bool {
    exists|at: int|
        0 <= at && at + part.len() <= whole.len() && #[trigger] whole.subrange(
            at,
            at + part.len(),
        ) == part
}

/// The encoding of each value of a dictionary stands in the encoding of its
/// entries.
pub proof fn lemma_value_occurs(d: Seq<(Seq<u8>, Term)>, index: int)
    requires
        0 <= index < d.len(),
    ensures
        occurs_in(encoded(d[index].1), encoded_entries(d)),
    decreases d.len(),
{
    let whole = encoded_entries(d);
    let part = encoded(d[index].1);
    let key = encoded_bytes(d[0].0);
    let value = encoded(d[0].1);
    let tail = encoded_entries(d.skip(1));
    assert(whole =~= key + value + tail);
    if index == 0 {
        assert(whole.subrange(key.len() as int, key.len() as int + part.len()) =~= part);
    } else {
        lemma_value_occurs(d.skip(1), index - 1);
        assert(d.skip(1)[index - 1] == d[index]);
        let at = choose|at: int|
            0 <= at && at + part.len() <= tail.len() && #[trigger] tail.subrange(
                at,
                at + part.len(),
            ) == part;
        let shift: int = key.len() as int + value.len();
        assert(whole.subrange(shift + at, shift + at + part.len()) =~= tail.subrange(
            at,
            at + part.len(),
        ));
    }
}

/// The encoding of a value that a dictionary holds stands, byte for byte, in
/// the encoding of the dictionary. So the bytes of a canonical file from which
/// an info-hash is computed are bytes of that file.
pub proof fn law_value_bytes_kept(d: Seq<(Seq<u8>, Term)>, key: Seq<u8>)
    requires
        lookup(d, key) is Some,
    ensures
        occurs_in(encoded(lookup(d, key).unwrap()), encoded(Term::Dict(d))),
{
    let v = lookup(d, key).unwrap();
    let part = encoded(v);
    let inner = encoded_entries(d);
    let whole = encoded(Term::Dict(d));
    lemma_lookup_found(d, key);
    let index = choose|i: int| 0 <= i < d.len() && #[trigger] d[i] == (key, v);
    lemma_value_occurs(d, index);
    let at = choose|at: int|
        0 <= at && at + part.len() <= inner.len() && #[trigger] inner.subrange(at, at + part.len())
            == part;
    assert(whole =~= seq![DICT_TAG] + inner + seq![END]);
    assert(whole.subrange(1 + at, 1 + at + part.len()) =~= inner.subrange(at, at + part.len()));
}

/// Looking a key up after one was given a value: the new value under that
/// key, and under any other key what was there before.
pub proof fn law_lookup_inserted(
    d: Seq<(Seq<u8>, Term)>,
    key: Seq<u8>,
    value: Term,
    q: Seq<u8>,
)
    ensures
        lookup(inserted(d, key, value), q) == if q == key {
            Some(value)
        } else {
            lookup(d, q)
        },
    decreases d.len(),
{
    let r = inserted(d, key, value);
    if d.len() == 0 {
        assert(r.drop_last() =~= d);
    } else if lex_lt(d.last().0, key) {
        assert(r.drop_last() =~= d);
    } else if d.last().0 == key {
        assert(r.drop_last() =~= d.drop_last());
    } else {
        law_lookup_inserted(d.drop_last(), key, value, q);
        assert(r.drop_last() =~= inserted(d.drop_last(), key, value));
    }
}

/// However a dictionary is filled, its keys end up in ascending order.
pub proof fn law_collected_ascending(pairs: Seq<(Seq<u8>, Term)>)
    ensures
        keys_ascending(collected(pairs)),
    decreases pairs.len(),
{
    if pairs.len() > 0 {
        law_collected_ascending(pairs.drop_last());
        lemma_inserted_ascending(collected(pairs.drop_last()), pairs.last().0, pairs.last().1);
    }
}

/// A dictionary filled from `pairs` holds under each key the value of the
/// last pair with that key.
pub proof fn lemma_lookup_collected(pairs: Seq<(Seq<u8>, Term)>, q: Seq<u8>)
    ensures
        lookup(collected(pairs), q) == lookup(pairs, q),
    decreases pairs.len(),
{
    if pairs.len() > 0 {
        lemma_lookup_collected(pairs.drop_last(), q);
        law_lookup_inserted(collected(pairs.drop_last()), pairs.last().0, pairs.last().1, q);
    }
}

/// A value that is found stands in the entries under its key.
pub proof fn lemma_lookup_found(d: Seq<(Seq<u8>, Term)>, q: Seq<u8>)
    ensures
        lookup(d, q) matches Some(v) ==> exists|i: int|
            0 <= i < d.len() && #[trigger] d[i] == (q, v),
    decreases d.len(),
{
    if d.len() > 0 {
        if d.last().0 == q {
            assert(d[d.len() - 1] == (q, d.last().1));
        } else {
            lemma_lookup_found(d.drop_last(), q);
            if lookup(d, q) is Some {
                let v = lookup(d, q).unwrap();
                let front = d.drop_last();
                let i = choose|i: int| 0 <= i < front.len() && #[trigger] front[i] == (q, v);
                assert(d[i] == (q, v));
            }
        }
    }
}

/// A key that no entry has is not found.
pub proof fn lemma_lookup_absent(d: Seq<(Seq<u8>, Term)>, q: Seq<u8>)
    requires
        forall|i: int| 0 <= i < d.len() ==> (#[trigger] d[i]).0 != q,
    ensures
        lookup(d, q) is None,
    decreases d.len(),
{
    if d.len() > 0 {
        assert(d[d.len() - 1].0 != q);
        assert forall|i: int| 0 <= i < d.drop_last().len() implies (#[trigger] d.drop_last()[i]).0
            != q by {
            assert(d.drop_last()[i] == d[i]);
        }
        lemma_lookup_absent(d.drop_last(), q);
    }
}

/// No key stands in two pairs of `pairs`.
pub open spec fn distinct_keys(pairs: Seq<(Seq<u8>, Term)>) -> bool {
    forall|i: int, j: int|
        #![trigger pairs[i], pairs[j]]
        0 <= i < j < pairs.len() ==> pairs[i].0 != pairs[j].0
}

/// Where no key occurs twice, each pair is found under its key.
pub proof fn lemma_lookup_member(pairs: Seq<(Seq<u8>, Term)>, at: int)
    requires
        distinct_keys(pairs),
        0 <= at < pairs.len(),
    ensures
        lookup(pairs, pairs[at].0) == Some(pairs[at].1),
    decreases pairs.len(),
{
    let last = pairs.len() - 1;
    if at < last {
        assert(pairs[at].0 != pairs[last].0);
        let front = pairs.drop_last();
        assert(distinct_keys(front)) by {
            assert forall|i: int, j: int| 0 <= i < j < front.len() implies front[i].0
                != front[j].0 by {
                assert(pairs[i].0 != pairs[j].0);
            }
        }
        lemma_lookup_member(front, at);
    }
}

/// A dictionary is determined by what it holds: two with ascending keys that
/// give the same answer for every key have the same entries in the same order.
pub proof fn law_dictionary_unique(a: Seq<(Seq<u8>, Term)>, b: Seq<(Seq<u8>, Term)>)
    requires
        keys_ascending(a),
        keys_ascending(b),
        forall|q: Seq<u8>| lookup(a, q) == lookup(b, q),
    ensures
        a == b,
    decreases a.len(),
{
    if a.len() == 0 {
        if b.len() > 0 {
            assert(lookup(a, b.last().0) == lookup(b, b.last().0));
        }
        assert(a =~= b);
    } else {
        let k = a.last().0;
        let v = a.last().1;
        assert(lookup(a, k) == lookup(b, k));
        assert(b.len() > 0);
        let k2 = b.last().0;
        assert(lookup(a, k2) == lookup(b, k2));
        if k2 != k {
            lemma_lookup_found(a, k2);
            lemma_lookup_found(b, k);
            let i = choose|i: int| 0 <= i < a.len() && #[trigger] a[i] == (k2, b.last().1);
            let j = choose|j: int| 0 <= j < b.len() && #[trigger] b[j] == (k, v);
            assert(lex_lt(a[i].0, a[a.len() - 1].0));
            assert(lex_lt(b[j].0, b[b.len() - 1].0));
            lemma_lex_asymmetric(k, k2);
        }
        let a1 = a.drop_last();
        let b1 = b.drop_last();
        assert(keys_ascending(a1)) by {
            assert forall|i: int, j: int| 0 <= i < j < a1.len() implies lex_lt(
                a1[i].0,
                a1[j].0,
            ) by {
                assert(lex_lt(a[i].0, a[j].0));
            }
        }
        assert(keys_ascending(b1)) by {
            assert forall|i: int, j: int| 0 <= i < j < b1.len() implies lex_lt(
                b1[i].0,
                b1[j].0,
            ) by {
                assert(lex_lt(b[i].0, b[j].0));
            }
        }
        assert forall|i: int| 0 <= i < a1.len() implies (#[trigger] a1[i]).0 != k by {
            assert(lex_lt(a[i].0, a[a.len() - 1].0));
            lemma_lex_asymmetric(a[i].0, k);
        }
        assert forall|i: int| 0 <= i < b1.len() implies (#[trigger] b1[i]).0 != k by {
            assert(lex_lt(b[i].0, b[b.len() - 1].0));
            lemma_lex_asymmetric(b[i].0, k);
        }
        lemma_lookup_absent(a1, k);
        lemma_lookup_absent(b1, k);
        assert forall|q: Seq<u8>| lookup(a1, q) == lookup(b1, q) by {
            assert(lookup(a, q) == lookup(b, q));
        }
        law_dictionary_unique(a1, b1);
        assert(a =~= a1.push(a.last()));
        assert(b =~= b1.push(b.last()));
    }
}

/// The order in which two different keys are given their values does not
/// matter.
pub proof fn law_insertion_order(
    d: Seq<(Seq<u8>, Term)>,
    k1: Seq<u8>,
    v1: Term,
    k2: Seq<u8>,
    v2: Term,
)
    requires
        keys_ascending(d),
        k1 != k2,
    ensures
        inserted(inserted(d, k1, v1), k2, v2) == inserted(inserted(d, k2, v2), k1, v1),
{
    let a = inserted(inserted(d, k1, v1), k2, v2);
    let b = inserted(inserted(d, k2, v2), k1, v1);
    lemma_inserted_ascending(d, k1, v1);
    lemma_inserted_ascending(inserted(d, k1, v1), k2, v2);
    lemma_inserted_ascending(d, k2, v2);
    lemma_inserted_ascending(inserted(d, k2, v2), k1, v1);
    assert forall|q: Seq<u8>| lookup(a, q) == lookup(b, q) by {
        law_lookup_inserted(inserted(d, k1, v1), k2, v2, q);
        law_lookup_inserted(d, k1, v1, q);
        law_lookup_inserted(inserted(d, k2, v2), k1, v1, q);
        law_lookup_inserted(d, k2, v2, q);
    }
    law_dictionary_unique(a, b);
}

/// A dictionary does not depend on the order in which it is filled: two
/// sequences of the same pairs, with no key twice, give the same entries in
/// ascending key order, and so the same encoding.
pub proof fn law_filled_in_any_order(p: Seq<(Seq<u8>, Term)>, q: Seq<(Seq<u8>, Term)>)
    requires
        distinct_keys(p),
        distinct_keys(q),
        forall|x: (Seq<u8>, Term)| p.contains(x) <==> q.contains(x),
    ensures
        collected(p) == collected(q),
        keys_ascending(collected(p)),
        encoded(Term::Dict(collected(p))) == encoded(Term::Dict(collected(q))),
{
    law_collected_ascending(p);
    law_collected_ascending(q);
    assert forall|key: Seq<u8>| lookup(collected(p), key) == lookup(collected(q), key) by {
        lemma_lookup_collected(p, key);
        lemma_lookup_collected(q, key);
        lemma_lookup_found(p, key);
        lemma_lookup_found(q, key);
        if lookup(p, key) is Some {
            let v = lookup(p, key).unwrap();
            assert(p.contains((key, v)));
            assert(q.contains((key, v)));
            let j = choose|j: int| 0 <= j < q.len() && q[j] == (key, v);
            lemma_lookup_member(q, j);
        } else if lookup(q, key) is Some {
            let v = lookup(q, key).unwrap();
            assert(q.contains((key, v)));
            assert(p.contains((key, v)));
            let j = choose|j: int| 0 <= j < p.len() && p[j] == (key, v);
            lemma_lookup_member(p, j);
        }
    }
    law_dictionary_unique(collected(p), collected(q));
}

/// The info-hash of a canonical torrent file is taken over bytes of that
/// file: the encoding that a metainfo keeps of its `info` dictionary stands in
/// the file as it is.
pub proof fn law_info_bytes_kept(x: Seq<u8>)
    requires
        is_canonical(x),
        decoded(x) matches Some((top, _)) && is_metainfo(top),
    ensures
        decoded(x) matches Some((top, _)) && occurs_in(metainfo_fields(top).info_encoding, x),
{
    law_round_trip(x);
    let top = decoded(x).unwrap().0;
    law_value_bytes_kept(top->Dict_0, "info".spec_bytes());
}

/// Read off its encoding in the order in which they are written, the keys of
/// a dictionary ascend, in whatever order the dictionary was filled.
pub proof fn law_keys_ascend_in_output(pairs: Seq<(Seq<u8>, Term)>)
    requires
        values_wf(pairs),
    ensures
        encoded(Term::Dict(collected(pairs)))[0] == DICT_TAG,
        decoded_pairs(encoded(Term::Dict(collected(pairs))).skip(1)) matches Some((written, _))
            && written == collected(pairs) && keys_ascending(written),
{
    let d = collected(pairs);
    lemma_collected_wf(pairs);
    lemma_round_trip_pairs(d, Seq::empty());
    assert(encoded(Term::Dict(d)).skip(1) =~= encoded_entries(d) + seq![END] + Seq::<u8>::empty());
}

/// The info-hash depends on the bytes of the file alone: two metainfos read
/// from one buffer have one info-hash, the digest of the canonical encoding of
/// the `info` dictionary in it.
pub proof fn law_info_hash_determined(x: Seq<u8>, a: Metainfo, b: Metainfo)
    requires
        decoded(x) matches Some((top, _)) && is_metainfo(top) && a@ == metainfo_fields(top) && b@
            == metainfo_fields(top),
    ensures
        sha1_digest(a.info_encoding@) == sha1_digest(b.info_encoding@),
        decoded(x) matches Some((top, _)) && sha1_digest(a.info_encoding@) == sha1_digest(
            encoded(Term::Dict(dict_at(top->Dict_0, "info".spec_bytes()).unwrap())),
        ),
{
}

} // verus!
