//! What a byte buffer decodes to, and the recursive-descent decoder.

use crate::error::Error;
use crate::syntax::{is_digit, COLON, DICT_TAG, END, INT_TAG, LIST_TAG, MINUS};
use crate::value::{
    inserted, lemma_inserted_ascending, lemma_inserted_values_wf, list_view, values_wf, Bencoded,
    Dictionary, Term,
};
use vstd::prelude::*;
use vstd::slice::{slice_subrange, slice_to_vec};

verus! {

/// How many bytes at the start of `s` are decimal digits.
pub open spec fn digit_run(s: Seq<u8>) -> nat
    decreases s.len(),
{
    if s.len() > 0 && is_digit(s[0]) {
        1 + digit_run(s.skip(1))
    } else {
        0
    }
}

/// The number that a sequence of decimal digits writes.
pub open spec fn decimal_value(s: Seq<u8>) -> nat
    decreases s.len(),
{
    if s.len() == 0 {
        0
    } else {
        decimal_value(s.drop_last()) * 10 + (s.last() - 48) as nat
    }
}

/// A byte string at the start of `s`: digits, a colon, and as many bytes as
/// the digits say. Gives the term and the number of bytes that it took.
pub open spec fn decoded_bytes(s: Seq<u8>) -> Option<(Term, nat)> {
    let n = digit_run(s);
    let len = decimal_value(s.take(n as int));
    if n >= 1 && n < s.len() && s[n as int] == COLON && n + 1 + len <= s.len() {
        Some((Term::Bytes(s.subrange(n as int + 1, n as int + 1 + len)), n + 1 + len))
    } else {
        None
    }
}

/// An integer at the start of `s`: `i`, an optional minus sign, at least one
/// digit, and `e`, where the number fits in 64 bits.
pub open spec fn decoded_int(s: Seq<u8>) -> Option<(Term, nat)> {
    let negative = s.len() > 1 && s[1] == MINUS;
    let start: int = if negative {
        2
    } else {
        1
    };
    let n = digit_run(s.skip(start));
    let magnitude = decimal_value(s.subrange(start, start + n));
    let value: int = if negative {
        -magnitude
    } else {
        magnitude as int
    };
    if s.len() > 0 && s[0] == INT_TAG && n >= 1 && start + n < s.len() && s[start + n] == END
        && i64::MIN <= value <= i64::MAX {
        Some((Term::Int(value), (start + n + 1) as nat))
    } else {
        None
    }
}

/// The dictionary that holds the pairs of `pairs`, each put in after those
/// before it, so that of two pairs with one key the later one stays.
pub open spec fn collected(pairs: Seq<(Seq<u8>, Term)>) -> Seq<(Seq<u8>, Term)>
    decreases pairs.len(),
{
    if pairs.len() == 0 {
        Seq::empty()
    } else {
        inserted(collected(pairs.drop_last()), pairs.last().0, pairs.last().1)
    }
}

/// The term at the start of `s` and the number of bytes that it takes, or
/// `None` where `s` does not start with a term.
pub open spec fn decoded(s: Seq<u8>) -> Option<(Term, nat)>
    decreases s.len(), 0nat,
{
    if s.len() == 0 {
        None
    } else if s[0] == INT_TAG {
        decoded_int(s)
    } else if s[0] == LIST_TAG {
        match decoded_items(s.skip(1)) {
            Some((items, n)) => Some((Term::List(items), n + 1)),
            None => None,
        }
    } else if s[0] == DICT_TAG {
        match decoded_pairs(s.skip(1)) {
            Some((pairs, n)) => Some((Term::Dict(collected(pairs)), n + 1)),
            None => None,
        }
    } else if is_digit(s[0]) {
        decoded_bytes(s)
    } else {
        None
    }
}

/// The terms at the start of `s` up to the closing `e`, and the number of
/// bytes up to and with that `e`. (A term takes at least one byte; the test on
/// `n` is what lets this definition recurse.)
pub open spec fn decoded_items(s: Seq<u8>) -> Option<(Seq<Term>, nat)>
    decreases s.len(), 1nat,
{
    if s.len() == 0 {
        None
    } else if s[0] == END {
        Some((Seq::empty(), 1))
    } else {
        match decoded(s) {
            Some((item, n)) => if 0 < n <= s.len() {
                match decoded_items(s.skip(n as int)) {
                    Some((rest, m)) => Some((seq![item] + rest, n + m)),
                    None => None,
                }
            } else {
                None
            },
            None => None,
        }
    }
}

/// The key and value pairs at the start of `s` up to the closing `e`, in the
/// order in which they stand there, and the number of bytes up to and with
/// that `e`. A key that is no byte string makes the whole `None`.
pub open spec fn decoded_pairs(s: Seq<u8>) -> Option<(Seq<(Seq<u8>, Term)>, nat)>
    decreases s.len(), 1nat,
{
    if s.len() == 0 {
        None
    } else if s[0] == END {
        Some((Seq::empty(), 1))
    } else {
        match decoded(s) {
            Some((Term::Bytes(key), n)) => if 0 < n <= s.len() {
                match decoded(s.skip(n as int)) {
                    Some((value, m)) => if 0 < m <= s.len() - n {
                        match decoded_pairs(s.skip(n as int + m)) {
                            Some((rest, k)) => Some((seq![(key, value)] + rest, n + m + k)),
                            None => None,
                        }
                    } else {
                        None
                    },
                    None => None,
                }
            } else {
                None
            },
            _ => None,
        }
    }
}

/// A dictionary filled from pairs has ascending keys, and well-formed values
/// where the pairs have.
pub proof fn lemma_collected_wf(pairs: Seq<(Seq<u8>, Term)>)
    requires
        values_wf(pairs),
    ensures
        Term::Dict(collected(pairs)).wf(),
    decreases pairs.len(),
{
    if pairs.len() > 0 {
        let front = pairs.drop_last();
        assert forall|i: int| 0 <= i < front.len() implies (#[trigger] front[i]).1.wf() by {
            assert(front[i] == pairs[i]);
        }
        lemma_collected_wf(front);
        assert(pairs[pairs.len() - 1].1.wf());
        lemma_inserted_ascending(collected(front), pairs.last().0, pairs.last().1);
        lemma_inserted_values_wf(collected(front), pairs.last().0, pairs.last().1);
    }
}

/// What decodes is well formed, and takes at least one byte and no more than
/// there are.
pub proof fn lemma_decoded_wf(s: Seq<u8>)
    ensures
        decoded(s) matches Some((t, n)) ==> t.wf() && 0 < n <= s.len(),
    decreases s.len(), 0nat,
{
    if s.len() > 0 {
        if s[0] == INT_TAG {
        } else if s[0] == LIST_TAG {
            lemma_decoded_items_wf(s.skip(1));
        } else if s[0] == DICT_TAG {
            lemma_decoded_pairs_wf(s.skip(1));
            if decoded_pairs(s.skip(1)) is Some {
                lemma_collected_wf(decoded_pairs(s.skip(1)).unwrap().0);
            }
        }
    }
}

/// The items that decode are well formed, and take no more bytes than there
/// are.
pub proof fn lemma_decoded_items_wf(s: Seq<u8>)
    ensures
        decoded_items(s) matches Some((items, n)) ==> 0 < n <= s.len() && forall|i: int|
            0 <= i < items.len() ==> (#[trigger] items[i]).wf(),
    decreases s.len(), 1nat,
{
    if s.len() > 0 && s[0] != END {
        lemma_decoded_wf(s);
        match decoded(s) {
            Some((_, n)) => {
                lemma_decoded_items_wf(s.skip(n as int));
            },
            None => {},
        }
    }
}

/// The values that decode in a dictionary are well formed, and the entries
/// take no more bytes than there are.
pub proof fn lemma_decoded_pairs_wf(s: Seq<u8>)
    ensures
        decoded_pairs(s) matches Some((pairs, n)) ==> 0 < n <= s.len() && values_wf(pairs),
    decreases s.len(), 1nat,
{
    if s.len() > 0 && s[0] != END {
        lemma_decoded_wf(s);
        match decoded(s) {
            Some((Term::Bytes(_), n)) => {
                lemma_decoded_wf(s.skip(n as int));
                match decoded(s.skip(n as int)) {
                    Some((_, m)) => {
                        lemma_decoded_pairs_wf(s.skip(n as int + m));
                    },
                    None => {},
                }
            },
            _ => {},
        }
    }
}

/// A longer run of digits writes a number that is no smaller.
proof fn lemma_decimal_prefix(s: Seq<u8>, k: int)
    requires
        0 <= k <= s.len(),
        forall|i: int| 0 <= i < s.len() ==> is_digit(#[trigger] s[i]),
    ensures
        decimal_value(s.take(k)) <= decimal_value(s),
    decreases s.len() - k,
{
    if k < s.len() {
        lemma_decimal_prefix(s.drop_last(), k);
        assert(s.drop_last().take(k) =~= s.take(k));
    } else {
        assert(s.take(k) =~= s);
    }
}

/// The end of the run of digits that starts at `from`.
fn scan_digits(input: &[u8], from: usize) -> (end: usize)
    requires
        from <= input.len(),
    ensures
        from <= end <= input.len(),
        end - from == digit_run(input@.skip(from as int)),
        forall|i: int| from <= i < end ==> is_digit(#[trigger] input@[i]),
    decreases input.len() - from,
{
    if from < input.len() && 48 <= input[from] && input[from] <= 57 {
        assert(input@.skip(from as int).skip(1) =~= input@.skip(from + 1));
        scan_digits(input, from + 1)
    } else {
        from
    }
}

/// The number written by the digits from `from` up to `end`, unless it is
/// over `limit`.
fn parse_decimal(input: &[u8], from: usize, end: usize, limit: u64) -> (r: Option<u64>)
    requires
        from <= end <= input.len(),
        forall|i: int| from <= i < end ==> is_digit(#[trigger] input@[i]),
    ensures
        match r {
            Some(v) => v == decimal_value(input@.subrange(from as int, end as int)) && v <= limit,
            None => decimal_value(input@.subrange(from as int, end as int)) > limit,
        },
{
    let ghost digits = input@.subrange(from as int, end as int);
    let mut value: u64 = 0;
    let mut i: usize = from;
    assert(digits.take(0) =~= Seq::<u8>::empty());
    while i < end
        invariant
            from <= i <= end <= input.len(),
            digits == input@.subrange(from as int, end as int),
            forall|j: int| 0 <= j < digits.len() ==> is_digit(#[trigger] digits[j]),
            forall|j: int| from <= j < end ==> is_digit(#[trigger] input@[j]),
            value == decimal_value(digits.take(i - from)),
            value <= limit,
        decreases end - i,
    {
        let digit: u64 = (input[i] - 48) as u64;
        let next: u128 = value as u128 * 10 + digit as u128;
        proof {
            assert(digits.take(i + 1 - from).drop_last() =~= digits.take(i - from));
            assert(digits.take(i + 1 - from).last() == input@[i as int]);
            assert(next == decimal_value(digits.take(i + 1 - from)));
        }
        if next > limit as u128 {
            proof {
                lemma_decimal_prefix(digits, i + 1 - from);
            }
            return None;
        }
        value = next as u64;
        i += 1;
    }
    assert(digits.take(i - from) =~= digits);
    Some(value)
}

/// The byte string that starts at `pos`, and the position behind it.
fn decode_bytes_at(input: &[u8], pos: usize) -> (r: Option<(Vec<u8>, usize)>)
    requires
        pos <= input.len(),
    ensures
        match r {
            Some((b, end)) => pos < end <= input.len() && decoded_bytes(input@.skip(pos as int))
                == Some((Term::Bytes(b@), (end - pos) as nat)),
            None => decoded_bytes(input@.skip(pos as int)) is None,
        },
{
    let ghost s = input@.skip(pos as int);
    let colon = scan_digits(input, pos);
    if colon == pos || colon >= input.len() || input[colon] != COLON {
        return None;
    }
    let room = input.len() - colon - 1;
    assert(s.take(colon - pos) =~= input@.subrange(pos as int, colon as int));
    match parse_decimal(input, pos, colon, room as u64) {
        None => None,
        Some(len) => {
            let start = colon + 1;
            let end = start + len as usize;
            let bytes = slice_to_vec(slice_subrange(input, start, end));
            assert(s.subrange(colon - pos + 1, colon - pos + 1 + len) =~= input@.subrange(
                start as int,
                end as int,
            ));
            Some((bytes, end))
        },
    }
}

/// The integer that starts at `pos` with its `i`, and the position behind it.
fn decode_int_at(input: &[u8], pos: usize) -> (r: Option<(i64, usize)>)
    requires
        pos < input.len(),
        input@[pos as int] == INT_TAG,
    ensures
        match r {
            Some((i, end)) => pos < end <= input.len() && decoded_int(input@.skip(pos as int))
                == Some((Term::Int(i as int), (end - pos) as nat)),
            None => decoded_int(input@.skip(pos as int)) is None,
        },
{
    let ghost s = input@.skip(pos as int);
    let negative = pos + 1 < input.len() && input[pos + 1] == MINUS;
    let start = if negative {
        pos + 2
    } else {
        pos + 1
    };
    let end = scan_digits(input, start);
    assert(s.skip(start - pos) =~= input@.skip(start as int));
    assert(s.subrange(start - pos, end - pos) =~= input@.subrange(start as int, end as int));
    if end == start || end >= input.len() || input[end] != END {
        return None;
    }
    let limit: u64 = if negative {
        9223372036854775808
    } else {
        9223372036854775807
    };
    match parse_decimal(input, start, end, limit) {
        None => None,
        Some(magnitude) => {
            let value: i64 = if !negative {
                magnitude as i64
            } else if magnitude == 9223372036854775808 {
                i64::MIN
            } else {
                -(magnitude as i64)
            };
            Some((value, end + 1))
        },
    }
}

/// The outcome of a list of which `done` has been read in `used` bytes, where
/// `tail` is what reading on from there gives.
spec fn items_after(done: Seq<Term>, used: nat, tail: Option<(Seq<Term>, nat)>) -> Option<
    (Seq<Term>, nat),
> {
    match tail {
        Some((rest, m)) => Some((done + rest, used + m)),
        None => None,
    }
}

/// The outcome of a dictionary of which `done` has been read in `used` bytes,
/// where `tail` is what reading on from there gives.
spec fn pairs_after(
    done: Seq<(Seq<u8>, Term)>,
    used: nat,
    tail: Option<(Seq<(Seq<u8>, Term)>, nat)>,
) -> Option<(Seq<(Seq<u8>, Term)>, nat)> {
    match tail {
        Some((rest, m)) => Some((done + rest, used + m)),
        None => None,
    }
}

/// The term that starts at `pos`, and the position behind it.
fn decode_at(input: &[u8], pos: usize) -> (r: Option<(Bencoded, usize)>)
    requires
        pos <= input.len(),
    ensures
        match r {
            Some((v, end)) => pos < end <= input.len() && decoded(input@.skip(pos as int)) == Some(
                (v@, (end - pos) as nat),
            ),
            None => decoded(input@.skip(pos as int)) is None,
        },
    decreases input.len() - pos, 0nat,
{
    if pos >= input.len() {
        return None;
    }
    let ghost s = input@.skip(pos as int);
    assert(s.skip(1) =~= input@.skip(pos + 1));
    let tag = input[pos];
    if tag == INT_TAG {
        match decode_int_at(input, pos) {
            Some((i, end)) => Some((Bencoded::Integer(i), end)),
            None => None,
        }
    } else if tag == LIST_TAG {
        match decode_list_at(input, pos + 1) {
            Some((items, end)) => Some((Bencoded::List(items), end)),
            None => None,
        }
    } else if tag == DICT_TAG {
        match decode_dict_at(input, pos + 1) {
            Some((dict, end)) => Some((Bencoded::Dict(dict), end)),
            None => None,
        }
    } else if 48 <= tag && tag <= 57 {
        match decode_bytes_at(input, pos) {
            Some((b, end)) => Some((Bencoded::String(b), end)),
            None => None,
        }
    } else {
        None
    }
}

/// The items from `pos` up to the closing `e`, and the position behind it.
fn decode_list_at(input: &[u8], pos: usize) -> (r: Option<(Vec<Bencoded>, usize)>)
    requires
        pos <= input.len(),
    ensures
        match r {
            Some((items, end)) => pos < end <= input.len() && decoded_items(
                input@.skip(pos as int),
            ) == Some((list_view(items@), (end - pos) as nat)),
            None => decoded_items(input@.skip(pos as int)) is None,
        },
    decreases input.len() - pos, 1nat,
{
    let mut items: Vec<Bencoded> = Vec::new();
    let mut cur = pos;
    assert(list_view(items@) + Seq::<Term>::empty() =~= list_view(items@));
    assert(list_view(items@) =~= Seq::<Term>::empty());
    while cur < input.len()
        invariant
            pos <= cur <= input.len(),
            decoded_items(input@.skip(pos as int)) == items_after(
                list_view(items@),
                (cur - pos) as nat,
                decoded_items(input@.skip(cur as int)),
            ),
        decreases input.len() - cur,
    {
        let ghost s = input@.skip(cur as int);
        if input[cur] == END {
            assert(list_view(items@) + Seq::<Term>::empty() =~= list_view(items@));
            return Some((items, cur + 1));
        }
        match decode_at(input, cur) {
            None => {
                return None;
            },
            Some((v, end)) => {
                proof {
                    assert(s.skip(end - cur) =~= input@.skip(end as int));
                    let tail = decoded_items(input@.skip(end as int));
                    assert(list_view(items@.push(v)) =~= list_view(items@).push(v@));
                    if tail is Some {
                        let rest = tail.unwrap().0;
                        let done = list_view(items@);
                        assert(done + (seq![v@] + rest) =~= done.push(v@) + rest);
                    }
                }
                items.push(v);
                cur = end;
            },
        }
    }
    None
}

/// The entries from `pos` up to the closing `e`, and the position behind it.
fn decode_dict_at(input: &[u8], pos: usize) -> (r: Option<(Dictionary, usize)>)
    requires
        pos <= input.len(),
    ensures
        match r {
            Some((dict, end)) => pos < end <= input.len() && (decoded_pairs(
                input@.skip(pos as int),
            ) matches Some((pairs, n)) && dict@ == collected(pairs) && n == end - pos),
            None => decoded_pairs(input@.skip(pos as int)) is None,
        },
    decreases input.len() - pos, 1nat,
{
    let mut dict = Dictionary::new();
    let ghost mut pairs: Seq<(Seq<u8>, Term)> = Seq::empty();
    let mut cur = pos;
    assert(pairs + Seq::<(Seq<u8>, Term)>::empty() =~= pairs);
    while cur < input.len()
        invariant
            pos <= cur <= input.len(),
            dict@ == collected(pairs),
            decoded_pairs(input@.skip(pos as int)) == pairs_after(
                pairs,
                (cur - pos) as nat,
                decoded_pairs(input@.skip(cur as int)),
            ),
        decreases input.len() - cur,
    {
        let ghost s = input@.skip(cur as int);
        if input[cur] == END {
            assert(pairs + Seq::<(Seq<u8>, Term)>::empty() =~= pairs);
            return Some((dict, cur + 1));
        }
        let (key, mid) = match decode_at(input, cur) {
            Some((Bencoded::String(key), mid)) => (key, mid),
            _ => {
                return None;
            },
        };
        assert(s.skip(mid - cur) =~= input@.skip(mid as int));
        match decode_at(input, mid) {
            None => {
                return None;
            },
            Some((value, end)) => {
                proof {
                    assert(s.skip((mid - cur) + (end - mid)) =~= input@.skip(end as int));
                    let tail = decoded_pairs(input@.skip(end as int));
                    let next = pairs.push((key@, value@));
                    assert(next.drop_last() =~= pairs);
                    if tail is Some {
                        let rest = tail.unwrap().0;
                        assert(pairs + (seq![(key@, value@)] + rest) =~= next + rest);
                    }
                    pairs = next;
                }
                dict.insert(key, value);
                cur = end;
            },
        }
    }
    None
}

/// Decodes the bencoded term at the start of `encoded_value`. Gives the term
/// and the bytes behind it, or `MalformedInput` where the buffer does not
/// start with a term.
pub fn decode_bencoded_value(encoded_value: &[u8]) -> (r: Result<(Bencoded, &[u8]), Error>)
    ensures
        match r {
            Ok((v, rest)) => decoded(encoded_value@) matches Some((t, n)) && v@ == t && v@.wf()
                && 0 < n <= encoded_value@.len() && rest@ == encoded_value@.skip(n as int),
            Err(e) => e == Error::MalformedInput && decoded(encoded_value@) is None,
        },
{
    assert(encoded_value@.skip(0) =~= encoded_value@);
    proof {
        lemma_decoded_wf(encoded_value@);
    }
    match decode_at(encoded_value, 0) {
        Some((v, end)) => {
            let rest = slice_subrange(encoded_value, end, encoded_value.len());
            assert(rest@ =~= encoded_value@.skip(end as int));
            Ok((v, rest))
        },
        None => Err(Error::MalformedInput),
    }
}

} // verus!
