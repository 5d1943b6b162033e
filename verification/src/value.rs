//! The bencode value tree, its dictionary, and their mathematical model.

use crate::order::{
    key_equal, key_less, lemma_lex_asymmetric, lemma_lex_total, lemma_lex_transitive, lex_lt,
};
use vstd::prelude::*;

verus! {

/// A bencoded term as sequences and unbounded integers. A dictionary is the
/// sequence of its entries in the order in which they are written out.
pub enum Term {
    Bytes(Seq<u8>),
    Int(int),
    List(Seq<Term>),
    Dict(Seq<(Seq<u8>, Term)>),
}

/// The keys of `d` stand in strictly ascending byte order, so none occurs twice.
pub open spec fn keys_ascending(d: Seq<(Seq<u8>, Term)>) -> bool {
    forall|i: int, j: int| #![trigger d[i], d[j]] 0 <= i < j < d.len() ==> lex_lt(d[i].0, d[j].0)
}

/// The entries of `d` after `key` has been given the value `value`: the entry
/// with that key is replaced, or a new one is put where the order wants it.
pub open spec fn inserted(d: Seq<(Seq<u8>, Term)>, key: Seq<u8>, value: Term) -> Seq<
    (Seq<u8>, Term),
>
    decreases d.len(),
{
    if d.len() == 0 {
        seq![(key, value)]
    } else if lex_lt(d.last().0, key) {
        d.push((key, value))
    } else if d.last().0 == key {
        d.drop_last().push((key, value))
    } else {
        inserted(d.drop_last(), key, value).push(d.last())
    }
}

/// The value that `d` holds under `key`, if any.
pub open spec fn lookup(d: Seq<(Seq<u8>, Term)>, key: Seq<u8>) -> Option<Term>
    decreases d.len(),
{
    if d.len() == 0 {
        None
    } else if d.last().0 == key {
        Some(d.last().1)
    } else {
        lookup(d.drop_last(), key)
    }
}

/// Every key of `d` comes before `bound`.
pub open spec fn keys_below(d: Seq<(Seq<u8>, Term)>, bound: Seq<u8>) -> bool {
    forall|i: int| 0 <= i < d.len() ==> lex_lt((#[trigger] d[i]).0, bound)
}

/// Giving a key below `bound` a value keeps all keys below `bound`.
pub proof fn lemma_inserted_below(
    d: Seq<(Seq<u8>, Term)>,
    key: Seq<u8>,
    value: Term,
    bound: Seq<u8>,
)
    requires
        keys_below(d, bound),
        lex_lt(key, bound),
    ensures
        keys_below(inserted(d, key, value), bound),
    decreases d.len(),
{
    if d.len() == 0 {
    } else if lex_lt(d.last().0, key) {
    } else if d.last().0 == key {
    } else {
        let front = d.drop_last();
        assert forall|i: int| 0 <= i < front.len() implies lex_lt(
            (#[trigger] front[i]).0,
            bound,
        ) by {
            assert(front[i] == d[i]);
        }
        lemma_inserted_below(front, key, value, bound);
    }
}

/// Giving a key a value keeps the keys in ascending order.
pub proof fn lemma_inserted_ascending(d: Seq<(Seq<u8>, Term)>, key: Seq<u8>, value: Term)
    requires
        keys_ascending(d),
    ensures
        keys_ascending(inserted(d, key, value)),
    decreases d.len(),
{
    let r = inserted(d, key, value);
    if d.len() == 0 {
    } else if lex_lt(d.last().0, key) {
        assert forall|i: int, j: int| 0 <= i < j < r.len() implies lex_lt(r[i].0, r[j].0) by {
            if j == d.len() {
                if i < d.len() - 1 {
                    assert(lex_lt(d[i].0, d[d.len() - 1].0));
                    lemma_lex_transitive(d[i].0, d.last().0, key);
                }
            } else {
                assert(lex_lt(d[i].0, d[j].0));
            }
        }
    } else if d.last().0 == key {
        assert forall|i: int, j: int| 0 <= i < j < r.len() implies lex_lt(r[i].0, r[j].0) by {
            assert(lex_lt(d[i].0, d[j].0));
        }
    } else {
        let front = d.drop_last();
        assert(keys_ascending(front)) by {
            assert forall|i: int, j: int| 0 <= i < j < front.len() implies lex_lt(
                front[i].0,
                front[j].0,
            ) by {
                assert(lex_lt(d[i].0, d[j].0));
            }
        }
        lemma_inserted_ascending(front, key, value);
        lemma_lex_total(d.last().0, key);
        assert(keys_below(front, d.last().0)) by {
            assert forall|i: int| 0 <= i < front.len() implies lex_lt(
                (#[trigger] front[i]).0,
                d.last().0,
            ) by {
                assert(lex_lt(d[i].0, d[d.len() - 1].0));
            }
        }
        lemma_inserted_below(front, key, value, d.last().0);
        let mid = inserted(front, key, value);
        assert forall|i: int, j: int| 0 <= i < j < r.len() implies lex_lt(r[i].0, r[j].0) by {
            if j == mid.len() {
                assert(lex_lt(mid[i].0, d.last().0));
            } else {
                assert(lex_lt(mid[i].0, mid[j].0));
            }
        }
    }
}

/// Every value of `d` is well formed.
pub open spec fn values_wf(d: Seq<(Seq<u8>, Term)>) -> bool {
    forall|i: int| 0 <= i < d.len() ==> (#[trigger] d[i]).1.wf()
}

/// Giving a key a well-formed value keeps the values well formed.
pub proof fn lemma_inserted_values_wf(d: Seq<(Seq<u8>, Term)>, key: Seq<u8>, value: Term)
    requires
        values_wf(d),
        value.wf(),
    ensures
        values_wf(inserted(d, key, value)),
    decreases d.len(),
{
    if d.len() == 0 {
    } else if lex_lt(d.last().0, key) {
    } else if d.last().0 == key {
    } else {
        let front = d.drop_last();
        assert forall|i: int| 0 <= i < front.len() implies (#[trigger] front[i]).1.wf() by {
            assert(front[i] == d[i]);
        }
        lemma_inserted_values_wf(front, key, value);
    }
}

/// Where a new key goes: every entry from `at` on has a later key, and the
/// entry before `at`, if there is one, has not.
pub open spec fn insertion_point(d: Seq<(Seq<u8>, Term)>, key: Seq<u8>, at: int) -> bool {
    &&& 0 <= at <= d.len()
    &&& forall|j: int| at <= j < d.len() ==> lex_lt(key, (#[trigger] d[j]).0)
    &&& at > 0 ==> !lex_lt(key, d[at - 1].0)
}

/// What `inserted` yields, said by the place at which the key goes.
pub proof fn lemma_inserted_at(d: Seq<(Seq<u8>, Term)>, key: Seq<u8>, value: Term, at: int)
    requires
        insertion_point(d, key, at),
    ensures
        inserted(d, key, value) == if at > 0 && d[at - 1].0 == key {
            d.update(at - 1, (key, value))
        } else {
            d.insert(at, (key, value))
        },
    decreases d.len(),
{
    let r = inserted(d, key, value);
    if at == d.len() {
        if d.len() == 0 {
            assert(r =~= d.insert(at, (key, value)));
        } else if lex_lt(d.last().0, key) {
            lemma_lex_asymmetric(d.last().0, key);
            assert(r =~= d.insert(at, (key, value)));
        } else if d.last().0 == key {
            assert(r =~= d.update(at - 1, (key, value)));
        } else {
            lemma_lex_total(d.last().0, key);
        }
    } else {
        let front = d.drop_last();
        assert(lex_lt(key, d[d.len() - 1].0));
        lemma_lex_asymmetric(key, d.last().0);
        assert(insertion_point(front, key, at)) by {
            assert forall|j: int| at <= j < front.len() implies lex_lt(
                key,
                (#[trigger] front[j]).0,
            ) by {
                assert(front[j] == d[j]);
            }
        }
        lemma_inserted_at(front, key, value, at);
        if at > 0 && d[at - 1].0 == key {
            assert(r =~= d.update(at - 1, (key, value)));
        } else {
            assert(r =~= d.insert(at, (key, value)));
        }
    }
}

impl Term {
    /// Integers fit in 64 bits and every dictionary, at any depth, has its keys
    /// in strictly ascending order.
    pub open spec fn wf(self) -> bool
        decreases self,
    {
        match self {
            Term::Bytes(_) => true,
            Term::Int(i) => i64::MIN <= i <= i64::MAX,
            Term::List(l) => forall|i: int| 0 <= i < l.len() ==> (#[trigger] l[i]).wf(),
            Term::Dict(d) => keys_ascending(d) && forall|i: int|
                0 <= i < d.len() ==> (#[trigger] d[i]).1.wf(),
        }
    }
}

/// A decoded bencoded term.
#[derive(Debug, PartialEq, Eq)]
pub enum Bencoded {
    String(Vec<u8>),
    Integer(i64),
    List(Vec<Bencoded>),
    Dict(Dictionary),
}

/// A bencoded dictionary: byte-string keys, each at most once, kept in
/// ascending byte order.
#[derive(Debug, PartialEq, Eq)]
pub struct Dictionary {
    entries: Vec<(Vec<u8>, Bencoded)>,
}

/// The terms that a sequence of values stands for.
pub open spec fn list_view(l: Seq<Bencoded>) -> Seq<Term>
    decreases l,
{
    Seq::new(
        l.len(),
        |i: int|
            if 0 <= i < l.len() {
                l[i]@
            } else {
                Term::Int(0)
            },
    )
}

/// The entries that a sequence of key and value pairs stands for.
pub open spec fn entries_view(d: Seq<(Vec<u8>, Bencoded)>) -> Seq<(Seq<u8>, Term)>
    decreases d,
{
    Seq::new(
        d.len(),
        |i: int|
            if 0 <= i < d.len() {
                (d[i].0@, d[i].1@)
            } else {
                (Seq::empty(), Term::Int(0))
            },
    )
}

impl View for Bencoded {
    type V = Term;

    open spec fn view(&self) -> Term
        decreases self,
    {
        match self {
            Bencoded::String(b) => Term::Bytes(b@),
            Bencoded::Integer(i) => Term::Int(*i as int),
            Bencoded::List(l) => Term::List(list_view(l@)),
            Bencoded::Dict(d) => Term::Dict(d@),
        }
    }
}

impl View for Dictionary {
    type V = Seq<(Seq<u8>, Term)>;

    closed spec fn view(&self) -> Seq<(Seq<u8>, Term)>
        decreases self,
    {
        entries_view(self.entries@)
    }
}

impl Dictionary {
    /// Holds of every dictionary: the keys ascend.
    #[verifier::type_invariant]
    spec fn ascending(self) -> bool {
        keys_ascending(self@)
    }

    /// A dictionary without entries.
    pub fn new() -> (r: Dictionary)
        ensures
            r@ == Seq::<(Seq<u8>, Term)>::empty(),
    {
        let r = Dictionary { entries: Vec::new() };
        assert(r@ =~= Seq::<(Seq<u8>, Term)>::empty());
        r
    }

    /// The number of entries.
    pub fn len(&self) -> (r: usize)
        ensures
            r == self@.len(),
            keys_ascending(self@),
    {
        proof {
            use_type_invariant(self);
        }
        self.entries.len()
    }

    /// The key and value of the entry at `index`, counted in ascending key
    /// order, or `None` past the end.
    pub fn entry(&self, index: usize) -> (r: Option<(&Vec<u8>, &Bencoded)>)
        ensures
            r is Some <==> index < self@.len(),
            r matches Some((k, v)) ==> k@ == self@[index as int].0 && v@ == self@[index as int].1,
    {
        if index < self.entries.len() {
            Some((&self.entries[index].0, &self.entries[index].1))
        } else {
            None
        }
    }

    /// The value stored under `key`, if there is one.
    pub fn get(&self, key: &[u8]) -> (r: Option<&Bencoded>)
        ensures
            match r {
                Some(v) => lookup(self@, key@) == Some(v@),
                None => lookup(self@, key@) is None,
            },
    {
        let mut i = self.entries.len();
        assert(self@.take(i as int) =~= self@);
        while i > 0
            invariant
                i <= self.entries.len(),
                lookup(self@, key@) == lookup(self@.take(i as int), key@),
            decreases i,
        {
            if key_equal(self.entries[i - 1].0.as_slice(), key) {
                return Some(&self.entries[i - 1].1);
            }
            assert(self@.take(i as int).drop_last() =~= self@.take(i - 1));
            i -= 1;
        }
        None
    }

    /// The place at which `key` stands or would be put.
    fn position(&self, key: &[u8]) -> (at: usize)
        ensures
            insertion_point(self@, key@, at as int),
    {
        let mut i = self.entries.len();
        while i > 0 && key_less(key, self.entries[i - 1].0.as_slice())
            invariant
                i <= self.entries.len(),
                forall|j: int| i <= j < self@.len() ==> lex_lt(key@, (#[trigger] self@[j]).0),
            decreases i,
        {
            i -= 1;
        }
        i
    }

    /// Stores `value` under `key`, in place of any value that the key had.
    pub fn insert(&mut self, key: Vec<u8>, value: Bencoded)
        ensures
            final(self)@ == inserted(old(self)@, key@, value@),
    {
        proof {
            use_type_invariant(&*self);
        }
        let ghost before = self@;
        let at = self.position(key.as_slice());
        proof {
            lemma_inserted_at(before, key@, value@, at as int);
            lemma_inserted_ascending(before, key@, value@);
        }
        let replace = at > 0 && key_equal(self.entries[at - 1].0.as_slice(), key.as_slice());
        let mut entries: Vec<(Vec<u8>, Bencoded)> = Vec::new();
        std::mem::swap(&mut self.entries, &mut entries);
        assert(entries_view(entries@) == before);
        if replace {
            entries.set(at - 1, (key, value));
            assert(entries_view(entries@) =~= before.update(at - 1, (key@, value@)));
        } else {
            entries.insert(at, (key, value));
            assert(entries_view(entries@) =~= before.insert(at as int, (key@, value@)));
        }
        self.entries = entries;
    }
}

} // verus!
