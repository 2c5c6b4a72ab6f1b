//! Terms, their mathematical values, and the total order over them.
//!
//! A term is one of five kinds. Terms of different kinds are ordered by the
//! rank of their kind; terms of the same kind are ordered by their payload.

use vstd::prelude::*;
use vstd::utf8::encode_utf8;

verus! {

/// How one term stands relative to another in the total order.
#[derive(Clone, Copy, Debug, PartialEq, Eq, Structural)]
pub enum Comparison {
    /// The first comes before the second.
    Less,
    /// The two are the same term.
    Equal,
    /// The first comes after the second.
    Greater,
}

/// The mathematical value of a term.
pub enum Term {
    /// A whole number.
    Integer(int),
    /// An atom, by the characters of its text.
    Atom(Seq<char>),
    /// A tuple, by the values of its elements.
    Tuple(Seq<Term>),
    /// A list, by the values of its elements.
    List(Seq<Term>),
    /// A bitstring, by its bytes.
    Bitstring(Seq<u8>),
}

/// A value that the set can hold.
#[derive(Debug, PartialEq, Eq)]
pub enum SupportedTerm {
    /// A signed 64-bit number.
    Integer(i64),
    /// A piece of text used as a name.
    Atom(String),
    /// A fixed-arity sequence of terms.
    Tuple(Vec<SupportedTerm>),
    /// A variable-length sequence of terms.
    List(Vec<SupportedTerm>),
    /// A raw sequence of bytes.
    Bitstring(Vec<u8>),
}

/// The values of a sequence of terms, element by element.
pub open spec fn terms_view(items: Seq<SupportedTerm>) -> Seq<Term> {
    items.map_values(|t: SupportedTerm| t@)
}

/// The mathematical value of `t`.
pub open spec fn value_of(t: SupportedTerm) -> Term
    decreases t,
{
    match t {
        SupportedTerm::Integer(i) => Term::Integer(i as int),
        SupportedTerm::Atom(s) => Term::Atom(s@),
        SupportedTerm::Tuple(v) => Term::Tuple(
            Seq::new(v@.len(), |i: int| if 0 <= i < v@.len() { value_of(v@[i]) } else { arbitrary() }),
        ),
        SupportedTerm::List(v) => Term::List(
            Seq::new(v@.len(), |i: int| if 0 <= i < v@.len() { value_of(v@[i]) } else { arbitrary() }),
        ),
        SupportedTerm::Bitstring(b) => Term::Bitstring(b@),
    }
}

impl View for SupportedTerm {
    type V = Term;

    open spec fn view(&self) -> Term {
        value_of(*self)
    }
}

/// The value of a tuple or a list holds the values of its elements.
pub proof fn lemma_view_of_elements(items: Vec<SupportedTerm>)
    ensures
        SupportedTerm::Tuple(items)@ == Term::Tuple(terms_view(items@)),
        SupportedTerm::List(items)@ == Term::List(terms_view(items@)),
{
    assert(SupportedTerm::Tuple(items)@->Tuple_0 =~= terms_view(items@));
    assert(SupportedTerm::List(items)@->List_0 =~= terms_view(items@));
}

/// Rank of a term's kind: integers come first, bitstrings last.
pub open spec fn kind_rank(t: Term) -> int {
    match t {
        Term::Integer(_) => 0,
        Term::Atom(_) => 1,
        Term::Tuple(_) => 2,
        Term::List(_) => 3,
        Term::Bitstring(_) => 4,
    }
}

/// Numeric comparison.
pub open spec fn compare_ints(a: int, b: int) -> Comparison {
    if a < b {
        Comparison::Less
    } else if a == b {
        Comparison::Equal
    } else {
        Comparison::Greater
    }
}

/// Lexicographic comparison of the bytes of `a` and `b` from index `i` on:
/// the first differing byte decides, and a sequence that ends first comes first.
pub open spec fn compare_bytes_from(a: Seq<u8>, b: Seq<u8>, i: int) -> Comparison
    decreases a.len() - i,
{
    if i >= a.len() {
        if i >= b.len() {
            Comparison::Equal
        } else {
            Comparison::Less
        }
    } else if i >= b.len() {
        Comparison::Greater
    } else if a[i] != b[i] {
        compare_ints(a[i] as int, b[i] as int)
    } else {
        compare_bytes_from(a, b, i + 1)
    }
}

/// Byte-wise lexicographic comparison.
pub open spec fn compare_bytes(a: Seq<u8>, b: Seq<u8>) -> Comparison {
    compare_bytes_from(a, b, 0)
}

/// The total order over terms. Terms of different kinds compare by the rank
/// of their kind. Integers compare by value. Atoms compare by the bytes of
/// their text, and bitstrings by their bytes, lexicographically. Tuples
/// compare by arity first, then element by element. Lists compare element by
/// element, and a list that is a beginning of another comes before it.
pub open spec fn compare_terms(a: Term, b: Term) -> Comparison
    decreases a, 0int,
{
    match (a, b) {
        (Term::Integer(x), Term::Integer(y)) => compare_ints(x, y),
        (Term::Atom(x), Term::Atom(y)) => compare_bytes(encode_utf8(x), encode_utf8(y)),
        (Term::Tuple(x), Term::Tuple(y)) => if x.len() != y.len() {
            compare_ints(x.len() as int, y.len() as int)
        } else {
            compare_elements_from(x, y, 0)
        },
        (Term::List(x), Term::List(y)) => compare_elements_from(x, y, 0),
        (Term::Bitstring(x), Term::Bitstring(y)) => compare_bytes(x, y),
        _ => compare_ints(kind_rank(a), kind_rank(b)),
    }
}

/// Pairwise comparison of the elements of `a` and `b` from index `i` on:
/// the first pair that is not equal decides, and a sequence that ends first
/// comes first.
pub open spec fn compare_elements_from(a: Seq<Term>, b: Seq<Term>, i: int) -> Comparison
    decreases a, a.len() - i,
{
    if i < 0 || i >= a.len() {
        if i >= b.len() {
            Comparison::Equal
        } else {
            Comparison::Less
        }
    } else if i >= b.len() {
        Comparison::Greater
    } else {
        match compare_terms(a[i], b[i]) {
            Comparison::Equal => compare_elements_from(a, b, i + 1),
            decided => decided,
        }
    }
}

/// `a` comes strictly before `b` in the total order.
pub open spec fn precedes(a: Term, b: Term) -> bool {
    compare_terms(a, b) == Comparison::Less
}

/// Compares two numbers.
fn compare_i64(a: i64, b: i64) -> (c: Comparison)
    ensures
        c == compare_ints(a as int, b as int),
{
    if a < b {
        Comparison::Less
    } else if a == b {
        Comparison::Equal
    } else {
        Comparison::Greater
    }
}

/// Compares two lengths.
fn compare_usize(a: usize, b: usize) -> (c: Comparison)
    ensures
        c == compare_ints(a as int, b as int),
{
    if a < b {
        Comparison::Less
    } else if a == b {
        Comparison::Equal
    } else {
        Comparison::Greater
    }
}

/// Compares two byte strings lexicographically.
fn compare_byte_slices(a: &[u8], b: &[u8]) -> (c: Comparison)
    ensures
        c == compare_bytes(a@, b@),
{
    let mut i: usize = 0;
    while i < a.len() && i < b.len()
        invariant
            i <= a.len(),
            i <= b.len(),
            compare_bytes(a@, b@) == compare_bytes_from(a@, b@, i as int),
        decreases a.len() - i,
    {
        if a[i] != b[i] {
            return if a[i] < b[i] {
                Comparison::Less
            } else {
                Comparison::Greater
            };
        }
        i += 1;
    }
    compare_usize(a.len(), b.len())
}

/// Compares the elements of two sequences pairwise.
fn compare_items(a: &Vec<SupportedTerm>, b: &Vec<SupportedTerm>) -> (c: Comparison)
    ensures
        c == compare_elements_from(terms_view(a@), terms_view(b@), 0),
    decreases a, 0int,
{
    let mut i: usize = 0;
    while i < a.len() && i < b.len()
        invariant
            i <= a.len(),
            i <= b.len(),
            compare_elements_from(terms_view(a@), terms_view(b@), 0) == compare_elements_from(
                terms_view(a@),
                terms_view(b@),
                i as int,
            ),
        decreases a.len() - i,
    {
        let decided = a[i].compare(&b[i]);
        if decided != Comparison::Equal {
            return decided;
        }
        i += 1;
    }
    compare_usize(a.len(), b.len())
}

impl SupportedTerm {
    /// Rank of this term's kind.
    fn rank(&self) -> (r: usize)
        ensures
            r == kind_rank(self@),
    {
        match self {
            SupportedTerm::Integer(_) => 0,
            SupportedTerm::Atom(_) => 1,
            SupportedTerm::Tuple(_) => 2,
            SupportedTerm::List(_) => 3,
            SupportedTerm::Bitstring(_) => 4,
        }
    }

    /// Compares this term with `other` in the total order.
    pub fn compare(&self, other: &SupportedTerm) -> (c: Comparison)
        ensures
            c == compare_terms(self@, other@),
        decreases self, 1int,
    {
        match (self, other) {
            (SupportedTerm::Integer(x), SupportedTerm::Integer(y)) => compare_i64(*x, *y),
            (SupportedTerm::Atom(x), SupportedTerm::Atom(y)) => compare_byte_slices(
                x.as_str().as_bytes(),
                y.as_str().as_bytes(),
            ),
            (SupportedTerm::Tuple(x), SupportedTerm::Tuple(y)) => {
                proof {
                    lemma_view_of_elements(*x);
                    lemma_view_of_elements(*y);
                }
                if x.len() != y.len() {
                    compare_usize(x.len(), y.len())
                } else {
                    compare_items(x, y)
                }
            },
            (SupportedTerm::List(x), SupportedTerm::List(y)) => {
                proof {
                    lemma_view_of_elements(*x);
                    lemma_view_of_elements(*y);
                }
                compare_items(x, y)
            },
            (SupportedTerm::Bitstring(x), SupportedTerm::Bitstring(y)) => compare_byte_slices(
                x.as_slice(),
                y.as_slice(),
            ),
            _ => compare_usize(self.rank(), other.rank()),
        }
    }
}

/// Copies a sequence of terms.
fn clone_items(items: &Vec<SupportedTerm>) -> (copy: Vec<SupportedTerm>)
    ensures
        terms_view(copy@) == terms_view(items@),
    decreases items, 0int,
{
    let mut copy: Vec<SupportedTerm> = Vec::with_capacity(items.len());
    let mut i: usize = 0;
    while i < items.len()
        invariant
            i <= items.len(),
            copy@.len() == i,
            forall|j: int| 0 <= j < i ==> copy@[j]@ == items@[j]@,
        decreases items.len() - i,
    {
        copy.push(items[i].clone());
        i += 1;
    }
    assert(terms_view(copy@) =~= terms_view(items@));
    copy
}

impl Clone for SupportedTerm {
    fn clone(&self) -> (copy: Self)
        ensures
            copy@ == self@,
        decreases self, 1int,
    {
        match self {
            SupportedTerm::Integer(i) => SupportedTerm::Integer(*i),
            SupportedTerm::Atom(s) => SupportedTerm::Atom(s.clone()),
            SupportedTerm::Tuple(v) => {
                let items = clone_items(v);
                proof {
                    lemma_view_of_elements(*v);
                    lemma_view_of_elements(items);
                }
                SupportedTerm::Tuple(items)
            },
            SupportedTerm::List(v) => {
                let items = clone_items(v);
                proof {
                    lemma_view_of_elements(*v);
                    lemma_view_of_elements(items);
                }
                SupportedTerm::List(items)
            },
            SupportedTerm::Bitstring(b) => {
                let bytes = b.clone();
                assert(bytes@ =~= b@);
                SupportedTerm::Bitstring(bytes)
            },
        }
    }
}

} // verus!
