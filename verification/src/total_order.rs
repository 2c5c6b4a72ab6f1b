//! Proofs that the comparison of terms is a strict total order.

use crate::supported_term::{
    compare_bytes_from, compare_elements_from, compare_terms, precedes, Comparison, Term,
};
use vstd::prelude::*;
use vstd::utf8::{encode_utf8, encode_utf8_decode_utf8};

verus! {

/// The comparison seen from the other side.
pub open spec fn flip(c: Comparison) -> Comparison {
    match c {
        Comparison::Less => Comparison::Greater,
        Comparison::Equal => Comparison::Equal,
        Comparison::Greater => Comparison::Less,
    }
}

proof fn lemma_bytes_reflexive(a: Seq<u8>, i: int)
    requires
        0 <= i,
    ensures
        compare_bytes_from(a, a, i) == Comparison::Equal,
    decreases a.len() - i,
{
    if i < a.len() {
        lemma_bytes_reflexive(a, i + 1);
    }
}

proof fn lemma_bytes_equal(a: Seq<u8>, b: Seq<u8>, i: int)
    requires
        0 <= i <= a.len(),
        i <= b.len(),
        compare_bytes_from(a, b, i) == Comparison::Equal,
    ensures
        a.len() == b.len(),
        forall|j: int| i <= j < a.len() ==> a[j] == b[j],
    decreases a.len() - i,
{
    if i < a.len() && i < b.len() && a[i] == b[i] {
        lemma_bytes_equal(a, b, i + 1);
    }
}

proof fn lemma_bytes_flip(a: Seq<u8>, b: Seq<u8>, i: int)
    requires
        0 <= i,
    ensures
        compare_bytes_from(b, a, i) == flip(compare_bytes_from(a, b, i)),
    decreases a.len() - i,
{
    if i < a.len() && i < b.len() && a[i] == b[i] {
        lemma_bytes_flip(a, b, i + 1);
    }
}

proof fn lemma_bytes_transitive(a: Seq<u8>, b: Seq<u8>, c: Seq<u8>, i: int)
    requires
        0 <= i,
        compare_bytes_from(a, b, i) == Comparison::Less,
        compare_bytes_from(b, c, i) == Comparison::Less,
    ensures
        compare_bytes_from(a, c, i) == Comparison::Less,
    decreases a.len() - i,
{
    if i < a.len() && i < b.len() && i < c.len() && a[i] == b[i] && b[i] == c[i] {
        lemma_bytes_transitive(a, b, c, i + 1);
    }
}

/// Every term is equal to itself.
pub proof fn lemma_compare_reflexive(a: Term)
    ensures
        compare_terms(a, a) == Comparison::Equal,
    decreases a, 0int,
{
    match a {
        Term::Integer(_) => {},
        Term::Atom(x) => lemma_bytes_reflexive(encode_utf8(x), 0),
        Term::Tuple(x) => lemma_elements_reflexive(x, 0),
        Term::List(x) => lemma_elements_reflexive(x, 0),
        Term::Bitstring(x) => lemma_bytes_reflexive(x, 0),
    }
}

proof fn lemma_elements_reflexive(a: Seq<Term>, i: int)
    requires
        0 <= i,
    ensures
        compare_elements_from(a, a, i) == Comparison::Equal,
    decreases a, a.len() - i,
{
    if i < a.len() {
        lemma_compare_reflexive(a[i]);
        lemma_elements_reflexive(a, i + 1);
    }
}

/// Only identical terms compare as equal.
pub proof fn lemma_compare_equal(a: Term, b: Term)
    ensures
        compare_terms(a, b) == Comparison::Equal <==> a == b,
    decreases a, 0int,
{
    if a == b {
        lemma_compare_reflexive(a);
    } else if compare_terms(a, b) == Comparison::Equal {
        match (a, b) {
            (Term::Integer(_), Term::Integer(_)) => {},
            (Term::Atom(x), Term::Atom(y)) => {
                lemma_bytes_equal(encode_utf8(x), encode_utf8(y), 0);
                assert(encode_utf8(x) =~= encode_utf8(y));
                encode_utf8_decode_utf8(x);
                encode_utf8_decode_utf8(y);
            },
            (Term::Tuple(x), Term::Tuple(y)) => {
                lemma_elements_equal(x, y, 0);
                assert(x =~= y);
            },
            (Term::List(x), Term::List(y)) => {
                lemma_elements_equal(x, y, 0);
                assert(x =~= y);
            },
            (Term::Bitstring(x), Term::Bitstring(y)) => {
                lemma_bytes_equal(x, y, 0);
                assert(x =~= y);
            },
            _ => {},
        }
    }
}

proof fn lemma_elements_equal(a: Seq<Term>, b: Seq<Term>, i: int)
    requires
        0 <= i <= a.len(),
        i <= b.len(),
        compare_elements_from(a, b, i) == Comparison::Equal,
    ensures
        a.len() == b.len(),
        forall|j: int| i <= j < a.len() ==> a[j] == b[j],
    decreases a, a.len() - i,
{
    if i < a.len() && i < b.len() {
        lemma_compare_equal(a[i], b[i]);
        lemma_elements_equal(a, b, i + 1);
    }
}

/// Swapping the two sides of a comparison swaps `Less` and `Greater`.
pub proof fn lemma_compare_antisymmetric(a: Term, b: Term)
    ensures
        compare_terms(b, a) == flip(compare_terms(a, b)),
    decreases a, 0int,
{
    match (a, b) {
        (Term::Integer(_), Term::Integer(_)) => {},
        (Term::Atom(x), Term::Atom(y)) => lemma_bytes_flip(encode_utf8(x), encode_utf8(y), 0),
        (Term::Tuple(x), Term::Tuple(y)) => lemma_elements_flip(x, y, 0),
        (Term::List(x), Term::List(y)) => lemma_elements_flip(x, y, 0),
        (Term::Bitstring(x), Term::Bitstring(y)) => lemma_bytes_flip(x, y, 0),
        _ => {},
    }
}

proof fn lemma_elements_flip(a: Seq<Term>, b: Seq<Term>, i: int)
    requires
        0 <= i,
    ensures
        compare_elements_from(b, a, i) == flip(compare_elements_from(a, b, i)),
    decreases a, a.len() - i,
{
    if i < a.len() && i < b.len() {
        lemma_compare_antisymmetric(a[i], b[i]);
        lemma_elements_flip(a, b, i + 1);
    }
}

/// If `a` precedes `b` and `b` precedes `c`, then `a` precedes `c`.
pub proof fn lemma_compare_transitive(a: Term, b: Term, c: Term)
    requires
        precedes(a, b),
        precedes(b, c),
    ensures
        precedes(a, c),
    decreases a, 0int,
{
    match (a, b, c) {
        (Term::Integer(_), Term::Integer(_), Term::Integer(_)) => {},
        (Term::Atom(x), Term::Atom(y), Term::Atom(z)) => lemma_bytes_transitive(
            encode_utf8(x),
            encode_utf8(y),
            encode_utf8(z),
            0,
        ),
        (Term::Tuple(x), Term::Tuple(y), Term::Tuple(z)) => {
            if x.len() == y.len() && y.len() == z.len() {
                lemma_elements_transitive(x, y, z, 0);
            }
        },
        (Term::List(x), Term::List(y), Term::List(z)) => lemma_elements_transitive(x, y, z, 0),
        (Term::Bitstring(x), Term::Bitstring(y), Term::Bitstring(z)) => lemma_bytes_transitive(
            x,
            y,
            z,
            0,
        ),
        _ => {},
    }
}

proof fn lemma_elements_transitive(a: Seq<Term>, b: Seq<Term>, c: Seq<Term>, i: int)
    requires
        0 <= i,
        compare_elements_from(a, b, i) == Comparison::Less,
        compare_elements_from(b, c, i) == Comparison::Less,
    ensures
        compare_elements_from(a, c, i) == Comparison::Less,
    decreases a, a.len() - i,
{
    if i < a.len() && i < b.len() && i < c.len() {
        let ab = compare_terms(a[i], b[i]);
        let bc = compare_terms(b[i], c[i]);
        lemma_compare_equal(a[i], b[i]);
        lemma_compare_equal(b[i], c[i]);
        if ab == Comparison::Less && bc == Comparison::Less {
            lemma_compare_transitive(a[i], b[i], c[i]);
        } else if ab == Comparison::Equal && bc == Comparison::Equal {
            lemma_compare_reflexive(a[i]);
            lemma_elements_transitive(a, b, c, i + 1);
        }
    }
}

} // verus!
