//! Values as the host hands them over, and their conversion to terms.
//!
//! The host knows more kinds of values than the set can hold. A value is
//! converted only if it, and everything inside it, is of a supported kind.

use crate::supported_term::{lemma_view_of_elements, terms_view, SupportedTerm, Term};
use vstd::prelude::*;

verus! {

/// A value of the host, read as far as the set can make use of it.
#[derive(Debug)]
pub enum HostTerm {
    /// A whole number that fits in 64 bits with a sign.
    Integer(i64),
    /// An atom, by its text.
    Atom(String),
    /// A tuple, by its elements.
    Tuple(Vec<HostTerm>),
    /// A proper list, by its elements.
    List(Vec<HostTerm>),
    /// A binary, by its bytes.
    Bitstring(Vec<u8>),
    /// Any other value.
    Unsupported,
}

/// The value of `t` as a term, where `t` and everything inside it is of a
/// supported kind.
pub open spec fn supported_value(t: HostTerm) -> Option<Term>
    decreases t,
{
    match t {
        HostTerm::Integer(i) => Some(Term::Integer(i as int)),
        HostTerm::Atom(s) => Some(Term::Atom(s@)),
        HostTerm::Tuple(items) => match supported_values(items@) {
            Some(values) => Some(Term::Tuple(values)),
            None => None,
        },
        HostTerm::List(items) => match supported_values(items@) {
            Some(values) => Some(Term::List(values)),
            None => None,
        },
        HostTerm::Bitstring(b) => Some(Term::Bitstring(b@)),
        HostTerm::Unsupported => None,
    }
}

/// The values of `items` as terms, where each of them has one.
pub open spec fn supported_values(items: Seq<HostTerm>) -> Option<Seq<Term>>
    decreases items,
{
    if items.len() == 0 {
        Some(Seq::empty())
    } else {
        match (supported_values(items.drop_last()), supported_value(items.last())) {
            (Some(values), Some(value)) => Some(values.push(value)),
            _ => None,
        }
    }
}

/// A sequence with an unsupported value among its first `n` has no values as terms.
proof fn lemma_unsupported_prefix(items: Seq<HostTerm>, n: int)
    requires
        0 <= n <= items.len(),
        supported_values(items.take(n)) is None,
    ensures
        supported_values(items) is None,
    decreases items.len() - n,
{
    if n < items.len() {
        assert(items.take(n + 1).drop_last() =~= items.take(n));
        lemma_unsupported_prefix(items, n + 1);
    } else {
        assert(items.take(n) =~= items);
    }
}

/// Converts each of `items`, if all of them can be converted.
fn convert_items(items: &Vec<HostTerm>) -> (converted: Option<Vec<SupportedTerm>>)
    ensures
        match converted {
            Some(terms) => supported_values(items@) == Some(terms_view(terms@)),
            None => supported_values(items@) is None,
        },
    decreases items, 0int,
{
    let mut terms: Vec<SupportedTerm> = Vec::with_capacity(items.len());
    let mut i: usize = 0;
    assert(terms_view(terms@) =~= Seq::<Term>::empty());
    while i < items.len()
        invariant
            i <= items.len(),
            supported_values(items@.take(i as int)) == Some(terms_view(terms@)),
        decreases items.len() - i,
    {
        proof {
            assert(items@.take(i + 1).drop_last() =~= items@.take(i as int));
            assert(items@.take(i + 1).last() == items@[i as int]);
        }
        match convert_to_supported_term(&items[i]) {
            Some(term) => {
                assert(terms_view(terms@.push(term)) =~= terms_view(terms@).push(term@));
                terms.push(term);
            },
            None => {
                proof {
                    lemma_unsupported_prefix(items@, i + 1);
                }
                return None;
            },
        }
        i += 1;
    }
    assert(items@.take(i as int) =~= items@);
    Some(terms)
}

/// Converts a value of the host to a term. There is no term for a value of
/// an unsupported kind, nor for a tuple or a list that holds one at any depth.
pub fn convert_to_supported_term(term: &HostTerm) -> (converted: Option<SupportedTerm>)
    ensures
        match converted {
            Some(t) => supported_value(*term) == Some(t@),
            None => supported_value(*term) is None,
        },
    decreases term, 1int,
{
    match term {
        HostTerm::Integer(i) => Some(SupportedTerm::Integer(*i)),
        HostTerm::Atom(s) => Some(SupportedTerm::Atom(s.clone())),
        HostTerm::Tuple(items) => match convert_items(items) {
            Some(terms) => {
                proof {
                    lemma_view_of_elements(terms);
                }
                Some(SupportedTerm::Tuple(terms))
            },
            None => None,
        },
        HostTerm::List(items) => match convert_items(items) {
            Some(terms) => {
                proof {
                    lemma_view_of_elements(terms);
                }
                Some(SupportedTerm::List(terms))
            },
            None => None,
        },
        HostTerm::Bitstring(b) => {
            let bytes = b.clone();
            assert(bytes@ =~= b@);
            Some(SupportedTerm::Bitstring(bytes))
        },
        HostTerm::Unsupported => None,
    }
}

/// Converts a list of the host to the terms of one bucket. There are none
/// for a value that is not a list, nor for a list with an element that has
/// no term.
pub fn convert_to_bucket_items(term: &HostTerm) -> (converted: Option<Vec<SupportedTerm>>)
    ensures
        match converted {
            Some(terms) => term is List && supported_values(term->List_0@) == Some(
                terms_view(terms@),
            ),
            None => !(term is List) || supported_values(term->List_0@) is None,
        },
{
    match term {
        HostTerm::List(items) => convert_items(items),
        _ => None,
    }
}

} // verus!
