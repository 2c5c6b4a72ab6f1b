//! Strictly ascending sequences of terms, and the place of a term in one.
//!
//! The contents of a set are modelled as a strictly ascending sequence. What
//! insertion, removal and lookup do to the contents is stated here over that
//! sequence alone, independent of how the set stores it.

use crate::supported_term::{precedes, Term};
use crate::total_order::{
    lemma_compare_antisymmetric, lemma_compare_equal, lemma_compare_reflexive,
    lemma_compare_transitive,
};
use crate::{AddResult, AppendBucketResult, RemoveResult};
use vstd::prelude::*;

verus! {

/// Every element comes strictly before every later element.
pub open spec fn strictly_ascending(s: Seq<Term>) -> bool {
    forall|i: int, j: int| 0 <= i < j < s.len() ==> precedes(#[trigger] s[i], #[trigger] s[j])
}

/// The number of elements of `s` that come strictly before `v`. In a strictly
/// ascending sequence this is the index of `v` if it is present, and the
/// index at which it has to be inserted if it is not.
pub open spec fn position(s: Seq<Term>, v: Term) -> nat
    decreases s.len(),
{
    if s.len() == 0 {
        0
    } else {
        position(s.drop_last(), v) + if precedes(s.last(), v) {
            1nat
        } else {
            0nat
        }
    }
}

/// The contents after `v` has been added to the contents `s`.
pub open spec fn after_add(s: Seq<Term>, v: Term) -> Seq<Term> {
    if s.contains(v) {
        s
    } else {
        s.insert(position(s, v) as int, v)
    }
}

/// What adding `v` to the contents `s` reports.
pub open spec fn add_result(s: Seq<Term>, v: Term) -> AddResult {
    if s.contains(v) {
        AddResult::Duplicate(position(s, v) as usize)
    } else {
        AddResult::Added(position(s, v) as usize)
    }
}

/// The contents after `v` has been removed from the contents `s`.
pub open spec fn after_remove(s: Seq<Term>, v: Term) -> Seq<Term> {
    if s.contains(v) {
        s.remove(position(s, v) as int)
    } else {
        s
    }
}

/// What removing `v` from the contents `s` reports.
pub open spec fn remove_result(s: Seq<Term>, v: Term) -> RemoveResult {
    if s.contains(v) {
        RemoveResult::Removed(position(s, v) as usize)
    } else {
        RemoveResult::NotFound
    }
}

/// What appending the terms `items` as one bucket to the contents `s`
/// reports, where a bucket may hold `max` terms: the bucket is taken if it is
/// not too long and the contents are strictly ascending with it.
pub open spec fn append_result(s: Seq<Term>, items: Seq<Term>, max: nat) -> AppendBucketResult {
    if items.len() > max {
        AppendBucketResult::MaxBucketSizeExceeded
    } else if !strictly_ascending(s + items) {
        AppendBucketResult::OutOfOrder
    } else {
        AppendBucketResult::Appended
    }
}

/// The part of `s` that starts at `start` and holds up to `amount` elements,
/// cut off where `s` ends.
pub open spec fn window(s: Seq<Term>, start: nat, amount: nat) -> Seq<Term> {
    if start >= s.len() {
        Seq::empty()
    } else if start + amount >= s.len() {
        s.subrange(start as int, s.len() as int)
    } else {
        s.subrange(start as int, (start + amount) as int)
    }
}

/// No more elements can come before `v` than there are.
pub proof fn lemma_position_bound(s: Seq<Term>, v: Term)
    ensures
        position(s, v) <= s.len(),
    decreases s.len(),
{
    if s.len() > 0 {
        lemma_position_bound(s.drop_last(), v);
    }
}

/// A strictly ascending sequence stays so when an element is dropped from its end.
proof fn lemma_drop_last_ascending(s: Seq<Term>)
    requires
        strictly_ascending(s),
        s.len() > 0,
    ensures
        strictly_ascending(s.drop_last()),
{
    let t = s.drop_last();
    assert forall|i: int, j: int| 0 <= i < j < t.len() implies precedes(
        #[trigger] t[i],
        #[trigger] t[j],
    ) by {
        assert(t[i] == s[i] && t[j] == s[j]);
    }
}

/// In a strictly ascending sequence the elements that come before `v` are
/// exactly those at the indices below `position(s, v)`.
pub proof fn lemma_position_splits(s: Seq<Term>, v: Term)
    requires
        strictly_ascending(s),
    ensures
        position(s, v) <= s.len(),
        forall|j: int| 0 <= j < s.len() ==> (precedes(#[trigger] s[j], v) <==> j < position(s, v)),
    decreases s.len(),
{
    lemma_position_bound(s, v);
    if s.len() > 0 {
        let t = s.drop_last();
        lemma_drop_last_ascending(s);
        lemma_position_splits(t, v);
        lemma_position_bound(t, v);
        assert forall|j: int| 0 <= j < s.len() implies (precedes(#[trigger] s[j], v) <==> j
            < position(s, v)) by {
            if j < t.len() {
                assert(t[j] == s[j]);
                if precedes(s.last(), v) {
                    assert(precedes(s[j], s[s.len() - 1]));
                    lemma_compare_transitive(s[j], s.last(), v);
                }
            } else {
                if precedes(s.last(), v) {
                    assert forall|k: int| 0 <= k < t.len() implies precedes(#[trigger] t[k], v) by {
                        assert(t[k] == s[k]);
                        assert(precedes(s[k], s[s.len() - 1]));
                        lemma_compare_transitive(s[k], s.last(), v);
                    }
                    if position(t, v) < t.len() {
                        assert(precedes(t[position(t, v) as int], v));
                    }
                }
            }
        }
    }
}

/// An index that has only elements before `v` below it, and none at or above
/// it, is the position of `v`.
pub proof fn lemma_position_is(s: Seq<Term>, v: Term, i: int)
    requires
        0 <= i <= s.len(),
        forall|j: int| 0 <= j < i ==> precedes(#[trigger] s[j], v),
        forall|j: int| i <= j < s.len() ==> !precedes(#[trigger] s[j], v),
    ensures
        position(s, v) == i,
    decreases s.len(),
{
    if s.len() > 0 {
        let t = s.drop_last();
        assert forall|j: int| 0 <= j < t.len() implies t[j] == s[j] by {}
        if i == s.len() {
            assert(precedes(s[s.len() - 1], v));
            lemma_position_is(t, v, i - 1);
        } else {
            assert(!precedes(s[s.len() - 1], v));
            lemma_position_is(t, v, i);
        }
    }
}

/// Of two different terms, one comes before the other.
pub proof fn lemma_precedes_total(a: Term, b: Term)
    ensures
        a == b || precedes(a, b) || precedes(b, a),
        !(precedes(a, b) && precedes(b, a)),
        !precedes(a, a),
        a == b ==> !precedes(a, b),
{
    lemma_compare_equal(a, b);
    lemma_compare_antisymmetric(a, b);
    lemma_compare_reflexive(a);
}

/// In a strictly ascending sequence, everything before an element that does
/// not come after `v` comes before `v`.
pub proof fn lemma_ascending_below(s: Seq<Term>, i: int, v: Term)
    requires
        strictly_ascending(s),
        0 <= i < s.len(),
        !precedes(v, s[i]),
    ensures
        forall|g: int| 0 <= g < i ==> precedes(#[trigger] s[g], v),
{
    assert forall|g: int| 0 <= g < i implies precedes(#[trigger] s[g], v) by {
        assert(precedes(s[g], s[i]));
        lemma_precedes_total(s[i], v);
        if s[i] != v {
            lemma_compare_transitive(s[g], s[i], v);
        }
    }
}

/// In a strictly ascending sequence, everything after an element that does
/// not come before `v` comes after `v`.
pub proof fn lemma_ascending_above(s: Seq<Term>, i: int, v: Term)
    requires
        strictly_ascending(s),
        0 <= i < s.len(),
        !precedes(s[i], v),
    ensures
        forall|g: int| i < g < s.len() ==> precedes(v, #[trigger] s[g]),
{
    assert forall|g: int| i < g < s.len() implies precedes(v, #[trigger] s[g]) by {
        assert(precedes(s[i], s[g]));
        lemma_precedes_total(s[i], v);
        if s[i] != v {
            lemma_compare_transitive(v, s[i], s[g]);
        }
    }
}

/// A strictly ascending sequence holds no term twice.
pub proof fn lemma_ascending_no_duplicates(s: Seq<Term>)
    requires
        strictly_ascending(s),
    ensures
        s.no_duplicates(),
{
    assert forall|i: int, j: int| 0 <= i < s.len() && 0 <= j < s.len() && i != j implies s[i]
        != s[j] by {
        lemma_precedes_total(s[i], s[j]);
        if i < j {
            assert(precedes(s[i], s[j]));
        } else {
            assert(precedes(s[j], s[i]));
        }
    }
}

/// In a strictly ascending sequence, `v` is present exactly if it stands at
/// its position.
pub proof fn lemma_contains_at_position(s: Seq<Term>, v: Term)
    requires
        strictly_ascending(s),
    ensures
        s.contains(v) <==> (position(s, v) < s.len() && s[position(s, v) as int] == v),
        forall|j: int| 0 <= j < s.len() && s[j] == v ==> j == position(s, v),
{
    lemma_position_splits(s, v);
    let p = position(s, v) as int;
    assert forall|j: int| 0 <= j < s.len() && s[j] == v implies j == p by {
        lemma_precedes_total(s[j], v);
        assert(!precedes(s[j], v));
        if p < j {
            assert(precedes(s[p], s[j]));
        }
    }
    if s.contains(v) {
        let k = choose|k: int| 0 <= k < s.len() && s[k] == v;
        assert(k == p);
    }
}

/// Where `v` splits a strictly ascending sequence that does not hold it:
/// everything below its position comes before it, everything else after it.
pub proof fn lemma_absent_splits(s: Seq<Term>, v: Term)
    requires
        strictly_ascending(s),
        !s.contains(v),
    ensures
        position(s, v) <= s.len(),
        forall|j: int| 0 <= j < position(s, v) ==> precedes(#[trigger] s[j], v),
        forall|j: int| position(s, v) <= j < s.len() ==> precedes(v, #[trigger] s[j]),
{
    lemma_position_splits(s, v);
    assert forall|j: int| position(s, v) <= j < s.len() implies precedes(v, #[trigger] s[j]) by {
        lemma_precedes_total(s[j], v);
        assert(s.contains(s[j]));
    }
}

/// Inserting an absent term at its position keeps the sequence strictly
/// ascending, and the term is then found at that position.
pub proof fn lemma_insert_at_position(s: Seq<Term>, v: Term)
    requires
        strictly_ascending(s),
        !s.contains(v),
    ensures
        strictly_ascending(after_add(s, v)),
        after_add(s, v).contains(v),
        position(after_add(s, v), v) == position(s, v),
        after_add(s, v).len() == s.len() + 1,
{
    lemma_absent_splits(s, v);
    let p = position(s, v) as int;
    let t = s.insert(p, v);
    assert forall|i: int, j: int| 0 <= i < j < t.len() implies precedes(
        #[trigger] t[i],
        #[trigger] t[j],
    ) by {
        if j < p {
            assert(t[i] == s[i] && t[j] == s[j]);
        } else if j == p {
            assert(t[i] == s[i]);
        } else if i < p {
            assert(t[i] == s[i] && t[j] == s[j - 1]);
            lemma_compare_transitive(s[i], v, s[j - 1]);
        } else if i == p {
            assert(t[j] == s[j - 1]);
        } else {
            assert(t[i] == s[i - 1] && t[j] == s[j - 1]);
        }
    }
    assert(t[p] == v);
    lemma_contains_at_position(t, v);
}

/// Removing an element keeps the sequence strictly ascending, and the
/// element is then absent.
pub proof fn lemma_remove_at(s: Seq<Term>, i: int)
    requires
        strictly_ascending(s),
        0 <= i < s.len(),
    ensures
        strictly_ascending(s.remove(i)),
        !s.remove(i).contains(s[i]),
        position(s.remove(i), s[i]) == i,
{
    let t = s.remove(i);
    assert forall|a: int, b: int| 0 <= a < b < t.len() implies precedes(
        #[trigger] t[a],
        #[trigger] t[b],
    ) by {
        let a0 = if a < i { a } else { a + 1 };
        let b0 = if b < i { b } else { b + 1 };
        assert(t[a] == s[a0] && t[b] == s[b0]);
    }
    assert forall|j: int| 0 <= j < i implies precedes(#[trigger] t[j], s[i]) by {
        assert(t[j] == s[j]);
    }
    assert forall|j: int| i <= j < t.len() implies !precedes(#[trigger] t[j], s[i]) by {
        assert(t[j] == s[j + 1]);
        assert(precedes(s[i], s[j + 1]));
        lemma_precedes_total(s[i], s[j + 1]);
    }
    lemma_position_is(t, s[i], i);
    lemma_contains_at_position(t, s[i]);
    if i < t.len() {
        assert(t[i] == s[i + 1]);
        assert(precedes(s[i], s[i + 1]));
        lemma_precedes_total(s[i], s[i + 1]);
    }
}

/// Two strictly ascending sequences joined are strictly ascending exactly if
/// the last term of the first comes before the first term of the second.
pub proof fn lemma_concat_ascending(s: Seq<Term>, t: Seq<Term>)
    requires
        strictly_ascending(s),
    ensures
        strictly_ascending(s + t) <==> strictly_ascending(t) && (s.len() > 0 && t.len() > 0
            ==> precedes(s.last(), t.first())),
{
    let u = s + t;
    if strictly_ascending(u) {
        assert forall|i: int, j: int| 0 <= i < j < t.len() implies precedes(
            #[trigger] t[i],
            #[trigger] t[j],
        ) by {
            assert(u[s.len() + i] == t[i] && u[s.len() + j] == t[j]);
        }
        if s.len() > 0 && t.len() > 0 {
            assert(u[s.len() - 1] == s.last() && u[s.len() as int] == t.first());
        }
    }
    if strictly_ascending(t) && (s.len() > 0 && t.len() > 0 ==> precedes(s.last(), t.first())) {
        assert forall|i: int, j: int| 0 <= i < j < u.len() implies precedes(
            #[trigger] u[i],
            #[trigger] u[j],
        ) by {
            if j < s.len() {
                assert(u[i] == s[i] && u[j] == s[j]);
            } else if i >= s.len() {
                assert(u[i] == t[i - s.len()] && u[j] == t[j - s.len()]);
            } else {
                assert(u[i] == s[i] && u[j] == t[j - s.len()]);
                lemma_precedes_total(s[i], s.last());
                if i < s.len() - 1 {
                    assert(precedes(s[i], s[s.len() - 1]));
                    lemma_compare_transitive(s[i], s.last(), t.first());
                }
                if j > s.len() {
                    assert(precedes(t[0], t[j - s.len()]));
                    lemma_compare_transitive(s[i], t.first(), t[j - s.len()]);
                }
            }
        }
    }
}

/// Adding a term that was just added changes nothing and reports the index
/// that the first addition reported.
pub proof fn lemma_add_twice(s: Seq<Term>, v: Term)
    requires
        strictly_ascending(s),
        s.len() < usize::MAX,
        add_result(s, v) is Added,
    ensures
        add_result(after_add(s, v), v) == AddResult::Duplicate(add_result(s, v)->Added_0),
        after_add(after_add(s, v), v) == after_add(s, v),
{
    lemma_insert_at_position(s, v);
    lemma_position_bound(s, v);
}

/// Removing a term right after adding it reports the index that the
/// addition reported, and gives back the earlier contents if the term was new.
pub proof fn lemma_add_then_remove(s: Seq<Term>, v: Term)
    requires
        strictly_ascending(s),
        s.len() < usize::MAX,
    ensures
        remove_result(after_add(s, v), v) == RemoveResult::Removed(position(s, v) as usize),
        add_result(s, v) is Added ==> add_result(s, v) == AddResult::Added(position(s, v) as usize)
            && after_remove(after_add(s, v), v) == s,
        add_result(s, v) is Duplicate ==> add_result(s, v) == AddResult::Duplicate(
            position(s, v) as usize,
        ),
{
    lemma_position_bound(s, v);
    if s.contains(v) {
        lemma_contains_at_position(s, v);
    } else {
        lemma_insert_at_position(s, v);
        let p = position(s, v) as int;
        assert(s.insert(p, v).remove(p) =~= s);
    }
}

/// After a term has been added it stands in the contents at its position.
pub proof fn lemma_find_after_add(s: Seq<Term>, v: Term)
    requires
        strictly_ascending(s),
    ensures
        strictly_ascending(after_add(s, v)),
        after_add(s, v).contains(v),
        position(after_add(s, v), v) < after_add(s, v).len(),
        after_add(s, v)[position(after_add(s, v), v) as int] == v,
{
    if s.contains(v) {
        lemma_contains_at_position(s, v);
    } else {
        lemma_insert_at_position(s, v);
        lemma_contains_at_position(after_add(s, v), v);
    }
}

/// A window that lies within the sequence is that part of it, and a window
/// that starts at the end or beyond is empty.
pub proof fn lemma_window(s: Seq<Term>, start: nat, amount: nat)
    ensures
        start + amount <= s.len() ==> window(s, start, amount) == s.subrange(
            start as int,
            (start + amount) as int,
        ),
        start >= s.len() ==> window(s, start, amount).len() == 0,
        window(s, start, amount).len() <= amount,
        forall|k: int|
            0 <= k < window(s, start, amount).len() ==> window(s, start, amount)[k] == s[start + k],
{
    if start < s.len() && start + amount == s.len() {
        assert(s.subrange(start as int, s.len() as int) == s.subrange(start as int, (start + amount) as int));
    }
}

} // verus!
