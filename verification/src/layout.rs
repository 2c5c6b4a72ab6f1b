//! How a sequence of buckets lays out the contents of a set.
//!
//! The contents are the buckets joined end to end. A term at index `k` of
//! bucket `b` therefore stands at the global index `offset(buckets, b) + k`.

use crate::sorted::{
    after_remove, lemma_ascending_no_duplicates, lemma_contains_at_position, lemma_position_is,
    lemma_position_splits, lemma_precedes_total, position, strictly_ascending,
};
use crate::supported_term::{precedes, Term};
use vstd::prelude::*;
use vstd::seq_lib::lemma_flatten_concat;

verus! {

/// The sum of the lengths of the buckets before bucket `b`: the global index
/// at which bucket `b` starts.
pub open spec fn offset(buckets: Seq<Seq<Term>>, b: int) -> nat
    decreases b,
{
    if b <= 0 {
        0
    } else {
        offset(buckets, b - 1) + buckets[b - 1].len()
    }
}

/// `after` is `before` with `v` put at index `k` of bucket `b`; where that
/// bucket then holds more than `max` terms, it is replaced by its two halves.
pub open spec fn inserted_in_bucket(
    before: Seq<Seq<Term>>,
    after: Seq<Seq<Term>>,
    b: int,
    k: int,
    v: Term,
    max: nat,
) -> bool {
    &&& 0 <= b < before.len()
    &&& 0 <= k <= before[b].len()
    &&& {
        let grown = before[b].insert(k, v);
        let half = grown.len() as int / 2;
        if grown.len() <= max {
            after == before.update(b, grown)
        } else {
            after == before.take(b) + seq![grown.take(half), grown.skip(half)] + before.skip(b + 1)
        }
    }
}

/// The first `b` buckets hold `offset(buckets, b)` terms.
pub proof fn lemma_take_flatten_len(buckets: Seq<Seq<Term>>, b: int)
    requires
        0 <= b <= buckets.len(),
    ensures
        buckets.take(b).flatten().len() == offset(buckets, b),
    decreases b,
{
    if b > 0 {
        lemma_take_flatten_len(buckets, b - 1);
        buckets.take(b - 1).lemma_flatten_push(buckets[b - 1]);
        assert(buckets.take(b) =~= buckets.take(b - 1).push(buckets[b - 1]));
    } else {
        assert(buckets.take(0).len() == 0);
    }
}

/// All buckets together hold as many terms as the contents.
pub proof fn lemma_offset_total(buckets: Seq<Seq<Term>>)
    ensures
        offset(buckets, buckets.len() as int) == buckets.flatten().len(),
{
    lemma_take_flatten_len(buckets, buckets.len() as int);
    assert(buckets.take(buckets.len() as int) =~= buckets);
}

/// Later buckets start at later global indices.
pub proof fn lemma_offset_monotone(buckets: Seq<Seq<Term>>, a: int, b: int)
    requires
        0 <= a <= b,
    ensures
        offset(buckets, a) <= offset(buckets, b),
    decreases b - a,
{
    if a < b {
        lemma_offset_monotone(buckets, a, b - 1);
    }
}

/// The contents are the terms before bucket `b`, then bucket `b`, then the
/// terms after it.
pub proof fn lemma_flatten_around(buckets: Seq<Seq<Term>>, b: int)
    requires
        0 <= b < buckets.len(),
    ensures
        buckets.flatten() == buckets.take(b).flatten() + buckets[b] + buckets.skip(
            b + 1,
        ).flatten(),
        buckets.take(b).flatten().len() == offset(buckets, b),
        offset(buckets, b + 1) <= buckets.flatten().len(),
{
    let before = buckets.take(b);
    let one = seq![buckets[b]];
    let after = buckets.skip(b + 1);
    assert(buckets =~= before + (one + after));
    lemma_flatten_concat(before, one + after);
    lemma_flatten_concat(one, after);
    one.lemma_flatten_one_element();
    assert(one.first() == buckets[b]);
    assert(buckets.flatten() =~= before.flatten() + buckets[b] + after.flatten());
    lemma_take_flatten_len(buckets, b);
}

/// The term at index `k` of bucket `b` stands at the global index
/// `offset(buckets, b) + k`.
pub proof fn lemma_flatten_index(buckets: Seq<Seq<Term>>, b: int, k: int)
    requires
        0 <= b < buckets.len(),
        0 <= k < buckets[b].len(),
    ensures
        offset(buckets, b) + k < buckets.flatten().len(),
        buckets.flatten()[offset(buckets, b) + k] == buckets[b][k],
{
    lemma_flatten_around(buckets, b);
}

/// Every bucket of strictly ascending contents is strictly ascending.
pub proof fn lemma_bucket_ascending(buckets: Seq<Seq<Term>>, b: int)
    requires
        strictly_ascending(buckets.flatten()),
        0 <= b < buckets.len(),
    ensures
        strictly_ascending(buckets[b]),
{
    let flat = buckets.flatten();
    let base = offset(buckets, b) as int;
    assert forall|i: int, j: int| 0 <= i < j < buckets[b].len() implies precedes(
        #[trigger] buckets[b][i],
        #[trigger] buckets[b][j],
    ) by {
        lemma_flatten_index(buckets, b, i);
        lemma_flatten_index(buckets, b, j);
        assert(precedes(flat[base + i], flat[base + j]));
    }
}

/// In strictly ascending contents, every term of a bucket comes before every
/// term of each later bucket.
pub proof fn lemma_buckets_in_order(buckets: Seq<Seq<Term>>, i: int, j: int)
    requires
        strictly_ascending(buckets.flatten()),
        0 <= i < j < buckets.len(),
    ensures
        forall|a: int, b: int|
            0 <= a < buckets[i].len() && 0 <= b < buckets[j].len() ==> precedes(
                #[trigger] buckets[i][a],
                #[trigger] buckets[j][b],
            ),
{
    let flat = buckets.flatten();
    assert forall|a: int, b: int|
        0 <= a < buckets[i].len() && 0 <= b < buckets[j].len() implies precedes(
        #[trigger] buckets[i][a],
        #[trigger] buckets[j][b],
    ) by {
        lemma_flatten_index(buckets, i, a);
        lemma_flatten_index(buckets, j, b);
        lemma_offset_monotone(buckets, i + 1, j);
        assert(precedes(flat[offset(buckets, i) + a], flat[offset(buckets, j) + b]));
    }
}

/// Buckets without terms do not move the start of the buckets after them.
pub proof fn lemma_offset_across_empty(buckets: Seq<Seq<Term>>, a: int, b: int)
    requires
        0 <= a <= b <= buckets.len(),
        forall|j: int| a <= j < b ==> (#[trigger] buckets[j]).len() == 0,
    ensures
        offset(buckets, a) == offset(buckets, b),
    decreases b - a,
{
    if a < b {
        lemma_offset_across_empty(buckets, a, b - 1);
    }
}

/// Where all terms before bucket `b` come before `v` and all terms after
/// bucket `b` come after `v`, bucket `b` alone decides whether the contents
/// hold `v`, and the position of `v` in the contents is its position in
/// bucket `b`, counted from where the bucket starts.
pub proof fn lemma_bucket_decides(buckets: Seq<Seq<Term>>, b: int, v: Term)
    requires
        strictly_ascending(buckets.flatten()),
        0 <= b < buckets.len(),
        forall|g: int| 0 <= g < offset(buckets, b) ==> precedes(#[trigger] buckets.flatten()[g], v),
        forall|g: int|
            offset(buckets, b + 1) <= g < buckets.flatten().len() ==> precedes(
                v,
                #[trigger] buckets.flatten()[g],
            ),
    ensures
        strictly_ascending(buckets[b]),
        buckets.flatten().contains(v) <==> buckets[b].contains(v),
        position(buckets.flatten(), v) == offset(buckets, b) + position(buckets[b], v),
        position(buckets[b], v) <= buckets[b].len(),
{
    let flat = buckets.flatten();
    let bucket = buckets[b];
    let base = offset(buckets, b) as int;
    let p = position(bucket, v) as int;
    lemma_bucket_ascending(buckets, b);
    lemma_position_splits(bucket, v);
    lemma_flatten_around(buckets, b);
    assert forall|g: int| base <= g < base + bucket.len() implies #[trigger] flat[g] == bucket[g
        - base] by {
        lemma_flatten_index(buckets, b, g - base);
    }
    assert forall|g: int| 0 <= g < base + p implies precedes(#[trigger] flat[g], v) by {
        if g >= base {
            assert(precedes(bucket[g - base], v));
        }
    }
    assert forall|g: int| base + p <= g < flat.len() implies !precedes(#[trigger] flat[g], v) by {
        if g < base + bucket.len() {
            assert(!precedes(bucket[g - base], v));
        } else {
            lemma_precedes_total(v, flat[g]);
        }
    }
    lemma_position_is(flat, v, base + p);
    if bucket.contains(v) {
        let k = choose|k: int| 0 <= k < bucket.len() && bucket[k] == v;
        assert(flat[base + k] == v);
    }
    if flat.contains(v) {
        let g = choose|g: int| 0 <= g < flat.len() && flat[g] == v;
        lemma_precedes_total(v, flat[g]);
        assert(base <= g < base + bucket.len());
        assert(bucket[g - base] == v);
    }
}

/// Replacing bucket `b` replaces its part of the contents.
pub proof fn lemma_flatten_update(buckets: Seq<Seq<Term>>, b: int, bucket: Seq<Term>)
    requires
        0 <= b < buckets.len(),
    ensures
        buckets.update(b, bucket).flatten() == buckets.take(b).flatten() + bucket + buckets.skip(
            b + 1,
        ).flatten(),
{
    let updated = buckets.update(b, bucket);
    lemma_flatten_around(updated, b);
    assert(updated.take(b) =~= buckets.take(b));
    assert(updated.skip(b + 1) =~= buckets.skip(b + 1));
}

/// Replacing bucket `b` by two buckets replaces its part of the contents by
/// the terms of the two.
pub proof fn lemma_flatten_split(
    buckets: Seq<Seq<Term>>,
    b: int,
    left: Seq<Term>,
    right: Seq<Term>,
)
    requires
        0 <= b < buckets.len(),
    ensures
        (buckets.take(b) + seq![left, right] + buckets.skip(b + 1)).flatten() == buckets.take(
            b,
        ).flatten() + (left + right) + buckets.skip(b + 1).flatten(),
{
    let before = buckets.take(b);
    let two = seq![left, right];
    let after = buckets.skip(b + 1);
    lemma_flatten_concat(before + two, after);
    lemma_flatten_concat(before, two);
    assert(two =~= seq![left].push(right));
    seq![left].lemma_flatten_push(right);
    seq![left].lemma_flatten_one_element();
    assert(seq![left].first() == left);
    assert(two.flatten() =~= left + right);
    assert((before + two + after).flatten() =~= before.flatten() + (left + right)
        + after.flatten());
}

/// Putting a term into a bucket puts it into the contents at the matching
/// global index, and the cut keeps every bucket within `max` terms.
pub proof fn lemma_inserted_in_bucket(
    before: Seq<Seq<Term>>,
    after: Seq<Seq<Term>>,
    b: int,
    k: int,
    v: Term,
    max: nat,
)
    requires
        inserted_in_bucket(before, after, b, k, v, max),
        max >= 1,
        forall|j: int| 0 <= j < before.len() ==> (#[trigger] before[j]).len() <= max,
    ensures
        offset(before, b) + k <= before.flatten().len(),
        after.flatten() == before.flatten().insert(offset(before, b) + k, v),
        forall|j: int| 0 <= j < after.len() ==> (#[trigger] after[j]).len() <= max,
{
    let grown = before[b].insert(k, v);
    let half = grown.len() as int / 2;
    let prefix = before.take(b).flatten();
    let suffix = before.skip(b + 1).flatten();
    lemma_flatten_around(before, b);
    assert(grown.len() == before[b].len() + 1);
    if grown.len() <= max {
        lemma_flatten_update(before, b, grown);
    } else {
        let left = grown.take(half);
        let right = grown.skip(half);
        lemma_flatten_split(before, b, left, right);
        assert(left + right =~= grown);
        assert forall|j: int| 0 <= j < after.len() implies (#[trigger] after[j]).len() <= max by {
            if j < b {
                assert(after[j] == before[j]);
            } else if j == b {
                assert(after[j] == left);
            } else if j == b + 1 {
                assert(after[j] == right);
            } else {
                assert(after[j] == before[j - 1]);
            }
        }
    }
    assert(prefix + grown + suffix =~= (prefix + before[b] + suffix).insert(prefix.len() + k, v));
}

/// Each bucket without `v`.
pub open spec fn removed_from_buckets(buckets: Seq<Seq<Term>>, v: Term) -> Seq<Seq<Term>> {
    buckets.map_values(|bucket: Seq<Term>| after_remove(bucket, v))
}

/// A term that the contents do not hold is in no bucket.
pub proof fn lemma_absent_from_buckets(buckets: Seq<Seq<Term>>, v: Term)
    requires
        !buckets.flatten().contains(v),
    ensures
        removed_from_buckets(buckets, v) == buckets,
{
    assert forall|j: int| 0 <= j < buckets.len() implies !(#[trigger] buckets[j]).contains(v) by {
        if buckets[j].contains(v) {
            let k = choose|k: int| 0 <= k < buckets[j].len() && buckets[j][k] == v;
            lemma_flatten_index(buckets, j, k);
        }
    }
    assert(removed_from_buckets(buckets, v) =~= buckets);
}

/// Taking the term at index `k` out of bucket `b` takes it out of the
/// contents at the matching global index, and no other bucket held it.
pub proof fn lemma_removed_from_bucket(buckets: Seq<Seq<Term>>, b: int, k: int)
    requires
        strictly_ascending(buckets.flatten()),
        0 <= b < buckets.len(),
        0 <= k < buckets[b].len(),
    ensures
        offset(buckets, b) + k < buckets.flatten().len(),
        buckets.update(b, buckets[b].remove(k)).flatten() == buckets.flatten().remove(
            offset(buckets, b) + k,
        ),
        buckets.update(b, buckets[b].remove(k)) == removed_from_buckets(buckets, buckets[b][k]),
{
    let v = buckets[b][k];
    let flat = buckets.flatten();
    let shrunk = buckets[b].remove(k);
    let prefix = buckets.take(b).flatten();
    let suffix = buckets.skip(b + 1).flatten();
    lemma_flatten_around(buckets, b);
    lemma_flatten_update(buckets, b, shrunk);
    assert(prefix + shrunk + suffix =~= (prefix + buckets[b] + suffix).remove(prefix.len() + k));
    lemma_flatten_index(buckets, b, k);
    lemma_ascending_no_duplicates(flat);
    lemma_bucket_ascending(buckets, b);
    lemma_contains_at_position(buckets[b], v);
    assert forall|j: int| 0 <= j < buckets.len() && j != b implies !(#[trigger] buckets[j]).contains(
        v,
    ) by {
        if buckets[j].contains(v) {
            let i = choose|i: int| 0 <= i < buckets[j].len() && buckets[j][i] == v;
            lemma_flatten_index(buckets, j, i);
            lemma_flatten_around(buckets, j);
            if j < b {
                lemma_offset_monotone(buckets, j + 1, b);
            } else {
                lemma_offset_monotone(buckets, b + 1, j);
            }
        }
    }
    assert(buckets.update(b, shrunk) =~= removed_from_buckets(buckets, v));
}

} // verus!
