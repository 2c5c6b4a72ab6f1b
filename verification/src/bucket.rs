//! A bucket: one contiguous run of the terms of a set.

use crate::sorted::{
    lemma_contains_at_position, lemma_position_is, position, strictly_ascending,
};
use crate::supported_term::{precedes, terms_view, Comparison, SupportedTerm, Term};
use crate::total_order::{
    lemma_compare_antisymmetric, lemma_compare_equal, lemma_compare_transitive,
};
use vstd::prelude::*;

verus! {

/// A run of terms, kept in the order in which the set holds them.
#[derive(Debug)]
pub struct Bucket {
    data: Vec<SupportedTerm>,
}

impl View for Bucket {
    type V = Seq<Term>;

    closed spec fn view(&self) -> Seq<Term> {
        terms_view(self.data@)
    }
}

/// Where `v` is in the strictly ascending sequence `s`: `Ok` with its index
/// if it is there, `Err` with the index at which it has to be inserted if not.
pub open spec fn locate_result(s: Seq<Term>, v: Term) -> Result<usize, usize> {
    if s.contains(v) {
        Ok(position(s, v) as usize)
    } else {
        Err(position(s, v) as usize)
    }
}

impl Bucket {
    /// A bucket without terms.
    pub fn new() -> (bucket: Bucket)
        ensures
            bucket@ == Seq::<Term>::empty(),
    {
        Bucket { data: Vec::new() }
    }

    /// A bucket of the given terms, in their order, unless there are more
    /// than `max_bucket_size` of them. The order of the terms is not checked.
    pub fn from_items(items: Vec<SupportedTerm>, max_bucket_size: usize) -> (bucket: Option<
        Bucket,
    >)
        ensures
            items@.len() <= max_bucket_size ==> bucket is Some && bucket->0@ == terms_view(items@),
            items@.len() > max_bucket_size ==> bucket is None,
    {
        if items.len() > max_bucket_size {
            None
        } else {
            Some(Bucket { data: items })
        }
    }

    /// The number of terms in the bucket.
    pub fn len(&self) -> (n: usize)
        ensures
            n == self@.len(),
    {
        self.data.len()
    }

    /// The term at index `i`.
    pub fn get(&self, i: usize) -> (term: &SupportedTerm)
        requires
            i < self@.len(),
        ensures
            term@ == self@[i as int],
    {
        &self.data[i]
    }

    /// Whether the terms of the bucket are strictly ascending.
    pub fn is_strictly_ascending(&self) -> (ascending: bool)
        ensures
            ascending == strictly_ascending(self@),
    {
        let n = self.data.len();
        if n < 2 {
            return true;
        }
        let mut i: usize = 1;
        while i < n
            invariant
                1 <= i <= n,
                n == self.data@.len(),
                strictly_ascending(self@.take(i as int)),
            decreases n - i,
        {
            match self.data[i - 1].compare(&self.data[i]) {
                Comparison::Less => {
                    proof {
                        let s = self@.take(i as int);
                        let t = self@.take(i + 1);
                        assert forall|a: int, b: int| 0 <= a < b < t.len() implies precedes(
                            #[trigger] t[a],
                            #[trigger] t[b],
                        ) by {
                            if b < i {
                                assert(t[a] == s[a] && t[b] == s[b]);
                            } else if a < i - 1 {
                                assert(t[a] == s[a] && self@[i - 1] == s[i - 1]);
                                assert(precedes(s[a], s[i - 1]));
                                lemma_compare_transitive(t[a], self@[i - 1], t[b]);
                            }
                        }
                    }
                },
                _ => {
                    proof {
                        lemma_compare_equal(self@[i - 1], self@[i as int]);
                        lemma_compare_antisymmetric(self@[i - 1], self@[i as int]);
                    }
                    return false;
                },
            }
            i += 1;
        }
        assert(self@.take(n as int) =~= self@);
        true
    }

    /// Searches the bucket for `item`.
    pub fn locate(&self, item: &SupportedTerm) -> (found: Result<usize, usize>)
        requires
            strictly_ascending(self@),
        ensures
            found == locate_result(self@, item@),
            position(self@, item@) <= self@.len(),
    {
        let mut lo: usize = 0;
        let mut hi: usize = self.data.len();
        while lo < hi
            invariant
                lo <= hi <= self@.len(),
                self@.len() == self.data@.len(),
                strictly_ascending(self@),
                forall|j: int| 0 <= j < lo ==> precedes(#[trigger] self@[j], item@),
                forall|j: int| hi <= j < self@.len() ==> precedes(item@, #[trigger] self@[j]),
            decreases hi - lo,
        {
            let mid = lo + (hi - lo) / 2;
            match self.data[mid].compare(item) {
                Comparison::Less => {
                    proof {
                        assert forall|j: int| 0 <= j < mid + 1 implies precedes(
                            #[trigger] self@[j],
                            item@,
                        ) by {
                            if j < mid {
                                assert(precedes(self@[j], self@[mid as int]));
                                lemma_compare_transitive(self@[j], self@[mid as int], item@);
                            }
                        }
                    }
                    lo = mid + 1;
                },
                Comparison::Equal => {
                    proof {
                        lemma_compare_equal(self@[mid as int], item@);
                        lemma_contains_at_position(self@, item@);
                    }
                    return Ok(mid);
                },
                Comparison::Greater => {
                    proof {
                        lemma_compare_antisymmetric(self@[mid as int], item@);
                        assert forall|j: int| mid <= j < self@.len() implies precedes(
                            item@,
                            #[trigger] self@[j],
                        ) by {
                            if mid < j {
                                assert(precedes(self@[mid as int], self@[j]));
                                lemma_compare_transitive(item@, self@[mid as int], self@[j]);
                            }
                        }
                    }
                    hi = mid;
                },
            }
        }
        proof {
            assert forall|j: int| lo <= j < self@.len() implies !precedes(
                #[trigger] self@[j],
                item@,
            ) by {
                lemma_compare_antisymmetric(item@, self@[j]);
            }
            lemma_position_is(self@, item@, lo as int);
            lemma_contains_at_position(self@, item@);
            if lo < self@.len() {
                lemma_compare_equal(item@, self@[lo as int]);
            }
        }
        Err(lo)
    }

    /// Puts `item` at index `pos`, moving the terms from there on up by one.
    pub fn insert_at(&mut self, pos: usize, item: SupportedTerm)
        requires
            pos <= old(self)@.len(),
        ensures
            final(self)@ == old(self)@.insert(pos as int, item@),
    {
        self.data.insert(pos, item);
        assert(terms_view(self.data@) =~= terms_view(old(self).data@).insert(pos as int, item@));
    }

    /// Takes out the term at index `pos`, moving the terms after it down by one.
    pub fn remove_at(&mut self, pos: usize) -> (item: SupportedTerm)
        requires
            pos < old(self)@.len(),
        ensures
            item@ == old(self)@[pos as int],
            final(self)@ == old(self)@.remove(pos as int),
    {
        let item = self.data.remove(pos);
        assert(terms_view(self.data@) =~= terms_view(old(self).data@).remove(pos as int));
        item
    }

    /// Cuts the bucket in two halves: the bucket keeps the first half of its
    /// terms, and the rest is returned as a new bucket.
    pub fn split(&mut self) -> (rest: Bucket)
        ensures
            final(self)@ == old(self)@.take(old(self)@.len() as int / 2),
            rest@ == old(self)@.skip(old(self)@.len() as int / 2),
    {
        let half = self.data.len() / 2;
        let rest = self.data.split_off(half);
        assert(terms_view(self.data@) =~= terms_view(old(self).data@).take(half as int));
        assert(terms_view(rest@) =~= terms_view(old(self).data@).skip(half as int));
        Bucket { data: rest }
    }
}

} // verus!
