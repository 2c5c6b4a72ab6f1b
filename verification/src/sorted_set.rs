//! The set: an ordered list of buckets that together hold the terms in
//! strictly ascending order.

use crate::bucket::Bucket;
use crate::configuration::Configuration;
use crate::layout::{
    inserted_in_bucket, lemma_bucket_decides, lemma_flatten_around, lemma_flatten_index,
    lemma_absent_from_buckets, lemma_inserted_in_bucket, lemma_offset_across_empty,
    lemma_offset_monotone, lemma_offset_total, lemma_removed_from_bucket, offset,
    removed_from_buckets,
};
use crate::report::{report_text, write_report};
use crate::sorted::{
    add_result, after_add, after_remove, append_result, lemma_ascending_above,
    lemma_ascending_below, lemma_ascending_no_duplicates, lemma_concat_ascending,
    lemma_contains_at_position, lemma_insert_at_position, lemma_precedes_total, lemma_remove_at,
    position, remove_result, strictly_ascending, window,
};
use crate::supported_term::{precedes, terms_view, Comparison, SupportedTerm, Term};
use crate::{AddResult, AppendBucketResult, FindResult, RemoveResult};
use vstd::prelude::*;

verus! {

/// A set of terms, held in buckets of bounded size.
#[derive(Debug)]
pub struct SortedSet {
    configuration: Configuration,
    buckets: Vec<Bucket>,
    size: usize,
}

impl View for SortedSet {
    type V = Seq<Term>;

    /// The contents: the terms of all buckets, joined in the order of the buckets.
    open spec fn view(&self) -> Seq<Term> {
        self.bucket_views().flatten()
    }
}

impl SortedSet {
    /// The terms of each bucket, in the order of the buckets.
    pub closed spec fn bucket_views(&self) -> Seq<Seq<Term>> {
        Seq::new(self.buckets@.len(), |b: int| self.buckets@[b]@)
    }

    /// The configuration that the set was made with.
    pub closed spec fn configuration(&self) -> Configuration {
        self.configuration
    }

    /// The number of terms that the set has counted.
    pub closed spec fn counted(&self) -> nat {
        self.size as nat
    }

    /// The most terms that a bucket of this set may hold.
    pub open spec fn max_bucket_size(&self) -> nat {
        self.configuration().max_bucket_size as nat
    }

    /// What holds of a set between operations: a bucket may hold at least one
    /// term and no bucket holds more than it may; the contents are strictly
    /// ascending, so within each bucket and from each bucket to the next;
    /// and the count of terms is the length of the contents.
    pub open spec fn wf(&self) -> bool {
        &&& self.max_bucket_size() >= 1
        &&& forall|b: int|
            0 <= b < self.bucket_views().len() ==> (#[trigger] self.bucket_views()[b]).len()
                <= self.max_bucket_size()
        &&& strictly_ascending(self@)
        &&& self.counted() == self@.len()
    }

    /// A set without terms and without buckets.
    pub fn empty(configuration: Configuration) -> (set: SortedSet)
        requires
            configuration.max_bucket_size > 0,
        ensures
            set.wf(),
            set.configuration() == configuration,
            set.bucket_views() == Seq::<Seq<Term>>::empty(),
            set@ == Seq::<Term>::empty(),
    {
        let set = SortedSet { configuration, buckets: Vec::new(), size: 0 };
        assert(set.bucket_views() =~= Seq::<Seq<Term>>::empty());
        set
    }

    /// A set without terms and without buckets, with room reserved for
    /// `configuration.initial_set_capacity` buckets where that much can be had.
    pub fn new(configuration: Configuration) -> (set: SortedSet)
        requires
            configuration.max_bucket_size > 0,
        ensures
            set.wf(),
            set.configuration() == configuration,
            set.bucket_views() == Seq::<Seq<Term>>::empty(),
            set@ == Seq::<Term>::empty(),
    {
        let mut buckets: Vec<Bucket> = Vec::new();
        let _ = buckets.try_reserve(configuration.initial_set_capacity);
        let set = SortedSet { configuration, buckets, size: 0 };
        assert(set.bucket_views() =~= Seq::<Seq<Term>>::empty());
        set
    }

    /// The number of terms in the set.
    pub fn size(&self) -> (n: usize)
        requires
            self.wf(),
        ensures
            n == self@.len(),
    {
        self.size
    }

    /// The global index of index `k` of bucket `b`.
    fn effective_index(&self, b: usize, k: usize) -> (idx: usize)
        requires
            self.wf(),
            b < self.bucket_views().len(),
            k <= self.bucket_views()[b as int].len(),
        ensures
            idx == offset(self.bucket_views(), b as int) + k,
            idx <= self@.len(),
    {
        let mut idx: usize = 0;
        let mut i: usize = 0;
        proof {
            lemma_offset_total(self.bucket_views());
            lemma_offset_monotone(self.bucket_views(), b + 1, self.bucket_views().len() as int);
        }
        while i < b
            invariant
                i <= b < self.buckets@.len(),
                self.buckets@.len() == self.bucket_views().len(),
                idx == offset(self.bucket_views(), i as int),
                offset(self.bucket_views(), b + 1) <= usize::MAX,
            decreases b - i,
        {
            proof {
                lemma_offset_monotone(self.bucket_views(), i + 1, b + 1);
            }
            idx += self.buckets[i].len();
            i += 1;
        }
        idx + k
    }

    /// The bucket that holds global index `index`, and the index within it.
    fn bucket_of(&self, index: usize) -> (place: (usize, usize))
        requires
            self.wf(),
            index < self@.len(),
        ensures
            place.0 < self.bucket_views().len(),
            place.1 < self.bucket_views()[place.0 as int].len(),
            offset(self.bucket_views(), place.0 as int) + place.1 == index,
    {
        let count = self.buckets.len();
        let mut b: usize = 0;
        let mut remaining: usize = index;
        proof {
            lemma_offset_total(self.bucket_views());
        }
        loop
            invariant
                b < count == self.buckets@.len(),
                self.buckets@.len() == self.bucket_views().len(),
                offset(self.bucket_views(), b as int) + remaining == index,
                index < offset(self.bucket_views(), self.bucket_views().len() as int),
            decreases self.buckets@.len() - b,
        {
            let n = self.buckets[b].len();
            if remaining < n {
                return (b, remaining);
            }
            proof {
                assert(offset(self.bucket_views(), b + 1) == offset(self.bucket_views(), b as int)
                    + n);
            }
            remaining -= n;
            b += 1;
        }
    }

    /// The term at global index `index`, if the set holds that many terms.
    pub fn at(&self, index: usize) -> (term: Option<&SupportedTerm>)
        requires
            self.wf(),
        ensures
            index < self@.len() ==> term is Some && term->0@ == self@[index as int],
            index >= self@.len() ==> term is None,
    {
        if index >= self.size {
            None
        } else {
            let (b, k) = self.bucket_of(index);
            proof {
                lemma_flatten_index(self.bucket_views(), b as int, k as int);
            }
            Some(self.buckets[b].get(k))
        }
    }

    /// Up to `amount` consecutive terms, from global index `start` on: fewer
    /// where the set ends before that, and none where `start` is not an
    /// index of the set.
    pub fn slice(&self, start: usize, amount: usize) -> (terms: Vec<SupportedTerm>)
        requires
            self.wf(),
        ensures
            terms_view(terms@) == window(self@, start as nat, amount as nat),
    {
        let mut terms: Vec<SupportedTerm> = Vec::new();
        if start >= self.size || amount == 0 {
            assert(terms_view(terms@) =~= window(self@, start as nat, amount as nat));
            return terms;
        }
        let end = if amount >= self.size - start {
            self.size
        } else {
            start + amount
        };
        let count = self.buckets.len();
        let (mut b, mut k) = self.bucket_of(start);
        let mut g: usize = start;
        proof {
            lemma_offset_total(self.bucket_views());
        }
        while g < end
            invariant
                self.wf(),
                start <= g <= end <= self@.len(),
                b < count == self.buckets@.len(),
                self.buckets@.len() == self.bucket_views().len(),
                k <= self.bucket_views()[b as int].len(),
                offset(self.bucket_views(), b as int) + k == g,
                offset(self.bucket_views(), self.bucket_views().len() as int) == self@.len(),
                terms_view(terms@) =~= self@.subrange(start as int, g as int),
            decreases end - g, self.buckets@.len() - b,
        {
            if k < self.buckets[b].len() {
                proof {
                    lemma_flatten_index(self.bucket_views(), b as int, k as int);
                }
                let term = self.buckets[b].get(k).clone();
                proof {
                    assert(term@ == self@[g as int]);
                    assert(terms_view(terms@.push(term)) =~= terms_view(terms@).push(term@));
                    assert(self@.subrange(start as int, g + 1) =~= self@.subrange(
                        start as int,
                        g as int,
                    ).push(self@[g as int]));
                }
                terms.push(term);
                k += 1;
                g += 1;
            } else {
                proof {
                    assert(offset(self.bucket_views(), b + 1) == offset(
                        self.bucket_views(),
                        b as int,
                    ) + k);
                }
                b += 1;
                k = 0;
            }
        }
        assert(terms_view(terms@) =~= window(self@, start as nat, amount as nat));
        terms
    }

    /// All terms of the set, in ascending order.
    pub fn to_list(&self) -> (terms: Vec<SupportedTerm>)
        requires
            self.wf(),
        ensures
            terms_view(terms@) == self@,
            strictly_ascending(terms_view(terms@)),
    {
        let terms = self.slice(0, self.size);
        assert(terms_view(terms@) =~= self@);
        terms
    }

    /// The index of a bucket around which `item` splits the contents: all
    /// terms in earlier buckets come before `item`, and all terms in later
    /// buckets come after it.
    fn find_bucket_index(&self, item: &SupportedTerm) -> (b: usize)
        requires
            self.wf(),
            self.bucket_views().len() > 0,
        ensures
            b < self.bucket_views().len(),
            forall|g: int|
                0 <= g < offset(self.bucket_views(), b as int) ==> precedes(
                    #[trigger] self@[g],
                    item@,
                ),
            forall|g: int|
                offset(self.bucket_views(), b + 1) <= g < self@.len() ==> precedes(
                    item@,
                    #[trigger] self@[g],
                ),
    {
        let count = self.buckets.len();
        let mut lo: usize = 0;
        let mut hi: usize = count;
        proof {
            lemma_offset_total(self.bucket_views());
        }
        while lo < hi
            invariant
                self.wf(),
                lo <= hi <= count == self.buckets@.len(),
                count == self.bucket_views().len(),
                offset(self.bucket_views(), count as int) == self@.len(),
                forall|g: int|
                    0 <= g < offset(self.bucket_views(), lo as int) ==> precedes(
                        #[trigger] self@[g],
                        item@,
                    ),
                forall|g: int|
                    offset(self.bucket_views(), hi as int) <= g < self@.len() ==> precedes(
                        item@,
                        #[trigger] self@[g],
                    ),
            decreases hi - lo,
        {
            let mid = lo + (hi - lo) / 2;
            let mut probe: usize = mid;
            while probe < hi && self.buckets[probe].len() == 0
                invariant
                    mid <= probe <= hi <= count == self.buckets@.len(),
                    count == self.bucket_views().len(),
                    forall|j: int| mid <= j < probe ==> (#[trigger] self.bucket_views()[j]).len() == 0,
                decreases hi - probe,
            {
                probe += 1;
            }
            proof {
                lemma_offset_across_empty(self.bucket_views(), mid as int, probe as int);
            }
            if probe == hi {
                hi = mid;
            } else {
                let bucket = &self.buckets[probe];
                let last = bucket.len() - 1;
                proof {
                    lemma_flatten_around(self.bucket_views(), probe as int);
                    lemma_flatten_index(self.bucket_views(), probe as int, 0);
                    lemma_flatten_index(self.bucket_views(), probe as int, last as int);
                    lemma_offset_monotone(self.bucket_views(), lo as int, probe as int);
                    lemma_offset_monotone(self.bucket_views(), probe + 1, hi as int);
                }
                let ghost start = offset(self.bucket_views(), probe as int) as int;
                if item.compare(bucket.get(0)) == Comparison::Less {
                    proof {
                        lemma_precedes_total(item@, self@[start]);
                        lemma_ascending_above(self@, start, item@);
                    }
                    hi = mid;
                } else if bucket.get(last).compare(item) == Comparison::Less {
                    proof {
                        lemma_precedes_total(item@, self@[start + last]);
                        lemma_ascending_below(self@, start + last, item@);
                    }
                    lo = probe + 1;
                } else {
                    proof {
                        lemma_ascending_below(self@, start, item@);
                        lemma_ascending_above(self@, start + last, item@);
                    }
                    return probe;
                }
            }
        }
        proof {
            if lo == count {
                lemma_offset_monotone(self.bucket_views(), count - 1, lo as int);
            } else {
                lemma_offset_monotone(self.bucket_views(), lo as int, lo + 1);
            }
        }
        if lo < count {
            lo
        } else {
            count - 1
        }
    }

    /// Looks `item` up.
    pub fn find_index(&self, item: &SupportedTerm) -> (found: FindResult)
        requires
            self.wf(),
        ensures
            match found {
                FindResult::Found { bucket_idx, inner_idx, idx } => {
                    &&& self@.contains(item@)
                    &&& idx == position(self@, item@)
                    &&& bucket_idx < self.bucket_views().len()
                    &&& inner_idx < self.bucket_views()[bucket_idx as int].len()
                    &&& self.bucket_views()[bucket_idx as int][inner_idx as int] == item@
                    &&& idx == offset(self.bucket_views(), bucket_idx as int) + inner_idx
                },
                FindResult::NotFound => !self@.contains(item@),
            },
    {
        if self.buckets.len() == 0 {
            return FindResult::NotFound;
        }
        let bucket_idx = self.find_bucket_index(item);
        proof {
            lemma_bucket_decides(self.bucket_views(), bucket_idx as int, item@);
            lemma_contains_at_position(self.bucket_views()[bucket_idx as int], item@);
        }
        match self.buckets[bucket_idx].locate(item) {
            Ok(inner_idx) => {
                let idx = self.effective_index(bucket_idx, inner_idx);
                FindResult::Found { bucket_idx, inner_idx, idx }
            },
            Err(_) => FindResult::NotFound,
        }
    }

    /// Puts `item` at index `k` of bucket `b`, and replaces the bucket by its
    /// two halves if it then holds more terms than a bucket may.
    fn insert_in_bucket(&mut self, b: usize, k: usize, item: SupportedTerm)
        requires
            b < old(self).bucket_views().len(),
            k <= old(self).bucket_views()[b as int].len(),
            old(self).counted() < usize::MAX,
        ensures
            final(self).configuration() == old(self).configuration(),
            final(self).counted() == old(self).counted() + 1,
            inserted_in_bucket(
                old(self).bucket_views(),
                final(self).bucket_views(),
                b as int,
                k as int,
                item@,
                old(self).max_bucket_size(),
            ),
    {
        let ghost before = self.bucket_views();
        let ghost grown = before[b as int].insert(k as int, item@);
        let ghost half = grown.len() as int / 2;
        let count = self.buckets.len();
        assert(b < count);
        self.buckets[b].insert_at(k, item);
        assert(self.bucket_views() =~= before.update(b as int, grown));
        if self.buckets[b].len() > self.configuration.max_bucket_size {
            let rest = self.buckets[b].split();
            self.buckets.insert(b + 1, rest);
            assert(self.bucket_views() =~= before.take(b as int) + seq![
                grown.take(half),
                grown.skip(half),
            ] + before.skip(b + 1));
        }
        self.size += 1;
    }

    /// Adds `item` unless the set holds it already, and reports the global
    /// index at which it then stands. A bucket that comes to hold more terms
    /// than it may is replaced by its two halves.
    pub fn add(&mut self, item: SupportedTerm) -> (added: AddResult)
        requires
            old(self).wf(),
            old(self)@.len() < usize::MAX,
        ensures
            final(self).wf(),
            final(self).configuration() == old(self).configuration(),
            final(self)@ == after_add(old(self)@, item@),
            added == add_result(old(self)@, item@),
            added is Duplicate ==> final(self).bucket_views() == old(self).bucket_views(),
            added is Added && old(self).bucket_views().len() == 0 ==> final(self).bucket_views()
                == seq![seq![item@]],
            added is Added && old(self).bucket_views().len() > 0 ==> exists|b: int, k: int|
                #[trigger] inserted_in_bucket(
                    old(self).bucket_views(),
                    final(self).bucket_views(),
                    b,
                    k,
                    item@,
                    old(self).max_bucket_size(),
                ),
    {
        let ghost v = item@;
        let ghost before = self.bucket_views();
        if self.buckets.len() == 0 {
            let mut bucket = Bucket::new();
            bucket.insert_at(0, item);
            assert(bucket@ =~= seq![v]);
            self.buckets.push(bucket);
            self.size = 1;
            proof {
                assert(before =~= Seq::<Seq<Term>>::empty());
                assert(self.bucket_views() =~= seq![seq![v]]);
                self.bucket_views().lemma_flatten_one_element();
                assert(self@ =~= seq![v]);
                assert(old(self)@ =~= Seq::<Term>::empty());
                assert(after_add(old(self)@, v) =~= seq![v]);
            }
            return AddResult::Added(0);
        }
        let b = self.find_bucket_index(&item);
        proof {
            lemma_bucket_decides(before, b as int, v);
        }
        match self.buckets[b].locate(&item) {
            Ok(k) => AddResult::Duplicate(self.effective_index(b, k)),
            Err(k) => {
                let idx = self.effective_index(b, k);
                self.insert_in_bucket(b, k, item);
                proof {
                    lemma_inserted_in_bucket(
                        before,
                        self.bucket_views(),
                        b as int,
                        k as int,
                        v,
                        old(self).max_bucket_size(),
                    );
                    lemma_insert_at_position(old(self)@, v);
                }
                AddResult::Added(idx)
            },
        }
    }

    /// Removes `item` if the set holds it, and reports the global index at
    /// which it stood. The bucket that held it stays, even without terms.
    pub fn remove(&mut self, item: &SupportedTerm) -> (removed: RemoveResult)
        requires
            old(self).wf(),
        ensures
            final(self).wf(),
            final(self).configuration() == old(self).configuration(),
            final(self)@ == after_remove(old(self)@, item@),
            removed == remove_result(old(self)@, item@),
            final(self).bucket_views() == removed_from_buckets(old(self).bucket_views(), item@),
    {
        let ghost before = self.bucket_views();
        if self.buckets.len() == 0 {
            proof {
                assert(before =~= Seq::<Seq<Term>>::empty());
                assert(self@ =~= Seq::<Term>::empty());
                lemma_absent_from_buckets(before, item@);
            }
            return RemoveResult::NotFound;
        }
        let b = self.find_bucket_index(item);
        proof {
            lemma_bucket_decides(before, b as int, item@);
            lemma_contains_at_position(before[b as int], item@);
        }
        match self.buckets[b].locate(item) {
            Ok(k) => {
                let idx = self.effective_index(b, k);
                let _ = self.buckets[b].remove_at(k);
                self.size -= 1;
                proof {
                    assert(self.bucket_views() =~= before.update(
                        b as int,
                        before[b as int].remove(k as int),
                    ));
                    lemma_removed_from_bucket(before, b as int, k as int);
                    lemma_remove_at(old(self)@, idx as int);
                }
                RemoveResult::Removed(idx)
            },
            Err(_) => {
                proof {
                    lemma_absent_from_buckets(before, item@);
                }
                RemoveResult::NotFound
            },
        }
    }

    /// The last term of the contents, if there is one.
    fn last(&self) -> (term: Option<&SupportedTerm>)
        requires
            self.wf(),
        ensures
            self@.len() == 0 ==> term is None,
            self@.len() > 0 ==> term is Some && term->0@ == self@.last(),
    {
        if self.size == 0 {
            None
        } else {
            self.at(self.size - 1)
        }
    }

    /// Appends `items` as a new last bucket, without searching a place for
    /// each of them. The bucket is refused, and the set left as it was, where
    /// it holds more terms than a bucket may, or where the contents would not
    /// be strictly ascending with it.
    pub fn append_bucket(&mut self, items: Vec<SupportedTerm>) -> (appended: AppendBucketResult)
        requires
            old(self).wf(),
            old(self)@.len() + items@.len() <= usize::MAX,
        ensures
            final(self).wf(),
            final(self).configuration() == old(self).configuration(),
            appended == append_result(
                old(self)@,
                terms_view(items@),
                old(self).max_bucket_size(),
            ),
            appended is Appended ==> final(self).bucket_views() == old(self).bucket_views().push(
                terms_view(items@),
            ) && final(self)@ == old(self)@ + terms_view(items@),
            !(appended is Appended) ==> final(self).bucket_views() == old(self).bucket_views(),
    {
        let ghost before = self.bucket_views();
        let bucket = match Bucket::from_items(items, self.configuration.max_bucket_size) {
            Some(bucket) => bucket,
            None => {
                return AppendBucketResult::MaxBucketSizeExceeded;
            },
        };
        proof {
            lemma_concat_ascending(self@, bucket@);
        }
        if !bucket.is_strictly_ascending() {
            return AppendBucketResult::OutOfOrder;
        }
        if bucket.len() > 0 {
            match self.last() {
                Some(last) => {
                    if last.compare(bucket.get(0)) != Comparison::Less {
                        return AppendBucketResult::OutOfOrder;
                    }
                },
                None => {},
            }
        }
        self.size += bucket.len();
        self.buckets.push(bucket);
        proof {
            assert(self.bucket_views() =~= before.push(bucket@));
            before.lemma_flatten_push(bucket@);
        }
        AppendBucketResult::Appended
    }

    /// The number of terms in each bucket, in the order of the buckets.
    pub fn bucket_sizes(&self) -> (sizes: Vec<usize>)
        ensures
            sizes@.map_values(|n: usize| n as nat) == self.bucket_views().map_values(
                |bucket: Seq<Term>| bucket.len(),
            ),
    {
        let mut sizes: Vec<usize> = Vec::with_capacity(self.buckets.len());
        let mut b: usize = 0;
        while b < self.buckets.len()
            invariant
                b <= self.buckets@.len(),
                sizes@.len() == b,
                forall|j: int| 0 <= j < b ==> sizes@[j] == self.buckets@[j]@.len(),
            decreases self.buckets@.len() - b,
        {
            sizes.push(self.buckets[b].len());
            b += 1;
        }
        assert(sizes@.map_values(|n: usize| n as nat) =~= self.bucket_views().map_values(
            |bucket: Seq<Term>| bucket.len(),
        ));
        sizes
    }

    /// A report on the structure of the set, for diagnosis: the most terms
    /// that a bucket may hold, the number of terms, and the number of terms
    /// in each bucket.
    pub fn debug(&self) -> (text: String)
        requires
            self.wf(),
        ensures
            text@ == report_text(
                self.max_bucket_size(),
                self@.len(),
                self.bucket_views().map_values(|bucket: Seq<Term>| bucket.len()),
            ),
    {
        let sizes = self.bucket_sizes();
        write_report(self.configuration.max_bucket_size, self.size, &sizes)
    }

    /// The contents of a set are strictly ascending and hold no term twice.
    pub proof fn lemma_contents_ascending(self)
        requires
            self.wf(),
        ensures
            strictly_ascending(self@),
            self@.no_duplicates(),
    {
        lemma_ascending_no_duplicates(self@);
    }

    /// A set that holds more than `k` times as many terms as a bucket may
    /// hold has more than `k` buckets.
    pub proof fn lemma_bucket_count(self, k: nat)
        requires
            self.wf(),
            self@.len() > self.max_bucket_size() * k,
        ensures
            self.bucket_views().len() > k,
    {
        let buckets = self.bucket_views();
        let max = self.max_bucket_size() as int;
        buckets.lemma_flatten_length_le_mul(max);
        buckets.lemma_flatten_and_flatten_alt_are_equivalent();
        assert(buckets.len() <= k ==> buckets.len() * max <= max * k) by (nonlinear_arith)
            requires
                max >= 0,
        ;
    }
}

} // verus!
