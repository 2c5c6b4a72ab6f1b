use sorted_set::configuration::Configuration;
use sorted_set::sorted_set::SortedSet;
use sorted_set::supported_term::SupportedTerm;
use sorted_set::{AddResult, AppendBucketResult, FindResult, RemoveResult};

fn num(i: i64) -> SupportedTerm {
    SupportedTerm::Integer(i)
}

fn ints(values: &[i64]) -> Vec<SupportedTerm> {
    values.iter().map(|i| SupportedTerm::Integer(*i)).collect()
}

fn set_of(max_bucket_size: usize, values: &[i64]) -> SortedSet {
    let mut set = SortedSet::empty(Configuration::new(0, max_bucket_size));
    for value in values {
        set.add(num(*value));
    }
    set
}

#[test]
fn empty_set_has_no_terms_and_no_buckets() {
    let set = SortedSet::empty(Configuration::new(100, 10));
    assert_eq!(set.size(), 0);
    assert_eq!(set.to_list(), Vec::<SupportedTerm>::new());
    assert_eq!(set.bucket_sizes(), Vec::<usize>::new());
}

#[test]
fn new_set_has_no_terms_and_no_buckets() {
    let set = SortedSet::new(Configuration::new(100, 10));
    assert_eq!(set.size(), 0);
    assert_eq!(set.to_list(), Vec::<SupportedTerm>::new());
    assert_eq!(set.bucket_sizes(), Vec::<usize>::new());
}

#[test]
fn new_set_with_huge_capacity_hint_is_still_made() {
    let set = SortedSet::new(Configuration {
        max_bucket_size: 1,
        initial_set_capacity: usize::MAX,
    });
    assert_eq!(set.size(), 0);
}

#[test]
fn first_add_makes_a_singleton_bucket() {
    let mut set = SortedSet::empty(Configuration::new(0, 4));
    assert_eq!(set.add(num(7)), AddResult::Added(0));
    assert_eq!(set.bucket_sizes(), vec![1]);
    assert_eq!(set.to_list(), ints(&[7]));
}

#[test]
fn adds_in_any_order_come_out_ascending() {
    let set = set_of(3, &[9, 1, 8, 2, 7, 3, 6, 4, 5, 0]);
    assert_eq!(set.to_list(), ints(&[0, 1, 2, 3, 4, 5, 6, 7, 8, 9]));
    assert_eq!(set.size(), 10);
}

#[test]
fn add_reports_the_index_of_the_new_term() {
    let mut set = SortedSet::empty(Configuration::new(0, 4));
    assert_eq!(set.add(num(10)), AddResult::Added(0));
    assert_eq!(set.add(num(30)), AddResult::Added(1));
    assert_eq!(set.add(num(20)), AddResult::Added(1));
    assert_eq!(set.add(num(5)), AddResult::Added(0));
    assert_eq!(set.add(num(40)), AddResult::Added(4));
    assert_eq!(set.add(num(25)), AddResult::Added(3));
    assert_eq!(set.to_list(), ints(&[5, 10, 20, 25, 30, 40]));
}

#[test]
fn add_twice_reports_duplicate_with_the_same_index() {
    let mut set = set_of(4, &[1, 3, 5, 7, 9, 11]);
    assert_eq!(set.add(num(6)), AddResult::Added(3));
    let size = set.size();
    let sizes = set.bucket_sizes();
    assert_eq!(set.add(num(6)), AddResult::Duplicate(3));
    assert_eq!(set.size(), size);
    assert_eq!(set.bucket_sizes(), sizes);
    assert_eq!(set.to_list(), ints(&[1, 3, 5, 6, 7, 9, 11]));
}

#[test]
fn add_then_remove_restores_the_set() {
    let mut set = set_of(3, &[2, 4, 6, 8, 10, 12, 14]);
    let before = set.to_list();
    let size = set.size();
    let added = set.add(num(9));
    assert_eq!(added, AddResult::Added(4));
    assert_eq!(set.remove(&num(9)), RemoveResult::Removed(4));
    assert_eq!(set.size(), size);
    assert_eq!(set.to_list(), before);
}

#[test]
fn remove_after_duplicate_add_reports_the_same_index() {
    let mut set = set_of(3, &[2, 4, 6]);
    assert_eq!(set.add(num(4)), AddResult::Duplicate(1));
    assert_eq!(set.remove(&num(4)), RemoveResult::Removed(1));
    assert_eq!(set.to_list(), ints(&[2, 6]));
}

#[test]
fn remove_of_an_absent_term_reports_not_found() {
    let mut set = set_of(3, &[2, 4, 6]);
    assert_eq!(set.remove(&num(5)), RemoveResult::NotFound);
    assert_eq!(set.to_list(), ints(&[2, 4, 6]));
    assert_eq!(set.size(), 3);
}

#[test]
fn remove_from_an_empty_set_reports_not_found() {
    let mut set = SortedSet::empty(Configuration::new(0, 3));
    assert_eq!(set.remove(&num(5)), RemoveResult::NotFound);
    assert_eq!(set.size(), 0);
}

#[test]
fn remove_keeps_a_bucket_that_it_empties() {
    let mut set = SortedSet::empty(Configuration::new(0, 2));
    assert_eq!(set.append_bucket(ints(&[1, 2])), AppendBucketResult::Appended);
    assert_eq!(set.append_bucket(ints(&[5])), AppendBucketResult::Appended);
    assert_eq!(set.append_bucket(ints(&[8, 9])), AppendBucketResult::Appended);
    assert_eq!(set.remove(&num(5)), RemoveResult::Removed(2));
    assert_eq!(set.bucket_sizes(), vec![2, 0, 2]);
    assert_eq!(set.to_list(), ints(&[1, 2, 8, 9]));
}

#[test]
fn search_passes_over_buckets_without_terms() {
    let mut set = SortedSet::empty(Configuration::new(0, 2));
    for bucket in [[1, 2], [3, 4], [5, 6], [7, 8], [9, 10]] {
        assert_eq!(set.append_bucket(ints(&bucket)), AppendBucketResult::Appended);
    }
    for value in [3, 4, 5, 6, 7, 8] {
        assert!(matches!(set.remove(&num(value)), RemoveResult::Removed(2)));
    }
    assert_eq!(set.bucket_sizes(), vec![2, 0, 0, 0, 2]);
    assert_eq!(set.find_index(&num(5)), FindResult::NotFound);
    assert_eq!(
        set.find_index(&num(9)),
        FindResult::Found { bucket_idx: 4, inner_idx: 0, idx: 2 }
    );
    assert_eq!(
        set.find_index(&num(2)),
        FindResult::Found { bucket_idx: 0, inner_idx: 1, idx: 1 }
    );
    assert_eq!(set.add(num(11)), AddResult::Added(4));
    assert_eq!(set.add(num(0)), AddResult::Added(0));
    assert_eq!(set.add(num(5)), AddResult::Added(3));
    assert_eq!(set.add(num(6)), AddResult::Added(4));
    assert_eq!(set.to_list(), ints(&[0, 1, 2, 5, 6, 9, 10, 11]));
    assert_eq!(set.size(), 8);
}

#[test]
fn all_buckets_empty_then_add() {
    let mut set = set_of(2, &[1, 2, 3, 4, 5]);
    for value in [1, 2, 3, 4, 5] {
        assert_eq!(set.remove(&num(value)), RemoveResult::Removed(0));
    }
    assert_eq!(set.size(), 0);
    assert!(set.bucket_sizes().iter().all(|n| *n == 0));
    assert_eq!(set.find_index(&num(3)), FindResult::NotFound);
    assert_eq!(set.add(num(3)), AddResult::Added(0));
    assert_eq!(set.add(num(1)), AddResult::Added(0));
    assert_eq!(set.add(num(2)), AddResult::Added(1));
    assert_eq!(set.to_list(), ints(&[1, 2, 3]));
}

#[test]
fn find_index_after_add_gives_the_place_in_the_list() {
    let mut set = set_of(3, &[50, 10, 40, 20, 30, 70, 60]);
    set.add(num(35));
    let list = set.to_list();
    match set.find_index(&num(35)) {
        FindResult::Found { idx, .. } => {
            assert_eq!(idx, 3);
            assert_eq!(list[idx], num(35));
        }
        FindResult::NotFound => panic!("the term was added"),
    }
}

#[test]
fn find_index_reports_bucket_and_place_in_it() {
    let mut set = SortedSet::empty(Configuration::new(0, 3));
    assert_eq!(set.append_bucket(ints(&[1, 2, 3])), AppendBucketResult::Appended);
    assert_eq!(set.append_bucket(ints(&[4, 5])), AppendBucketResult::Appended);
    assert_eq!(set.append_bucket(ints(&[6, 7, 8])), AppendBucketResult::Appended);
    assert_eq!(
        set.find_index(&num(5)),
        FindResult::Found { bucket_idx: 1, inner_idx: 1, idx: 4 }
    );
    assert_eq!(
        set.find_index(&num(6)),
        FindResult::Found { bucket_idx: 2, inner_idx: 0, idx: 5 }
    );
    assert_eq!(
        set.find_index(&num(1)),
        FindResult::Found { bucket_idx: 0, inner_idx: 0, idx: 0 }
    );
    assert_eq!(set.find_index(&num(9)), FindResult::NotFound);
    assert_eq!(set.find_index(&num(0)), FindResult::NotFound);
}

#[test]
fn find_index_in_an_empty_set_reports_not_found() {
    let set = SortedSet::empty(Configuration::new(0, 3));
    assert_eq!(set.find_index(&num(1)), FindResult::NotFound);
}

#[test]
fn at_agrees_with_the_list_and_ends_where_it_ends() {
    let set = set_of(3, &[5, 3, 8, 1, 9, 2, 7]);
    let list = set.to_list();
    assert_eq!(list.len(), set.size());
    for i in 0..set.size() {
        assert_eq!(set.at(i), Some(&list[i]));
    }
    assert_eq!(set.at(set.size()), None);
    assert_eq!(set.at(usize::MAX), None);
}

#[test]
fn at_on_an_empty_set_is_none() {
    let set = SortedSet::empty(Configuration::new(0, 3));
    assert_eq!(set.at(0), None);
}

#[test]
fn slice_is_the_window_of_the_list() {
    let set = set_of(3, &[10, 20, 30, 40, 50, 60, 70, 80]);
    assert_eq!(set.slice(0, 3), ints(&[10, 20, 30]));
    assert_eq!(set.slice(2, 4), ints(&[30, 40, 50, 60]));
    assert_eq!(set.slice(5, 3), ints(&[60, 70, 80]));
    assert_eq!(set.slice(0, 8), set.to_list());
    assert_eq!(set.slice(3, 0), Vec::<SupportedTerm>::new());
}

#[test]
fn slice_is_cut_off_at_the_end_of_the_set() {
    let set = set_of(3, &[10, 20, 30, 40, 50]);
    assert_eq!(set.slice(3, 10), ints(&[40, 50]));
    assert_eq!(set.slice(4, usize::MAX), ints(&[50]));
    assert_eq!(set.slice(0, usize::MAX), set.to_list());
}

#[test]
fn slice_from_the_end_or_beyond_is_empty() {
    let set = set_of(3, &[10, 20, 30, 40, 50]);
    assert_eq!(set.slice(set.size(), 1), Vec::<SupportedTerm>::new());
    assert_eq!(set.slice(set.size(), usize::MAX), Vec::<SupportedTerm>::new());
    assert_eq!(set.slice(100, 5), Vec::<SupportedTerm>::new());
    assert_eq!(set.slice(usize::MAX, usize::MAX), Vec::<SupportedTerm>::new());
}

#[test]
fn slice_crosses_buckets_without_terms() {
    let mut set = SortedSet::empty(Configuration::new(0, 2));
    for bucket in [[1, 2], [3, 4], [5, 6]] {
        assert_eq!(set.append_bucket(ints(&bucket)), AppendBucketResult::Appended);
    }
    set.remove(&num(3));
    set.remove(&num(4));
    assert_eq!(set.slice(1, 2), ints(&[2, 5]));
    assert_eq!(set.at(2), Some(&num(5)));
}

#[test]
fn ascending_adds_split_buckets() {
    let m = 4;
    let k = 5;
    let mut set = SortedSet::empty(Configuration::new(0, m));
    for value in 0..(m * k + 1) {
        assert_eq!(set.add(num(value as i64)), AddResult::Added(value));
    }
    let sizes = set.bucket_sizes();
    assert!(sizes.len() > k);
    assert!(sizes.iter().all(|n| *n <= m));
    assert_eq!(sizes.iter().sum::<usize>(), m * k + 1);
    assert_eq!(set.size(), m * k + 1);
    let expected: Vec<SupportedTerm> = (0..(m * k + 1)).map(|i| num(i as i64)).collect();
    assert_eq!(set.to_list(), expected);
}

#[test]
fn a_bucket_is_cut_in_halves_when_it_grows_past_the_bound() {
    let mut set = SortedSet::empty(Configuration::new(0, 4));
    for value in [1, 2, 3, 4] {
        set.add(num(value));
    }
    assert_eq!(set.bucket_sizes(), vec![4]);
    set.add(num(5));
    assert_eq!(set.bucket_sizes(), vec![2, 3]);
    assert_eq!(set.to_list(), ints(&[1, 2, 3, 4, 5]));
    assert_eq!(
        set.find_index(&num(3)),
        FindResult::Found { bucket_idx: 1, inner_idx: 0, idx: 2 }
    );
}

#[test]
fn buckets_of_one_term_each() {
    let mut set = SortedSet::empty(Configuration::new(0, 1));
    for value in [3, 1, 2] {
        set.add(num(value));
    }
    assert_eq!(set.bucket_sizes(), vec![1, 1, 1]);
    assert_eq!(set.to_list(), ints(&[1, 2, 3]));
}

#[test]
fn append_bucket_of_exactly_the_bound_succeeds() {
    let mut set = SortedSet::empty(Configuration::new(0, 4));
    assert_eq!(set.append_bucket(ints(&[1, 2, 3, 4])), AppendBucketResult::Appended);
    assert_eq!(set.size(), 4);
    assert_eq!(set.bucket_sizes(), vec![4]);
    assert_eq!(set.to_list(), ints(&[1, 2, 3, 4]));
}

#[test]
fn append_bucket_over_the_bound_fails_and_changes_nothing() {
    let mut set = SortedSet::empty(Configuration::new(0, 4));
    assert_eq!(set.append_bucket(ints(&[1, 2])), AppendBucketResult::Appended);
    assert_eq!(
        set.append_bucket(ints(&[3, 4, 5, 6, 7])),
        AppendBucketResult::MaxBucketSizeExceeded
    );
    assert_eq!(set.size(), 2);
    assert_eq!(set.bucket_sizes(), vec![2]);
    assert_eq!(set.to_list(), ints(&[1, 2]));
}

#[test]
fn append_bucket_that_is_not_ascending_is_refused() {
    let mut set = SortedSet::empty(Configuration::new(0, 4));
    assert_eq!(set.append_bucket(ints(&[1, 3, 2])), AppendBucketResult::OutOfOrder);
    assert_eq!(set.append_bucket(ints(&[1, 1])), AppendBucketResult::OutOfOrder);
    assert_eq!(set.size(), 0);
    assert_eq!(set.bucket_sizes(), Vec::<usize>::new());
}

#[test]
fn append_bucket_that_does_not_come_after_the_set_is_refused() {
    let mut set = SortedSet::empty(Configuration::new(0, 4));
    assert_eq!(set.append_bucket(ints(&[10, 20])), AppendBucketResult::Appended);
    assert_eq!(set.append_bucket(ints(&[15, 30])), AppendBucketResult::OutOfOrder);
    assert_eq!(set.append_bucket(ints(&[20, 30])), AppendBucketResult::OutOfOrder);
    assert_eq!(set.append_bucket(ints(&[5])), AppendBucketResult::OutOfOrder);
    assert_eq!(set.to_list(), ints(&[10, 20]));
    assert_eq!(set.append_bucket(ints(&[21, 30])), AppendBucketResult::Appended);
    assert_eq!(set.to_list(), ints(&[10, 20, 21, 30]));
}

#[test]
fn append_bucket_too_long_and_out_of_order_reports_the_length() {
    let mut set = SortedSet::empty(Configuration::new(0, 2));
    assert_eq!(
        set.append_bucket(ints(&[3, 2, 1])),
        AppendBucketResult::MaxBucketSizeExceeded
    );
}

#[test]
fn append_bucket_without_terms_adds_a_bucket() {
    let mut set = SortedSet::empty(Configuration::new(0, 2));
    assert_eq!(set.append_bucket(ints(&[1])), AppendBucketResult::Appended);
    assert_eq!(set.append_bucket(Vec::new()), AppendBucketResult::Appended);
    assert_eq!(set.bucket_sizes(), vec![1, 0]);
    assert_eq!(set.size(), 1);
    assert_eq!(set.append_bucket(ints(&[2])), AppendBucketResult::Appended);
    assert_eq!(set.to_list(), ints(&[1, 2]));
}

#[test]
fn append_bucket_comes_after_a_set_that_ends_in_an_empty_bucket() {
    let mut set = SortedSet::empty(Configuration::new(0, 2));
    assert_eq!(set.append_bucket(ints(&[1, 2])), AppendBucketResult::Appended);
    assert_eq!(set.append_bucket(ints(&[3])), AppendBucketResult::Appended);
    set.remove(&num(3));
    assert_eq!(set.append_bucket(ints(&[2, 4])), AppendBucketResult::OutOfOrder);
    assert_eq!(set.append_bucket(ints(&[3, 4])), AppendBucketResult::Appended);
    assert_eq!(set.to_list(), ints(&[1, 2, 3, 4]));
}

#[test]
fn add_after_append_bucket_finds_its_place() {
    let mut set = SortedSet::empty(Configuration::new(0, 3));
    assert_eq!(set.append_bucket(ints(&[10, 20, 30])), AppendBucketResult::Appended);
    assert_eq!(set.append_bucket(ints(&[40, 50, 60])), AppendBucketResult::Appended);
    assert_eq!(set.add(num(35)), AddResult::Added(3));
    assert_eq!(set.add(num(5)), AddResult::Added(0));
    assert_eq!(set.add(num(65)), AddResult::Added(8));
    assert_eq!(set.to_list(), ints(&[5, 10, 20, 30, 35, 40, 50, 60, 65]));
    assert!(set.bucket_sizes().iter().all(|n| *n <= 3));
}

#[test]
fn scenario_six_adds_with_buckets_of_four() {
    let mut set = SortedSet::empty(Configuration::new(0, 4));
    for value in [1, 5, 3, 2, 4, 6] {
        set.add(num(value));
    }
    assert_eq!(set.to_list(), ints(&[1, 2, 3, 4, 5, 6]));
    assert_eq!(set.size(), 6);
    match set.find_index(&num(3)) {
        FindResult::Found { idx, .. } => assert_eq!(idx, 2),
        FindResult::NotFound => panic!("3 is in the set"),
    }
    assert_eq!(set.remove(&num(5)), RemoveResult::Removed(4));
    assert_eq!(set.to_list(), ints(&[1, 2, 3, 4, 6]));
}

#[test]
fn scenario_append_then_too_long_append() {
    let mut set = SortedSet::empty(Configuration::new(0, 3));
    assert_eq!(set.append_bucket(ints(&[10, 11, 12])), AppendBucketResult::Appended);
    assert_eq!(
        set.append_bucket(ints(&[13, 14, 15, 16])),
        AppendBucketResult::MaxBucketSizeExceeded
    );
    assert_eq!(set.to_list(), ints(&[10, 11, 12]));
    assert_eq!(set.size(), 3);
    assert_eq!(set.bucket_sizes(), vec![3]);
}

#[test]
fn scenario_one_term_of_each_kind() {
    let mut set = SortedSet::empty(Configuration::new(0, 2));
    set.add(SupportedTerm::Bitstring(vec![1, 2, 3]));
    set.add(SupportedTerm::List(vec![num(1)]));
    set.add(SupportedTerm::Atom(String::from("name")));
    set.add(SupportedTerm::Tuple(vec![num(1), num(2)]));
    set.add(num(1_000_000));
    assert_eq!(
        set.to_list(),
        vec![
            num(1_000_000),
            SupportedTerm::Atom(String::from("name")),
            SupportedTerm::Tuple(vec![num(1), num(2)]),
            SupportedTerm::List(vec![num(1)]),
            SupportedTerm::Bitstring(vec![1, 2, 3]),
        ]
    );
}

#[test]
fn terms_of_each_kind_group_by_kind_and_ascend_within() {
    let mut set = SortedSet::empty(Configuration::new(0, 3));
    let terms = vec![
        SupportedTerm::Bitstring(vec![2]),
        SupportedTerm::List(vec![num(2)]),
        SupportedTerm::Atom(String::from("b")),
        SupportedTerm::Tuple(vec![num(2)]),
        num(2),
        SupportedTerm::Bitstring(vec![1]),
        SupportedTerm::List(vec![num(1)]),
        SupportedTerm::Atom(String::from("a")),
        SupportedTerm::Tuple(vec![num(1)]),
        num(1),
    ];
    for term in terms {
        set.add(term);
    }
    assert_eq!(
        set.to_list(),
        vec![
            num(1),
            num(2),
            SupportedTerm::Atom(String::from("a")),
            SupportedTerm::Atom(String::from("b")),
            SupportedTerm::Tuple(vec![num(1)]),
            SupportedTerm::Tuple(vec![num(2)]),
            SupportedTerm::List(vec![num(1)]),
            SupportedTerm::List(vec![num(2)]),
            SupportedTerm::Bitstring(vec![1]),
            SupportedTerm::Bitstring(vec![2]),
        ]
    );
}

#[test]
fn debug_reports_bound_count_and_bucket_sizes() {
    let mut set = SortedSet::empty(Configuration::new(0, 4));
    assert_eq!(
        set.debug(),
        "SortedSet { max_bucket_size: 4, size: 0, buckets: [] }"
    );
    for value in 1..=12 {
        set.add(num(value));
    }
    assert_eq!(
        set.debug(),
        "SortedSet { max_bucket_size: 4, size: 12, buckets: [2, 2, 2, 2, 4] }"
    );
}

#[test]
fn debug_writes_numbers_of_many_digits() {
    let set = SortedSet::empty(Configuration {
        max_bucket_size: 1234567890,
        initial_set_capacity: 1,
    });
    assert_eq!(
        set.debug(),
        "SortedSet { max_bucket_size: 1234567890, size: 0, buckets: [] }"
    );
}
