use fast_plaid::ivf::{build_ivf, group_tokens, optimize_ivf};
use fast_plaid::merge::{merge_ivf, partition_pids};
use fast_plaid::order::{intersect_sorted_unique, rank_descending, sort_unique};
use fast_plaid::strided::StridedTensor;

#[test]
fn tokens_are_grouped_by_code() {
    let (tokens, counts) = group_tokens(&vec![2, 0, 2, 1, 0], 4);
    assert_eq!(tokens, vec![1, 4, 3, 0, 2]);
    assert_eq!(counts, vec![2, 1, 2, 0]);
}

#[test]
fn passages_are_listed_once() {
    // Documents of two, one and two tokens; cell 0 holds tokens of documents 0 and 2, twice each.
    let (pids, lengths) = optimize_ivf(&vec![4, 0, 1, 3, 2], &vec![4, 0, 1], &vec![2, 1, 2]);
    assert_eq!(pids, vec![0, 2, 1]);
    assert_eq!(lengths, vec![2, 0, 1]);
}

#[test]
fn built_lists_name_the_documents_with_the_code() {
    let (pids, lengths) = build_ivf(&vec![2, 0, 2, 1, 0], &vec![2, 0, 3], 4);
    assert_eq!(lengths, vec![2, 1, 2, 0]);
    assert_eq!(pids, vec![0, 2, 2, 0, 2]);
}

#[test]
fn documents_behind_the_last_token_are_in_no_list() {
    let (pids, lengths) = build_ivf(&vec![1, 1], &vec![1, 1, 5], 2);
    assert_eq!(lengths, vec![0, 2]);
    assert_eq!(pids, vec![0, 1]);
}

#[test]
fn codes_beyond_the_partitions_make_cells() {
    let (pids, lengths) = build_ivf(&vec![5], &vec![1], 2);
    assert_eq!(lengths, vec![0, 0, 0, 0, 0, 1]);
    assert_eq!(pids, vec![0]);
}

#[test]
fn new_passages_by_cell() {
    let lists = partition_pids(&vec![1, 1, 0, 7, -1, 2], &vec![2, 0, 3, 1], 10, 3);
    assert_eq!(lists, vec![vec![12], vec![10], vec![13]]);
    assert_eq!(partition_pids(&vec![1], &vec![1], 0, -4), Vec::<Vec<i64>>::new());
}

#[test]
fn updating_is_as_good_as_building_anew() {
    let old_codes = vec![0, 1, 1, 2, 0];
    let old_lens = vec![2, 3];
    let new_codes = vec![2, 2, 1, 3];
    let new_lens = vec![1, 0, 3];
    let (ivf, lengths) = build_ivf(&old_codes, &old_lens, 4);
    let old_ivf = StridedTensor::new(ivf, lengths, 1).unwrap();
    let fresh = partition_pids(&new_codes, &new_lens, 2, 4);
    let merged = merge_ivf(&old_ivf, &fresh);
    let mut codes = old_codes.clone();
    codes.extend(&new_codes);
    let mut lens = old_lens.clone();
    lens.extend(&new_lens);
    assert_eq!(merged, build_ivf(&codes, &lens, 4));
}

#[test]
fn merging_into_a_file_with_too_few_cells() {
    // The old file covers two of four cells.
    let old_ivf = StridedTensor::new(vec![0, 1], vec![1, 1], 1).unwrap();
    let (flat, lengths) = merge_ivf(&old_ivf, &vec![vec![9], vec![], vec![], vec![8]]);
    assert_eq!(flat, vec![0, 9, 1, 8]);
    assert_eq!(lengths, vec![2, 1, 0, 1]);
    let (kept, _) = merge_ivf(&old_ivf, &vec![vec![], vec![], vec![], vec![]]);
    assert_eq!(kept, vec![0, 1]);
    let fresh = partition_pids(&vec![3, 0], &vec![1, 1], 2, 4);
    assert_eq!(merge_ivf(&old_ivf, &fresh), build_ivf(&vec![0, 1, 3, 0], &vec![1; 4], 4));
}

#[test]
fn merging_into_a_file_with_too_many_cells() {
    let old_ivf = StridedTensor::new(vec![0, 1, 2], vec![1, 0, 2], 1).unwrap();
    assert_eq!(merge_ivf(&old_ivf, &vec![vec![], vec![7]]), (vec![0, 7], vec![1, 1]));
}

#[test]
fn sorting_and_intersecting() {
    assert_eq!(sort_unique(&vec![3, 1, 3, -2, 1]), vec![-2, 1, 3]);
    assert_eq!(intersect_sorted_unique(&vec![1, 3, 5, 7], &vec![0, 3, 4, 7, 9]), vec![3, 7]);
    assert_eq!(intersect_sorted_unique(&vec![], &vec![1]), Vec::<i64>::new());
}

#[test]
fn ranking_puts_equal_keys_in_their_own_order() {
    assert_eq!(rank_descending(&vec![5, 9, 5, -1, 9]), vec![1, 4, 0, 2, 3]);
}

#[test]
fn strided_lists() {
    let t = StridedTensor::new(vec![1u8, 2, 3, 4, 5, 6], vec![1, 0, 2], 2).unwrap();
    assert_eq!((t.len(), t.width()), (3, 2));
    assert_eq!(t.row_count(2), 2);
    assert_eq!(t.lookup(&vec![2, 0, 1]), (vec![3, 4, 5, 6, 1, 2], vec![2, 1, 0]));
    assert!(StridedTensor::new(vec![1u8, 2, 3], vec![1, 0], 2).is_none());
    assert!(StridedTensor::new(vec![1u8], vec![-1, 2], 1).is_none());
}
