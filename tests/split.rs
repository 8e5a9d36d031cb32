use radix_sort::radix_sort::{split, AllocatedVectors};
use radix_sort::SortError;

#[test]
fn split_keeps_order_within_groups() {
    assert_eq!(split(&[3, 1, 2], &[false, true, false]), Ok(vec![3, 2, 1]));
}

#[test]
fn split_all_false_or_all_true_is_identity() {
    assert_eq!(split(&[4, 8, 1, 6], &[false; 4]), Ok(vec![4, 8, 1, 6]));
    assert_eq!(split(&[4, 8, 1, 6], &[true; 4]), Ok(vec![4, 8, 1, 6]));
}

#[test]
fn split_single_and_empty() {
    assert_eq!(split(&[42], &[true]), Ok(vec![42]));
    assert_eq!(split(&[], &[]), Ok(vec![]));
}

#[test]
fn split_length_mismatch_is_refused() {
    assert_eq!(split(&[1, 2, 3], &[true, false]), Err(SortError::LengthMismatch));
}

#[test]
fn split_is_stable_on_tagged_values() {
    // the units digit of each value is its position in the input
    let input = [10, 21, 12, 23, 24, 15, 16];
    let flags = [false, true, false, true, true, false, false];
    assert_eq!(split(&input, &flags), Ok(vec![10, 12, 15, 16, 21, 23, 24]));
}

#[test]
fn split_destinations_are_a_permutation() {
    let input = [7, 3, 9, 1, 5, 2];
    let flags = [true, false, true, false, false, true];
    let mut buffers = AllocatedVectors::new(input.len());
    buffers.radix_sort_bits_for_i.copy_from_slice(&flags);
    buffers.split(&input);
    assert_eq!(buffers.split_indexes, vec![3, 0, 4, 1, 2, 5]);
    assert_eq!(buffers.permute_result, vec![3, 1, 5, 7, 9, 2]);
    assert_eq!(buffers.prefix_result, vec![0, 1, 1, 2, 3, 3]);
}

#[test]
fn parallel_buffers_split_the_same_way() {
    let input = [7, 3, 9, 1, 5, 2];
    let flags = [true, false, true, false, false, true];
    let mut buffers = radix_sort::radix_sort_parallel::AllocatedVectors::new(input.len());
    buffers.radix_sort_bits_for_i.copy_from_slice(&flags);
    buffers.split(&input);
    assert_eq!(buffers.split_indexes, vec![3, 0, 4, 1, 2, 5]);
    assert_eq!(buffers.permute_result, vec![3, 1, 5, 7, 9, 2]);
    assert_eq!(buffers.revert_result, vec![false, true, false, true, true, false]);
    assert_eq!(buffers.suffix_result, vec![4, 5, 5, 6, 6, 6]);
}

#[test]
fn new_buffers_are_zeroed() {
    let a = AllocatedVectors::new(3);
    assert_eq!(a.radix_sort_bits_for_i, vec![false; 3]);
    assert_eq!(a.revert_result, vec![false; 3]);
    assert_eq!(a.split_indexes, vec![0; 3]);
    assert_eq!(a.prefix_result, vec![0; 3]);
    assert_eq!(a.suffix_result, vec![0; 3]);
    assert_eq!(a.permute_result, vec![0; 3]);
    let b = radix_sort::radix_sort_parallel::AllocatedVectors::new(2);
    assert_eq!(b.radix_sort_bits_for_i, vec![false; 2]);
    assert_eq!(b.revert_result, vec![false; 2]);
    assert_eq!(b.split_indexes, vec![0; 2]);
    assert_eq!(b.prefix_result, vec![0; 2]);
    assert_eq!(b.suffix_result, vec![0; 2]);
    assert_eq!(b.permute_result, vec![0; 2]);
}

#[test]
fn variants_give_identical_rank_vectors() {
    let input = [4, 9, 9, 0, 3, 12, 7, 7];
    let flags = [false, true, true, false, false, true, false, true];
    let mut seq = AllocatedVectors::new(input.len());
    seq.radix_sort_bits_for_i.copy_from_slice(&flags);
    seq.split(&input);
    let mut par = radix_sort::radix_sort_parallel::AllocatedVectors::new(input.len());
    par.radix_sort_bits_for_i.copy_from_slice(&flags);
    par.split(&input);
    assert_eq!(seq.revert_result, par.revert_result);
    assert_eq!(seq.prefix_result, par.prefix_result);
    assert_eq!(seq.suffix_result, par.suffix_result);
    assert_eq!(seq.split_indexes, par.split_indexes);
    assert_eq!(seq.permute_result, par.permute_result);
    assert_eq!(seq.prefix_result, vec![1, 1, 1, 2, 3, 3, 4, 4]);
    assert_eq!(seq.suffix_result, vec![5, 5, 6, 7, 7, 7, 8, 8]);
    assert_eq!(seq.permute_result, vec![4, 0, 3, 7, 9, 9, 12, 7]);
}
