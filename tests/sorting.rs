use ::radix_sort::{radix_sort, radix_sort_parallel, SortError};

#[test]
fn test_sorting() {
    let mut input = vec![5, 1021, 2, 9, 0, 23, 9, 512, 511, 8];
    assert_eq!(radix_sort::radix_sort(&mut input, 1021), Ok(()));
    assert_eq!(input, vec![0, 2, 5, 8, 9, 9, 23, 511, 512, 1021]);
}

#[test]
fn test_sorting_course() {
    let mut input = vec![5, 1021, 2, 9, 0, 23, 9, 512, 511, 8];
    assert_eq!(radix_sort_parallel::radix_sort(&mut input, 1021), Ok(()));
    assert_eq!(input, vec![0, 2, 5, 8, 9, 9, 23, 511, 512, 1021]);
}

#[test]
fn test_sorting_20() {
    let mut input = vec![
        855, 953, 384, 106, 35, 215, 269, 674, 546, 189, 824, 500, 639, 231, 156, 619, 778, 336,
        797, 248,
    ];
    assert_eq!(radix_sort_parallel::radix_sort(&mut input, 1000), Ok(()));
    assert_eq!(
        input,
        vec![
            35, 106, 156, 189, 215, 231, 248, 269, 336, 384, 500, 546, 619, 639, 674, 778, 797,
            824, 855, 953
        ]
    );
}

#[test]
fn sequential_sorts_twenty_values() {
    let mut input = vec![
        855, 953, 384, 106, 35, 215, 269, 674, 546, 189, 824, 500, 639, 231, 156, 619, 778, 336,
        797, 248,
    ];
    assert_eq!(radix_sort::radix_sort(&mut input, 1000), Ok(()));
    assert_eq!(
        input,
        vec![
            35, 106, 156, 189, 215, 231, 248, 269, 336, 384, 500, 546, 619, 639, 674, 778, 797,
            824, 855, 953
        ]
    );
}

#[test]
fn empty_input_stays_empty() {
    let mut a: Vec<u32> = vec![];
    assert_eq!(radix_sort::radix_sort(&mut a, 17), Ok(()));
    assert!(a.is_empty());
    let mut b: Vec<u32> = vec![];
    assert_eq!(radix_sort_parallel::radix_sort(&mut b, 17), Ok(()));
    assert!(b.is_empty());
}

#[test]
fn single_element_stays() {
    let mut a = vec![7];
    assert_eq!(radix_sort::radix_sort(&mut a, 7), Ok(()));
    assert_eq!(a, vec![7]);
    let mut b = vec![7];
    assert_eq!(radix_sort_parallel::radix_sort(&mut b, 7), Ok(()));
    assert_eq!(b, vec![7]);
}

#[test]
fn zero_bound_is_refused() {
    let mut a = vec![3, 1, 2];
    assert_eq!(radix_sort::radix_sort(&mut a, 0), Err(SortError::InvalidBound));
    assert_eq!(a, vec![3, 1, 2]);
    let mut b = vec![3, 1, 2];
    assert_eq!(radix_sort_parallel::radix_sort(&mut b, 0), Err(SortError::InvalidBound));
    assert_eq!(b, vec![3, 1, 2]);
}

#[test]
fn largest_bound_uses_all_bits() {
    let mut a = vec![u32::MAX, 0, 1 << 31, 12345, u32::MAX - 1, 1];
    let expected = vec![0, 1, 12345, 1 << 31, u32::MAX - 1, u32::MAX];
    assert_eq!(radix_sort::radix_sort(&mut a, u32::MAX), Ok(()));
    assert_eq!(a, expected);
    let mut b = vec![u32::MAX, 0, 1 << 31, 12345, u32::MAX - 1, 1];
    assert_eq!(radix_sort_parallel::radix_sort(&mut b, u32::MAX), Ok(()));
    assert_eq!(b, expected);
}

#[test]
fn bound_of_one_sorts_bits() {
    let mut a = vec![1, 0, 1, 0, 0];
    assert_eq!(radix_sort::radix_sort(&mut a, 1), Ok(()));
    assert_eq!(a, vec![0, 0, 0, 1, 1]);
}

#[test]
fn sorted_input_is_unchanged() {
    let sorted = vec![0, 0, 3, 4, 4, 9, 100, 255];
    let mut a = sorted.clone();
    assert_eq!(radix_sort::radix_sort(&mut a, 255), Ok(()));
    assert_eq!(a, sorted);
    assert_eq!(radix_sort::radix_sort(&mut a, 255), Ok(()));
    assert_eq!(a, sorted);
    let mut b = sorted.clone();
    assert_eq!(radix_sort_parallel::radix_sort(&mut b, 255), Ok(()));
    assert_eq!(b, sorted);
}

#[test]
fn variants_agree_on_duplicates_and_reversed_input() {
    let mut inputs: Vec<Vec<u32>> = vec![
        (0..200u32).rev().collect(),
        vec![5; 40],
        (0..300u32).map(|i| (i * 7919) % 64).collect(),
        (0..100u32).map(|i| if i % 2 == 0 { 1000 } else { 1 }).collect(),
    ];
    for input in inputs.iter_mut() {
        let mut a = input.clone();
        let mut b = input.clone();
        assert_eq!(radix_sort::radix_sort(&mut a, 1000), Ok(()));
        assert_eq!(radix_sort_parallel::radix_sort(&mut b, 1000), Ok(()));
        assert_eq!(a, b);
        let mut expected = input.clone();
        expected.sort();
        assert_eq!(a, expected);
    }
}

#[test]
fn values_above_bound_still_give_a_reordering() {
    let mut a = vec![9, 2, 7, 1];
    assert_eq!(radix_sort::radix_sort(&mut a, 3), Ok(()));
    let mut got = a.clone();
    got.sort();
    assert_eq!(got, vec![1, 2, 7, 9]);
}
