use sorting_networks::exchange::compare_exchange;
use sorting_networks::fixed::{
    sort_by_order, SortingNetwork1, SortingNetwork128, SortingNetwork16, SortingNetwork2,
    SortingNetwork256, SortingNetwork32, SortingNetwork4, SortingNetwork64, SortingNetwork8,
};
use sorting_networks::recursive::SortingNetwork;
use sorting_networks::utils::{is_power_of_two, log2ceil};
use sorting_networks::{FixedSizeSortingNetwork, SortError, SortingNetworkTrait};

fn shuffled(length: usize) -> Vec<u64> {
    let prime = 313373;
    let sorted: Vec<u64> = (0..length as u64).collect();
    (0..length).map(|i| sorted[(i * prime) % length]).collect()
}

fn ascending(length: usize) -> Vec<u64> {
    (0..length as u64).collect()
}

fn check_fixed<S: SortingNetworkTrait + FixedSizeSortingNetwork>(sorter: S) {
    let width = S::width();
    assert_eq!(width, 1 << S::order());
    let mut items = shuffled(width);
    assert_eq!(sorter.sort(&mut items), Ok(()));
    assert_eq!(items, ascending(width));
}

#[test]
fn fixed_size_sorts_shuffled_inputs() {
    check_fixed(SortingNetwork1::new());
    check_fixed(SortingNetwork2::new());
    check_fixed(SortingNetwork4::new());
    check_fixed(SortingNetwork8::new());
    check_fixed(SortingNetwork16::new());
    check_fixed(SortingNetwork32::new());
    check_fixed(SortingNetwork64::new());
    check_fixed(SortingNetwork128::new());
    check_fixed(SortingNetwork256::new());
}

#[test]
fn recursive_sorts_shuffled_inputs() {
    for order in 0..11 {
        let width = 1usize << order;
        let mut items = shuffled(width);
        assert_eq!(SortingNetwork::new().sort(&mut items), Ok(()));
        assert_eq!(items, ascending(width));
    }
}

#[test]
fn every_permutation_of_eight_sorts() {
    let mut perm: Vec<u64> = ascending(8);
    let mut count = 0;
    loop {
        let mut a = perm.clone();
        let mut b = perm.clone();
        assert_eq!(SortingNetwork8::new().sort(&mut a), Ok(()));
        assert_eq!(SortingNetwork::new().sort(&mut b), Ok(()));
        assert_eq!(a, ascending(8));
        assert_eq!(b, ascending(8));
        count += 1;
        // next permutation in lexicographic order
        let mut i = perm.len() - 1;
        while i > 0 && perm[i - 1] >= perm[i] {
            i -= 1;
        }
        if i == 0 {
            break;
        }
        let mut j = perm.len() - 1;
        while perm[j] <= perm[i - 1] {
            j -= 1;
        }
        perm.swap(i - 1, j);
        perm[i..].reverse();
    }
    assert_eq!(count, 40320);
}

#[test]
fn duplicates_are_kept() {
    let input: Vec<u64> = vec![5, 1, 5, 0, 1, 1, 9, 0, 5, 5, 2, 2, 7, 0, 3, 1];
    let mut expected = input.clone();
    expected.sort();
    let mut a = input.clone();
    let mut b = input.clone();
    assert_eq!(SortingNetwork16::new().sort(&mut a), Ok(()));
    assert_eq!(SortingNetwork::new().sort(&mut b), Ok(()));
    assert_eq!(a, expected);
    assert_eq!(b, expected);
}

#[test]
fn sorting_sorted_input_changes_nothing() {
    let input: Vec<u64> = vec![0, 0, 1, 3, 3, 8, 20, 21];
    let mut a = input.clone();
    let mut b = input.clone();
    assert_eq!(SortingNetwork8::new().sort(&mut a), Ok(()));
    assert_eq!(SortingNetwork::new().sort(&mut b), Ok(()));
    assert_eq!(a, input);
    assert_eq!(b, input);
}

#[test]
fn fixed_and_recursive_agree() {
    for order in 0..9 {
        let width = 1usize << order;
        let input: Vec<u64> = (0..width as u64).map(|i| (i * 7919 + 13) % 31).collect();
        let mut a = input.clone();
        let mut b = input.clone();
        assert_eq!(sort_by_order(&mut a, order), Ok(()));
        assert_eq!(SortingNetwork::new().sort(&mut b), Ok(()));
        assert_eq!(a, b);
    }
}

#[test]
fn order_two_scenario() {
    let mut items: Vec<u64> = vec![3, 1, 4, 2];
    let steps = [(0, 1), (2, 3), (0, 2), (1, 3), (1, 2)];
    let after: [Vec<u64>; 5] = [
        vec![1, 3, 4, 2],
        vec![1, 3, 2, 4],
        vec![1, 3, 2, 4],
        vec![1, 3, 2, 4],
        vec![1, 2, 3, 4],
    ];
    for (k, (lhs, rhs)) in steps.iter().enumerate() {
        compare_exchange(&mut items, *lhs, *rhs);
        assert_eq!(items, after[k]);
    }
    let mut fixed: Vec<u64> = vec![3, 1, 4, 2];
    assert_eq!(SortingNetwork4::new().sort(&mut fixed), Ok(()));
    assert_eq!(fixed, vec![1, 2, 3, 4]);
}

#[test]
fn width_one_is_a_no_op() {
    let mut items: Vec<u64> = vec![5];
    assert_eq!(SortingNetwork1::new().sort(&mut items), Ok(()));
    assert_eq!(items, vec![5]);
    assert_eq!(SortingNetwork::new().sort(&mut items), Ok(()));
    assert_eq!(items, vec![5]);
}

#[test]
fn wrong_length_is_refused() {
    let mut items: Vec<u64> = vec![7, 6, 5, 4, 3, 2, 1];
    assert_eq!(SortingNetwork8::new().sort(&mut items), Err(SortError::InvalidLength));
    assert_eq!(items, vec![7, 6, 5, 4, 3, 2, 1]);
    assert_eq!(SortingNetwork::new().sort(&mut items), Err(SortError::InvalidLength));
    assert_eq!(items, vec![7, 6, 5, 4, 3, 2, 1]);
    let mut empty: Vec<u64> = Vec::new();
    assert_eq!(SortingNetwork::new().sort(&mut empty), Err(SortError::InvalidLength));
    assert_eq!(sort_by_order(&mut empty, 0), Err(SortError::InvalidLength));
}

#[test]
fn compare_exchange_keeps_equal_and_ordered() {
    let mut items: Vec<u64> = vec![2, 2, 1, 9];
    compare_exchange(&mut items, 0, 1);
    assert_eq!(items, vec![2, 2, 1, 9]);
    compare_exchange(&mut items, 2, 3);
    assert_eq!(items, vec![2, 2, 1, 9]);
    compare_exchange(&mut items, 0, 2);
    assert_eq!(items, vec![1, 2, 2, 9]);
}

#[test]
fn widths_and_orders() {
    assert_eq!(SortingNetwork1::order(), 0);
    assert_eq!(SortingNetwork1::width(), 1);
    assert_eq!(SortingNetwork32::order(), 5);
    assert_eq!(SortingNetwork256::width(), 256);
}

#[test]
fn power_of_two_helpers() {
    assert!(!is_power_of_two(0));
    assert!(is_power_of_two(1));
    assert!(is_power_of_two(2));
    assert!(!is_power_of_two(3));
    assert!(is_power_of_two(1 << 40));
    assert!(!is_power_of_two(usize::MAX));
    assert_eq!(log2ceil(0), 0);
    assert_eq!(log2ceil(1), 0);
    assert_eq!(log2ceil(2), 1);
    assert_eq!(log2ceil(3), 2);
    assert_eq!(log2ceil(8), 3);
    assert_eq!(log2ceil(9), 4);
}
