use isaac_unlocker::masks::{range_mask, set_positions, sorted_intersection, span_vec};
use isaac_unlocker::order::key_order;

#[test]
fn span_counts_up() {
    assert_eq!(span_vec(2, 5), vec![2, 3, 4]);
    assert_eq!(span_vec(5, 5), Vec::<i32>::new());
    assert_eq!(span_vec(5, 2), Vec::<i32>::new());
}

#[test]
fn range_mask_is_one_based_and_clamped() {
    assert_eq!(range_mask(1, 3, 10), vec![0, 1, 2]);
    assert_eq!(range_mask(0, 3, 10), vec![0, 1, 2]);
    assert_eq!(range_mask(-40, 2, 10), vec![0, 1]);
    assert_eq!(range_mask(8, 50, 10), vec![7, 8, 9]);
    assert_eq!(range_mask(20, 50, 10), Vec::<i32>::new());
    assert_eq!(range_mask(5, 3, 10), Vec::<i32>::new());
}

#[test]
fn range_mask_matches_the_formula() {
    for x in -3..14 {
        for y in -3..14 {
            let expected: Vec<i32> = ((x - 1).max(0).min(10)..y.min(10)).collect();
            assert_eq!(range_mask(x, y, 10), expected);
        }
    }
}

#[test]
fn intersection_is_sorted_and_without_repeats() {
    assert_eq!(sorted_intersection(&vec![5, 1, 3, 3, 9], &vec![3, 5, 7, 9]), vec![3, 5, 9]);
    assert_eq!(sorted_intersection(&vec![], &vec![1]), Vec::<i32>::new());
    assert_eq!(sorted_intersection(&vec![4, -2], &vec![-2, 4]), vec![-2, 4]);
}

#[test]
fn set_positions_as_find_all_reports_them() {
    assert_eq!(set_positions(&vec![false, true, false, true]), Some(vec![1, 3]));
    assert_eq!(set_positions(&vec![false, false]), None);
    assert_eq!(set_positions(&vec![]), None);
}

#[test]
fn key_order_is_a_stable_sort() {
    assert_eq!(key_order(&vec![3, 1, 3, 0]), vec![3, 1, 0, 2]);
    assert_eq!(key_order(&vec![]), Vec::<usize>::new());
    assert_eq!(key_order(&vec![-1, -5, 7, -5]), vec![1, 3, 0, 2]);
}

#[test]
fn key_order_agrees_with_std_stable_sort() {
    let keys: Vec<i16> = vec![9, 2, 2, -4, 9, 0, 2, 11, -4];
    let mut expected: Vec<usize> = (0..keys.len()).collect();
    expected.sort_by(|a, b| keys[*a].cmp(&keys[*b]));
    assert_eq!(key_order(&keys), expected);
}
