use numkit::utils::{factor_count, max_product_window, proper_divisors, Reversable};

#[test]
fn reverses_numbers() {
    assert_eq!(123, 321usize.reverse());
}

#[test]
fn gets_proper_divisors() {
    assert_eq!(proper_divisors(10), vec![1, 2, 5]);

    let mut result = proper_divisors(220);
    result.sort();
    assert_eq!(result, vec![1, 2, 4, 5, 10, 11, 20, 22, 44, 55, 110]);

    let mut result = proper_divisors(284);
    result.sort();
    assert_eq!(result, vec![1, 2, 4, 71, 142]);
}

#[test]
fn reversal_drops_trailing_zeros() {
    assert_eq!(120usize.reverse(), 21);
    assert_eq!(0usize.reverse(), 0);
    assert_eq!(7usize.reverse(), 7);
    assert_eq!(1000usize.reverse(), 1);
    assert_eq!(906_609usize.reverse(), 906_609);
}

#[test]
fn proper_divisors_come_in_search_order() {
    assert_eq!(proper_divisors(220), vec![1, 2, 110, 4, 55, 5, 44, 10, 22, 11, 20]);
    assert_eq!(proper_divisors(36), vec![1, 2, 18, 3, 12, 4, 9, 6]);
    assert_eq!(proper_divisors(7), vec![1]);
}

#[test]
fn proper_divisors_of_zero_and_one() {
    assert_eq!(proper_divisors(0), Vec::<usize>::new());
    assert_eq!(proper_divisors(1), vec![1]);
}

#[test]
fn counts_divisors() {
    assert_eq!(factor_count(0), 0);
    assert_eq!(factor_count(1), 1);
    assert_eq!(factor_count(2), 2);
    assert_eq!(factor_count(28), 6);
    assert_eq!(factor_count(36), 9);
    assert_eq!(factor_count(97), 2);
    assert_eq!(factor_count(76_576_500), 576);
}

#[test]
fn amicable_pair_sums() {
    assert_eq!(proper_divisors(220).iter().sum::<usize>(), 284);
    assert_eq!(proper_divisors(284).iter().sum::<usize>(), 220);
}

#[test]
fn finds_the_largest_window_product() {
    let grid = vec![
        vec![1, 2, 3, 4],
        vec![5, 6, 7, 8],
        vec![9, 1, 2, 3],
        vec![4, 5, 6, 7],
    ];
    assert_eq!(max_product_window(grid.clone(), 2), 54);
    assert_eq!(max_product_window(grid.clone(), 1), 9);
    assert_eq!(max_product_window(grid.clone(), 3), 210);
    assert_eq!(max_product_window(grid, 4), 0);
}

#[test]
fn window_product_follows_each_direction() {
    let across = vec![vec![9, 9, 1], vec![1, 1, 1], vec![1, 1, 1]];
    assert_eq!(max_product_window(across, 2), 81);
    let down = vec![vec![9, 1, 1], vec![9, 1, 1], vec![1, 1, 1]];
    assert_eq!(max_product_window(down, 2), 81);
    let falling = vec![vec![9, 1, 1], vec![1, 9, 1], vec![1, 1, 1]];
    assert_eq!(max_product_window(falling, 2), 81);
    let rising = vec![vec![1, 1, 1], vec![1, 9, 1], vec![9, 1, 1]];
    assert_eq!(max_product_window(rising, 2), 81);
}

#[test]
fn windows_at_the_far_edge_are_not_searched() {
    let last_column = vec![vec![1, 9, 9], vec![1, 1, 1], vec![1, 1, 1]];
    assert_eq!(max_product_window(last_column, 2), 9);
    let last_row = vec![vec![1, 1, 1], vec![9, 1, 1], vec![9, 1, 1]];
    assert_eq!(max_product_window(last_row, 2), 9);
}
