use numkit::decimal::{digit_sum, leading_value};
use numkit::puzzles::{
    amicable_sum, binomial, even_fibonacci_sum, factorial_digit_sum,
    first_fibonacci_with_digits, first_triangular_with_divisors, largest_adjacent_product,
    largest_palindrome_product, largest_prime_factor, leading_digits_of_sum,
    longest_chain_start, max_path_sum, name_scores, non_abundant_sum, nth_prime,
    power_digit_sum, smallest_multiple, sum_of_multiples, sum_of_primes, sum_of_proper_divisors,
    sum_square_difference, triplet_product,
};

#[test]
fn multiples_of_three_or_five() {
    assert_eq!(sum_of_multiples(10), 23);
    assert_eq!(sum_of_multiples(1000), 233_168);
    assert_eq!(sum_of_multiples(0), 0);
    assert_eq!(sum_of_multiples(4), 3);
}

#[test]
fn even_fibonacci_numbers() {
    assert_eq!(even_fibonacci_sum(4_000_000), 4_613_732);
    assert_eq!(even_fibonacci_sum(100), 44);
    assert_eq!(even_fibonacci_sum(8), 2);
    assert_eq!(even_fibonacci_sum(9), 10);
    assert_eq!(even_fibonacci_sum(0), 0);
}

#[test]
fn largest_prime_factors() {
    assert_eq!(largest_prime_factor(600_851_475_143, 775_147), Some(6_857));
    assert_eq!(largest_prime_factor(13_195, 200), Some(29));
    assert_eq!(largest_prime_factor(13_195, 10), Some(7));
    assert_eq!(largest_prime_factor(13_195, 4), None);
    assert_eq!(largest_prime_factor(1, 100), None);
}

#[test]
fn palindrome_products() {
    assert_eq!(largest_palindrome_product(100, 1000), Some(906_609));
    assert_eq!(largest_palindrome_product(10, 100), Some(9_009));
    assert_eq!(largest_palindrome_product(12, 13), None);
    assert_eq!(largest_palindrome_product(50, 50), None);
}

#[test]
fn smallest_multiples() {
    assert_eq!(smallest_multiple(20), Some(232_792_560));
    assert_eq!(smallest_multiple(10), Some(2_520));
    assert_eq!(smallest_multiple(2), Some(2));
    assert_eq!(smallest_multiple(1), Some(0));
    assert_eq!(smallest_multiple(0), Some(0));
    assert_eq!(smallest_multiple(100), None);
}

#[test]
fn sum_square_differences() {
    assert_eq!(sum_square_difference(10), 2_640);
    assert_eq!(sum_square_difference(100), 25_164_150);
    assert_eq!(sum_square_difference(0), 0);
    assert_eq!(sum_square_difference(1), 0);
}

#[test]
fn primes_by_their_place() {
    assert_eq!(nth_prime(0, 2), Some(2));
    assert_eq!(nth_prime(5, 2), Some(13));
    assert_eq!(nth_prime(5, 100), Some(13));
    assert_eq!(nth_prime(10_000, 105_000), Some(104_743));
}

#[test]
fn adjacent_products() {
    let digits = vec![7, 3, 1, 6, 7, 1, 7, 6, 5, 3, 1, 3, 3, 0, 6, 2, 4, 9, 1, 9];
    assert_eq!(largest_adjacent_product(&digits, 4, 17), Some(630));
    assert_eq!(largest_adjacent_product(&digits, 4, 1), Some(126));
    assert_eq!(largest_adjacent_product(&digits, 4, 0), None);
    assert_eq!(largest_adjacent_product(&digits, 0, 3), Some(1));
    assert_eq!(largest_adjacent_product(&digits, 2, 16), Some(42));
}

#[test]
fn pythagorean_triplets() {
    assert_eq!(triplet_product(1000), Some(31_875_000));
    assert_eq!(triplet_product(12), Some(60));
    assert_eq!(triplet_product(11), None);
    assert_eq!(triplet_product(0), None);
}

#[test]
fn sums_of_primes() {
    assert_eq!(sum_of_primes(10), 17);
    assert_eq!(sum_of_primes(2), 2);
    assert_eq!(sum_of_primes(1), 0);
    assert_eq!(sum_of_primes(0), 0);
    assert_eq!(sum_of_primes(2_000_000), 142_913_828_922);
}

#[test]
fn triangular_numbers_by_divisors() {
    assert_eq!(first_triangular_with_divisors(5), Some(28));
    assert_eq!(first_triangular_with_divisors(0), Some(1));
    assert_eq!(first_triangular_with_divisors(500), Some(76_576_500));
}

#[test]
fn longest_chains() {
    assert_eq!(longest_chain_start(10, 1000), Some(9));
    assert_eq!(longest_chain_start(10_000, 1000), Some(6_171));
    assert_eq!(longest_chain_start(1, 1000), Some(0));
    assert_eq!(longest_chain_start(0, 1000), Some(0));
    assert_eq!(longest_chain_start(10, 5), None);
    assert_eq!(longest_chain_start(100_000, 1000), Some(77_031));
}

#[test]
fn ways_to_choose() {
    assert_eq!(binomial(5, 2), Some(10));
    assert_eq!(binomial(40, 20), Some(137_846_528_820));
    assert_eq!(binomial(4, 2), Some(6));
    assert_eq!(binomial(7, 0), Some(0));
    assert_eq!(binomial(7, 7), Some(0));
    assert_eq!(binomial(7, 1), Some(7));
    assert_eq!(binomial(200, 100), None);
}

#[test]
fn best_paths() {
    let triangle = vec![vec![3], vec![7, 4], vec![2, 4, 6], vec![8, 5, 9, 3]];
    assert_eq!(max_path_sum(triangle), 23);
    assert_eq!(max_path_sum(vec![vec![5]]), 5);
    assert_eq!(max_path_sum(vec![vec![1], vec![2, 9]]), 10);
    assert_eq!(max_path_sum(vec![vec![1], vec![9, 2]]), 10);
}

#[test]
fn best_path_through_fifteen_rows() {
    let triangle = vec![
        vec![75],
        vec![95, 64],
        vec![17, 47, 82],
        vec![18, 35, 87, 10],
        vec![20, 4, 82, 47, 65],
        vec![19, 1, 23, 75, 3, 34],
        vec![88, 2, 77, 73, 7, 63, 67],
        vec![99, 65, 4, 28, 6, 16, 70, 92],
        vec![41, 41, 26, 56, 83, 40, 80, 70, 33],
        vec![41, 48, 72, 33, 47, 32, 37, 16, 94, 29],
        vec![53, 71, 44, 65, 25, 43, 91, 52, 97, 51, 14],
        vec![70, 11, 33, 28, 77, 73, 17, 78, 39, 68, 17, 57],
        vec![91, 71, 52, 38, 17, 14, 91, 43, 58, 50, 27, 29, 48],
        vec![63, 66, 4, 68, 89, 53, 67, 30, 73, 16, 69, 87, 40, 31],
        vec![4, 62, 98, 27, 23, 9, 70, 98, 73, 93, 38, 53, 60, 4, 23],
    ];
    assert_eq!(max_path_sum(triangle), 1_074);
}

#[test]
fn longest_chain_below_one_million() {
    assert_eq!(longest_chain_start(1_000_000, 1000), Some(837_799));
}

#[test]
fn proper_divisor_sums() {
    assert_eq!(sum_of_proper_divisors(220), 284);
    assert_eq!(sum_of_proper_divisors(284), 220);
    assert_eq!(sum_of_proper_divisors(12), 16);
    assert_eq!(sum_of_proper_divisors(1), 1);
    assert_eq!(sum_of_proper_divisors(0), 0);
    assert_eq!(sum_of_proper_divisors(7), 1);
}

#[test]
fn amicable_numbers() {
    assert_eq!(amicable_sum(10_000), 31_626);
    assert_eq!(amicable_sum(300), 504);
    assert_eq!(amicable_sum(284), 0);
    assert_eq!(amicable_sum(0), 0);
}

#[test]
fn scores_of_names() {
    let colin: Vec<usize> = "COLIN".chars().map(|c| c as usize).collect();
    assert_eq!(name_scores(&vec![colin.clone()]), 53);
    let anna: Vec<usize> = "ANNA".chars().map(|c| c as usize).collect();
    assert_eq!(name_scores(&vec![anna, colin]), 30 + 2 * 53);
    assert_eq!(name_scores(&Vec::new()), 0);
}

#[test]
fn sums_of_two_abundant_numbers() {
    assert_eq!(non_abundant_sum(23), 276);
    assert_eq!(non_abundant_sum(24), 276);
    assert_eq!(non_abundant_sum(25), 301);
    assert_eq!(non_abundant_sum(0), 0);
    assert_eq!(non_abundant_sum(28_123), 4_179_871);
}

#[test]
fn digit_sums_of_powers() {
    assert_eq!(power_digit_sum(2, 15), Some(26));
    assert_eq!(power_digit_sum(2, 1000), Some(1_366));
    assert_eq!(power_digit_sum(10, 30), Some(1));
    assert_eq!(power_digit_sum(7, 0), Some(1));
    assert_eq!(power_digit_sum(0, 5), Some(0));
    assert_eq!(power_digit_sum(0, 0), Some(1));
}

#[test]
fn digit_sums_of_factorials() {
    assert_eq!(factorial_digit_sum(10), Some(27));
    assert_eq!(factorial_digit_sum(100), Some(648));
    assert_eq!(factorial_digit_sum(0), Some(1));
    assert_eq!(factorial_digit_sum(1), Some(1));
    assert_eq!(factorial_digit_sum(5), Some(3));
}

#[test]
fn leading_digits_of_sums() {
    let numbers = vec![vec![9, 9], vec![1]];
    assert_eq!(leading_digits_of_sum(&numbers, 2), Some(10));
    assert_eq!(leading_digits_of_sum(&numbers, 3), Some(100));
    assert_eq!(leading_digits_of_sum(&numbers, 4), None);
    assert_eq!(leading_digits_of_sum(&numbers, 0), Some(0));
    assert_eq!(leading_digits_of_sum(&Vec::new(), 1), Some(0));
    let padded = vec![vec![0, 0, 4, 5], vec![5, 5, 5], vec![]];
    assert_eq!(leading_digits_of_sum(&padded, 1), Some(6));
    assert_eq!(leading_digits_of_sum(&padded, 3), Some(600));
    let large = vec![vec![9; 50], vec![9; 50]];
    assert_eq!(leading_digits_of_sum(&large, 10), Some(1_999_999_999));
    assert_eq!(leading_digits_of_sum(&large, 51), None);
}

#[test]
fn fibonacci_numbers_by_their_length() {
    assert_eq!(first_fibonacci_with_digits(1), Some(1));
    assert_eq!(first_fibonacci_with_digits(2), Some(7));
    assert_eq!(first_fibonacci_with_digits(3), Some(12));
    assert_eq!(first_fibonacci_with_digits(1000), Some(4_782));
}

#[test]
fn sums_and_values_of_digits() {
    assert_eq!(digit_sum(&vec![1, 2, 3]), Some(6));
    assert_eq!(digit_sum(&Vec::new()), Some(0));
    assert_eq!(leading_value(&vec![1, 2, 3], 2), Some(12));
    assert_eq!(leading_value(&vec![1, 2, 3], 3), Some(123));
    assert_eq!(leading_value(&vec![1, 2, 3], 4), None);
    assert_eq!(leading_value(&vec![0, 0, 7], 3), Some(7));
    assert_eq!(leading_value(&vec![9; 30], 30), None);
}
