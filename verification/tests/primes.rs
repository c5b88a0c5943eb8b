use numkit::primes::{IncompatibleDivision, PrimeEndless, PrimeFactorCount, PrimeSieve};

fn lcm_up_to(n: usize) -> usize {
    let mut acc = PrimeFactorCount::empty();
    for i in 1..=n {
        acc = acc.minimal_combine(PrimeFactorCount::new(i));
    }
    acc.to_num()
}

#[test]
fn should_build_prime_factor_set() {
    let pf = PrimeFactorCount::new(200);
    assert_eq!(pf.factors.len(), 2);
    assert_eq!(pf.factors.values().sum::<usize>(), 5);
    assert_eq!(*pf.factors.get(&2).unwrap(), 3);
    assert_eq!(*pf.factors.get(&5).unwrap(), 2);
}

#[test]
fn should_be_able_to_check_equality() {
    let first = PrimeFactorCount::new(200);
    let second = PrimeFactorCount::new(200);
    assert_eq!(first, second);
}

#[test]
fn should_be_able_to_multiply() {
    let first = PrimeFactorCount::new(200);
    let second = PrimeFactorCount::new(4);
    let combined = first * second;
    let expected = PrimeFactorCount::new(800);
    assert_eq!(combined, expected);
}

#[test]
fn should_be_able_to_convert_back() {
    let expected = 200;
    let pf = PrimeFactorCount::new(expected);
    assert_eq!(pf.to_num(), expected);

    let expected = 0;
    let pf = PrimeFactorCount::new(expected);
    assert_eq!(pf.to_num(), expected);
}

#[test]
fn should_be_able_to_add() {
    let first = PrimeFactorCount::new(150);
    let second = PrimeFactorCount::new(50);
    let combined = first + second;
    let expected = PrimeFactorCount::new(200);
    assert_eq!(combined, expected);
}

#[test]
fn should_be_able_to_divide() {
    let first = PrimeFactorCount::new(200);
    let second = PrimeFactorCount::new(100);
    let combined = first / second;
    let expected = PrimeFactorCount::new(2);
    assert_eq!(combined, expected);
}

#[test]
fn sieve_lists_the_primes_up_to_its_limit() {
    assert_eq!(PrimeSieve::new(30).collect(), vec![2, 3, 5, 7, 11, 13, 17, 19, 23, 29]);
    assert_eq!(PrimeSieve::new(29).collect(), vec![2, 3, 5, 7, 11, 13, 17, 19, 23, 29]);
    assert_eq!(PrimeSieve::new(2).collect(), vec![2]);
    assert_eq!(PrimeSieve::new(4).collect(), vec![2, 3]);
}

#[test]
fn sieve_of_zero_and_one_is_empty() {
    assert_eq!(PrimeSieve::new(0).collect(), Vec::<usize>::new());
    assert_eq!(PrimeSieve::new(1).collect(), Vec::<usize>::new());
    assert_eq!(PrimeSieve::new(0).next(), None);
    assert_eq!(PrimeSieve::new(1).next(), None);
}

#[test]
fn sieve_yields_one_prime_per_pull_and_stays_exhausted() {
    let mut sieve = PrimeSieve::new(10);
    assert_eq!(sieve.next(), Some(2));
    assert_eq!(sieve.next(), Some(3));
    assert_eq!(sieve.next(), Some(5));
    assert_eq!(sieve.next(), Some(7));
    assert_eq!(sieve.next(), None);
    assert_eq!(sieve.next(), None);
    assert_eq!(sieve.collect(), Vec::<usize>::new());
}

#[test]
fn sieve_collects_what_is_left() {
    let mut sieve = PrimeSieve::new(20);
    assert_eq!(sieve.next(), Some(2));
    assert_eq!(sieve.next(), Some(3));
    assert_eq!(sieve.collect(), vec![5, 7, 11, 13, 17, 19]);
}

#[test]
fn sieve_sums_the_primes_below_two_million() {
    let sum: usize = PrimeSieve::new(2_000_000).collect().iter().sum();
    assert_eq!(sum, 142_913_828_922);
}

#[test]
fn stream_starts_with_two_and_three_and_goes_on() {
    let mut primes = PrimeEndless::new();
    let mut seen = Vec::new();
    for _ in 0..12 {
        seen.push(primes.next().unwrap());
    }
    assert_eq!(seen, vec![2, 3, 5, 7, 11, 13, 17, 19, 23, 29, 31, 37]);
}

#[test]
fn stream_output_is_strictly_increasing() {
    let mut primes = PrimeEndless::new().pre_calc(PrimeSieve::new(20).collect());
    let mut last = 0;
    for _ in 0..200 {
        let p = primes.next().unwrap();
        assert!(p > last);
        last = p;
    }
    assert_eq!(last, 1223);
}

#[test]
fn seeded_stream_reaches_the_ten_thousand_and_first_prime() {
    let mut primes = PrimeEndless::new().pre_calc(PrimeSieve::new(105_000).collect());
    let mut value = 0;
    for _ in 0..=10_000 {
        value = primes.next().unwrap();
    }
    assert_eq!(value, 104_743);
}

#[test]
fn seeding_keeps_the_cursor() {
    let mut first = PrimeEndless::new();
    assert_eq!(first.next(), Some(2));
    assert_eq!(first.next(), Some(3));
    let mut seeded = first.pre_calc(vec![2, 3, 5, 7, 11]);
    assert_eq!(seeded.next(), Some(5));
    assert_eq!(seeded.next(), Some(7));
    assert_eq!(seeded.next(), Some(11));
    assert_eq!(seeded.next(), Some(13));
    assert_eq!(seeded.next(), Some(17));
    assert_eq!(first.next(), Some(5));
}

#[test]
fn cloned_stream_advances_on_its_own() {
    let mut first = PrimeEndless::new();
    assert_eq!(first.next(), Some(2));
    let mut copy = first.clone();
    assert_eq!(copy.next(), Some(3));
    assert_eq!(copy.next(), Some(5));
    assert_eq!(copy.next(), Some(7));
    assert_eq!(first.next(), Some(3));
    assert_eq!(first.next(), Some(5));
}

#[test]
fn seeding_with_a_shorter_prefix_goes_on_after_it() {
    let mut first = PrimeEndless::new().pre_calc(vec![2, 3, 5, 7, 11]);
    for _ in 0..4 {
        first.next();
    }
    let mut seeded = first.pre_calc(vec![2, 3]);
    assert_eq!(seeded.next(), Some(5));
    assert_eq!(seeded.next(), Some(7));
}

#[test]
fn factorization_converts_back_to_its_number() {
    for n in 2..500 {
        assert_eq!(PrimeFactorCount::new(n).to_num(), n);
    }
    assert_eq!(PrimeFactorCount::new(1_000_003).to_num(), 1_000_003);
    assert_eq!(PrimeFactorCount::new(720_720).to_num(), 720_720);
}

#[test]
fn factorization_of_zero_and_one_is_empty() {
    assert_eq!(PrimeFactorCount::new(0), PrimeFactorCount::empty());
    assert_eq!(PrimeFactorCount::new(1), PrimeFactorCount::empty());
    assert_eq!(PrimeFactorCount::new(1).factors.len(), 0);
    assert_eq!(PrimeFactorCount::empty().to_num(), 0);
    assert_eq!(PrimeFactorCount::new(1).to_num(), 0);
}

#[test]
fn factorization_holds_each_prime_with_its_multiplicity() {
    let pf = PrimeFactorCount::new(360);
    assert_eq!(pf.factors.len(), 3);
    assert_eq!(pf.factors.get(&2), Some(&3));
    assert_eq!(pf.factors.get(&3), Some(&2));
    assert_eq!(pf.factors.get(&5), Some(&1));
    let prime = PrimeFactorCount::new(97);
    assert_eq!(prime.factors.len(), 1);
    assert_eq!(prime.factors.get(&97), Some(&1));
}

#[test]
fn product_of_factorizations_is_the_factorization_of_the_product() {
    for a in 1..40 {
        for b in 1..40 {
            let product = PrimeFactorCount::new(a) * PrimeFactorCount::new(b);
            if a == 1 && b == 1 {
                assert_eq!(product.to_num(), 0);
            } else {
                assert_eq!(product.to_num(), a * b);
            }
            assert_eq!(product, PrimeFactorCount::new(a * b));
        }
    }
}

#[test]
fn combine_is_commutative_and_idempotent() {
    for a in 1..30 {
        for b in 1..30 {
            let left = PrimeFactorCount::new(a).minimal_combine(PrimeFactorCount::new(b));
            let right = PrimeFactorCount::new(b).minimal_combine(PrimeFactorCount::new(a));
            assert_eq!(left, right);
        }
        let twice = PrimeFactorCount::new(a).minimal_combine(PrimeFactorCount::new(a));
        assert_eq!(twice, PrimeFactorCount::new(a));
    }
}

#[test]
fn combine_takes_the_larger_multiplicity() {
    let combined = PrimeFactorCount::new(12).minimal_combine(PrimeFactorCount::new(90));
    assert_eq!(combined, PrimeFactorCount::new(180));
    assert_eq!(combined.to_num(), 180);
}

#[test]
fn combine_over_one_to_twenty_is_their_least_common_multiple() {
    assert_eq!(lcm_up_to(20), 232_792_560);
    assert_eq!(lcm_up_to(10), 2_520);
}

#[test]
fn dividing_a_product_by_a_factor_gives_the_other_factor() {
    for a in 1..30 {
        for b in 1..30 {
            let product = PrimeFactorCount::new(a) * PrimeFactorCount::new(b);
            let quotient = product.checked_div(PrimeFactorCount::new(b));
            assert_eq!(quotient, Ok(PrimeFactorCount::new(a)));
            let again = (PrimeFactorCount::new(a) * PrimeFactorCount::new(b))
                / PrimeFactorCount::new(b);
            assert_eq!(again, PrimeFactorCount::new(a));
        }
    }
}

#[test]
fn dividing_prunes_what_reaches_zero() {
    let quotient = PrimeFactorCount::new(200) / PrimeFactorCount::new(8);
    assert_eq!(quotient.factors.len(), 1);
    assert_eq!(quotient.factors.get(&5), Some(&2));
    assert_eq!(quotient.factors.get(&2), None);
    let one = PrimeFactorCount::new(200) / PrimeFactorCount::new(200);
    assert_eq!(one, PrimeFactorCount::empty());
}

#[test]
fn dividing_by_what_does_not_divide_fails() {
    let missing_prime = PrimeFactorCount::new(200).checked_div(PrimeFactorCount::new(3));
    assert_eq!(missing_prime, Err(IncompatibleDivision));
    let too_many = PrimeFactorCount::new(200).checked_div(PrimeFactorCount::new(16));
    assert_eq!(too_many, Err(IncompatibleDivision));
    let from_empty = PrimeFactorCount::empty().checked_div(PrimeFactorCount::new(2));
    assert_eq!(from_empty, Err(IncompatibleDivision));
    let by_empty = PrimeFactorCount::new(200).checked_div(PrimeFactorCount::empty());
    assert_eq!(by_empty, Ok(PrimeFactorCount::new(200)));
}

#[test]
fn adding_factors_the_sum_anew() {
    let sum = PrimeFactorCount::new(7) + PrimeFactorCount::new(9);
    assert_eq!(sum, PrimeFactorCount::new(16));
    assert_eq!(sum.to_num(), 16);
    let with_empty = PrimeFactorCount::empty() + PrimeFactorCount::new(12);
    assert_eq!(with_empty, PrimeFactorCount::new(12));
}

#[test]
fn factorial_is_the_factorization_of_the_factorial() {
    assert_eq!(PrimeFactorCount::factorial(0), PrimeFactorCount::empty());
    assert_eq!(PrimeFactorCount::factorial(1), PrimeFactorCount::empty());
    assert_eq!(PrimeFactorCount::factorial(5).to_num(), 120);
    assert_eq!(PrimeFactorCount::factorial(10), PrimeFactorCount::new(3_628_800));
    let twenty = PrimeFactorCount::factorial(20);
    assert_eq!(twenty.factors.get(&2), Some(&18));
    assert_eq!(twenty.factors.get(&19), Some(&1));
    assert_eq!(twenty.to_num(), 2_432_902_008_176_640_000);
}

#[test]
fn five_choose_two_is_ten() {
    let top = PrimeFactorCount::factorial(5);
    let bottom = PrimeFactorCount::factorial(2) * PrimeFactorCount::factorial(3);
    assert_eq!((top / bottom).to_num(), 10);
}

#[test]
fn forty_choose_twenty_needs_no_large_intermediate() {
    let top = PrimeFactorCount::factorial(40);
    let b1 = PrimeFactorCount::factorial(20);
    let b2 = PrimeFactorCount::factorial(20);
    assert_eq!((top / (b1 * b2)).to_num(), 137_846_528_820);
}

#[test]
fn checked_conversion_reports_what_does_not_fit() {
    assert_eq!(PrimeFactorCount::new(200).checked_to_num(), Some(200));
    assert_eq!(PrimeFactorCount::empty().checked_to_num(), Some(0));
    assert_eq!(PrimeFactorCount::factorial(20).checked_to_num(), Some(2_432_902_008_176_640_000));
    assert_eq!(PrimeFactorCount::factorial(25).checked_to_num(), None);
    let mut with_zero = PrimeFactorCount::new(6);
    with_zero.factors.insert(0, 1);
    assert_eq!(with_zero.checked_to_num(), None);
}

#[test]
fn equality_compares_primes_and_multiplicities() {
    assert_ne!(PrimeFactorCount::new(12), PrimeFactorCount::new(18));
    assert_ne!(PrimeFactorCount::new(12), PrimeFactorCount::new(6));
    assert_ne!(PrimeFactorCount::new(6), PrimeFactorCount::new(30));
    assert_ne!(PrimeFactorCount::new(10), PrimeFactorCount::new(15));
    assert_eq!(PrimeFactorCount::new(2) * PrimeFactorCount::new(3), PrimeFactorCount::new(6));
}
