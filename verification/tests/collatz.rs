use numkit::collatz::Collatz;

#[test]
fn builds_collatz_with_cache() {
    let mut c = Collatz::new();
    assert_eq!(c.len(), 0);

    let expected = 10;
    let result = c.collatz(13);
    assert_eq!(expected, result);
    assert!(c.len() > 0);

    let expected = 26;
    let result = c.collatz(100);
    assert_eq!(expected, result);
}

#[test]
fn chain_of_one_has_length_one() {
    let mut c = Collatz::new();
    assert_eq!(c.collatz(1), 1);
    assert_eq!(c.len(), 1);
    assert_eq!(c.collatz(1), 1);
    assert_eq!(c.len(), 1);
}

#[test]
fn chain_lengths_follow_the_step_rule() {
    let mut c = Collatz::new();
    assert_eq!(c.collatz(2), 2);
    assert_eq!(c.collatz(4), 3);
    assert_eq!(c.collatz(8), 4);
    assert_eq!(c.collatz(3), 8);
    assert_eq!(c.collatz(6), 9);
    assert_eq!(c.collatz(7), 17);
    assert_eq!(c.collatz(27), 112);
}

#[test]
fn every_number_on_the_way_is_stored() {
    let mut c = Collatz::new();
    assert_eq!(c.collatz(13), 10);
    assert_eq!(c.len(), 10);
    assert_eq!(c.collatz(40), 9);
    assert_eq!(c.collatz(5), 6);
    assert_eq!(c.collatz(16), 5);
    assert_eq!(c.len(), 10);
    assert_eq!(c.collatz(26), 11);
    assert_eq!(c.len(), 11);
}

#[test]
fn repeated_queries_leave_the_cache_as_it_is() {
    let mut c = Collatz::new();
    let first = c.collatz(13);
    let size = c.len();
    let second = c.collatz(13);
    assert_eq!(first, second);
    assert_eq!(c.len(), size);
    let hundred = c.collatz(100);
    assert!(c.len() >= size);
    let grown = c.len();
    assert_eq!(c.collatz(100), hundred);
    assert_eq!(c.collatz(13), first);
    assert_eq!(c.len(), grown);
}

#[test]
fn longest_chain_below_ten_thousand() {
    let mut c = Collatz::new();
    let mut best = (0, 0);
    for i in 1..10_000u128 {
        let length = c.collatz(i);
        if length > best.1 {
            best = (i, length);
        }
    }
    assert_eq!(best, (6171, 262));
}

#[test]
fn a_chain_that_fits_is_recognized() {
    assert!(Collatz::resolves(1, 1));
    assert!(Collatz::resolves(13, 10));
    assert!(!Collatz::resolves(13, 9));
    assert!(Collatz::resolves(27, 200));
    assert!(!Collatz::resolves(0, 1000));
    assert!(!Collatz::resolves(u128::MAX, 1000));
}
