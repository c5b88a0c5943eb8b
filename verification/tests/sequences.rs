use numkit::fib::Fib;
use numkit::triangle::TriangularNumber;

#[test]
fn fibonacci_numbers_start_with_one_one_two() {
    let mut fib = Fib::new();
    let mut seen = Vec::new();
    for _ in 0..10 {
        seen.push(fib.next().unwrap());
    }
    assert_eq!(seen, vec![1, 1, 2, 3, 5, 8, 13, 21, 34, 55]);
}

#[test]
fn limited_fibonacci_numbers_stop_below_the_limit() {
    let mut fib = Fib::new().limit(10);
    let mut seen = Vec::new();
    while let Some(value) = fib.next() {
        seen.push(value);
    }
    assert_eq!(seen, vec![1, 1, 2, 3, 5, 8]);
}

#[test]
fn limit_itself_is_not_produced() {
    let mut fib = Fib::new().limit(8);
    let mut seen = Vec::new();
    while let Some(value) = fib.next() {
        seen.push(value);
    }
    assert_eq!(seen, vec![1, 1, 2, 3, 5]);
}

#[test]
fn limit_keeps_the_position() {
    let mut fib = Fib::new();
    assert_eq!(fib.next(), Some(1));
    assert_eq!(fib.next(), Some(1));
    assert_eq!(fib.next(), Some(2));
    let mut limited = fib.limit(20);
    assert_eq!(limited.next(), Some(3));
    assert_eq!(fib.next(), Some(3));
}

#[test]
fn even_fibonacci_numbers_below_four_million() {
    let mut fib = Fib::new().limit(4_000_000);
    let mut sum = 0;
    while let Some(value) = fib.next() {
        if value % 2 == 0 {
            sum += value;
        }
    }
    assert_eq!(sum, 4_613_732);
}

#[test]
fn triangular_numbers_start_with_one_three_six() {
    let mut tri = TriangularNumber::new();
    let mut seen = Vec::new();
    for _ in 0..7 {
        seen.push(tri.next().unwrap());
    }
    assert_eq!(seen, vec![1, 3, 6, 10, 15, 21, 28]);
}

#[test]
fn hundredth_triangular_number() {
    let mut tri = TriangularNumber::new();
    let mut last = 0;
    for _ in 0..100 {
        last = tri.next().unwrap();
    }
    assert_eq!(last, 5050);
}
