//! Sums and searches over plain numbers, most of them built on the sieve, the
//! prime stream, the factorizations and the sequences of this crate.

use crate::collatz::{
    chain_length, has_length, lemma_chain_length, resolves_in_budget, Collatz,
};
use crate::decimal::{
    add_digits, are_digits, decimal_value, digit_sum, digit_sum_of, leading_value,
    lemma_digits_total, lemma_numeral_of, multiply_digits, numeral_of, power_digits,
};
use crate::divisibility::{divides, factorial_of, is_prime};
use crate::exponents::{
    binomial_of, combined_up_to, exp_of, lemma_binomial_by_factorizations,
    lemma_combined_is_factorization, lemma_product_of_factorization, value_of,
};
use crate::fib::{fib, lemma_fib_growth, Fib};
use crate::primes::{is_prime_prefix, PrimeEndless, PrimeFactorCount, PrimeSieve};
use crate::triangle::{triangular, TriangularNumber};
use crate::utils::{
    divisors_of, factor_count, lemma_reversed_digits_bound, proper_divisors, reversed_digits, tens,
    Reversable,
};
use std::collections::HashSet;
use vstd::arithmetic::power::pow;
use vstd::prelude::*;

verus! {

/// The larger of two numbers.
pub open spec fn larger_of(a: int, b: int) -> int {
    if a >= b {
        a
    } else {
        b
    }
}

/// Row `r` of a triangle has `r + 1` numbers.
pub open spec fn is_triangle(rows: Seq<Vec<usize>>) -> bool {
    forall|r: int| 0 <= r < rows.len() ==> (#[trigger] rows[r]).len() == r + 1
}

/// The largest sum along a path that starts at row `r`, column `c` and in
/// each step goes to the same or the next column of the row below, down to
/// the last row.
pub open spec fn path_best(rows: Seq<Vec<usize>>, r: int, c: int) -> int
    decreases rows.len() - r,
{
    if r + 1 >= rows.len() {
        rows[r][c] as int
    } else {
        rows[r][c] + larger_of(path_best(rows, r + 1, c), path_best(rows, r + 1, c + 1))
    }
}

/// The largest sum along a path from the top of the triangle to its last
/// row. The triangle is folded up from below: the last row gives, for each
/// place of the row above, the better of its two continuations.
pub fn max_path_sum(triangle: Vec<Vec<usize>>) -> (best: usize)
    requires
        triangle.len() >= 1,
        is_triangle(triangle@),
        forall|r: int, c: int|
            0 <= r < triangle.len() && 0 <= c <= r ==> #[trigger] path_best(triangle@, r, c)
                <= usize::MAX,
    ensures
        best == path_best(triangle@, 0, 0),
{
    let ghost rows = triangle@;
    let mut triangle = triangle;
    while triangle.len() > 1
        invariant
            1 <= triangle.len() <= rows.len(),
            is_triangle(rows),
            forall|r: int, c: int|
                0 <= r < rows.len() && 0 <= c <= r ==> #[trigger] path_best(rows, r, c)
                    <= usize::MAX,
            forall|r: int| 0 <= r < triangle.len() - 1 ==> #[trigger] triangle[r] == rows[r],
            triangle[triangle.len() - 1].len() == triangle.len(),
            forall|c: int|
                0 <= c < triangle.len() ==> #[trigger] triangle[triangle.len() - 1][c] == path_best(
                    rows,
                    triangle.len() - 1,
                    c,
                ),
        decreases triangle.len(),
    {
        let ghost level = (triangle.len() - 2) as int;
        let top = triangle.pop().unwrap();
        let mut best: Vec<usize> = Vec::new();
        let mut i: usize = 1;
        while i < top.len()
            invariant
                1 <= i <= top.len(),
                best.len() == i - 1,
                forall|c: int|
                    0 <= c < i - 1 ==> #[trigger] best[c] == larger_of(
                        top[c + 1] as int,
                        top[c] as int,
                    ),
            decreases top.len() - i,
        {
            let ahead = top[i];
            let behind = top[i - 1];
            best.push(
                if ahead >= behind {
                    ahead
                } else {
                    behind
                },
            );
            i += 1;
        }
        let next = triangle.pop().unwrap();
        assert(next == rows[level]);
        let mut added: Vec<usize> = Vec::new();
        let mut i: usize = 0;
        while i < next.len() && i < best.len()
            invariant
                i <= next.len(),
                i <= best.len(),
                added.len() == i,
                next == rows[level],
                next.len() == level + 1,
                best.len() == level + 1,
                0 <= level < rows.len() - 1,
                forall|r: int, c: int|
                    0 <= r < rows.len() && 0 <= c <= r ==> #[trigger] path_best(rows, r, c)
                        <= usize::MAX,
                forall|c: int|
                    0 <= c <= level ==> #[trigger] best[c] == larger_of(
                        path_best(rows, level + 1, c + 1),
                        path_best(rows, level + 1, c),
                    ),
                forall|c: int| 0 <= c < i ==> #[trigger] added[c] == path_best(rows, level, c),
            decreases next.len() - i,
        {
            assert(path_best(rows, level, i as int) <= usize::MAX);
            assert(best[i as int] == larger_of(
                path_best(rows, level + 1, i + 1),
                path_best(rows, level + 1, i as int),
            ));
            added.push(next[i] + best[i]);
            i += 1;
        }
        triangle.push(added);
    }
    triangle[0][0]
}

/// `a < b` and `c = total - a - b` are the sides of a right triangle, with
/// `c` positive and different from both.
pub open spec fn is_triplet(total: int, a: int, b: int) -> bool {
    let c = total - a - b;
    &&& 1 <= a < b < total - a
    &&& a != c
    &&& b != c
    &&& a * a + b * b == c * c
}

/// `(a, b)` comes before `(x, y)` in the order of the search.
pub open spec fn searched_before(a: int, b: int, x: int, y: int) -> bool {
    a < x || (a == x && b < y)
}

/// The product `a * b * c` of the first Pythagorean triplet with
/// `a + b + c == total` in the order of the search, which tries `a` from 1
/// up and for each `a` the `b` above it; `None` where there is no triplet.
pub fn triplet_product(total: usize) -> (r: Option<usize>)
    requires
        total * total * total <= usize::MAX,
    ensures
        match r {
            Some(product) => exists|a: int, b: int|
                {
                    &&& #[trigger] is_triplet(total as int, a, b)
                    &&& product == a * b * (total - a - b)
                    &&& forall|x: int, y: int|
                        searched_before(x, y, a, b) ==> !#[trigger] is_triplet(total as int, x, y)
                },
            None => forall|a: int, b: int| !#[trigger] is_triplet(total as int, a, b),
        },
{
    let mut a: usize = 1;
    while a < total
        invariant
            1 <= a,
            total * total * total <= usize::MAX,
            forall|x: int, y: int| x < a ==> !#[trigger] is_triplet(total as int, x, y),
        decreases total - a,
    {
        let mut b: usize = a + 1;
        while b < total - a
            invariant
                1 <= a < b,
                a < total,
                total * total * total <= usize::MAX,
                forall|x: int, y: int|
                    searched_before(x, y, a as int, b as int) ==> !#[trigger] is_triplet(
                        total as int,
                        x,
                        y,
                    ),
            decreases total - b,
        {
            let c = total - a - b;
            assert(a * a + b * b <= total * total * total && c * c <= total * total * total && a
                * b <= total * total * total && a * b * c <= total * total * total)
                by (nonlinear_arith)
                requires
                    1 <= a,
                    1 <= b,
                    1 <= c,
                    a + b + c == total,
            ;
            if a != c && b != c && a * a + b * b == c * c {
                assert(is_triplet(total as int, a as int, b as int));
                return Some(a * b * c);
            }
            b += 1;
        }
        proof {
            assert forall|x: int, y: int| x < a + 1 implies !#[trigger] is_triplet(
                total as int,
                x,
                y,
            ) by {
                if x == a && y < b {
                    assert(searched_before(x, y, a as int, b as int));
                }
            }
        }
        a += 1;
    }
    None
}

/// The sum of the numbers below `below` that 3 or 5 divides.
pub open spec fn multiples_sum(below: nat) -> nat
    decreases below,
{
    if below == 0 {
        0
    } else {
        let n = (below - 1) as nat;
        multiples_sum(n) + if n % 3 == 0 || n % 5 == 0 {
            n
        } else {
            0
        }
    }
}

/// The sum of the multiples of 3 or 5 grows with the bound.
pub proof fn lemma_multiples_sum_monotonic(a: nat, b: nat)
    requires
        a <= b,
    ensures
        multiples_sum(a) <= multiples_sum(b),
    decreases b,
{
    if a < b {
        lemma_multiples_sum_monotonic(a, (b - 1) as nat);
    }
}

/// The sum of the numbers below `below` that 3 or 5 divides.
pub fn sum_of_multiples(below: usize) -> (sum: usize)
    requires
        multiples_sum(below as nat) <= usize::MAX,
    ensures
        sum == multiples_sum(below as nat),
{
    let mut sum: usize = 0;
    let mut n: usize = 0;
    while n < below
        invariant
            n <= below,
            sum == multiples_sum(n as nat),
            multiples_sum(below as nat) <= usize::MAX,
        decreases below - n,
    {
        proof {
            lemma_multiples_sum_monotonic((n + 1) as nat, below as nat);
        }
        if n % 3 == 0 || n % 5 == 0 {
            sum += n;
        }
        n += 1;
    }
    sum
}

/// The sum of the squares `1 * 1 + 2 * 2 + ... + n * n`.
pub open spec fn squares_sum(n: nat) -> nat
    decreases n,
{
    if n == 0 {
        0
    } else {
        squares_sum((n - 1) as nat) + n * n
    }
}

/// The sum of the first `n` squares is at most the square of the sum of the
/// first `n` numbers.
pub proof fn lemma_squares_sum_bound(n: nat)
    ensures
        squares_sum(n) <= triangular(n) * triangular(n),
    decreases n,
{
    if n > 0 {
        let m = (n - 1) as nat;
        lemma_squares_sum_bound(m);
        let t = triangular(m);
        assert((n + t) * (n + t) >= t * t + n * n) by (nonlinear_arith)
            requires
                n >= 0,
                t >= 0,
        ;
    }
}

/// By how much the square of the sum of the numbers from 1 to `n` exceeds
/// the sum of their squares.
pub fn sum_square_difference(n: usize) -> (difference: usize)
    requires
        triangular(n as nat) * triangular(n as nat) <= usize::MAX,
    ensures
        difference == triangular(n as nat) * triangular(n as nat) - squares_sum(n as nat),
{
    let mut sum: usize = 0;
    let mut squares: usize = 0;
    let mut i: usize = 0;
    while i < n
        invariant
            i <= n,
            sum == triangular(i as nat),
            squares == squares_sum(i as nat),
            triangular(n as nat) * triangular(n as nat) <= usize::MAX,
        decreases n - i,
    {
        i += 1;
        proof {
            lemma_squares_sum_bound(i as nat);
            lemma_squares_sum_bound(n as nat);
            lemma_triangular_monotonic(i as nat, n as nat);
            let t = triangular(i as nat);
            let whole = triangular(n as nat);
            assert(t * t <= whole * whole) by (nonlinear_arith)
                requires
                    0 <= t <= whole,
            ;
            assert(t <= t * t) by (nonlinear_arith)
                requires
                    t >= 0,
            ;
        }
        sum += i;
        squares += i * i;
    }
    proof {
        lemma_squares_sum_bound(n as nat);
    }
    sum * sum - squares
}

/// The sum of the primes up to `n`.
pub open spec fn primes_sum(n: nat) -> nat
    decreases n,
{
    if n == 0 {
        0
    } else {
        primes_sum((n - 1) as nat) + if is_prime(n) {
            n
        } else {
            0
        }
    }
}

/// Over a stretch without primes the sum of the primes stays as it is, and
/// it never decreases.
pub proof fn lemma_primes_sum_over_gap(from: nat, to: nat)
    requires
        from <= to,
    ensures
        primes_sum(from) <= primes_sum(to),
        (forall|q: nat| from < q <= to ==> !is_prime(q)) ==> primes_sum(to) == primes_sum(from),
    decreases to,
{
    if from < to {
        lemma_primes_sum_over_gap(from, (to - 1) as nat);
    }
}

/// The sum of the primes up to `n` is at most the sum of all numbers up to
/// `n`: a bound by which a caller can tell that `sum_of_primes` will not
/// overflow.
pub proof fn lemma_primes_sum_bound(n: nat)
    ensures
        primes_sum(n) <= triangular(n),
    decreases n,
{
    if n > 0 {
        lemma_primes_sum_bound((n - 1) as nat);
    }
}

/// The sum of the primes up to `limit`, found with a sieve.
pub fn sum_of_primes(limit: usize) -> (sum: usize)
    requires
        limit < usize::MAX,
        primes_sum(limit as nat) <= usize::MAX,
    ensures
        sum == primes_sum(limit as nat),
{
    let mut sieve = PrimeSieve::new(limit);
    let mut sum: usize = 0;
    loop
        invariant
            sieve.wf(),
            sieve.limit() == limit,
            sieve.cursor() <= limit,
            sum == primes_sum(sieve.cursor()),
            primes_sum(limit as nat) <= usize::MAX,
        decreases limit - sieve.cursor(),
    {
        let ghost reached = sieve.cursor();
        match sieve.next() {
            Some(p) => {
                proof {
                    lemma_primes_sum_over_gap(reached, (p - 1) as nat);
                    lemma_primes_sum_over_gap(p as nat, limit as nat);
                }
                sum += p;
            },
            None => {
                proof {
                    lemma_primes_sum_over_gap(reached, limit as nat);
                }
                return sum;
            },
        }
    }
}

/// The largest prime up to `limit` that divides `num`, found with a sieve;
/// `None` where no prime up to `limit` divides `num`.
pub fn largest_prime_factor(num: usize, limit: usize) -> (r: Option<usize>)
    requires
        limit < usize::MAX,
    ensures
        match r {
            Some(p) => {
                &&& p <= limit
                &&& is_prime(p as nat)
                &&& divides(p as nat, num as nat)
                &&& forall|q: nat|
                    is_prime(q) && p < q <= limit ==> !#[trigger] divides(q, num as nat)
            },
            None => forall|q: nat| is_prime(q) && q <= limit ==> !#[trigger] divides(q, num as nat),
        },
{
    let mut sieve = PrimeSieve::new(limit);
    let mut last: Option<usize> = None;
    loop
        invariant
            sieve.wf(),
            sieve.limit() == limit,
            sieve.cursor() <= limit,
            match last {
                Some(p) => {
                    &&& p <= sieve.cursor()
                    &&& is_prime(p as nat)
                    &&& divides(p as nat, num as nat)
                    &&& forall|q: nat|
                        is_prime(q) && p < q <= sieve.cursor() ==> !#[trigger] divides(
                            q,
                            num as nat,
                        )
                },
                None => forall|q: nat|
                    is_prime(q) && q <= sieve.cursor() ==> !#[trigger] divides(q, num as nat),
            },
        decreases limit - sieve.cursor(),
    {
        match sieve.next() {
            Some(p) => {
                if num % p == 0 {
                    last = Some(p);
                }
            },
            None => {
                return last;
            },
        }
    }
}

/// The sum of the even Fibonacci numbers from the `i`-th on, as long as
/// they stay below `limit`.
pub open spec fn even_fib_sum_from(limit: nat, i: nat) -> nat
    decreases limit + 2 - i,
    via even_fib_sum_terminates
{
    if i >= 1 && fib(i) < limit {
        even_fib_sum_from(limit, i + 1) + if fib(i) % 2 == 0 {
            fib(i)
        } else {
            0
        }
    } else {
        0
    }
}

#[via_fn]
proof fn even_fib_sum_terminates(limit: nat, i: nat) {
    if i >= 1 {
        lemma_fib_growth(i);
    }
}

/// The sum of the even Fibonacci numbers below `limit`.
pub fn even_fibonacci_sum(limit: usize) -> (sum: usize)
    requires
        forall|k: nat| k >= 1 && fib(k) < limit ==> #[trigger] fib(k + 2) <= usize::MAX,
    ensures
        sum == even_fib_sum_from(limit as nat, 1),
{
    let mut start = Fib::new();
    let mut numbers = start.limit(limit);
    let mut sum: usize = 0;
    assert(fib(2) == 1) by {
        assert(fib(2) == fib(1) + fib(0));
    }
    loop
        invariant
            numbers.wf(),
            numbers.bound() == Some(limit),
            forall|k: nat| k >= 1 && fib(k) < limit ==> #[trigger] fib(k + 2) <= usize::MAX,
            numbers.index() >= 1 ==> fib(numbers.index()) < limit,
            sum + 1 <= fib(numbers.index() + 2),
            sum + even_fib_sum_from(limit as nat, numbers.index() + 1) == even_fib_sum_from(
                limit as nat,
                1,
            ),
        decreases limit + 2 - numbers.index(),
    {
        let ghost at = numbers.index();
        proof {
            if at >= 1 {
                lemma_fib_growth(at);
                assert(fib(at + 2) <= usize::MAX);
            }
            lemma_fib_growth(at + 1);
            assert(fib(at + 3) == fib(at + 2) + fib(at + 1));
            if fib(at + 1) < limit {
                assert(fib(at + 1 + 2) <= usize::MAX);
            }
        }
        match numbers.next() {
            Some(value) => {
                if value % 2 == 0 {
                    sum += value;
                }
            },
            None => {
                return sum;
            },
        }
    }
}

/// The requirement of `even_fibonacci_sum` holds for every limit up to a
/// third of the largest `usize`.
pub proof fn lemma_even_fibonacci_sum_fits(limit: nat)
    requires
        limit <= usize::MAX / 3,
    ensures
        forall|k: nat| k >= 1 && fib(k) < limit ==> #[trigger] fib(k + 2) <= usize::MAX,
{
    assert forall|k: nat| k >= 1 && fib(k) < limit implies #[trigger] fib(k + 2) <= usize::MAX by {
        lemma_fib_growth(k);
    }
}

/// `triangular` grows with its index.
pub proof fn lemma_triangular_monotonic(i: nat, j: nat)
    requires
        i <= j,
    ensures
        triangular(i) <= triangular(j),
    decreases j,
{
    if i < j {
        lemma_triangular_monotonic(i, (j - 1) as nat);
    }
}

/// The first triangular number with more than `threshold` divisors; `None`
/// where no triangular number that fits in a `usize` has that many.
pub fn first_triangular_with_divisors(threshold: usize) -> (r: Option<usize>)
    ensures
        match r {
            Some(t) => exists|k: nat|
                {
                    &&& k >= 1
                    &&& t == #[trigger] triangular(k)
                    &&& divisors_of(t as nat).len() > threshold
                    &&& forall|j: nat|
                        1 <= j < k ==> divisors_of(#[trigger] triangular(j)).len() <= threshold
                },
            None => forall|k: nat|
                k >= 1 && #[trigger] triangular(k) <= usize::MAX ==> divisors_of(
                    triangular(k),
                ).len() <= threshold,
        },
{
    let mut numbers = TriangularNumber::new();
    let mut k: usize = 0;
    let mut t: usize = 0;
    loop
        invariant
            numbers.wf(),
            numbers.produced() == k,
            t == triangular(k as nat),
            forall|j: nat| 1 <= j <= k ==> divisors_of(#[trigger] triangular(j)).len() <= threshold,
        decreases usize::MAX - t,
    {
        if k == usize::MAX || t > usize::MAX - (k + 1) {
            proof {
                assert forall|j: nat|
                    j >= 1 && #[trigger] triangular(j) <= usize::MAX implies divisors_of(
                    triangular(j),
                ).len() <= threshold by {
                    if j > k {
                        lemma_triangular_monotonic((k + 1) as nat, j);
                    }
                }
            }
            return None;
        }
        let value = numbers.next().unwrap();
        k += 1;
        t = value;
        if factor_count(t) > threshold {
            return Some(t);
        }
    }
}

/// How many primes there are up to `n`.
pub open spec fn primes_count(n: nat) -> nat
    decreases n,
{
    if n == 0 {
        0
    } else {
        primes_count((n - 1) as nat) + if is_prime(n) {
            1nat
        } else {
            0nat
        }
    }
}

/// Over a stretch without primes the count of the primes stays as it is.
pub proof fn lemma_primes_count_over_gap(from: nat, to: nat)
    requires
        from <= to,
        forall|q: nat| from < q <= to ==> !is_prime(q),
    ensures
        primes_count(to) == primes_count(from),
    decreases to,
{
    if from < to {
        lemma_primes_count_over_gap(from, (to - 1) as nat);
    }
}

/// The prime with exactly `n` primes below it, found by a prime stream that
/// starts from the primes up to `known_up_to`; `None` where that prime does
/// not fit in a `usize`.
pub fn nth_prime(n: usize, known_up_to: usize) -> (r: Option<usize>)
    requires
        2 <= known_up_to < usize::MAX,
    ensures
        match r {
            Some(p) => is_prime(p as nat) && primes_count((p - 1) as nat) == n,
            None => primes_count(usize::MAX as nat) <= n,
        },
{
    let known: Vec<usize> = PrimeSieve::new(known_up_to).collect();
    proof {
        assert(is_prime(2));
        assert(known@.contains(2usize));
        assert(is_prime_prefix(known@));
    }
    let mut primes = PrimeEndless::new().pre_calc(known);
    let mut i: usize = 0;
    loop
        invariant
            primes.wf(),
            i <= n,
            primes_count(primes.floor()) == i,
        decreases n - i,
    {
        let ghost floor = primes.floor();
        match primes.next() {
            Some(p) => {
                proof {
                    lemma_primes_count_over_gap(floor, (p - 1) as nat);
                }
                if i == n {
                    return Some(p);
                }
                i += 1;
            },
            None => {
                proof {
                    lemma_primes_count_over_gap(floor, usize::MAX as nat);
                }
                return None;
            },
        }
    }
}

/// `i <= j` are two factors from `from` up to, but not including, `to`.
pub open spec fn is_factor_pair(i: int, j: int, from: int, to: int) -> bool {
    from <= i <= j < to
}

/// The product of `i` and `j` reads the same in both directions.
pub open spec fn is_palindrome_product(i: int, j: int) -> bool {
    reversed_digits((i * j) as nat) == i * j
}

/// The largest product of two factors from `from` up to, but not including,
/// `to` that reads the same in both directions; `None` where no product
/// does.
pub fn largest_palindrome_product(from: usize, to: usize) -> (r: Option<usize>)
    requires
        forall|i: int, j: int|
            #[trigger] is_factor_pair(i, j, from as int, to as int) ==> i * j <= usize::MAX
                && reversed_digits((i * j) as nat) <= usize::MAX,
    ensures
        match r {
            Some(v) => {
                &&& exists|i: int, j: int|
                    #[trigger] is_factor_pair(i, j, from as int, to as int)
                        && is_palindrome_product(i, j) && v == i * j
                &&& forall|i: int, j: int|
                    #[trigger] is_factor_pair(i, j, from as int, to as int)
                        && is_palindrome_product(i, j) ==> i * j <= v
            },
            None => forall|i: int, j: int|
                #[trigger] is_factor_pair(i, j, from as int, to as int) ==> !is_palindrome_product(
                    i,
                    j,
                ),
        },
{
    let mut best: Option<usize> = None;
    let mut i: usize = from;
    while i < to
        invariant
            from <= i,
            forall|x: int, y: int|
                #[trigger] is_factor_pair(x, y, from as int, to as int) ==> x * y <= usize::MAX
                    && reversed_digits((x * y) as nat) <= usize::MAX,
            match best {
                Some(v) => {
                    &&& exists|x: int, y: int|
                        #[trigger] is_factor_pair(x, y, from as int, to as int)
                            && is_palindrome_product(x, y) && v == x * y
                    &&& forall|x: int, y: int|
                        #[trigger] is_factor_pair(x, y, from as int, to as int) && x < i
                            && is_palindrome_product(x, y) ==> x * y <= v
                },
                None => forall|x: int, y: int|
                    #[trigger] is_factor_pair(x, y, from as int, to as int) && x < i
                        ==> !is_palindrome_product(x, y),
            },
        decreases to - i,
    {
        let mut j: usize = i;
        while j < to
            invariant
                from <= i <= j,
                i < to,
                forall|x: int, y: int|
                    #[trigger] is_factor_pair(x, y, from as int, to as int) ==> x * y <= usize::MAX
                        && reversed_digits((x * y) as nat) <= usize::MAX,
                match best {
                    Some(v) => {
                        &&& exists|x: int, y: int|
                            #[trigger] is_factor_pair(x, y, from as int, to as int)
                                && is_palindrome_product(x, y) && v == x * y
                        &&& forall|x: int, y: int|
                            #[trigger] is_factor_pair(x, y, from as int, to as int) && (x < i || (x
                                == i && y < j)) && is_palindrome_product(x, y) ==> x * y <= v
                    },
                    None => forall|x: int, y: int|
                        #[trigger] is_factor_pair(x, y, from as int, to as int) && (x < i || (x == i
                            && y < j)) ==> !is_palindrome_product(x, y),
                },
            decreases to - j,
        {
            assert(is_factor_pair(i as int, j as int, from as int, to as int));
            let v = i * j;
            if v == v.reverse() {
                let larger = match best {
                    Some(old) => old < v,
                    None => true,
                };
                if larger {
                    best = Some(v);
                }
            }
            j += 1;
        }
        i += 1;
    }
    best
}

/// The requirement of `largest_palindrome_product` holds for factors up to
/// 1000.
pub proof fn lemma_palindrome_products_fit(from: nat, to: nat)
    requires
        to <= 1000,
    ensures
        forall|i: int, j: int|
            #[trigger] is_factor_pair(i, j, from as int, to as int) ==> i * j <= usize::MAX
                && reversed_digits((i * j) as nat) <= usize::MAX,
{
    reveal_with_fuel(tens, 7);
    assert(tens(6) == 1_000_000);
    assert forall|i: int, j: int| #[trigger]
        is_factor_pair(i, j, from as int, to as int) implies i * j <= usize::MAX && reversed_digits(
        (i * j) as nat,
    ) <= usize::MAX by {
        assert(0 <= i * j < 1_000_000) by (nonlinear_arith)
            requires
                0 <= i < 1000,
                0 <= j < 1000,
        ;
        lemma_reversed_digits_bound((i * j) as nat, 6);
    }
}

/// The least common multiple of the numbers from 1 to `n`, found by
/// combining their factorizations: `Some(0)` for `n` below 2, where nothing
/// is combined, and `None` where the multiple does not fit in a `usize`.
pub fn smallest_multiple(n: usize) -> (r: Option<usize>)
    requires
        n < usize::MAX,
    ensures
        match r {
            Some(v) => v == value_of(combined_up_to(n as nat)),
            None => value_of(combined_up_to(n as nat)) > usize::MAX,
        },
{
    let mut acc = PrimeFactorCount::empty();
    let mut i: usize = 0;
    while i < n
        invariant
            i <= n < usize::MAX,
            acc@ == combined_up_to(i as nat),
        decreases n - i,
    {
        i += 1;
        acc = acc.minimal_combine(PrimeFactorCount::new(i));
    }
    proof {
        lemma_combined_is_factorization(n as nat);
    }
    acc.checked_to_num()
}

/// The number of ways to choose `k` out of `n`, found by dividing the
/// factorization of the factorial of `n` by those of the factorials of `k`
/// and of `n - k`. A single way is reported as 0, the number that the empty
/// factorization converts to; `None` means that the number does not fit in
/// a `usize`.
pub fn binomial(n: usize, k: usize) -> (r: Option<usize>)
    requires
        k <= n < usize::MAX,
    ensures
        match r {
            Some(v) => v == if binomial_of(n as nat, k as nat) == 1 {
                0
            } else {
                binomial_of(n as nat, k as nat)
            },
            None => binomial_of(n as nat, k as nat) > usize::MAX,
        },
{
    let top = PrimeFactorCount::factorial(n);
    let b1 = PrimeFactorCount::factorial(k);
    let b2 = PrimeFactorCount::factorial(n - k);
    proof {
        assert forall|p: nat| #[trigger] exp_of(b1@, p) + exp_of(b2@, p) <= usize::MAX by {
            assert(exp_of(b1@, p) <= k);
            assert(exp_of(b2@, p) <= n - k);
        }
        lemma_binomial_by_factorizations(n as nat, k as nat);
    }
    let bottom = b1 * b2;
    match top.checked_div(bottom) {
        Ok(ways) => {
            proof {
                lemma_product_of_factorization(ways@);
            }
            ways.checked_to_num()
        },
        Err(_) => None,
    }
}

/// The product of the `len` numbers from position `i` on.
pub open spec fn run_product(nums: Seq<usize>, i: int, len: nat) -> int
    decreases len,
{
    if len == 0 {
        1
    } else {
        run_product(nums, i, (len - 1) as nat) * nums[i + len - 1]
    }
}

/// The largest product of `span` adjacent numbers over the runs that start
/// at the first `starts` positions; `None` where `starts` is 0.
pub fn largest_adjacent_product(nums: &Vec<usize>, span: usize, starts: usize) -> (r: Option<
    usize,
>)
    requires
        starts == 0 || starts - 1 + span <= nums.len(),
        forall|i: int, len: nat|
            0 <= i < starts && len <= span ==> #[trigger] run_product(nums@, i, len) <= usize::MAX,
    ensures
        match r {
            Some(v) => {
                &&& exists|i: int|
                    0 <= i < starts && #[trigger] run_product(nums@, i, span as nat) == v
                &&& forall|i: int|
                    0 <= i < starts ==> #[trigger] run_product(nums@, i, span as nat) <= v
            },
            None => starts == 0,
        },
{
    let mut best: Option<usize> = None;
    let mut i: usize = 0;
    while i < starts
        invariant
            i <= starts,
            starts == 0 || starts - 1 + span <= nums.len(),
            forall|a: int, len: nat|
                0 <= a < starts && len <= span ==> #[trigger] run_product(nums@, a, len)
                    <= usize::MAX,
            match best {
                Some(v) => {
                    &&& exists|a: int|
                        0 <= a < starts && #[trigger] run_product(nums@, a, span as nat) == v
                    &&& forall|a: int|
                        0 <= a < i ==> #[trigger] run_product(nums@, a, span as nat) <= v
                },
                None => i == 0,
            },
        decreases starts - i,
    {
        let mut item: usize = 1;
        let mut k: usize = 0;
        while k < span
            invariant
                k <= span,
                i < starts,
                starts - 1 + span <= nums.len(),
                forall|a: int, len: nat|
                    0 <= a < starts && len <= span ==> #[trigger] run_product(nums@, a, len)
                        <= usize::MAX,
                item == run_product(nums@, i as int, k as nat),
            decreases span - k,
        {
            assert(run_product(nums@, i as int, (k + 1) as nat) <= usize::MAX);
            item = item * nums[i + k];
            k += 1;
        }
        let larger = match best {
            Some(old) => old < item,
            None => true,
        };
        if larger {
            best = Some(item);
        }
        i += 1;
    }
    best
}

/// The start below `below` with the longest chain under "halve or triple
/// and add 1", the smallest such start where several share the length, and
/// 0 where there is no start at all. `None` means that some chain did not
/// reach 1 within `budget` numbers that fit in a `u128`.
pub fn longest_chain_start(below: u128, budget: usize) -> (r: Option<u128>)
    ensures
        match r {
            Some(n) => if below <= 1 {
                n == 0
            } else {
                &&& 1 <= n < below
                &&& forall|i: u128|
                    1 <= i < below ==> {
                        &&& has_length(i as nat, #[trigger] chain_length(i as nat))
                        &&& chain_length(i as nat) <= chain_length(n as nat)
                        &&& i < n ==> chain_length(i as nat) < chain_length(n as nat)
                    }
            },
            None => exists|i: u128|
                1 <= i < below && !#[trigger] resolves_in_budget(i as nat, budget as nat),
        },
{
    let mut cache = Collatz::new();
    let mut best: u128 = 0;
    let mut longest: u128 = 0;
    let mut i: u128 = 1;
    while i < below
        invariant
            1 <= i,
            cache.wf(),
            i == 1 ==> best == 0 && longest == 0,
            i > 1 ==> 1 <= best < i && best < below && longest == chain_length(best as nat),
            forall|j: u128|
                1 <= j < i ==> {
                    &&& has_length(j as nat, #[trigger] chain_length(j as nat))
                    &&& chain_length(j as nat) <= longest
                    &&& j < best ==> chain_length(j as nat) < longest
                },
        decreases below - i,
    {
        let length = match chain_length_of(&mut cache, i, budget) {
            Some(length) => length,
            None => {
                return None;
            },
        };
        if length > longest {
            best = i;
            longest = length;
        }
        i += 1;
    }
    Some(best)
}

/// The length of the chain from `n`, looked up or found by `cache`; `None`
/// where the chain does not reach 1 within `budget` numbers.
fn chain_length_of(cache: &mut Collatz, n: u128, budget: usize) -> (r: Option<u128>)
    requires
        old(cache).wf(),
    ensures
        final(cache).wf(),
        match r {
            Some(length) => has_length(n as nat, length as nat) && length == chain_length(n as nat),
            None => !resolves_in_budget(n as nat, budget as nat),
        },
{
    if !Collatz::resolves(n, budget) {
        return None;
    }
    let length = cache.collatz(n);
    proof {
        lemma_chain_length(n as nat, length as nat);
    }
    Some(length)
}

/// The letters of a name count by their place in the alphabet: code 65,
/// the letter A, counts 1.
pub open spec fn letters_sum(codes: Seq<usize>) -> int
    decreases codes.len(),
{
    if codes.len() == 0 {
        0
    } else {
        letters_sum(codes.drop_last()) + codes.last() - 64
    }
}

/// The scores of the first `count` names together: each name's letters,
/// times its place in the list, counted from 1.
pub open spec fn scores_sum(names: Seq<Vec<usize>>, count: nat) -> int
    decreases count,
{
    if count == 0 {
        0
    } else {
        scores_sum(names, (count - 1) as nat) + letters_sum(names[count - 1]@) * count
    }
}

/// No code of any name is below 64.
pub open spec fn are_letter_codes(names: Seq<Vec<usize>>) -> bool {
    forall|i: int, j: int|
        0 <= i < names.len() && 0 <= j < names[i].len() ==> #[trigger] names[i][j] >= 64
}

/// The letter sums are not negative and grow with the name.
proof fn lemma_letters_sum_grows(codes: Seq<usize>, k: int)
    requires
        0 <= k <= codes.len(),
        forall|j: int| 0 <= j < codes.len() ==> #[trigger] codes[j] >= 64,
    ensures
        0 <= letters_sum(codes.take(k)) <= letters_sum(codes),
    decreases codes.len() - k,
{
    if k < codes.len() {
        lemma_letters_sum_grows(codes, k + 1);
        assert(codes.take(k + 1).drop_last() =~= codes.take(k));
        lemma_letters_sum_nonnegative(codes.take(k));
    } else {
        assert(codes.take(k) =~= codes);
        lemma_letters_sum_nonnegative(codes);
    }
}

/// The letter sum of codes from 64 on is not negative.
proof fn lemma_letters_sum_nonnegative(codes: Seq<usize>)
    requires
        forall|j: int| 0 <= j < codes.len() ==> #[trigger] codes[j] >= 64,
    ensures
        0 <= letters_sum(codes),
    decreases codes.len(),
{
    if codes.len() > 0 {
        lemma_letters_sum_nonnegative(codes.drop_last());
    }
}

/// The scores are not negative and grow with the count of names.
proof fn lemma_scores_sum_grows(names: Seq<Vec<usize>>, i: nat, count: nat)
    requires
        i <= count <= names.len(),
        are_letter_codes(names),
    ensures
        0 <= scores_sum(names, i) <= scores_sum(names, count),
        i < count ==> letters_sum(names[i as int]@) * (i + 1) <= scores_sum(names, count),
    decreases count,
{
    if count > 0 {
        let last = names[count - 1]@;
        assert forall|j: int| 0 <= j < last.len() implies #[trigger] last[j] >= 64 by {
            assert(names[count - 1][j] >= 64);
        }
        lemma_letters_sum_nonnegative(last);
        assert(letters_sum(last) * count >= 0) by (nonlinear_arith)
            requires
                letters_sum(last) >= 0,
                count >= 0,
        ;
        if i < count {
            lemma_scores_sum_grows(names, i, (count - 1) as nat);
        }
        lemma_scores_sum_grows(names, 0, (count - 1) as nat);
    }
}

/// The total of the name scores: each name's letters, counted by their
/// place in the alphabet, times the name's place in the list.
pub fn name_scores(names: &Vec<Vec<usize>>) -> (total: usize)
    requires
        are_letter_codes(names@),
        scores_sum(names@, names.len() as nat) <= usize::MAX,
    ensures
        total == scores_sum(names@, names.len() as nat),
{
    let mut total: usize = 0;
    let mut i: usize = 0;
    while i < names.len()
        invariant
            i <= names.len(),
            are_letter_codes(names@),
            scores_sum(names@, names.len() as nat) <= usize::MAX,
            total == scores_sum(names@, i as nat),
        decreases names.len() - i,
    {
        let name = &names[i];
        let ghost codes = name@;
        let mut letters: usize = 0;
        let mut j: usize = 0;
        proof {
            assert forall|k: int| 0 <= k < codes.len() implies #[trigger] codes[k] >= 64 by {
                assert(names@[i as int][k] >= 64);
            }
            lemma_scores_sum_grows(names@, i as nat, names.len() as nat);
            lemma_scores_sum_grows(names@, (i + 1) as nat, names.len() as nat);
            lemma_letters_sum_nonnegative(codes);
            assert(letters_sum(codes) <= letters_sum(codes) * (i + 1)) by (nonlinear_arith)
                requires
                    letters_sum(codes) >= 0,
                    i >= 0,
            ;
            assert(codes.take(0) =~= Seq::<usize>::empty());
        }
        while j < name.len()
            invariant
                j <= name.len(),
                codes == name@,
                forall|k: int| 0 <= k < codes.len() ==> #[trigger] codes[k] >= 64,
                letters_sum(codes) <= usize::MAX,
                letters == letters_sum(codes.take(j as int)),
            decreases name.len() - j,
        {
            proof {
                lemma_letters_sum_grows(codes, j + 1);
                assert(codes.take(j + 1).drop_last() =~= codes.take(j as int));
            }
            letters += name[j] - 64;
            j += 1;
        }
        proof {
            assert(codes.take(codes.len() as int) =~= codes);
        }
        total += letters * (i + 1);
        i += 1;
    }
    total
}

/// `x` counts among the proper divisors of `n`: it divides `n` and is not
/// `n` itself, except that 1 counts for 1.
pub open spec fn is_listed_divisor(n: nat, x: nat) -> bool {
    divisors_of(n).contains(x) && (x != n || n == 1)
}

/// The sum of the proper divisors of `n` up to `k`.
pub open spec fn listed_sum_up_to(n: nat, k: nat) -> nat
    decreases k,
{
    if k == 0 {
        0
    } else {
        listed_sum_up_to(n, (k - 1) as nat) + if is_listed_divisor(n, k) {
            k
        } else {
            0
        }
    }
}

/// The sum of the proper divisors of `n`.
pub open spec fn divisor_sum(n: nat) -> nat {
    listed_sum_up_to(n, n)
}

/// The sum of the numbers of a list.
pub open spec fn seq_sum(s: Seq<usize>) -> int
    decreases s.len(),
{
    if s.len() == 0 {
        0
    } else {
        seq_sum(s.drop_last()) + s.last()
    }
}

/// The sum of the proper divisors up to `k` is at most the sum of all
/// numbers up to `k`: a bound by which a caller can tell that the sums of
/// divisors will not overflow.
pub proof fn lemma_listed_sum_bound(n: nat, k: nat)
    ensures
        listed_sum_up_to(n, k) <= triangular(k),
    decreases k,
{
    if k > 0 {
        lemma_listed_sum_bound(n, (k - 1) as nat);
    }
}

/// Taking one number out of a list lowers the sum by that number.
proof fn lemma_seq_sum_remove(s: Seq<usize>, at: int)
    requires
        0 <= at < s.len(),
    ensures
        seq_sum(s) == seq_sum(s.remove(at)) + s[at],
    decreases s.len(),
{
    if at == s.len() - 1 {
        assert(s.remove(at) =~= s.drop_last());
    } else {
        lemma_seq_sum_remove(s.drop_last(), at);
        assert(s.remove(at).drop_last() =~= s.drop_last().remove(at));
        assert(s.remove(at).last() == s.last());
    }
}

/// The sum of a leading part of a list is at most the sum of the list.
proof fn lemma_seq_sum_grows(s: Seq<usize>, k: int)
    requires
        0 <= k <= s.len(),
    ensures
        0 <= seq_sum(s.take(k)) <= seq_sum(s),
    decreases s.len() - k,
{
    if k < s.len() {
        lemma_seq_sum_grows(s, k + 1);
        assert(s.take(k + 1).drop_last() =~= s.take(k));
    } else {
        assert(s.take(k) =~= s);
    }
    lemma_seq_sum_nonnegative(s.take(k));
}

/// The sum of a list is not negative.
proof fn lemma_seq_sum_nonnegative(s: Seq<usize>)
    ensures
        0 <= seq_sum(s),
    decreases s.len(),
{
    if s.len() > 0 {
        lemma_seq_sum_nonnegative(s.drop_last());
    }
}

/// A list that holds each proper divisor of `n` up to `k` once, and nothing
/// else, sums up to `listed_sum_up_to`.
proof fn lemma_sum_of_listing(s: Seq<usize>, n: nat, k: nat)
    requires
        k <= usize::MAX,
        s.no_duplicates(),
        forall|x: usize| #[trigger] s.contains(x) <==> is_listed_divisor(n, x as nat) && x <= k,
    ensures
        seq_sum(s) == listed_sum_up_to(n, k),
    decreases k,
{
    if k == 0 {
        if s.len() > 0 {
            assert(s.contains(s[0]));
        }
    } else if is_listed_divisor(n, k) {
        let w = k as usize;
        assert(s.contains(w));
        let at = choose|at: int| 0 <= at < s.len() && s[at] == w;
        let rest = s.remove(at);
        lemma_seq_sum_remove(s, at);
        assert(rest.no_duplicates()) by {
            assert forall|a: int, b: int| 0 <= a < b < rest.len() implies rest[a] != rest[b] by {
                let a0 = if a < at {
                    a
                } else {
                    a + 1
                };
                let b0 = if b < at {
                    b
                } else {
                    b + 1
                };
                assert(rest[a] == s[a0] && rest[b] == s[b0]);
            }
        }
        assert forall|x: usize| #[trigger]
            rest.contains(x) <==> is_listed_divisor(n, x as nat) && x <= k - 1 by {
            if rest.contains(x) {
                let a = choose|a: int| 0 <= a < rest.len() && rest[a] == x;
                let a0 = if a < at {
                    a
                } else {
                    a + 1
                };
                assert(s[a0] == x);
                assert(s.contains(x));
            }
            if is_listed_divisor(n, x as nat) && x <= k - 1 {
                assert(s.contains(x));
                let a0 = choose|a0: int| 0 <= a0 < s.len() && s[a0] == x;
                let a = if a0 < at {
                    a0
                } else {
                    a0 - 1
                };
                assert(rest[a] == x);
            }
        }
        lemma_sum_of_listing(rest, n, (k - 1) as nat);
    } else {
        assert forall|x: usize| #[trigger]
            s.contains(x) <==> is_listed_divisor(n, x as nat) && x <= k - 1 by {
            if s.contains(x) {
                assert(is_listed_divisor(n, x as nat) && x <= k);
            }
        }
        lemma_sum_of_listing(s, n, (k - 1) as nat);
    }
}

/// The sum of the proper divisors of `n`.
pub fn sum_of_proper_divisors(n: usize) -> (sum: usize)
    requires
        divisor_sum(n as nat) <= usize::MAX,
    ensures
        sum == divisor_sum(n as nat),
{
    let divisors = proper_divisors(n);
    let mut sum: usize = 0;
    let mut i: usize = 0;
    proof {
        assert forall|x: usize| #[trigger]
            divisors@.contains(x) <==> is_listed_divisor(n as nat, x as nat) && x <= n by {}
        lemma_sum_of_listing(divisors@, n as nat, n as nat);
        assert(divisors@.take(0) =~= Seq::<usize>::empty());
    }
    while i < divisors.len()
        invariant
            i <= divisors.len(),
            seq_sum(divisors@) <= usize::MAX,
            sum == seq_sum(divisors@.take(i as int)),
        decreases divisors.len() - i,
    {
        proof {
            lemma_seq_sum_grows(divisors@, i + 1);
            assert(divisors@.take(i + 1).drop_last() =~= divisors@.take(i as int));
        }
        sum += divisors[i];
        i += 1;
    }
    proof {
        assert(divisors@.take(divisors.len() as int) =~= divisors@);
    }
    sum
}

/// `i` and the sum of its proper divisors are two different numbers, each
/// the sum of the proper divisors of the other, and that sum is below
/// `below`.
pub open spec fn is_amicable_below(i: nat, below: nat) -> bool {
    let partner = divisor_sum(i);
    partner < below && partner != i && divisor_sum(partner) == i
}

/// The sum of the numbers from 1 up to, but not including, `k` that are
/// amicable below `below`.
pub open spec fn amicable_sum_up_to(below: nat, k: nat) -> nat
    decreases k,
{
    if k <= 1 {
        0
    } else {
        let i = (k - 1) as nat;
        amicable_sum_up_to(below, i) + if is_amicable_below(i, below) {
            i
        } else {
            0
        }
    }
}

/// The sum of the amicable numbers grows with the bound of the sum, and it
/// is at most the sum of all numbers below that bound.
pub proof fn lemma_amicable_sum_monotonic(below: nat, a: nat, b: nat)
    requires
        a <= b,
    ensures
        amicable_sum_up_to(below, a) <= amicable_sum_up_to(below, b),
        amicable_sum_up_to(below, b) <= triangular(b),
    decreases b,
{
    if a < b {
        lemma_amicable_sum_monotonic(below, a, (b - 1) as nat);
    } else if b > 0 {
        lemma_amicable_sum_monotonic(below, (b - 1) as nat, (b - 1) as nat);
    }
}

/// The sum of the amicable numbers below `below`.
pub fn amicable_sum(below: usize) -> (sum: usize)
    requires
        forall|i: nat| i < below ==> #[trigger] divisor_sum(i) <= usize::MAX,
        amicable_sum_up_to(below as nat, below as nat) <= usize::MAX,
    ensures
        sum == amicable_sum_up_to(below as nat, below as nat),
{
    let mut sum: usize = 0;
    let mut i: usize = 1;
    if below <= 1 {
        return 0;
    }
    while i < below
        invariant
            1 <= i <= below,
            forall|k: nat| k < below ==> #[trigger] divisor_sum(k) <= usize::MAX,
            amicable_sum_up_to(below as nat, below as nat) <= usize::MAX,
            sum == amicable_sum_up_to(below as nat, i as nat),
        decreases below - i,
    {
        proof {
            lemma_amicable_sum_monotonic(below as nat, (i + 1) as nat, below as nat);
            assert(divisor_sum(i as nat) <= usize::MAX);
        }
        let div_sum = sum_of_proper_divisors(i);
        let amicable = if div_sum < below && i != div_sum {
            assert(divisor_sum(div_sum as nat) <= usize::MAX);
            sum_of_proper_divisors(div_sum) == i
        } else {
            false
        };
        if amicable {
            sum += i;
        }
        i += 1;
    }
    sum
}

/// The proper divisors of `n` sum up to more than `n`.
pub open spec fn is_abundant(n: nat) -> bool {
    divisor_sum(n) > n
}

/// `i` is the sum of two abundant numbers.
pub open spec fn is_abundant_pair_sum(i: nat) -> bool {
    exists|j: nat| 1 <= j < i && #[trigger] is_abundant(j) && is_abundant((i - j) as nat)
}

/// The sum of the numbers from 1 to `k` that are not the sum of two abundant
/// numbers.
pub open spec fn non_abundant_sum_up_to(k: nat) -> nat
    decreases k,
{
    if k == 0 {
        0
    } else {
        non_abundant_sum_up_to((k - 1) as nat) + if is_abundant_pair_sum(k) {
            0
        } else {
            k
        }
    }
}

/// The sum of the numbers that are not the sum of two abundant numbers
/// grows with its bound, and it is at most the sum of all numbers up to
/// that bound.
pub proof fn lemma_non_abundant_sum_monotonic(a: nat, b: nat)
    requires
        a <= b,
    ensures
        non_abundant_sum_up_to(a) <= non_abundant_sum_up_to(b),
        non_abundant_sum_up_to(b) <= triangular(b),
    decreases b,
{
    if a < b {
        lemma_non_abundant_sum_monotonic(a, (b - 1) as nat);
    } else if b > 0 {
        lemma_non_abundant_sum_monotonic((b - 1) as nat, (b - 1) as nat);
    }
}

/// The sum of the numbers from 1 to `limit` that are not the sum of two
/// abundant numbers.
pub fn non_abundant_sum(limit: usize) -> (sum: usize)
    requires
        limit < usize::MAX,
        forall|i: nat| i <= limit ==> #[trigger] divisor_sum(i) <= usize::MAX,
        non_abundant_sum_up_to(limit as nat) <= usize::MAX,
    ensures
        sum == non_abundant_sum_up_to(limit as nat),
{
    let mut abundants: HashSet<usize> = HashSet::new();
    let mut listed: Vec<usize> = Vec::new();
    let mut i: usize = 1;
    while i <= limit
        invariant
            1 <= i <= limit + 1,
            limit < usize::MAX,
            forall|k: nat| k <= limit ==> #[trigger] divisor_sum(k) <= usize::MAX,
            forall|x: usize| #[trigger]
                abundants@.contains(x) <==> 1 <= x < i && is_abundant(x as nat),
            forall|x: usize| #[trigger]
                listed@.contains(x) <==> 1 <= x < i && is_abundant(x as nat),
        decreases limit + 1 - i,
    {
        let ghost before = listed@;
        assert(divisor_sum(i as nat) <= usize::MAX);
        if sum_of_proper_divisors(i) > i {
            abundants.insert(i);
            listed.push(i);
            proof {
                assert(listed@[before.len() as int] == i);
                assert forall|x: usize| #[trigger]
                    listed@.contains(x) <==> 1 <= x < i + 1 && is_abundant(x as nat) by {
                    if listed@.contains(x) {
                        let at = choose|at: int| 0 <= at < listed@.len() && listed@[at] == x;
                        if at < before.len() {
                            assert(before[at] == x);
                            assert(before.contains(x));
                        }
                    }
                    if 1 <= x < i && is_abundant(x as nat) {
                        assert(before.contains(x));
                        let at = choose|at: int| 0 <= at < before.len() && before[at] == x;
                        assert(listed@[at] == x);
                    }
                }
            }
        }
        i += 1;
    }
    let mut sum: usize = 0;
    let mut i: usize = 1;
    while i <= limit
        invariant
            1 <= i <= limit + 1,
            limit < usize::MAX,
            non_abundant_sum_up_to(limit as nat) <= usize::MAX,
            forall|x: usize| #[trigger]
                abundants@.contains(x) <==> 1 <= x <= limit && is_abundant(x as nat),
            forall|x: usize| #[trigger]
                listed@.contains(x) <==> 1 <= x <= limit && is_abundant(x as nat),
            sum == non_abundant_sum_up_to((i - 1) as nat),
        decreases limit + 1 - i,
    {
        let mut found = false;
        let mut k: usize = 0;
        while k < listed.len() && !found
            invariant
                k <= listed.len(),
                1 <= i <= limit,
                forall|x: usize| #[trigger]
                    abundants@.contains(x) <==> 1 <= x <= limit && is_abundant(x as nat),
                forall|x: usize| #[trigger]
                    listed@.contains(x) <==> 1 <= x <= limit && is_abundant(x as nat),
                found ==> is_abundant_pair_sum(i as nat),
                !found ==> forall|a: int|
                    0 <= a < k ==> !(#[trigger] listed[a] < i && is_abundant(
                        (i - listed[a]) as nat,
                    )),
            decreases listed.len() - k + if found { 0int } else { 1int },
        {
            let j = listed[k];
            assert(listed@.contains(j));
            if i > j && abundants.contains(&(i - j)) {
                assert(is_abundant(j as nat) && is_abundant((i - j) as nat));
                found = true;
            }
            k += 1;
        }
        proof {
            if !found {
                assert forall|j: nat| 1 <= j < i && #[trigger] is_abundant(j) implies !is_abundant(
                    (i - j) as nat,
                ) by {
                    let w = j as usize;
                    assert(listed@.contains(w));
                    let a = choose|a: int| 0 <= a < listed@.len() && listed@[a] == w;
                    assert(!(listed[a] < i && is_abundant((i - listed[a]) as nat)));
                }
            }
            lemma_non_abundant_sum_monotonic(i as nat, limit as nat);
        }
        if !found {
            sum += i;
        }
        i += 1;
    }
    sum
}

/// The sum of the decimal digits of `base` to the power `exp`, or `None`
/// where the sum does not fit in a `usize`.
pub fn power_digit_sum(base: usize, exp: usize) -> (r: Option<usize>)
    ensures
        match r {
            Some(sum) => sum == digit_sum_of(pow(base as int, exp as nat) as nat),
            None => digit_sum_of(pow(base as int, exp as nat) as nat) > usize::MAX,
        },
{
    let digits = power_digits(base, exp);
    proof {
        lemma_numeral_of(pow(base as int, exp as nat) as nat);
        lemma_digits_total(digits@);
    }
    digit_sum(&digits)
}

/// The sum of the decimal digits of the factorial of `n`, or `None` where
/// the sum does not fit in a `usize`.
pub fn factorial_digit_sum(n: usize) -> (r: Option<usize>)
    ensures
        match r {
            Some(sum) => sum == digit_sum_of(factorial_of(n as nat)),
            None => digit_sum_of(factorial_of(n as nat)) > usize::MAX,
        },
{
    let mut acc: Vec<u8> = vec![1];
    let mut i: usize = 0;
    proof {
        assert(acc@ =~= numeral_of(1)) by {
            reveal_with_fuel(crate::decimal::leading_digits, 2);
        }
    }
    while i < n
        invariant
            i <= n,
            acc@ == numeral_of(factorial_of(i as nat)),
        decreases n - i,
    {
        i += 1;
        proof {
            let before = factorial_of((i - 1) as nat);
            lemma_numeral_of(before);
            assert(before * i == i * before) by (nonlinear_arith);
        }
        acc = multiply_digits(&acc, i);
    }
    proof {
        lemma_numeral_of(factorial_of(n as nat));
        lemma_digits_total(acc@);
    }
    digit_sum(&acc)
}

/// The sum of the first `count` numbers, each given by its digits.
pub open spec fn values_sum(numbers: Seq<Vec<u8>>, count: nat) -> nat
    decreases count,
{
    if count == 0 {
        0
    } else {
        values_sum(numbers, (count - 1) as nat) + decimal_value(numbers[count - 1]@)
    }
}

/// What the first `count` digits of the sum of the numbers spell, or `None`
/// where the sum has fewer digits or the result does not fit in a `usize`.
pub fn leading_digits_of_sum(numbers: &Vec<Vec<u8>>, count: usize) -> (r: Option<usize>)
    requires
        forall|i: int| 0 <= i < numbers.len() ==> are_digits(#[trigger] numbers[i]@),
    ensures
        ({
            let numeral = numeral_of(values_sum(numbers@, numbers.len() as nat));
            match r {
                Some(v) => count <= numeral.len() && v == decimal_value(numeral.take(count as int)),
                None => count > numeral.len() || decimal_value(numeral.take(count as int))
                    > usize::MAX,
            }
        }),
{
    let mut sum: Vec<u8> = vec![0];
    let mut i: usize = 0;
    assert(sum@ =~= numeral_of(0));
    while i < numbers.len()
        invariant
            i <= numbers.len(),
            forall|k: int| 0 <= k < numbers.len() ==> are_digits(#[trigger] numbers[k]@),
            sum@ == numeral_of(values_sum(numbers@, i as nat)),
        decreases numbers.len() - i,
    {
        proof {
            lemma_numeral_of(values_sum(numbers@, i as nat));
            assert(are_digits(numbers[i as int]@));
        }
        sum = add_digits(&sum, &numbers[i]);
        i += 1;
    }
    leading_value(&sum, count)
}

/// The place of the first Fibonacci number whose numeral has `length`
/// digits, counting the places from 1; `None` where no place that fits in a
/// `usize` holds such a number.
pub fn first_fibonacci_with_digits(length: usize) -> (r: Option<usize>)
    ensures
        match r {
            Some(k) => {
                &&& k >= 1
                &&& numeral_of(fib(k as nat)).len() == length
                &&& forall|j: nat| 1 <= j < k ==> numeral_of(#[trigger] fib(j)).len() != length
            },
            None => forall|j: nat|
                1 <= j <= usize::MAX ==> numeral_of(#[trigger] fib(j)).len() != length,
        },
{
    let mut a: Vec<u8> = vec![0];
    let mut b: Vec<u8> = vec![1];
    let mut index: usize = 0;
    proof {
        assert(a@ =~= numeral_of(0));
        assert(b@ =~= numeral_of(1)) by {
            reveal_with_fuel(crate::decimal::leading_digits, 2);
        }
    }
    while index < usize::MAX
        invariant
            a@ == numeral_of(fib(index as nat)),
            b@ == numeral_of(fib((index + 1) as nat)),
            forall|j: nat| 1 <= j <= index ==> numeral_of(#[trigger] fib(j)).len() != length,
        decreases usize::MAX - index,
    {
        proof {
            lemma_numeral_of(fib(index as nat));
            lemma_numeral_of(fib((index + 1) as nat));
            assert(fib((index + 2) as nat) == fib((index + 1) as nat) + fib(index as nat));
        }
        let c = add_digits(&a, &b);
        a = b;
        b = c;
        index += 1;
        if a.len() == length {
            return Some(index);
        }
    }
    None
}

} // verus!
