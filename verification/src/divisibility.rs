//! Divisibility and primality over the natural numbers, with the lemmas the
//! sieve, the prime stream and the factorization type are proved from.

use vstd::arithmetic::div_mod::{
    lemma_div_is_strictly_smaller, lemma_fundamental_div_mod,
    lemma_fundamental_div_mod_converse, lemma_mod_multiples_basic, lemma_small_mod,
};
use vstd::prelude::*;

verus! {

/// `d` divides `n`: `d` is nonzero and leaves no remainder.
pub open spec fn divides(d: nat, n: nat) -> bool {
    d != 0 && n % d == 0
}

/// `n` is a prime number.
pub open spec fn is_prime(n: nat) -> bool {
    n >= 2 && forall|d: nat| 2 <= d < n ==> !#[trigger] divides(d, n)
}

/// The exponent of `p` in `n`: how many times `p` can be divided out of `n`.
/// It is 0 for `n == 0` and for `p < 2`.
pub open spec fn exponent_in(p: nat, n: nat) -> nat
    decreases n,
    via exponent_in_terminates
{
    if p >= 2 && n >= 1 && n % p == 0 {
        1 + exponent_in(p, n / p)
    } else {
        0
    }
}

#[via_fn]
proof fn exponent_in_terminates(p: nat, n: nat) {
    if p >= 2 && n >= 1 {
        lemma_div_is_strictly_smaller(n as int, p as int);
    }
}

/// Every multiple of `d` is divisible by `d`.
pub proof fn lemma_divides_multiple(d: nat, k: nat)
    requires
        d != 0,
    ensures
        divides(d, d * k),
        divides(d, k * d),
        (d * k) / d == k,
{
    lemma_mod_multiples_basic(k as int, d as int);
    assert(d * k == k * d) by (nonlinear_arith);
    lemma_fundamental_div_mod((d * k) as int, d as int);
    assert((d * k) / d == k) by (nonlinear_arith)
        requires
            d != 0,
            d * k == d * ((d * k) / d),
    ;
}

/// A number is its divisor times the quotient.
pub proof fn lemma_divides_quotient(d: nat, n: nat)
    requires
        divides(d, n),
    ensures
        n == d * (n / d),
        n == (n / d) * d,
{
    lemma_fundamental_div_mod(n as int, d as int);
    assert(d * (n / d) == (n / d) * d) by (nonlinear_arith);
}

/// A divisor of a positive number is at most that number.
pub proof fn lemma_divisor_at_most(d: nat, n: nat)
    requires
        divides(d, n),
        n > 0,
    ensures
        d <= n,
{
    if d > n {
        lemma_small_mod(n, d);
    }
}

/// Divisibility is transitive.
pub proof fn lemma_divides_transitive(a: nat, b: nat, c: nat)
    requires
        divides(a, b),
        divides(b, c),
    ensures
        divides(a, c),
{
    lemma_divides_quotient(a, b);
    lemma_divides_quotient(b, c);
    let k = (b / a) * (c / b);
    assert(c == a * k) by (nonlinear_arith)
        requires
            b == a * (b / a),
            c == b * (c / b),
            k == (b / a) * (c / b),
    ;
    lemma_divides_multiple(a, k);
}

/// A common divisor divides the sum.
pub proof fn lemma_divides_sum(d: nat, x: nat, y: nat)
    requires
        divides(d, x),
        divides(d, y),
    ensures
        divides(d, x + y),
{
    lemma_divides_quotient(d, x);
    lemma_divides_quotient(d, y);
    assert(x + y == d * (x / d + y / d)) by (nonlinear_arith)
        requires
            x == d * (x / d),
            y == d * (y / d),
    ;
    lemma_divides_multiple(d, x / d + y / d);
}

/// A common divisor divides the difference.
pub proof fn lemma_divides_difference(d: nat, x: nat, y: nat)
    requires
        divides(d, x),
        divides(d, y),
        y <= x,
    ensures
        divides(d, (x - y) as nat),
{
    lemma_divides_quotient(d, x);
    lemma_divides_quotient(d, y);
    assert(y / d <= x / d) by (nonlinear_arith)
        requires
            d != 0,
            y <= x,
            x == d * (x / d),
            y == d * (y / d),
    ;
    let k = (x / d - y / d) as nat;
    assert(x - y == d * k) by (nonlinear_arith)
        requires
            x == d * (x / d),
            y == d * (y / d),
            k == x / d - y / d,
    ;
    lemma_divides_multiple(d, k);
}

/// A divisor of a factor divides the product.
pub proof fn lemma_divides_scaled(d: nat, x: nat, k: nat)
    requires
        divides(d, x),
    ensures
        divides(d, x * k),
        divides(d, k * x),
{
    lemma_divides_quotient(d, x);
    assert(x * k == d * ((x / d) * k)) by (nonlinear_arith)
        requires
            x == d * (x / d),
    ;
    assert(k * x == x * k) by (nonlinear_arith);
    lemma_divides_multiple(d, (x / d) * k);
}

/// Dividing by a divisor of at least 2 gives a strictly smaller, still
/// positive number.
pub proof fn lemma_quotient_smaller(d: nat, n: nat)
    requires
        d >= 2,
        n >= 1,
        divides(d, n),
    ensures
        1 <= n / d < n,
{
    lemma_div_is_strictly_smaller(n as int, d as int);
    lemma_divides_quotient(d, n);
    if n / d == 0 {
        assert(d * (n / d) == 0) by (nonlinear_arith)
            requires
                n / d == 0,
        ;
    }
}

/// Every number from 2 on has a prime divisor; the one found is returned.
pub proof fn lemma_prime_divisor(n: nat) -> (p: nat)
    requires
        n >= 2,
    ensures
        is_prime(p),
        divides(p, n),
        p <= n,
    decreases n,
{
    if is_prime(n) {
        lemma_divides_multiple(n, 1);
        assert(n * 1 == n);
        n
    } else {
        let d = choose|d: nat| 2 <= d < n && #[trigger] divides(d, n);
        let p = lemma_prime_divisor(d);
        lemma_divides_transitive(p, d, n);
        p
    }
}

/// A number from 2 on that no smaller prime divides is itself prime.
pub proof fn lemma_prime_by_prime_trial(n: nat)
    requires
        n >= 2,
        forall|q: nat| is_prime(q) && q < n ==> !#[trigger] divides(q, n),
    ensures
        is_prime(n),
{
    assert forall|d: nat| 2 <= d < n implies !#[trigger] divides(d, n) by {
        if divides(d, n) {
            let q = lemma_prime_divisor(d);
            lemma_divides_transitive(q, d, n);
        }
    }
}

/// A prime has no divisor other than 1 and itself.
pub proof fn lemma_prime_divisors(p: nat, d: nat)
    requires
        is_prime(p),
        divides(d, p),
    ensures
        d == 1 || d == p,
{
    lemma_divisor_at_most(d, p);
}

/// Euclid's lemma: a prime that divides a product divides one of the factors.
pub proof fn lemma_prime_divides_product(p: nat, a: nat, b: nat)
    requires
        is_prime(p),
        divides(p, a * b),
    ensures
        divides(p, a) || divides(p, b),
    decreases a,
{
    if a == 0 || divides(p, a) {
        if a == 0 {
            lemma_divides_multiple(p, 0);
            assert(p * 0 == 0);
        }
    } else if a == 1 {
        assert(a * b == b) by (nonlinear_arith)
            requires
                a == 1,
        ;
    } else if a >= p {
        // Replace `a` by its remainder, which is smaller and still nonzero.
        let r = a % p;
        lemma_fundamental_div_mod(a as int, p as int);
        lemma_divides_multiple(p, (a / p) * b);
        assert(a * b == p * ((a / p) * b) + r * b) by (nonlinear_arith)
            requires
                a == p * (a / p) + r,
        ;
        lemma_divides_difference(p, a * b, p * ((a / p) * b));
        assert((a * b - p * ((a / p) * b)) as nat == r * b);
        lemma_prime_divides_product(p, r, b);
        if divides(p, r) {
            lemma_small_mod(r, p);
        }
    } else {
        // 2 <= a < p: since p is prime, a leaves a nonzero remainder s < a.
        let s = p % a;
        assert(!divides(a, p));
        lemma_fundamental_div_mod(p as int, a as int);
        lemma_divides_multiple(p, b);
        lemma_divides_scaled(p, a * b, p / a);
        assert(p * b == (p / a) * (a * b) + s * b) by (nonlinear_arith)
            requires
                p == a * (p / a) + s,
        ;
        assert((a * b) * (p / a) == (p / a) * (a * b)) by (nonlinear_arith);
        lemma_divides_difference(p, p * b, (a * b) * (p / a));
        assert((p * b - (a * b) * (p / a)) as nat == s * b);
        lemma_prime_divides_product(p, s, b);
        if divides(p, s) {
            lemma_small_mod(s, p);
        }
    }
}

/// Dividing out one prime leaves the exponent of every other prime as it was.
pub proof fn lemma_exponent_of_other_prime(p: nat, q: nat, m: nat)
    requires
        is_prime(p),
        is_prime(q),
        p != q,
        m >= 1,
    ensures
        exponent_in(p, q * m) == exponent_in(p, m),
    decreases m,
{
    assert(q * m >= 1) by (nonlinear_arith)
        requires
            q >= 2,
            m >= 1,
    ;
    if divides(p, q * m) {
        lemma_prime_divides_product(p, q, m);
        if divides(p, q) {
            lemma_prime_divisors(q, p);
        }
        assert(divides(p, m));
        lemma_quotient_smaller(p, m);
        lemma_divides_quotient(p, m);
        assert(q * m == p * (q * (m / p))) by (nonlinear_arith)
            requires
                m == p * (m / p),
        ;
        lemma_divides_multiple(p, q * (m / p));
        assert((q * m) / p == q * (m / p));
        lemma_exponent_of_other_prime(p, q, m / p);
    } else {
        if divides(p, m) {
            lemma_divides_scaled(p, m, q);
        }
    }
}

/// Dividing out a prime lowers its own exponent by one.
pub proof fn lemma_exponent_of_same_prime(q: nat, m: nat)
    requires
        q >= 2,
        m >= 1,
    ensures
        exponent_in(q, q * m) == exponent_in(q, m) + 1,
{
    lemma_divides_multiple(q, m);
    assert(q * m >= 1) by (nonlinear_arith)
        requires
            q >= 2,
            m >= 1,
    ;
}

/// The exponent of `p` in a positive `n` is below `n`.
pub proof fn lemma_exponent_at_most(p: nat, n: nat)
    requires
        n >= 1,
    ensures
        exponent_in(p, n) < n,
    decreases n,
{
    if p >= 2 && n % p == 0 {
        lemma_quotient_smaller(p, n);
        lemma_divides_quotient(p, n);
        lemma_exponent_at_most(p, n / p);
        assert(1 + n / p <= n) by (nonlinear_arith)
            requires
                n == p * (n / p),
                p >= 2,
                n / p >= 1,
        ;
    }
}

/// The exponent of a prime in a product is the sum of its exponents in the
/// factors.
pub proof fn lemma_exponent_of_product(p: nat, a: nat, b: nat)
    requires
        is_prime(p),
        a >= 1,
        b >= 1,
    ensures
        exponent_in(p, a * b) == exponent_in(p, a) + exponent_in(p, b),
    decreases a,
{
    if a == 1 {
        assert(a * b == b) by (nonlinear_arith)
            requires
                a == 1,
        ;
        lemma_exponent_at_most(p, 1);
    } else {
        let q = lemma_prime_divisor(a);
        let rest = a / q;
        lemma_quotient_smaller(q, a);
        lemma_divides_quotient(q, a);
        lemma_exponent_of_product(p, rest, b);
        assert(a * b == q * (rest * b)) by (nonlinear_arith)
            requires
                a == q * rest,
        ;
        assert(rest * b >= 1) by (nonlinear_arith)
            requires
                rest >= 1,
                b >= 1,
        ;
        if q == p {
            lemma_exponent_of_same_prime(p, rest);
            lemma_exponent_of_same_prime(p, rest * b);
        } else {
            lemma_exponent_of_other_prime(p, q, rest);
            lemma_exponent_of_other_prime(p, q, rest * b);
        }
    }
}

/// The product `1 * 2 * ... * n`.
pub open spec fn factorial_of(n: nat) -> nat
    decreases n,
{
    if n == 0 {
        1
    } else {
        n * factorial_of((n - 1) as nat)
    }
}

/// A factorial is positive.
pub proof fn lemma_factorial_positive(n: nat)
    ensures
        factorial_of(n) >= 1,
    decreases n,
{
    if n > 0 {
        lemma_factorial_positive((n - 1) as nat);
        assert(n * factorial_of((n - 1) as nat) >= 1) by (nonlinear_arith)
            requires
                n >= 1,
                factorial_of((n - 1) as nat) >= 1,
        ;
    }
}

/// Each factor raises the exponent of `p` in the factorial by its own.
pub proof fn lemma_exponent_in_factorial_step(p: nat, n: nat)
    requires
        is_prime(p),
        n >= 1,
    ensures
        exponent_in(p, factorial_of(n)) == exponent_in(p, n) + exponent_in(
            p,
            factorial_of((n - 1) as nat),
        ),
{
    lemma_factorial_positive((n - 1) as nat);
    lemma_exponent_of_product(p, n, factorial_of((n - 1) as nat));
}

/// Legendre's recurrence: the multiples of `p` up to `n` contribute one
/// factor `p` each, and their quotients are the numbers up to `n / p`.
pub proof fn lemma_exponent_in_factorial_recurrence(p: nat, n: nat)
    requires
        is_prime(p),
    ensures
        exponent_in(p, factorial_of(n)) == n / p + exponent_in(p, factorial_of(n / p)),
    decreases n,
{
    if n == 0 {
        lemma_exponent_at_most(p, 1);
    } else {
        let before = (n - 1) as nat;
        lemma_exponent_in_factorial_recurrence(p, before);
        lemma_exponent_in_factorial_step(p, n);
        lemma_fundamental_div_mod(n as int, p as int);
        if n % p == 0 {
            let m = n / p;
            lemma_quotient_smaller(p, n);
            assert(before == (m - 1) * p + (p - 1)) by (nonlinear_arith)
                requires
                    n == p * m,
                    before == n - 1,
            ;
            lemma_fundamental_div_mod_converse(before as int, p as int, m - 1, p - 1);
            lemma_exponent_in_factorial_step(p, m);
        } else {
            let m = n / p;
            let r = n % p;
            assert(before == m * p + (r - 1)) by (nonlinear_arith)
                requires
                    n == p * m + r,
                    before == n - 1,
            ;
            lemma_fundamental_div_mod_converse(before as int, p as int, m as int, r - 1);
        }
    }
}

/// The exponent of a prime in the factorial of `n` stays below `n`.
pub proof fn lemma_exponent_in_factorial_bound(p: nat, n: nat)
    requires
        is_prime(p),
        n >= 1,
    ensures
        exponent_in(p, factorial_of(n)) < n,
    decreases n,
{
    let m = n / p;
    lemma_exponent_in_factorial_recurrence(p, n);
    lemma_fundamental_div_mod(n as int, p as int);
    let r = n % p;
    assert(2 * m <= n) by (nonlinear_arith)
        requires
            n == p * m + r,
            r >= 0,
            p >= 2,
            m >= 0,
    ;
    if m == 0 {
        lemma_exponent_at_most(p, 1);
    } else {
        lemma_exponent_in_factorial_bound(p, m);
    }
}

/// The exponent of a prime in a factorial grows with the factorial.
pub proof fn lemma_exponent_in_factorial_monotonic(p: nat, a: nat, b: nat)
    requires
        is_prime(p),
        a <= b,
    ensures
        exponent_in(p, factorial_of(a)) <= exponent_in(p, factorial_of(b)),
    decreases b,
{
    if a < b {
        lemma_exponent_in_factorial_monotonic(p, a, (b - 1) as nat);
        lemma_exponent_in_factorial_step(p, b);
    }
}

/// The factorial of a sum holds each prime at least as often as the two
/// factorials of the parts together.
pub proof fn lemma_exponent_in_factorial_of_sum(p: nat, a: nat, b: nat)
    requires
        is_prime(p),
    ensures
        exponent_in(p, factorial_of(a)) + exponent_in(p, factorial_of(b)) <= exponent_in(
            p,
            factorial_of(a + b),
        ),
    decreases a + b,
{
    lemma_exponent_in_factorial_recurrence(p, a);
    lemma_exponent_in_factorial_recurrence(p, b);
    lemma_exponent_in_factorial_recurrence(p, a + b);
    if a + b >= 1 {
        let x = a / p;
        let y = b / p;
        let z = (a + b) / p;
        lemma_fundamental_div_mod(a as int, p as int);
        lemma_fundamental_div_mod(b as int, p as int);
        lemma_fundamental_div_mod((a + b) as int, p as int);
        let ra = a % p;
        let rb = b % p;
        let rz = (a + b) % p;
        assert(x + y <= z && x + y < a + b) by (nonlinear_arith)
            requires
                a == p * x + ra,
                b == p * y + rb,
                a + b == p * z + rz,
                0 <= ra,
                0 <= rb,
                0 <= rz < p,
                p >= 2,
                x >= 0,
                y >= 0,
                a + b >= 1,
        ;
        lemma_exponent_in_factorial_of_sum(p, x, y);
        lemma_exponent_in_factorial_monotonic(p, x + y, z);
    } else {
        lemma_exponent_at_most(p, 1);
    }
}

} // verus!
