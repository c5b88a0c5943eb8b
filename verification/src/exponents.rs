//! Exponent maps: maps from numbers to exponents with finitely many keys,
//! read as the product of the keys raised to their exponents. This is the
//! mathematical model of a prime factorization and of its algebra.

use crate::divisibility::{
    divides, exponent_in, factorial_of, is_prime, lemma_divides_multiple, lemma_divides_quotient,
    lemma_divides_scaled, lemma_divisor_at_most, lemma_exponent_of_other_prime,
    lemma_exponent_in_factorial_of_sum, lemma_exponent_of_product, lemma_exponent_of_same_prime,
    lemma_factorial_positive, lemma_prime_divides_product, lemma_prime_divisor,
    lemma_prime_divisors, lemma_quotient_smaller,
};
use vstd::arithmetic::power::{lemma_pow0, lemma_pow1, lemma_pow_adds, pow};
use vstd::prelude::*;

verus! {

/// The exponent of `k` in `m`; a missing key counts as exponent 0.
pub open spec fn exp_of(m: Map<nat, nat>, k: nat) -> nat {
    if m.contains_key(k) {
        m[k]
    } else {
        0
    }
}

/// The product of `k` to the power `exp_of(m, k)` over all `k < n`.
pub open spec fn product_below(m: Map<nat, nat>, n: nat) -> int
    decreases n,
{
    if n == 0 {
        1
    } else {
        product_below(m, (n - 1) as nat) * pow((n - 1) as int, exp_of(m, (n - 1) as nat))
    }
}

/// Every key of `m` is below `b`.
pub open spec fn bounds_keys(m: Map<nat, nat>, b: nat) -> bool {
    forall|k: nat| m.contains_key(k) ==> k < b
}

/// The keys of `m` have an upper bound, that is, `m` has finitely many keys.
pub open spec fn is_bounded(m: Map<nat, nat>) -> bool {
    exists|b: nat| bounds_keys(m, b)
}

/// The product of all keys of a bounded map, each raised to its exponent.
/// The empty map has product 1.
pub open spec fn product(m: Map<nat, nat>) -> int {
    product_below(m, choose|b: nat| bounds_keys(m, b))
}

/// The number a factorization stands for when converted back: the product of
/// its prime powers, and 0 for the empty map.
pub open spec fn value_of(m: Map<nat, nat>) -> int {
    if m.dom() =~= Set::<nat>::empty() {
        0
    } else {
        product(m)
    }
}

/// The keys of `m` are primes with positive exponents, and there are
/// finitely many of them.
pub open spec fn is_factorization(m: Map<nat, nat>) -> bool {
    &&& is_bounded(m)
    &&& forall|k: nat| #[trigger] m.contains_key(k) ==> is_prime(k) && m[k] >= 1
}

/// The prime factorization of `n`: each prime divisor with its exponent.
/// It is empty for 0 and for 1.
pub open spec fn factor_map(n: nat) -> Map<nat, nat> {
    Map::new(|p: nat| n >= 1 && is_prime(p) && divides(p, n), |p: nat| exponent_in(p, n))
}

/// Exponents added entry by entry over the union of the keys.
pub open spec fn product_map(a: Map<nat, nat>, b: Map<nat, nat>) -> Map<nat, nat> {
    Map::new(
        |k: nat| a.contains_key(k) || b.contains_key(k),
        |k: nat| exp_of(a, k) + exp_of(b, k),
    )
}

/// No exponent of `b` exceeds the one in `a`.
pub open spec fn divisible_by(a: Map<nat, nat>, b: Map<nat, nat>) -> bool {
    forall|k: nat| #[trigger] exp_of(b, k) <= exp_of(a, k)
}

/// Exponents subtracted entry by entry; keys whose exponent reaches 0 leave.
pub open spec fn quotient_map(a: Map<nat, nat>, b: Map<nat, nat>) -> Map<nat, nat> {
    Map::new(
        |k: nat| exp_of(a, k) > exp_of(b, k),
        |k: nat| (exp_of(a, k) - exp_of(b, k)) as nat,
    )
}

/// The larger of two exponents.
pub open spec fn larger(a: nat, b: nat) -> nat {
    if a >= b {
        a
    } else {
        b
    }
}

/// The larger exponent entry by entry over the union of the keys.
pub open spec fn combine_map(a: Map<nat, nat>, b: Map<nat, nat>) -> Map<nat, nat> {
    Map::new(
        |k: nat| a.contains_key(k) || b.contains_key(k),
        |k: nat| larger(exp_of(a, k), exp_of(b, k)),
    )
}

/// A power of a natural number is not negative, and positive for a positive
/// base.
pub proof fn lemma_pow_nonnegative(b: nat, e: nat)
    ensures
        pow(b as int, e) >= 0,
        b >= 1 ==> pow(b as int, e) >= 1,
    decreases e,
{
    reveal(pow);
    if e > 0 {
        lemma_pow_nonnegative(b, (e - 1) as nat);
        assert(b * pow(b as int, (e - 1) as nat) >= 0) by (nonlinear_arith)
            requires
                b >= 0,
                pow(b as int, (e - 1) as nat) >= 0,
        ;
        if b >= 1 {
            assert(b * pow(b as int, (e - 1) as nat) >= 1) by (nonlinear_arith)
                requires
                    b >= 1,
                    pow(b as int, (e - 1) as nat) >= 1,
            ;
        }
    }
}

/// A partial product is not negative, and positive when 0 is no key.
pub proof fn lemma_product_below_positive(m: Map<nat, nat>, n: nat)
    ensures
        product_below(m, n) >= 0,
        exp_of(m, 0) == 0 ==> product_below(m, n) >= 1,
    decreases n,
{
    if n > 0 {
        let k = (n - 1) as nat;
        lemma_product_below_positive(m, k);
        lemma_pow_nonnegative(k, exp_of(m, k));
        lemma_pow0(k as int);
        assert(product_below(m, k) * pow(k as int, exp_of(m, k)) >= 0) by (nonlinear_arith)
            requires
                product_below(m, k) >= 0,
                pow(k as int, exp_of(m, k)) >= 0,
        ;
        if exp_of(m, 0) == 0 {
            assert(product_below(m, k) * pow(k as int, exp_of(m, k)) >= 1) by (nonlinear_arith)
                requires
                    product_below(m, k) >= 1,
                    pow(k as int, exp_of(m, k)) >= 1,
            ;
        }
    }
}

/// Where the exponents of `r` are the sums of those of `a` and `b`, the
/// partial product of `r` is the product of the other two.
pub proof fn lemma_product_below_of_sums(
    r: Map<nat, nat>,
    a: Map<nat, nat>,
    b: Map<nat, nat>,
    n: nat,
)
    requires
        forall|k: nat| k < n ==> #[trigger] exp_of(r, k) == exp_of(a, k) + exp_of(b, k),
    ensures
        product_below(r, n) == product_below(a, n) * product_below(b, n),
    decreases n,
{
    if n > 0 {
        let k = (n - 1) as nat;
        lemma_product_below_of_sums(r, a, b, k);
        assert(exp_of(r, k) == exp_of(a, k) + exp_of(b, k));
        lemma_pow_adds(k as int, exp_of(a, k), exp_of(b, k));
        let pa = product_below(a, k);
        let pb = product_below(b, k);
        let xa = pow(k as int, exp_of(a, k));
        let xb = pow(k as int, exp_of(b, k));
        assert((pa * pb) * (xa * xb) == (pa * xa) * (pb * xb)) by (nonlinear_arith);
    }
}

/// The partial product of a map with the single key `k` is that one power.
pub proof fn lemma_product_below_single(k: nat, e: nat, n: nat)
    ensures
        product_below(Map::<nat, nat>::empty().insert(k, e), n) == if k < n {
            pow(k as int, e)
        } else {
            1
        },
    decreases n,
{
    let m = Map::<nat, nat>::empty().insert(k, e);
    if n > 0 {
        let j = (n - 1) as nat;
        lemma_product_below_single(k, e, j);
        if j != k {
            assert(exp_of(m, j) == 0);
            lemma_pow0(j as int);
        }
    }
}

/// Past a bound of the keys the partial products no longer change.
pub proof fn lemma_product_below_past_bound(m: Map<nat, nat>, b: nat, c: nat)
    requires
        bounds_keys(m, b),
        b <= c,
    ensures
        product_below(m, c) == product_below(m, b),
    decreases c,
{
    if c > b {
        let j = (c - 1) as nat;
        lemma_product_below_past_bound(m, b, j);
        assert(exp_of(m, j) == 0);
        lemma_pow0(j as int);
    }
}

/// The product can be taken below any bound of the keys.
pub proof fn lemma_product_by_bound(m: Map<nat, nat>, b: nat)
    requires
        bounds_keys(m, b),
    ensures
        product(m) == product_below(m, b),
{
    let c = choose|c: nat| bounds_keys(m, c);
    if c <= b {
        lemma_product_below_past_bound(m, c, b);
    } else {
        lemma_product_below_past_bound(m, b, c);
    }
}

/// The empty map has product 1.
pub proof fn lemma_product_empty()
    ensures
        product(Map::<nat, nat>::empty()) == 1,
{
    assert(bounds_keys(Map::<nat, nat>::empty(), 0));
    lemma_product_by_bound(Map::<nat, nat>::empty(), 0);
}

/// The number a bounded map converts to is not negative.
pub proof fn lemma_value_nonnegative(m: Map<nat, nat>)
    requires
        is_bounded(m),
    ensures
        value_of(m) >= 0,
{
    let c = choose|c: nat| bounds_keys(m, c);
    lemma_product_by_bound(m, c);
    lemma_product_below_positive(m, c);
}

/// Adding exponents multiplies the products.
pub proof fn lemma_product_of_product_map(a: Map<nat, nat>, b: Map<nat, nat>)
    requires
        is_bounded(a),
        is_bounded(b),
    ensures
        is_bounded(product_map(a, b)),
        product(product_map(a, b)) == product(a) * product(b),
{
    let ba = choose|c: nat| bounds_keys(a, c);
    let bb = choose|c: nat| bounds_keys(b, c);
    let c = if ba >= bb {
        ba
    } else {
        bb
    };
    let r = product_map(a, b);
    assert(bounds_keys(a, c));
    assert(bounds_keys(b, c));
    assert(bounds_keys(r, c));
    lemma_product_by_bound(a, c);
    lemma_product_by_bound(b, c);
    lemma_product_by_bound(r, c);
    lemma_product_below_of_sums(r, a, b, c);
}

/// Raising the exponent of `k` by `e` multiplies the product by `k` to the
/// power `e`.
pub proof fn lemma_product_raise(m: Map<nat, nat>, k: nat, e: nat)
    requires
        is_bounded(m),
    ensures
        is_bounded(m.insert(k, exp_of(m, k) + e)),
        product(m.insert(k, exp_of(m, k) + e)) == product(m) * pow(k as int, e),
{
    let bm = choose|c: nat| bounds_keys(m, c);
    let c = if bm > k {
        bm
    } else {
        k + 1
    };
    let r = m.insert(k, exp_of(m, k) + e);
    let s = Map::<nat, nat>::empty().insert(k, e);
    assert(bounds_keys(m, c));
    assert(bounds_keys(r, c));
    lemma_product_by_bound(m, c);
    lemma_product_by_bound(r, c);
    assert forall|j: nat| j < c implies #[trigger] exp_of(r, j) == exp_of(m, j) + exp_of(s, j) by {}
    lemma_product_below_of_sums(r, m, s, c);
    lemma_product_below_single(k, e, c);
}

/// The factorization of `n` has prime keys, positive exponents, and no key
/// above `n`.
pub proof fn lemma_factor_map_is_factorization(n: nat)
    ensures
        is_factorization(factor_map(n)),
        bounds_keys(factor_map(n), n + 1),
{
    let m = factor_map(n);
    assert forall|k: nat| #[trigger] m.contains_key(k) implies k < n + 1 && is_prime(k) && m[k]
        >= 1 by {
        lemma_divisor_at_most(k, n);
    }
    assert(bounds_keys(m, n + 1));
}

/// The factorization of a product of a prime `q` and `m` is that of `m` with
/// the exponent of `q` raised by one.
pub proof fn lemma_factor_map_step(q: nat, m: nat)
    requires
        is_prime(q),
        m >= 1,
    ensures
        factor_map(q * m) == factor_map(m).insert(q, exp_of(factor_map(m), q) + 1),
{
    let n = q * m;
    assert(n >= 1) by (nonlinear_arith)
        requires
            n == q * m,
            q >= 2,
            m >= 1,
    ;
    let lhs = factor_map(n);
    let rhs = factor_map(m).insert(q, exp_of(factor_map(m), q) + 1);
    lemma_divides_multiple(q, m);
    lemma_exponent_of_same_prime(q, m);
    assert forall|p: nat| lhs.contains_key(p) <==> rhs.contains_key(p) by {
        if is_prime(p) && p != q {
            if divides(p, n) {
                lemma_prime_divides_product(p, q, m);
                if divides(p, q) {
                    lemma_prime_divisors(q, p);
                }
            }
            if divides(p, m) {
                lemma_divides_scaled(p, m, q);
            }
        }
    }
    assert forall|p: nat| lhs.contains_key(p) implies lhs[p] == rhs[p] by {
        if p != q {
            lemma_exponent_of_other_prime(p, q, m);
        }
    }
    assert(lhs =~= rhs);
}

/// The prime powers of the factorization of `n` multiply back to `n`.
pub proof fn lemma_factor_map_product(n: nat)
    requires
        n >= 1,
    ensures
        product(factor_map(n)) == n,
    decreases n,
{
    if n == 1 {
        assert forall|p: nat| !factor_map(1).contains_key(p) by {
            if is_prime(p) && divides(p, 1) {
                lemma_divisor_at_most(p, 1);
            }
        }
        assert(factor_map(1) =~= Map::<nat, nat>::empty());
        lemma_product_empty();
    } else {
        let q = lemma_prime_divisor(n);
        let m = n / q;
        lemma_quotient_smaller(q, n);
        lemma_divides_quotient(q, n);
        lemma_factor_map_product(m);
        lemma_factor_map_step(q, m);
        lemma_factor_map_is_factorization(m);
        lemma_product_raise(factor_map(m), q, 1);
        lemma_pow1(q as int);
        assert(m * q == q * m) by (nonlinear_arith);
    }
}

/// Converting the factorization of a number from 2 on back gives the number.
pub proof fn lemma_factor_map_value(n: nat)
    requires
        n >= 2,
    ensures
        value_of(factor_map(n)) == n,
{
    let q = lemma_prime_divisor(n);
    assert(factor_map(n).contains_key(q));
    assert(factor_map(n).dom().contains(q));
    lemma_factor_map_product(n);
}

/// The factorizations of 0 and of 1 are empty.
pub proof fn lemma_factor_map_of_zero_and_one()
    ensures
        factor_map(0) == Map::<nat, nat>::empty(),
        factor_map(1) == Map::<nat, nat>::empty(),
{
    assert forall|p: nat| !factor_map(1).contains_key(p) by {
        if is_prime(p) && divides(p, 1) {
            lemma_divisor_at_most(p, 1);
        }
    }
    assert(factor_map(0) =~= Map::<nat, nat>::empty());
    assert(factor_map(1) =~= Map::<nat, nat>::empty());
}

/// A map whose exponents nowhere exceed those of `m` has a product between
/// 1 and that of `m`, and one that divides it, provided 0 carries no exponent
/// in `m`.
pub proof fn lemma_product_of_part(d: Map<nat, nat>, m: Map<nat, nat>, c: nat)
    requires
        bounds_keys(d, c),
        bounds_keys(m, c),
        forall|k: nat| #[trigger] exp_of(d, k) <= exp_of(m, k),
        exp_of(m, 0) == 0,
    ensures
        1 <= product(d) <= product(m),
        divides(product(d) as nat, product(m) as nat),
{
    let r = Map::<nat, nat>::new(|k: nat| k < c, |k: nat| (exp_of(m, k) - exp_of(d, k)) as nat);
    assert forall|k: nat| k < c implies #[trigger] exp_of(m, k) == exp_of(d, k) + exp_of(r, k) by {
        assert(exp_of(d, k) <= exp_of(m, k));
    }
    lemma_product_below_of_sums(m, d, r, c);
    assert(exp_of(d, 0) <= exp_of(m, 0));
    lemma_product_below_positive(d, c);
    lemma_product_below_positive(r, c);
    lemma_product_by_bound(d, c);
    lemma_product_by_bound(m, c);
    assert(product_below(d, c) <= product_below(d, c) * product_below(r, c)) by (nonlinear_arith)
        requires
            product_below(d, c) >= 1,
            product_below(r, c) >= 1,
    ;
    lemma_divides_multiple(product_below(d, c) as nat, product_below(r, c) as nat);
}

/// The product of a map with a single key is that key's power.
pub proof fn lemma_product_single(k: nat, e: nat)
    ensures
        product(Map::<nat, nat>::empty().insert(k, e)) == pow(k as int, e),
{
    let m = Map::<nat, nat>::empty().insert(k, e);
    assert(bounds_keys(m, k + 1));
    lemma_product_by_bound(m, k + 1);
    lemma_product_below_single(k, e, k + 1);
}

/// The factorization of a product is the product of the factorizations.
pub proof fn lemma_factor_map_of_product(a: nat, b: nat)
    requires
        a >= 1,
        b >= 1,
    ensures
        factor_map(a * b) == product_map(factor_map(a), factor_map(b)),
{
    let n = a * b;
    assert(n >= 1) by (nonlinear_arith)
        requires
            n == a * b,
            a >= 1,
            b >= 1,
    ;
    assert(n == b * a) by (nonlinear_arith)
        requires
            n == a * b,
    ;
    let lhs = factor_map(n);
    let rhs = product_map(factor_map(a), factor_map(b));
    assert forall|p: nat| lhs.contains_key(p) <==> rhs.contains_key(p) by {
        if is_prime(p) {
            if divides(p, n) {
                lemma_prime_divides_product(p, a, b);
            }
            if divides(p, a) {
                lemma_divides_scaled(p, a, b);
            }
            if divides(p, b) {
                lemma_divides_scaled(p, b, a);
            }
        }
    }
    assert forall|p: nat| lhs.contains_key(p) implies lhs[p] == rhs[p] by {
        lemma_exponent_of_product(p, a, b);
    }
    assert(lhs =~= rhs);
}

/// The exponent that the factorization of `n` holds for `p` is the exponent
/// of `p` in `n` where `p` is prime and `n` positive, and 0 otherwise.
pub proof fn lemma_factor_map_exponent(n: nat, p: nat)
    ensures
        exp_of(factor_map(n), p) == if n >= 1 && is_prime(p) {
            exponent_in(p, n)
        } else {
            0
        },
{
}

/// Multiplying two factorizations gives a factorization.
pub proof fn lemma_product_map_is_factorization(a: Map<nat, nat>, b: Map<nat, nat>)
    requires
        is_factorization(a),
        is_factorization(b),
    ensures
        is_factorization(product_map(a, b)),
{
    lemma_product_of_product_map(a, b);
    let r = product_map(a, b);
    assert forall|k: nat| #[trigger] r.contains_key(k) implies is_prime(k) && r[k] >= 1 by {
        assert(a.contains_key(k) || b.contains_key(k));
    }
}

/// Combining two factorizations gives a factorization.
pub proof fn lemma_combine_map_is_factorization(a: Map<nat, nat>, b: Map<nat, nat>)
    requires
        is_factorization(a),
        is_factorization(b),
    ensures
        is_factorization(combine_map(a, b)),
{
    lemma_product_of_product_map(a, b);
    let c = choose|c: nat| bounds_keys(product_map(a, b), c);
    let r = combine_map(a, b);
    assert forall|k: nat| r.contains_key(k) implies k < c by {
        assert(product_map(a, b).contains_key(k));
    }
    assert(bounds_keys(r, c));
    assert forall|k: nat| #[trigger] r.contains_key(k) implies is_prime(k) && r[k] >= 1 by {
        assert(a.contains_key(k) || b.contains_key(k));
    }
}

/// Dividing a factorization by anything gives a factorization.
pub proof fn lemma_quotient_map_is_factorization(a: Map<nat, nat>, b: Map<nat, nat>)
    requires
        is_factorization(a),
    ensures
        is_factorization(quotient_map(a, b)),
{
    let c = choose|c: nat| bounds_keys(a, c);
    let r = quotient_map(a, b);
    assert forall|k: nat| r.contains_key(k) implies k < c by {
        assert(a.contains_key(k));
    }
    assert(bounds_keys(r, c));
    assert forall|k: nat| #[trigger] r.contains_key(k) implies is_prime(k) && r[k] >= 1 by {
        assert(a.contains_key(k));
    }
}

/// Multiplying the factorizations of two positive numbers and converting
/// back gives the product of the numbers, unless both are 1: then the result
/// is empty and converts to 0.
pub proof fn lemma_value_of_product(a: nat, b: nat)
    requires
        a >= 1,
        b >= 1,
        !(a == 1 && b == 1),
    ensures
        value_of(product_map(factor_map(a), factor_map(b))) == a * b,
{
    let n = a * b;
    assert(n >= 2) by (nonlinear_arith)
        requires
            n == a * b,
            a >= 1,
            b >= 1,
            !(a == 1 && b == 1),
    ;
    lemma_factor_map_of_product(a, b);
    lemma_factor_map_value(n);
}

/// Combining does not depend on the order of the two factorizations.
pub proof fn lemma_combine_commutative(a: Map<nat, nat>, b: Map<nat, nat>)
    ensures
        combine_map(a, b) == combine_map(b, a),
{
    assert(combine_map(a, b) =~= combine_map(b, a));
}

/// Combining a factorization with itself gives it back.
pub proof fn lemma_combine_idempotent(a: Map<nat, nat>)
    ensures
        combine_map(a, a) == a,
{
    assert(combine_map(a, a) =~= a);
}

/// Combining three factorizations does not depend on the grouping.
pub proof fn lemma_combine_associative(a: Map<nat, nat>, b: Map<nat, nat>, c: Map<nat, nat>)
    ensures
        combine_map(combine_map(a, b), c) == combine_map(a, combine_map(b, c)),
{
    assert(combine_map(combine_map(a, b), c) =~= combine_map(a, combine_map(b, c)));
}

/// A product can be divided by its second factor, and that gives the first
/// factor back, provided the first holds no entry with exponent 0.
pub proof fn lemma_quotient_of_product(a: Map<nat, nat>, b: Map<nat, nat>)
    requires
        forall|k: nat| #[trigger] a.contains_key(k) ==> a[k] >= 1,
    ensures
        divisible_by(product_map(a, b), b),
        quotient_map(product_map(a, b), b) == a,
{
    let ab = product_map(a, b);
    assert forall|k: nat| #[trigger] exp_of(b, k) <= exp_of(ab, k) by {}
    assert forall|k: nat| quotient_map(ab, b).contains_key(k) <==> a.contains_key(k) by {
        if a.contains_key(k) {
            assert(a[k] >= 1);
        }
    }
    assert(quotient_map(ab, b) =~= a);
}

/// A divisor holds no prime more often than its multiple does.
pub proof fn lemma_exponent_in_multiple(p: nat, a: nat, m: nat)
    requires
        is_prime(p),
        divides(a, m),
        m >= 1,
    ensures
        exponent_in(p, a) <= exponent_in(p, m),
{
    lemma_divides_quotient(a, m);
    if m / a == 0 {
        assert(a * (m / a) == 0) by (nonlinear_arith)
            requires
                m / a == 0,
        ;
    }
    lemma_exponent_of_product(p, a, m / a);
}

/// Combining the factorizations of two positive numbers gives their least
/// common multiple: the product of the combined prime powers is a multiple
/// of both numbers, and it divides every positive common multiple `m`.
pub proof fn lemma_combine_is_least_common_multiple(a: nat, b: nat, m: nat)
    requires
        a >= 1,
        b >= 1,
        m >= 1,
        divides(a, m),
        divides(b, m),
    ensures
        product(combine_map(factor_map(a), factor_map(b))) >= 1,
        divides(a, product(combine_map(factor_map(a), factor_map(b))) as nat),
        divides(b, product(combine_map(factor_map(a), factor_map(b))) as nat),
        divides(product(combine_map(factor_map(a), factor_map(b))) as nat, m),
{
    let fa = factor_map(a);
    let fb = factor_map(b);
    let fm = factor_map(m);
    let fc = combine_map(fa, fb);
    lemma_divisor_at_most(a, m);
    lemma_divisor_at_most(b, m);
    let cap = m + 1;
    lemma_factor_map_is_factorization(a);
    lemma_factor_map_is_factorization(b);
    lemma_factor_map_is_factorization(m);
    assert(bounds_keys(fa, cap));
    assert(bounds_keys(fb, cap));
    assert(bounds_keys(fc, cap));
    assert(!fc.contains_key(0));
    assert(!fm.contains_key(0));
    assert forall|k: nat| #[trigger] exp_of(fa, k) <= exp_of(fc, k) by {}
    assert forall|k: nat| #[trigger] exp_of(fb, k) <= exp_of(fc, k) by {}
    assert forall|k: nat| #[trigger] exp_of(fc, k) <= exp_of(fm, k) by {
        lemma_factor_map_exponent(a, k);
        lemma_factor_map_exponent(b, k);
        lemma_factor_map_exponent(m, k);
        if is_prime(k) {
            lemma_exponent_in_multiple(k, a, m);
            lemma_exponent_in_multiple(k, b, m);
        }
    }
    lemma_product_of_part(fa, fc, cap);
    lemma_product_of_part(fb, fc, cap);
    lemma_product_of_part(fc, fm, cap);
    lemma_factor_map_product(a);
    lemma_factor_map_product(b);
    lemma_factor_map_product(m);
}

/// Where `b` divides `a`, the product of the quotient times the product of
/// `b` is the product of `a`.
pub proof fn lemma_product_of_quotient(a: Map<nat, nat>, b: Map<nat, nat>)
    requires
        is_bounded(a),
        is_bounded(b),
        divisible_by(a, b),
    ensures
        product(quotient_map(a, b)) * product(b) == product(a),
{
    let ba = choose|c: nat| bounds_keys(a, c);
    let bb = choose|c: nat| bounds_keys(b, c);
    let c = if ba >= bb {
        ba
    } else {
        bb
    };
    let q = quotient_map(a, b);
    assert(bounds_keys(a, c));
    assert(bounds_keys(b, c));
    assert(bounds_keys(q, c));
    assert forall|k: nat| k < c implies #[trigger] exp_of(a, k) == exp_of(q, k) + exp_of(b, k) by {
        assert(exp_of(b, k) <= exp_of(a, k));
    }
    lemma_product_below_of_sums(a, q, b, c);
    lemma_product_by_bound(a, c);
    lemma_product_by_bound(b, c);
    lemma_product_by_bound(q, c);
}

/// The product of a factorization is 1 where it is empty and at least 2
/// otherwise.
pub proof fn lemma_product_of_factorization(m: Map<nat, nat>)
    requires
        is_factorization(m),
    ensures
        product(m) >= 1,
        m.dom() =~= Set::<nat>::empty() <==> product(m) == 1,
{
    let c = choose|c: nat| bounds_keys(m, c);
    assert(!m.contains_key(0));
    lemma_product_by_bound(m, c);
    lemma_product_below_positive(m, c);
    if m.dom() =~= Set::<nat>::empty() {
        assert(m =~= Map::<nat, nat>::empty());
        lemma_product_empty();
    } else {
        let p = choose|p: nat| m.dom().contains(p);
        assert(m.contains_key(p));
        let single = Map::<nat, nat>::empty().insert(p, m[p]);
        assert(bounds_keys(single, c));
        assert forall|k: nat| #[trigger] exp_of(single, k) <= exp_of(m, k) by {}
        lemma_product_of_part(single, m, c);
        lemma_product_single(p, m[p]);
        reveal(pow);
        lemma_pow_nonnegative(p, (m[p] - 1) as nat);
        assert(p * pow(p as int, (m[p] - 1) as nat) >= 2) by (nonlinear_arith)
            requires
                p >= 2,
                pow(p as int, (m[p] - 1) as nat) >= 1,
        ;
    }
}

/// The factorial of `n` over the factorials of `k` and of `n - k`.
pub open spec fn binomial_of(n: nat, k: nat) -> nat {
    factorial_of(n) / (factorial_of(k) * factorial_of((n - k) as nat))
}

/// The factorization of a factorial can be divided by those of the
/// factorials of two parts, and the product of the quotient is the binomial
/// coefficient, which is a whole number.
pub proof fn lemma_binomial_by_factorizations(n: nat, k: nat)
    requires
        k <= n,
    ensures
        ({
            let top = factor_map(factorial_of(n));
            let bottom = product_map(
                factor_map(factorial_of(k)),
                factor_map(factorial_of((n - k) as nat)),
            );
            &&& divisible_by(top, bottom)
            &&& product(quotient_map(top, bottom)) == binomial_of(n, k)
            &&& binomial_of(n, k) * (factorial_of(k) * factorial_of((n - k) as nat))
                == factorial_of(n)
        }),
{
    let a = factorial_of(n);
    let b = factorial_of(k);
    let c = factorial_of((n - k) as nat);
    lemma_factorial_positive(n);
    lemma_factorial_positive(k);
    lemma_factorial_positive((n - k) as nat);
    assert(b * c >= 1) by (nonlinear_arith)
        requires
            b >= 1,
            c >= 1,
    ;
    let top = factor_map(a);
    let bottom = product_map(factor_map(b), factor_map(c));
    lemma_factor_map_of_product(b, c);
    assert forall|p: nat| #[trigger] exp_of(bottom, p) <= exp_of(top, p) by {
        lemma_factor_map_exponent(a, p);
        lemma_factor_map_exponent(b * c, p);
        if is_prime(p) {
            lemma_exponent_of_product(p, b, c);
            lemma_exponent_in_factorial_of_sum(p, k, (n - k) as nat);
        }
    }
    lemma_factor_map_is_factorization(a);
    lemma_factor_map_is_factorization(b * c);
    lemma_product_of_quotient(top, bottom);
    lemma_factor_map_product(a);
    lemma_factor_map_product(b * c);
    let q = product(quotient_map(top, bottom));
    lemma_quotient_map_is_factorization(top, bottom);
    lemma_product_of_factorization(quotient_map(top, bottom));
    assert((b * c) * q == q * (b * c)) by (nonlinear_arith);
    lemma_divides_multiple(b * c, q as nat);
}

/// The factorizations of the numbers from 1 to `n`, combined.
pub open spec fn combined_up_to(n: nat) -> Map<nat, nat>
    decreases n,
{
    if n == 0 {
        Map::<nat, nat>::empty()
    } else {
        combine_map(combined_up_to((n - 1) as nat), factor_map(n))
    }
}

/// The combined factorizations up to `n` are a factorization without a key
/// above `n`.
pub proof fn lemma_combined_is_factorization(n: nat)
    ensures
        is_factorization(combined_up_to(n)),
        bounds_keys(combined_up_to(n), n + 1),
    decreases n,
{
    if n == 0 {
        assert(bounds_keys(combined_up_to(0), 1));
    } else {
        lemma_combined_is_factorization((n - 1) as nat);
        lemma_factor_map_is_factorization(n);
        lemma_combine_map_is_factorization(combined_up_to((n - 1) as nat), factor_map(n));
        assert(bounds_keys(combined_up_to(n), n + 1));
    }
}

/// The combined factorizations up to `n` hold each prime as often as the
/// number from 1 to `n` that holds it most often, and no more often than a
/// common multiple `m` of these numbers does.
pub proof fn lemma_combined_exponents(n: nat, m: nat, p: nat)
    ensures
        forall|i: nat|
            1 <= i <= n ==> #[trigger] exp_of(factor_map(i), p) <= exp_of(combined_up_to(n), p),
        m >= 1 && (forall|i: nat| 1 <= i <= n ==> #[trigger] divides(i, m)) ==> exp_of(
            combined_up_to(n),
            p,
        ) <= exp_of(factor_map(m), p),
    decreases n,
{
    if n > 0 {
        lemma_combined_exponents((n - 1) as nat, m, p);
        if m >= 1 && (forall|i: nat| 1 <= i <= n ==> #[trigger] divides(i, m)) {
            assert(divides(n, m));
            lemma_factor_map_exponent(n, p);
            lemma_factor_map_exponent(m, p);
            if is_prime(p) {
                lemma_exponent_in_multiple(p, n, m);
            }
        }
    }
}

/// The product of the combined factorizations up to `n` is the least common
/// multiple of the numbers from 1 to `n`: each of them divides it, and it
/// divides every positive number `m` that all of them divide.
pub proof fn lemma_combined_is_least_common_multiple(n: nat, m: nat)
    ensures
        product(combined_up_to(n)) >= 1,
        forall|i: nat| 1 <= i <= n ==> #[trigger] divides(i, product(combined_up_to(n)) as nat),
        m >= 1 && (forall|i: nat| 1 <= i <= n ==> #[trigger] divides(i, m)) ==> divides(
            product(combined_up_to(n)) as nat,
            m,
        ),
{
    let all = combined_up_to(n);
    lemma_combined_is_factorization(n);
    assert(!all.contains_key(0));
    lemma_product_of_factorization(all);
    assert forall|i: nat| 1 <= i <= n implies #[trigger] divides(i, product(all) as nat) by {
        let fi = factor_map(i);
        lemma_factor_map_is_factorization(i);
        assert(bounds_keys(fi, n + 1));
        assert forall|p: nat| #[trigger] exp_of(fi, p) <= exp_of(all, p) by {
            lemma_combined_exponents(n, 1, p);
        }
        lemma_product_of_part(fi, all, n + 1);
        lemma_factor_map_product(i);
    }
    if m >= 1 && (forall|i: nat| 1 <= i <= n ==> #[trigger] divides(i, m)) {
        let fm = factor_map(m);
        lemma_factor_map_is_factorization(m);
        let cap = if m >= n {
            m + 1
        } else {
            n + 1
        };
        assert(bounds_keys(fm, cap));
        assert(bounds_keys(all, cap));
        assert(!fm.contains_key(0));
        assert forall|p: nat| #[trigger] exp_of(all, p) <= exp_of(fm, p) by {
            lemma_combined_exponents(n, m, p);
        }
        lemma_product_of_part(all, fm, cap);
        lemma_factor_map_product(m);
    }
}

} // verus!
