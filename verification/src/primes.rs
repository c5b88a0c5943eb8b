//! Prime numbers three ways: a bounded sieve, an unbounded stream, and exact
//! prime factorizations with a small algebra.

use crate::divisibility::{
    divides, exponent_in, factorial_of, is_prime, lemma_divides_difference,
    lemma_divides_multiple, lemma_divides_quotient, lemma_divides_sum, lemma_divisor_at_most,
    lemma_exponent_at_most, lemma_exponent_in_factorial_bound, lemma_exponent_in_factorial_step,
    lemma_exponent_of_other_prime, lemma_factorial_positive, lemma_prime_by_prime_trial,
    lemma_prime_divisor, lemma_quotient_smaller,
};
use crate::exponents::{
    bounds_keys, combine_map, divisible_by, exp_of, factor_map, is_factorization, larger,
    lemma_combine_map_is_factorization, lemma_factor_map_exponent,
    lemma_factor_map_is_factorization, lemma_factor_map_of_product,
    lemma_factor_map_of_zero_and_one, lemma_factor_map_value, lemma_product_empty,
    lemma_product_map_is_factorization, lemma_product_of_part, lemma_product_raise,
    lemma_product_single, lemma_quotient_map_is_factorization, lemma_value_nonnegative, product,
    product_map, quotient_map, value_of,
};
use std::collections::HashMap;
use std::ops::{Add, Div, Mul};
use vstd::arithmetic::power::{lemma_pow0, lemma_pow_increases, pow};
use vstd::prelude::*;
use vstd::std_specs::cmp::PartialEqSpecImpl;
use vstd::std_specs::iter::IteratorSpec;
use vstd::std_specs::ops::{AddSpecImpl, DivSpecImpl, MulSpecImpl};

verus! {

/// `s` lists, in ascending order, exactly the primes `p` with `lo < p <= hi`.
pub open spec fn lists_primes(s: Seq<usize>, lo: nat, hi: nat) -> bool {
    &&& forall|i: int, j: int| 0 <= i < j < s.len() ==> s[i] < s[j]
    &&& forall|i: int| 0 <= i < s.len() ==> is_prime(#[trigger] s[i] as nat) && lo < s[i] <= hi
    &&& forall|p: usize| #[trigger] is_prime(p as nat) && lo < p <= hi ==> s.contains(p)
}

/// `j` is at least 2 and no prime up to `bound` divides it.
pub open spec fn unsieved(j: nat, bound: nat) -> bool {
    j >= 2 && forall|p: nat| is_prime(p) && p <= bound ==> !#[trigger] divides(p, j)
}

/// Raising the bound over a prime `p` removes exactly the multiples of `p`.
proof fn lemma_unsieved_over_prime(j: nat, p: nat)
    requires
        is_prime(p),
    ensures
        unsieved(j, p) <==> unsieved(j, (p - 1) as nat) && !divides(p, j),
{
    if unsieved(j, (p - 1) as nat) && !divides(p, j) {
        assert forall|q: nat| is_prime(q) && q <= p implies !#[trigger] divides(q, j) by {
            if q != p {
                assert(q <= (p - 1) as nat);
            }
        }
    }
}

/// Raising the bound over a number that is not prime changes nothing.
proof fn lemma_unsieved_over_composite(j: nat, c: nat)
    requires
        c >= 1,
        !is_prime(c),
    ensures
        unsieved(j, c) <==> unsieved(j, (c - 1) as nat),
{
    if unsieved(j, (c - 1) as nat) {
        assert forall|q: nat| is_prime(q) && q <= c implies !#[trigger] divides(q, j) by {
            assert(q <= (c - 1) as nat);
        }
    }
}

/// Between two consecutive multiples of `p` there is no further multiple.
proof fn lemma_multiples_gap(p: nat, j: nat, m: nat)
    requires
        divides(p, j),
        divides(p, m),
        j < m,
    ensures
        j + p <= m,
{
    lemma_divides_difference(p, m, j);
    lemma_divisor_at_most(p, (m - j) as nat);
}

/// Clears the flag of every multiple of `p` from `2 * p` on.
fn strike_multiples(sieve: &mut Vec<bool>, p: usize)
    requires
        1 <= p < old(sieve).len(),
    ensures
        final(sieve).len() == old(sieve).len(),
        forall|m: int|
            0 <= m < old(sieve).len() ==> (#[trigger] final(sieve)[m] <==> old(sieve)[m] && !(m
                > p && divides(p as nat, m as nat))),
{
    let len = sieve.len();
    let mut j: usize = p;
    proof {
        lemma_divides_multiple(p as nat, 1);
        assert(p as nat * 1 == p);
    }
    while j < len - p
        invariant
            sieve.len() == len,
            len == old(sieve).len(),
            1 <= p <= j < len,
            divides(p as nat, j as nat),
            forall|m: int|
                0 <= m < len ==> (#[trigger] sieve[m] <==> old(sieve)[m] && !(p < m <= j && divides(
                    p as nat,
                    m as nat,
                ))),
        decreases len - j,
    {
        let ghost before = j;
        let ghost flags = sieve@;
        j += p;
        sieve[j] = false;
        proof {
            lemma_divides_sum(p as nat, before as nat, p as nat);
            assert forall|m: int| 0 <= m < len implies (#[trigger] sieve[m] <==> old(sieve)[m] && !(
            p < m <= j && divides(p as nat, m as nat))) by {
                assert(flags[m] <==> old(sieve)[m] && !(p < m <= before && divides(
                    p as nat,
                    m as nat,
                )));
                if before < m < j && divides(p as nat, m as nat) {
                    lemma_multiples_gap(p as nat, before as nat, m as nat);
                }
            }
        }
    }
    proof {
        assert forall|m: int| 0 <= m < len implies (#[trigger] sieve[m] <==> old(sieve)[m] && !(m
            > p && divides(p as nat, m as nat))) by {
            if j < m && divides(p as nat, m as nat) {
                lemma_multiples_gap(p as nat, j as nat, m as nat);
            }
        }
    }
}

/// Sieve of Eratosthenes up to a fixed limit, consumed by pulling one prime
/// at a time.
pub struct PrimeSieve {
    sieve: Vec<bool>,
    index: usize,
}

impl PrimeSieve {
    /// The largest number the sieve covers.
    pub closed spec fn limit(&self) -> nat {
        if self.sieve.len() == 0 {
            0
        } else {
            (self.sieve.len() - 1) as nat
        }
    }

    /// The position reached: every prime up to it has been produced.
    pub closed spec fn cursor(&self) -> nat {
        self.index as nat
    }

    /// Past the cursor, a flag is set exactly where no prime up to the cursor
    /// divides the index.
    pub closed spec fn wf(&self) -> bool {
        &&& self.sieve.len() != 1
        &&& self.index <= self.limit()
        &&& forall|j: int|
            self.index < j < self.sieve.len() ==> (#[trigger] self.sieve[j] <==> unsieved(
                j as nat,
                self.index as nat,
            ))
    }

    /// A fresh sieve over `0..=limit`.
    pub fn new(limit: usize) -> (s: PrimeSieve)
        requires
            limit < usize::MAX,
        ensures
            s.wf(),
            s.limit() == limit,
            s.cursor() == 0,
    {
        let sieve = if limit == 0 {
            Vec::new()
        } else {
            let mut sieve: Vec<bool> = vec![true; limit + 1];
            sieve[0] = false;
            sieve[1] = false;
            sieve
        };
        PrimeSieve { sieve, index: 0 }
    }

    /// Produces the smallest prime above the cursor, if the limit allows one,
    /// and moves the cursor to it.
    pub fn next(&mut self) -> (r: Option<usize>)
        requires
            old(self).wf(),
        ensures
            final(self).wf(),
            final(self).limit() == old(self).limit(),
            match r {
                Some(p) => {
                    &&& old(self).cursor() < p <= old(self).limit()
                    &&& is_prime(p as nat)
                    &&& forall|q: nat| old(self).cursor() < q < p ==> !is_prime(q)
                    &&& final(self).cursor() == p
                },
                None => {
                    &&& forall|q: nat| old(self).cursor() < q <= old(self).limit() ==> !is_prime(q)
                    &&& final(self).cursor() == old(self).limit()
                },
            },
    {
        let len = self.sieve.len();
        loop
            invariant
                self.wf(),
                len == self.sieve.len(),
                self.limit() == old(self).limit(),
                old(self).cursor() <= self.index,
                forall|q: nat| old(self).cursor() < q <= self.index ==> !is_prime(q),
            decreases len - self.index,
        {
            if len == 0 || self.index >= len - 1 {
                return None;
            }
            let ghost before = *self;
            self.index += 1;
            let p = self.index;
            if self.sieve[p] {
                proof {
                    assert(unsieved(p as nat, (p - 1) as nat));
                    lemma_prime_by_prime_trial(p as nat);
                }
                strike_multiples(&mut self.sieve, p);
                proof {
                    assert forall|j: int| self.index < j < self.sieve.len() implies (
                    #[trigger] self.sieve[j] <==> unsieved(j as nat, self.index as nat)) by {
                        assert(before.sieve[j] <==> unsieved(j as nat, before.index as nat));
                        lemma_unsieved_over_prime(j as nat, p as nat);
                    }
                }
                return Some(p);
            }
            proof {
                assert(!unsieved(p as nat, (p - 1) as nat));
                assert(!is_prime(p as nat)) by {
                    if p >= 2 {
                        let q = choose|q: nat|
                            is_prime(q) && q <= (p - 1) as nat && #[trigger] divides(q, p as nat);
                        assert(2 <= q < p);
                    }
                }
                assert forall|j: int| self.index < j < self.sieve.len() implies (
                #[trigger] self.sieve[j] <==> unsieved(j as nat, self.index as nat)) by {
                    assert(before.sieve[j] <==> unsieved(j as nat, before.index as nat));
                    lemma_unsieved_over_composite(j as nat, p as nat);
                }
            }
        }
    }

    /// Drains the sieve: all primes above the cursor up to the limit, in
    /// ascending order.
    pub fn collect(self) -> (v: Vec<usize>)
        requires
            self.wf(),
        ensures
            lists_primes(v@, self.cursor(), self.limit()),
            self.cursor() == 0 && v.len() > 0 ==> is_prime_prefix(v@),
    {
        let mut sieve = self;
        let mut v: Vec<usize> = Vec::new();
        loop
            invariant
                sieve.wf(),
                sieve.limit() == self.limit(),
                self.cursor() <= sieve.cursor() <= self.limit(),
                lists_primes(v@, self.cursor(), sieve.cursor()),
            decreases self.limit() - sieve.cursor(),
        {
            let ghost found = v@;
            let ghost reached = sieve.cursor();
            match sieve.next() {
                Some(p) => {
                    v.push(p);
                    proof {
                        lemma_lists_primes_push(found, self.cursor(), reached, p);
                    }
                },
                None => {
                    proof {
                        lemma_lists_primes_extend(v@, self.cursor(), reached, self.limit());
                        if self.cursor() == 0 && v.len() > 0 {
                            lemma_prime_list_is_prefix(v@, self.limit());
                        }
                    }
                    return v;
                },
            }
        }
    }
}

/// A complete list up to `mid` stays complete up to `hi` when no prime lies
/// in between.
pub proof fn lemma_lists_primes_extend(s: Seq<usize>, lo: nat, mid: nat, hi: nat)
    requires
        lists_primes(s, lo, mid),
        mid <= hi,
        forall|q: nat| mid < q <= hi ==> !is_prime(q),
    ensures
        lists_primes(s, lo, hi),
{
    assert forall|p: usize| #[trigger] is_prime(p as nat) && lo < p <= hi implies s.contains(p) by {
        assert(p <= mid);
    }
}

/// Appending the next prime `p` after `mid` gives the complete list up to `p`.
pub proof fn lemma_lists_primes_push(s: Seq<usize>, lo: nat, mid: nat, p: usize)
    requires
        lists_primes(s, lo, mid),
        lo <= mid < p,
        is_prime(p as nat),
        forall|q: nat| mid < q < p ==> !is_prime(q),
    ensures
        lists_primes(s.push(p), lo, p as nat),
{
    let t = s.push(p);
    assert forall|i: int, j: int| 0 <= i < j < t.len() implies t[i] < t[j] by {
        if j == s.len() {
            assert(is_prime(s[i] as nat));
        }
    }
    assert forall|i: int| 0 <= i < t.len() implies is_prime(#[trigger] t[i] as nat) && lo < t[i]
        <= p by {
        if i < s.len() {
            assert(is_prime(s[i] as nat));
        }
    }
    assert forall|q: usize| #[trigger] is_prime(q as nat) && lo < q <= p implies t.contains(q) by {
        if q == p {
            assert(t[s.len() as int] == p);
        } else {
            assert(q <= mid);
            assert(s.contains(q));
            let i = choose|i: int| 0 <= i < s.len() && s[i] == q;
            assert(t[i] == q);
        }
    }
}

/// There is no prime below 2, so a list of the primes up to 0 or 1 is empty.
pub proof fn lemma_lists_primes_below_two(s: Seq<usize>, lo: nat, hi: nat)
    requires
        lists_primes(s, lo, hi),
        hi < 2,
    ensures
        s.len() == 0,
{
    if s.len() > 0 {
        assert(is_prime(s[0] as nat));
    }
}

/// `s` is a nonempty, ascending, gap-free list of the primes from 2 up to its
/// last entry.
pub open spec fn is_prime_prefix(s: Seq<usize>) -> bool {
    s.len() > 0 && lists_primes(s, 0, s.last() as nat)
}

/// A nonempty list of all primes up to some bound is a prime prefix.
pub proof fn lemma_prime_list_is_prefix(s: Seq<usize>, hi: nat)
    requires
        lists_primes(s, 0, hi),
        s.len() > 0,
    ensures
        is_prime_prefix(s),
{
    let last = s.last();
    assert(is_prime(s[s.len() - 1] as nat));
    assert forall|i: int| 0 <= i < s.len() implies is_prime(#[trigger] s[i] as nat) && 0 < s[i]
        <= last by {
        assert(is_prime(s[i] as nat));
    }
}

/// Whether none of the listed numbers divides `n`.
fn divisible_by_none(primes: &Vec<usize>, n: usize) -> (b: bool)
    requires
        forall|i: int| 0 <= i < primes.len() ==> primes[i] != 0,
    ensures
        b <==> forall|i: int|
            0 <= i < primes.len() ==> !divides(#[trigger] primes[i] as nat, n as nat),
{
    let mut i: usize = 0;
    while i < primes.len()
        invariant
            i <= primes.len(),
            forall|k: int| 0 <= k < primes.len() ==> primes[k] != 0,
            forall|k: int| 0 <= k < i ==> !divides(#[trigger] primes[k] as nat, n as nat),
        decreases primes.len() - i,
    {
        if n % primes[i] == 0 {
            assert(divides(primes[i as int] as nat, n as nat));
            return false;
        }
        i += 1;
    }
    true
}

/// Unbounded ascending stream of the primes. It emits from a known prefix
/// while that lasts and finds further primes by trial division against all
/// primes known so far.
pub struct PrimeEndless {
    primes: Vec<usize>,
    returns: usize,
}

impl PrimeEndless {
    /// The primes known so far, in ascending order.
    pub closed spec fn prefix(&self) -> Seq<usize> {
        self.primes@
    }

    /// Index into the prefix of the next entry to emit.
    pub closed spec fn cursor(&self) -> nat {
        self.returns as nat
    }

    /// The known primes are a gap-free prefix of all primes.
    pub open spec fn wf(&self) -> bool {
        is_prime_prefix(self.prefix())
    }

    /// The stream emits the primes above this value: the entry before the
    /// cursor, or the last known prime when the cursor is past the prefix.
    pub open spec fn floor(&self) -> nat {
        if self.cursor() == 0 {
            0
        } else if self.cursor() <= self.prefix().len() {
            self.prefix()[self.cursor() - 1] as nat
        } else {
            self.prefix().last() as nat
        }
    }

    /// A stream that knows 2 and 3 and has emitted nothing.
    pub fn new() -> (s: PrimeEndless)
        ensures
            s.wf(),
            s.prefix() == seq![2usize, 3usize],
            s.cursor() == 0,
    {
        let primes: Vec<usize> = vec![2, 3];
        proof {
            let s = primes@;
            assert(!divides(2, 3));
            assert(is_prime(2));
            assert(is_prime(3));
            assert(s[0] == 2 && s[1] == 3);
            assert forall|p: usize| #[trigger] is_prime(p as nat) && 0 < p <= 3 implies s.contains(
                p,
            ) by {
                assert(p == 2 || p == 3);
            }
        }
        PrimeEndless { primes, returns: 0 }
    }

    /// A stream over the given prefix that keeps this stream's cursor.
    pub fn pre_calc(&self, known: Vec<usize>) -> (s: PrimeEndless)
        requires
            is_prime_prefix(known@),
        ensures
            s.wf(),
            s.prefix() == known@,
            s.cursor() == self.cursor(),
    {
        PrimeEndless { primes: known, returns: self.returns }
    }

    /// Emits the smallest prime above the floor. Within the prefix this is
    /// the entry at the cursor; past it, the next prime is found, appended to
    /// the prefix, and the cursor is set behind it. `None` means that no
    /// further prime fits in a `usize`.
    pub fn next(&mut self) -> (r: Option<usize>)
        requires
            old(self).wf(),
        ensures
            final(self).wf(),
            match r {
                Some(p) => {
                    &&& old(self).floor() < p
                    &&& is_prime(p as nat)
                    &&& forall|q: nat| old(self).floor() < q < p ==> !is_prime(q)
                    &&& final(self).floor() == p
                    &&& if old(self).cursor() < old(self).prefix().len() {
                        &&& p == old(self).prefix()[old(self).cursor() as int]
                        &&& final(self).prefix() == old(self).prefix()
                        &&& final(self).cursor() == old(self).cursor() + 1
                    } else {
                        &&& final(self).prefix() == old(self).prefix().push(p)
                        &&& final(self).cursor() == final(self).prefix().len()
                    }
                },
                None => {
                    &&& old(self).cursor() >= old(self).prefix().len()
                    &&& forall|q: nat| old(self).floor() < q <= usize::MAX ==> !is_prime(q)
                    &&& final(self).prefix() == old(self).prefix()
                    &&& final(self).cursor() == old(self).cursor()
                },
            },
    {
        let len = self.primes.len();
        if self.returns < len {
            let value = self.primes[self.returns];
            proof {
                let s = self.primes@;
                let at = self.returns as int;
                assert(is_prime(s[at] as nat));
                assert forall|q: nat| self.floor() < q < value implies !is_prime(q) by {
                    if is_prime(q) {
                        assert(is_prime(s[len - 1] as nat));
                        let w = q as usize;
                        assert(is_prime(w as nat));
                        assert(s.contains(w));
                        let i = choose|i: int| 0 <= i < s.len() && s[i] == w;
                        if i < at {
                            if i < at - 1 {
                                assert(s[i] < s[at - 1]);
                            }
                        } else if i > at {
                            assert(s[at] < s[i]);
                        }
                    }
                }
                if at > 0 {
                    assert(s[at - 1] < s[at]);
                }
            }
            self.returns += 1;
            return Some(value);
        }
        let last = self.primes[len - 1];
        let mut check = last;
        assert(is_prime(self.primes@[len - 1] as nat));
        loop
            invariant
                *self == *old(self),
                self.wf(),
                len == self.primes.len(),
                self.returns >= len,
                last == self.primes@.last(),
                last <= check,
                forall|q: nat| last < q <= check ==> !is_prime(q),
            decreases usize::MAX - check,
        {
            if check == usize::MAX {
                return None;
            }
            check += 1;
            proof {
                assert forall|i: int| 0 <= i < self.primes.len() implies self.primes[i] != 0 by {
                    assert(is_prime(self.primes@[i] as nat));
                }
            }
            if divisible_by_none(&self.primes, check) {
                proof {
                    let s = self.primes@;
                    assert forall|q: nat| is_prime(q) && q < check implies !#[trigger] divides(
                        q,
                        check as nat,
                    ) by {
                        let w = q as usize;
                        assert(is_prime(w as nat));
                        assert(w <= last);
                        assert(s.contains(w));
                        let i = choose|i: int| 0 <= i < s.len() && s[i] == w;
                        assert(!divides(s[i] as nat, check as nat));
                    }
                    lemma_prime_by_prime_trial(check as nat);
                    lemma_lists_primes_push(s, 0, last as nat, check);
                }
                self.primes.push(check);
                self.returns = self.primes.len();
                return Some(check);
            }
            proof {
                let i = choose|i: int|
                    0 <= i < self.primes.len() && divides(
                        #[trigger] self.primes[i] as nat,
                        check as nat,
                    );
                assert(is_prime(self.primes@[i] as nat));
                assert(self.primes@[i] <= last);
            }
        }
    }
}

impl Clone for PrimeEndless {
    /// A stream with the same known primes and the same cursor, which from
    /// then on advances on its own.
    fn clone(&self) -> (s: PrimeEndless)
        ensures
            s.prefix() == self.prefix(),
            s.cursor() == self.cursor(),
    {
        let primes = self.primes.clone();
        assert(primes@ =~= self.primes@);
        PrimeEndless { primes, returns: self.returns }
    }
}

/// The exponent map that a table over machine integers stands for.
pub open spec fn as_exponents(m: Map<usize, usize>) -> Map<nat, nat> {
    Map::new(|k: nat| k <= usize::MAX && m.contains_key(k as usize), |k: nat| m[k as usize] as nat)
}

/// The count stored for `k`; a missing key counts as 0.
pub open spec fn count_of(m: Map<usize, usize>, k: usize) -> nat {
    if m.contains_key(k) {
        m[k] as nat
    } else {
        0
    }
}

/// A table and its exponent map agree key by key.
pub proof fn lemma_exponents_of_key(m: Map<usize, usize>, k: usize)
    ensures
        as_exponents(m).contains_key(k as nat) <==> m.contains_key(k),
        exp_of(as_exponents(m), k as nat) == count_of(m, k),
{
}

/// Tables with the same exponent map are the same table.
pub proof fn lemma_exponents_determine_table(a: Map<usize, usize>, b: Map<usize, usize>)
    requires
        as_exponents(a) == as_exponents(b),
    ensures
        a == b,
{
    assert forall|k: usize| a.contains_key(k) <==> b.contains_key(k) by {
        lemma_exponents_of_key(a, k);
        lemma_exponents_of_key(b, k);
    }
    assert forall|k: usize| a.contains_key(k) implies a[k] == b[k] by {
        lemma_exponents_of_key(a, k);
        lemma_exponents_of_key(b, k);
    }
    assert(a =~= b);
}

/// `items` lists each entry of `m` once.
spec fn lists_entries(items: Seq<(usize, usize)>, m: Map<usize, usize>) -> bool {
    &&& forall|i: int|
        0 <= i < items.len() ==> m.contains_key(#[trigger] items[i].0) && m[items[i].0]
            == items[i].1
    &&& forall|k: usize|
        m.contains_key(k) ==> exists|i: int| 0 <= i < items.len() && items[i].0 == k
    &&& forall|i: int, j: int| 0 <= i < j < items.len() ==> items[i].0 != items[j].0
}

/// The entries of a table as a list in which no key repeats.
fn entries(m: &HashMap<usize, usize>) -> (v: Vec<(usize, usize)>)
    ensures
        lists_entries(v@, m@),
{
    let mut v: Vec<(usize, usize)> = Vec::new();
    for (key, val) in it: m.iter()
        invariant
            v.len() == it.index(),
            forall|i: int| 0 <= i < v.len() ==> #[trigger] v[i] == (*it.seq()[i].0, *it.seq()[i].1),
    {
        v.push((*key, *val));
    }
    proof {
        let s = m.iter().remaining();
        assert forall|k: usize| m@.contains_key(k) implies exists|i: int|
            0 <= i < v.len() && v[i].0 == k by {
            assert(s.contains((&k, &m@[k])));
            let i = choose|i: int| 0 <= i < s.len() && s[i] == (&k, &m@[k]);
            assert(v[i].0 == k);
        }
        assert forall|i: int, j: int| 0 <= i < j < v.len() implies v[i].0 != v[j].0 by {
            if v[i].0 == v[j].0 {
                assert(m@.contains_key(*s[i].0) && m@[*s[i].0] == *s[i].1);
                assert(m@.contains_key(*s[j].0) && m@[*s[j].0] == *s[j].1);
                assert(s[i] == s[j]);
            }
        }
    }
    v
}

/// The first entry of an ascending list of all primes up to `hi` that
/// divides `n`: the smallest prime factor of `n`.
fn smallest_prime_factor(primes: &Vec<usize>, n: usize, Ghost(hi): Ghost<nat>) -> (p: usize)
    requires
        lists_primes(primes@, 0, hi),
        2 <= n <= hi,
    ensures
        is_prime(p as nat),
        divides(p as nat, n as nat),
        forall|q: nat| is_prime(q) && q < p ==> !divides(q, n as nat),
{
    let ghost some = lemma_prime_divisor(n as nat);
    let ghost at = choose|i: int| 0 <= i < primes.len() && primes[i] == some as usize;
    assert(primes@.contains(some as usize));
    let mut idx: usize = 0;
    loop
        invariant
            lists_primes(primes@, 0, hi),
            0 <= idx <= at < primes.len(),
            divides(primes[at] as nat, n as nat),
            forall|i: int| 0 <= i < idx ==> !divides(#[trigger] primes[i] as nat, n as nat),
        decreases primes.len() - idx,
    {
        let p = primes[idx];
        assert(is_prime(primes@[idx as int] as nat));
        if n % p == 0 {
            proof {
                assert forall|q: nat| is_prime(q) && q < p implies !divides(q, n as nat) by {
                    let w = q as usize;
                    assert(is_prime(w as nat));
                    assert(primes@.contains(w));
                    let i = choose|i: int| 0 <= i < primes.len() && primes[i] == w;
                    if i > idx {
                        assert(primes[idx as int] < primes[i]);
                    }
                    assert(!divides(primes[i] as nat, n as nat));
                }
            }
            return p;
        }
        idx += 1;
    }
}

/// `base` raised to the power `exp`, or `None` where that does not fit.
fn checked_power(base: usize, exp: usize) -> (r: Option<usize>)
    requires
        base >= 1,
    ensures
        r == if pow(base as int, exp as nat) <= usize::MAX {
            Some(pow(base as int, exp as nat) as usize)
        } else {
            None
        },
{
    let mut r: usize = 1;
    let mut i: usize = 0;
    proof {
        lemma_pow0(base as int);
    }
    while i < exp
        invariant
            base >= 1,
            i <= exp,
            r == pow(base as int, i as nat),
        decreases exp - i,
    {
        proof {
            reveal(pow);
            lemma_pow_increases(base as nat, (i + 1) as nat, exp as nat);
            assert(pow(base as int, (i + 1) as nat) == base * pow(base as int, i as nat));
            assert(base * r == r * base) by (nonlinear_arith);
        }
        match r.checked_mul(base) {
            Some(next) => {
                r = next;
            },
            None => {
                return None;
            },
        }
        i += 1;
    }
    Some(r)
}

/// The error of a division whose divisor holds a prime more often than the
/// dividend does.
#[derive(Clone, Copy, Debug, PartialEq, Eq)]
pub struct IncompatibleDivision;

/// An exact prime factorization: a table from each prime factor to its
/// multiplicity. A missing key means multiplicity 0.
#[derive(Debug)]
pub struct PrimeFactorCount {
    pub factors: HashMap<usize, usize>,
}

impl View for PrimeFactorCount {
    type V = Map<nat, nat>;

    /// The exponent map: prime to multiplicity.
    open spec fn view(&self) -> Map<nat, nat> {
        as_exponents(self.factors@)
    }
}

impl PrimeFactorCount {
    /// Factors `num` by dividing out its smallest prime factor until 1 is
    /// left. The factorizations of 0 and of 1 are empty.
    pub fn new(num: usize) -> (pf: PrimeFactorCount)
        requires
            num < usize::MAX,
        ensures
            pf@ == factor_map(num as nat),
            is_factorization(pf@),
            num <= 1 ==> pf@ == Map::<nat, nat>::empty(),
            num >= 2 ==> value_of(pf@) == num,
            forall|k: nat| #[trigger] exp_of(pf@, k) <= num,
    {
        proof {
            lemma_factor_map_is_factorization(num as nat);
            lemma_factor_map_of_zero_and_one();
            if num >= 2 {
                lemma_factor_map_value(num as nat);
            }
            assert forall|k: nat| #[trigger] exp_of(factor_map(num as nat), k) <= num by {
                lemma_factor_map_exponent(num as nat, k);
                if num >= 1 {
                    lemma_exponent_at_most(k, num as nat);
                }
            }
        }
        let primes: Vec<usize> = PrimeSieve::new(num).collect();
        let mut factors: HashMap<usize, usize> = HashMap::new();
        let mut n = num;
        while n > 1
            invariant
                lists_primes(primes@, 0, num as nat),
                n <= num,
                num >= 1 ==> n >= 1,
                forall|k: usize| #[trigger]
                    factors@.contains_key(k) ==> is_prime(k as nat) && factors@[k] >= 1,
                forall|p: usize|
                    is_prime(p as nat) ==> #[trigger] count_of(factors@, p) + exponent_in(
                        p as nat,
                        n as nat,
                    ) == exponent_in(p as nat, num as nat),
            decreases n,
        {
            let prime = smallest_prime_factor(&primes, n, Ghost(num as nat));
            let ghost before = factors@;
            let ghost rest = (n / prime) as nat;
            proof {
                lemma_quotient_smaller(prime as nat, n as nat);
                lemma_divides_quotient(prime as nat, n as nat);
                assert(count_of(before, prime) + exponent_in(prime as nat, n as nat) == exponent_in(
                    prime as nat,
                    num as nat,
                ));
                lemma_exponent_at_most(prime as nat, num as nat);
            }
            let count = match factors.get(&prime) {
                Some(amount) => *amount + 1,
                None => 1,
            };
            factors.insert(prime, count);
            n /= prime;
            proof {
                assert forall|p: usize| is_prime(p as nat) implies #[trigger] count_of(factors@, p)
                    + exponent_in(p as nat, n as nat) == exponent_in(p as nat, num as nat) by {
                    assert(count_of(before, p) + exponent_in(p as nat, (prime * rest) as nat)
                        == exponent_in(p as nat, num as nat));
                    if p != prime {
                        lemma_exponent_of_other_prime(p as nat, prime as nat, rest);
                    }
                }
            }
        }
        proof {
            let table = factors@;
            let target = factor_map(num as nat);
            assert forall|k: nat| as_exponents(table).contains_key(k) <==> target.contains_key(
                k,
            ) by {
                let w = k as usize;
                if as_exponents(table).contains_key(k) {
                    assert(table.contains_key(w));
                    assert(count_of(table, w) + exponent_in(k, n as nat) == exponent_in(
                        k,
                        num as nat,
                    ));
                    assert(exponent_in(k, num as nat) >= 1);
                    assert(divides(k, num as nat));
                }
                if target.contains_key(k) {
                    lemma_divisor_at_most(k, num as nat);
                    assert(count_of(table, w) + exponent_in(k, n as nat) == exponent_in(
                        k,
                        num as nat,
                    ));
                    assert(exponent_in(k, num as nat) >= 1);
                    lemma_exponent_at_most(k, 1);
                    assert(table.contains_key(w));
                }
            }
            assert forall|k: nat| as_exponents(table).contains_key(k) implies as_exponents(
                table,
            )[k] == target[k] by {
                let w = k as usize;
                assert(table.contains_key(w));
                assert(count_of(table, w) + exponent_in(k, n as nat) == exponent_in(k, num as nat));
                assert(target.contains_key(k));
                lemma_exponent_at_most(k, 1);
            }
            assert(as_exponents(table) =~= target);
        }
        PrimeFactorCount { factors }
    }

    /// The factorization without any factor.
    pub fn empty() -> (pf: PrimeFactorCount)
        ensures
            pf@ == Map::<nat, nat>::empty(),
    {
        let pf = PrimeFactorCount { factors: HashMap::new() };
        assert(pf@ =~= Map::<nat, nat>::empty());
        pf
    }

    /// The factorization of `1 * 2 * ... * num`, built by multiplying the
    /// factorizations of the factors one by one.
    pub fn factorial(num: usize) -> (pf: PrimeFactorCount)
        requires
            num < usize::MAX,
        ensures
            pf@ == factor_map(factorial_of(num as nat)),
            is_factorization(pf@),
            forall|k: nat| #[trigger] exp_of(pf@, k) <= num,
    {
        proof {
            let whole = factorial_of(num as nat);
            lemma_factor_map_is_factorization(whole);
            assert forall|k: nat| #[trigger] exp_of(factor_map(whole), k) <= num by {
                lemma_factor_map_exponent(whole, k);
                if is_prime(k) {
                    if num >= 1 {
                        lemma_exponent_in_factorial_bound(k, num as nat);
                    } else {
                        lemma_exponent_at_most(k, 1);
                    }
                }
            }
        }
        let mut acc = PrimeFactorCount::empty();
        let mut i: usize = 0;
        proof {
            lemma_factor_map_of_zero_and_one();
        }
        while i < num
            invariant
                i <= num < usize::MAX,
                acc@ == factor_map(factorial_of(i as nat)),
            decreases num - i,
        {
            i += 1;
            let next = PrimeFactorCount::new(i);
            proof {
                let before = factorial_of((i - 1) as nat);
                lemma_factorial_positive((i - 1) as nat);
                assert forall|k: nat| #[trigger] exp_of(acc@, k) + exp_of(next@, k)
                    <= usize::MAX by {
                    lemma_factor_map_exponent(before, k);
                    lemma_factor_map_exponent(i as nat, k);
                    if is_prime(k) {
                        lemma_exponent_in_factorial_step(k, i as nat);
                        lemma_exponent_in_factorial_bound(k, i as nat);
                    }
                }
                lemma_factor_map_of_product(i as nat, before);
                assert(product_map(next@, acc@) =~= product_map(acc@, next@));
            }
            acc = acc * next;
        }
        acc
    }

    /// Multiplies the prime powers back together. The empty factorization
    /// converts to 0.
    pub fn to_num(&self) -> (n: usize)
        requires
            !self@.contains_key(0),
            value_of(self@) <= usize::MAX,
        ensures
            n == value_of(self@),
    {
        match self.checked_to_num() {
            Some(n) => n,
            None => vstd::pervasive::unreached(),
        }
    }

    /// As `to_num`, for any table: `None` where 0 is a key or the value does
    /// not fit in a `usize`.
    pub fn checked_to_num(&self) -> (r: Option<usize>)
        ensures
            match r {
                Some(n) => !self@.contains_key(0) && n == value_of(self@),
                None => self@.contains_key(0) || value_of(self@) > usize::MAX,
            },
    {
        proof {
            lemma_exponents_of_key(self.factors@, 0);
        }
        if self.factors.contains_key(&0) {
            return None;
        }
        if self.factors.len() == 0 {
            proof {
                assert(self.factors@.len() == 0);
                assert(self.factors@.dom() =~= Set::<usize>::empty());
                assert(self@.dom() =~= Set::<nat>::empty());
            }
            return Some(0);
        }
        let items = entries(&self.factors);
        let ghost whole = self@;
        let ghost cap = (usize::MAX + 1) as nat;
        let ghost mut done = Map::<nat, nat>::empty();
        let mut acc: usize = 1;
        let mut i: usize = 0;
        proof {
            lemma_product_empty();
            assert(self.factors@.dom().len() > 0);
            assert(self.factors@.dom().contains(self.factors@.dom().choose()));
            lemma_exponents_of_key(self.factors@, self.factors@.dom().choose());
            assert(whole.dom().contains(self.factors@.dom().choose() as nat));
            assert(bounds_keys(whole, cap));
        }
        while i < items.len()
            invariant
                i <= items.len(),
                whole == as_exponents(self.factors@),
                bounds_keys(whole, cap),
                bounds_keys(done, cap),
                !whole.contains_key(0),
                !(whole.dom() =~= Set::<nat>::empty()),
                acc == product(done),
                lists_entries(items@, self.factors@),
                forall|k: nat| #[trigger]
                    done.contains_key(k) ==> whole.contains_key(k) && done[k] == whole[k],
                forall|j: int| 0 <= j < i ==> done.contains_key(#[trigger] items[j].0 as nat),
                forall|j: int|
                    i <= j < items.len() ==> !done.contains_key(#[trigger] items[j].0 as nat),
            decreases items.len() - i,
        {
            let (k, e) = items[i];
            let ghost next = done.insert(k as nat, e as nat);
            proof {
                lemma_exponents_of_key(self.factors@, k);
                let single = Map::<nat, nat>::empty().insert(k as nat, e as nat);
                assert(bounds_keys(single, cap));
                assert forall|x: nat| #[trigger] exp_of(single, x) <= exp_of(whole, x) by {}
                lemma_product_of_part(single, whole, cap);
                lemma_product_single(k as nat, e as nat);
                assert(exp_of(done, k as nat) == 0);
                lemma_product_raise(done, k as nat, e as nat);
                assert forall|x: nat| #[trigger] exp_of(next, x) <= exp_of(whole, x) by {}
                assert(bounds_keys(next, cap));
                lemma_product_of_part(next, whole, cap);
            }
            let f = match checked_power(k, e) {
                Some(f) => f,
                None => {
                    return None;
                },
            };
            acc = match acc.checked_mul(f) {
                Some(more) => more,
                None => {
                    return None;
                },
            };
            proof {
                done = next;
            }
            i += 1;
        }
        proof {
            assert forall|k: nat| whole.contains_key(k) implies done.contains_key(k) by {
                let w = k as usize;
                assert(self.factors@.contains_key(w));
                let j = choose|j: int| 0 <= j < items.len() && items[j].0 == w;
                assert(done.contains_key(items[j].0 as nat));
            }
            assert(done =~= whole);
        }
        Some(acc)
    }

    /// The larger multiplicity entry by entry: the factorization of the least
    /// common multiple.
    pub fn minimal_combine(&self, other: PrimeFactorCount) -> (pf: PrimeFactorCount)
        ensures
            pf@ == combine_map(self@, other@),
            is_factorization(self@) && is_factorization(other@) ==> is_factorization(pf@),
    {
        proof {
            if is_factorization(self@) && is_factorization(other@) {
                lemma_combine_map_is_factorization(self@, other@);
            }
        }
        let mut factors: HashMap<usize, usize> = HashMap::new();
        let own = entries(&self.factors);
        let mut i: usize = 0;
        while i < own.len()
            invariant
                i <= own.len(),
                lists_entries(own@, self.factors@),
                forall|k: usize| #[trigger]
                    factors@.contains_key(k) ==> self.factors@.contains_key(k) && factors@[k]
                        == larger(count_of(self.factors@, k), count_of(other.factors@, k)),
                forall|j: int| 0 <= j < i ==> factors@.contains_key(#[trigger] own[j].0),
            decreases own.len() - i,
        {
            let (k, a) = own[i];
            let value = match other.factors.get(&k) {
                Some(b) => if a >= *b {
                    a
                } else {
                    *b
                },
                None => a,
            };
            factors.insert(k, value);
            i += 1;
        }
        let theirs = entries(&other.factors);
        let mut i: usize = 0;
        while i < theirs.len()
            invariant
                i <= theirs.len(),
                lists_entries(theirs@, other.factors@),
                forall|k: usize| #[trigger]
                    factors@.contains_key(k) ==> (self.factors@.contains_key(k)
                        || other.factors@.contains_key(k)) && factors@[k] == larger(
                        count_of(self.factors@, k),
                        count_of(other.factors@, k),
                    ),
                forall|k: usize| self.factors@.contains_key(k) ==> factors@.contains_key(k),
                forall|j: int| 0 <= j < i ==> factors@.contains_key(#[trigger] theirs[j].0),
            decreases theirs.len() - i,
        {
            let (k, b) = theirs[i];
            if self.factors.get(&k).is_none() {
                factors.insert(k, b);
            }
            i += 1;
        }
        proof {
            let table = factors@;
            let target = combine_map(self@, other@);
            assert forall|k: nat| as_exponents(table).contains_key(k) <==> target.contains_key(
                k,
            ) by {
                let w = k as usize;
                if k <= usize::MAX && other.factors@.contains_key(w) {
                    let j = choose|j: int| 0 <= j < theirs.len() && theirs[j].0 == w;
                    assert(table.contains_key(theirs[j].0));
                }
                if as_exponents(table).contains_key(k) {
                    assert(table.contains_key(w));
                }
            }
            assert forall|k: nat| as_exponents(table).contains_key(k) implies as_exponents(
                table,
            )[k] == target[k] by {
                let w = k as usize;
                assert(table.contains_key(w));
                lemma_exponents_of_key(self.factors@, w);
                lemma_exponents_of_key(other.factors@, w);
            }
            assert(as_exponents(table) =~= target);
        }
        PrimeFactorCount { factors }
    }

    /// Multiplicities subtracted entry by entry, with entries that reach 0
    /// pruned. Fails when some multiplicity of `rhs` exceeds the one here.
    pub fn checked_div(self, rhs: PrimeFactorCount) -> (r: Result<
        PrimeFactorCount,
        IncompatibleDivision,
    >)
        ensures
            match r {
                Ok(pf) => {
                    &&& divisible_by(self@, rhs@)
                    &&& pf@ == quotient_map(self@, rhs@)
                    &&& is_factorization(self@) ==> is_factorization(pf@)
                },
                Err(_) => !divisible_by(self@, rhs@),
            },
    {
        proof {
            if is_factorization(self@) {
                lemma_quotient_map_is_factorization(self@, rhs@);
            }
        }
        let items = entries(&rhs.factors);
        let ghost own = self.factors@;
        let ghost mut seen = Set::<usize>::empty();
        let mut factors = self.factors;
        let mut i: usize = 0;
        while i < items.len()
            invariant
                i <= items.len(),
                own == self.factors@,
                lists_entries(items@, rhs.factors@),
                forall|k: usize| seen.contains(k) ==> rhs.factors@.contains_key(k),
                forall|j: int| 0 <= j < i ==> seen.contains(#[trigger] items[j].0),
                forall|j: int| i <= j < items.len() ==> !seen.contains(#[trigger] items[j].0),
                forall|k: usize|
                    seen.contains(k) ==> #[trigger] count_of(rhs.factors@, k) <= count_of(own, k),
                forall|k: usize| #[trigger] factors@.contains_key(k) <==> own.contains_key(k),
                forall|k: usize| #[trigger]
                    factors@.contains_key(k) ==> factors@[k] == count_of(own, k) - if seen.contains(
                        k,
                    ) {
                        count_of(rhs.factors@, k)
                    } else {
                        0
                    },
            decreases items.len() - i,
        {
            let (key, val) = items[i];
            proof {
                lemma_exponents_of_key(own, key);
                lemma_exponents_of_key(rhs.factors@, key);
            }
            match factors.get(&key) {
                Some(pre_val) => {
                    if *pre_val < val {
                        assert(!(exp_of(rhs@, key as nat) <= exp_of(self@, key as nat)));
                        return Err(IncompatibleDivision);
                    }
                    let new_val = *pre_val - val;
                    factors.insert(key, new_val);
                },
                None => {
                    if val != 0 {
                        assert(!(exp_of(rhs@, key as nat) <= exp_of(self@, key as nat)));
                        return Err(IncompatibleDivision);
                    }
                },
            }
            proof {
                seen = seen.insert(key);
            }
            i += 1;
        }
        let left = entries(&factors);
        let mut kept: HashMap<usize, usize> = HashMap::new();
        let mut i: usize = 0;
        while i < left.len()
            invariant
                i <= left.len(),
                lists_entries(left@, factors@),
                forall|k: usize| #[trigger]
                    kept@.contains_key(k) ==> factors@.contains_key(k) && factors@[k] != 0
                        && kept@[k] == factors@[k],
                forall|j: int|
                    0 <= j < i && left[j].1 != 0 ==> kept@.contains_key(#[trigger] left[j].0),
            decreases left.len() - i,
        {
            let (key, val) = left[i];
            if val != 0 {
                kept.insert(key, val);
            }
            i += 1;
        }
        proof {
            let target = quotient_map(self@, rhs@);
            assert forall|k: usize| rhs.factors@.contains_key(k) implies seen.contains(k) by {
                let j = choose|j: int| 0 <= j < items.len() && items[j].0 == k;
                assert(seen.contains(items[j].0));
            }
            assert forall|k: nat| #[trigger] exp_of(rhs@, k) <= exp_of(self@, k) by {
                if rhs@.contains_key(k) {
                    let w = k as usize;
                    lemma_exponents_of_key(own, w);
                    lemma_exponents_of_key(rhs.factors@, w);
                    assert(seen.contains(w));
                    assert(count_of(rhs.factors@, w) <= count_of(own, w));
                }
            }
            assert forall|k: nat| as_exponents(kept@).contains_key(k) <==> target.contains_key(
                k,
            ) by {
                let w = k as usize;
                if k <= usize::MAX {
                    lemma_exponents_of_key(own, w);
                    lemma_exponents_of_key(rhs.factors@, w);
                    assert(factors@.contains_key(w) <==> own.contains_key(w));
                    if kept@.contains_key(w) {
                        assert(factors@.contains_key(w));
                    }
                    if factors@.contains_key(w) && factors@[w] != 0 {
                        let j = choose|j: int| 0 <= j < left.len() && left[j].0 == w;
                        assert(kept@.contains_key(left[j].0));
                    }
                }
            }
            assert forall|k: nat| as_exponents(kept@).contains_key(k) implies as_exponents(
                kept@,
            )[k] == target[k] by {
                let w = k as usize;
                assert(kept@.contains_key(w));
                assert(factors@.contains_key(w));
                lemma_exponents_of_key(own, w);
                lemma_exponents_of_key(rhs.factors@, w);
            }
            assert(as_exponents(kept@) =~= target);
        }
        Ok(PrimeFactorCount { factors: kept })
    }
}

impl Mul for PrimeFactorCount {
    type Output = PrimeFactorCount;

    /// Multiplicities added entry by entry: the factorization of the product.
    fn mul(self, rhs: PrimeFactorCount) -> (pf: PrimeFactorCount)
        ensures
            pf@ == product_map(self@, rhs@),
            is_factorization(self@) && is_factorization(rhs@) ==> is_factorization(pf@),
    {
        proof {
            if is_factorization(self@) && is_factorization(rhs@) {
                lemma_product_map_is_factorization(self@, rhs@);
            }
        }
        let items = entries(&rhs.factors);
        let ghost own = self.factors@;
        let ghost mut seen = Set::<usize>::empty();
        proof {
            assert forall|k: nat| #[trigger]
                exp_of(as_exponents(own), k) + exp_of(rhs@, k) <= usize::MAX by {
                assert(exp_of(self@, k) + exp_of(rhs@, k) <= usize::MAX);
            }
        }
        let mut factors = self.factors;
        let mut i: usize = 0;
        while i < items.len()
            invariant
                i <= items.len(),
                forall|k: nat| #[trigger]
                    exp_of(as_exponents(own), k) + exp_of(rhs@, k) <= usize::MAX,
                lists_entries(items@, rhs.factors@),
                forall|k: usize|
                    seen.contains(k) ==> rhs.factors@.contains_key(k),
                forall|j: int| 0 <= j < i ==> seen.contains(#[trigger] items[j].0),
                forall|j: int| i <= j < items.len() ==> !seen.contains(#[trigger] items[j].0),
                forall|k: usize| #[trigger]
                    factors@.contains_key(k) <==> own.contains_key(k) || seen.contains(k),
                forall|k: usize| #[trigger]
                    factors@.contains_key(k) ==> factors@[k] == count_of(own, k) + if seen.contains(
                        k,
                    ) {
                        count_of(rhs.factors@, k)
                    } else {
                        0
                    },
            decreases items.len() - i,
        {
            let (key, val) = items[i];
            proof {
                lemma_exponents_of_key(own, key);
                lemma_exponents_of_key(rhs.factors@, key);
                assert(exp_of(as_exponents(own), key as nat) + exp_of(rhs@, key as nat)
                    <= usize::MAX);
            }
            let sum = match factors.get(&key) {
                Some(pre_val) => val + *pre_val,
                None => val,
            };
            factors.insert(key, sum);
            proof {
                seen = seen.insert(key);
            }
            i += 1;
        }
        proof {
            let table = factors@;
            let target = product_map(self@, rhs@);
            assert forall|k: nat| as_exponents(table).contains_key(k) <==> target.contains_key(
                k,
            ) by {
                let w = k as usize;
                if k <= usize::MAX && rhs.factors@.contains_key(w) {
                    let j = choose|j: int| 0 <= j < items.len() && items[j].0 == w;
                    assert(seen.contains(items[j].0));
                }
                if k <= usize::MAX {
                    assert(table.contains_key(w) <==> own.contains_key(w) || seen.contains(w));
                }
            }
            assert forall|k: nat| as_exponents(table).contains_key(k) implies as_exponents(
                table,
            )[k] == target[k] by {
                let w = k as usize;
                assert(table.contains_key(w));
                lemma_exponents_of_key(own, w);
                lemma_exponents_of_key(rhs.factors@, w);
                if rhs.factors@.contains_key(w) {
                    let j = choose|j: int| 0 <= j < items.len() && items[j].0 == w;
                    assert(seen.contains(items[j].0));
                }
            }
            assert(as_exponents(table) =~= target);
        }
        PrimeFactorCount { factors }
    }
}

impl MulSpecImpl for PrimeFactorCount {
    /// The result is stated by its view, in the contract of `mul` itself.
    open spec fn obeys_mul_spec() -> bool {
        false
    }

    /// No sum of two multiplicities may overflow.
    open spec fn mul_req(self, rhs: PrimeFactorCount) -> bool {
        forall|k: nat| #[trigger] exp_of(self@, k) + exp_of(rhs@, k) <= usize::MAX
    }

    /// Left open: `obeys_mul_spec` is false.
    open spec fn mul_spec(self, rhs: PrimeFactorCount) -> PrimeFactorCount {
        arbitrary()
    }
}

impl Div for PrimeFactorCount {
    type Output = PrimeFactorCount;

    /// The quotient of two factorizations of which the second divides the
    /// first.
    fn div(self, rhs: PrimeFactorCount) -> (pf: PrimeFactorCount)
        ensures
            pf@ == quotient_map(self@, rhs@),
            is_factorization(self@) ==> is_factorization(pf@),
    {
        match self.checked_div(rhs) {
            Ok(pf) => pf,
            Err(_) => vstd::pervasive::unreached(),
        }
    }
}

impl DivSpecImpl for PrimeFactorCount {
    /// The result is stated by its view, in the contract of `div` itself.
    open spec fn obeys_div_spec() -> bool {
        false
    }

    /// No multiplicity of `rhs` may exceed the one in `self`.
    open spec fn div_req(self, rhs: PrimeFactorCount) -> bool {
        divisible_by(self@, rhs@)
    }

    /// Left open: `obeys_div_spec` is false.
    open spec fn div_spec(self, rhs: PrimeFactorCount) -> PrimeFactorCount {
        arbitrary()
    }
}

impl Add for PrimeFactorCount {
    type Output = PrimeFactorCount;

    /// The factorization of the sum of the two numbers, found by converting
    /// both back, adding, and factoring anew.
    fn add(self, other: PrimeFactorCount) -> (pf: PrimeFactorCount)
        ensures
            pf@ == factor_map((value_of(self@) + value_of(other@)) as nat),
            is_factorization(pf@),
    {
        proof {
            assert(bounds_keys(self@, (usize::MAX + 1) as nat));
            assert(bounds_keys(other@, (usize::MAX + 1) as nat));
            lemma_value_nonnegative(self@);
            lemma_value_nonnegative(other@);
            lemma_factor_map_is_factorization((value_of(self@) + value_of(other@)) as nat);
        }
        let own_val = self.to_num();
        let other_val = other.to_num();
        PrimeFactorCount::new(own_val + other_val)
    }
}

impl AddSpecImpl for PrimeFactorCount {
    /// The result is stated by its view, in the contract of `add` itself.
    open spec fn obeys_add_spec() -> bool {
        false
    }

    /// Both values and their sum must be in reach of the sieve.
    open spec fn add_req(self, other: PrimeFactorCount) -> bool {
        &&& !self@.contains_key(0)
        &&& !other@.contains_key(0)
        &&& value_of(self@) + value_of(other@) < usize::MAX
    }

    /// Left open: `obeys_add_spec` is false.
    open spec fn add_spec(self, other: PrimeFactorCount) -> PrimeFactorCount {
        arbitrary()
    }
}

impl PartialEq for PrimeFactorCount {
    /// Same primes with the same multiplicities.
    fn eq(&self, other: &PrimeFactorCount) -> (r: bool) {
        if self.factors.len() != other.factors.len() {
            proof {
                if self@ == other@ {
                    lemma_exponents_determine_table(self.factors@, other.factors@);
                }
            }
            return false;
        }
        let items = entries(&self.factors);
        let mut i: usize = 0;
        while i < items.len()
            invariant
                i <= items.len(),
                lists_entries(items@, self.factors@),
                forall|j: int|
                    0 <= j < i ==> other.factors@.contains_key(#[trigger] items[j].0)
                        && other.factors@[items[j].0] == items[j].1,
            decreases items.len() - i,
        {
            let (key, val) = items[i];
            let same = match other.factors.get(&key) {
                Some(v) => *v == val,
                None => false,
            };
            if !same {
                proof {
                    if self@ == other@ {
                        lemma_exponents_determine_table(self.factors@, other.factors@);
                    }
                }
                return false;
            }
            i += 1;
        }
        proof {
            let a = self.factors@;
            let b = other.factors@;
            assert forall|k: usize| a.contains_key(k) implies b.contains_key(k) && a[k] == b[k] by {
                let j = choose|j: int| 0 <= j < items.len() && items[j].0 == k;
                assert(other.factors@.contains_key(items[j].0));
            }
            assert(a.dom().subset_of(b.dom()));
            vstd::set_lib::lemma_subset_equality(a.dom(), b.dom());
            assert(a =~= b);
        }
        true
    }
}

impl PartialEqSpecImpl for PrimeFactorCount {
    /// `==` computes `eq_spec`.
    open spec fn obeys_eq_spec() -> bool {
        true
    }

    /// Two factorizations are equal where their exponent maps are.
    open spec fn eq_spec(&self, other: &PrimeFactorCount) -> bool {
        self@ == other@
    }
}

} // verus!
