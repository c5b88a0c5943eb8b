//! The Fibonacci numbers 1, 1, 2, 3, 5, ... as a pull-based sequence, with an
//! optional limit above which nothing is produced.

use vstd::prelude::*;

verus! {

/// The Fibonacci numbers: 0, 1, and from then on the sum of the two before.
pub open spec fn fib(n: nat) -> nat
    decreases n,
{
    if n == 0 {
        0
    } else if n == 1 {
        1
    } else {
        fib((n - 1) as nat) + fib((n - 2) as nat)
    }
}

/// From the first on, the Fibonacci numbers are positive and never decrease,
/// and the one two places on is at most threefold.
pub proof fn lemma_fib_growth(i: nat)
    requires
        i >= 1,
    ensures
        1 <= fib(i) <= fib(i + 1),
        fib(i + 2) <= 3 * fib(i),
        i <= fib(i) + 1,
    decreases i,
{
    assert(fib(i + 2) == fib(i + 1) + fib(i));
    assert(fib(i + 1) == fib(i) + fib((i - 1) as nat));
    if i >= 2 {
        lemma_fib_growth((i - 1) as nat);
        assert(fib(i) == fib((i - 1) as nat) + fib((i - 2) as nat));
        if i >= 3 {
            lemma_fib_growth((i - 2) as nat);
        }
    }
}

/// Sets `x` to the additive identity of `usize` by `num_traits::Zero::set_zero`,
/// which for `usize` is 0.
#[verifier::external_body]
fn set_zero(x: &mut usize)
    ensures
        *final(x) == 0,
{
    num_traits::Zero::set_zero(x)
}

/// Sets `x` to the multiplicative identity of `usize` by
/// `num_traits::One::set_one`, which for `usize` is 1.
#[verifier::external_body]
fn set_one(x: &mut usize)
    ensures
        *final(x) == 1,
{
    num_traits::One::set_one(x)
}

/// Whether the sequence ends at a limit.
enum FibType<T> {
    FibRegular,
    FibLimited(T),
}

/// Producer of the Fibonacci numbers in ascending order.
pub struct Fib<T> {
    a: T,
    b: T,
    fib_type: FibType<T>,
    index: Ghost<nat>,
}

impl Fib<usize> {
    /// How many numbers have been computed so far.
    pub closed spec fn index(&self) -> nat {
        self.index@
    }

    /// The limit below which numbers are produced, if there is one.
    pub closed spec fn bound(&self) -> Option<usize> {
        match self.fib_type {
            FibType::FibRegular => None,
            FibType::FibLimited(limit) => Some(limit),
        }
    }

    /// The two numbers held are the Fibonacci numbers at the index and after
    /// it.
    pub closed spec fn wf(&self) -> bool {
        &&& self.a == fib(self.index@)
        &&& self.b == fib(self.index@ + 1)
    }

    /// A sequence at its start, without a limit.
    pub fn new() -> (f: Fib<usize>)
        ensures
            f.wf(),
            f.index() == 0,
            f.bound() is None,
    {
        let mut a: usize = Default::default();
        let mut b: usize = Default::default();
        set_zero(&mut a);
        set_one(&mut b);
        Fib { a, b, fib_type: FibType::FibRegular, index: Ghost(0) }
    }

    /// A sequence at the same position that produces the numbers below
    /// `limit` only.
    pub fn limit(&mut self, limit: usize) -> (f: Fib<usize>)
        ensures
            *final(self) == *old(self),
            old(self).wf() ==> f.wf(),
            f.index() == old(self).index(),
            f.bound() == Some(limit),
    {
        Fib { a: self.a, b: self.b, fib_type: FibType::FibLimited(limit), index: self.index }
    }

    /// Moves on to the next Fibonacci number and produces it, unless it has
    /// reached the limit.
    pub fn next(&mut self) -> (r: Option<usize>)
        requires
            old(self).wf(),
            fib(old(self).index() + 2) <= usize::MAX,
        ensures
            final(self).wf(),
            final(self).index() == old(self).index() + 1,
            final(self).bound() == old(self).bound(),
            r == match old(self).bound() {
                Some(limit) if fib(final(self).index()) >= limit => None,
                _ => Some(fib(final(self).index()) as usize),
            },
    {
        let c = self.a + self.b;
        self.a = self.b;
        self.b = c;
        self.index = Ghost((self.index@ + 1) as nat);
        match &self.fib_type {
            FibType::FibRegular => Some(self.a),
            FibType::FibLimited(limit) => if self.a < *limit {
                Some(self.a)
            } else {
                None
            },
        }
    }
}

} // verus!
