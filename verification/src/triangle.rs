//! The triangular numbers 1, 3, 6, 10, ... as a pull-based sequence.

use vstd::prelude::*;

verus! {

/// The `n`-th triangular number, `1 + 2 + ... + n`.
pub open spec fn triangular(n: nat) -> nat
    decreases n,
{
    if n == 0 {
        0
    } else {
        n + triangular((n - 1) as nat)
    }
}

/// From 2 on, a triangular number exceeds its index.
pub proof fn lemma_triangular_at_least(n: nat)
    ensures
        n <= triangular(n),
        n >= 2 ==> n < triangular(n),
    decreases n,
{
    if n > 0 {
        lemma_triangular_at_least((n - 1) as nat);
    }
}

/// Producer of the triangular numbers in ascending order.
pub struct TriangularNumber {
    tri: usize,
    counter: usize,
}

impl TriangularNumber {
    /// How many numbers have been produced so far.
    pub closed spec fn produced(&self) -> nat {
        (self.counter - 1) as nat
    }

    /// The running sum equals the triangular number of the count produced.
    pub closed spec fn wf(&self) -> bool {
        &&& self.counter >= 1
        &&& self.tri == triangular((self.counter - 1) as nat)
    }

    /// A sequence at its start.
    pub fn new() -> (t: TriangularNumber)
        ensures
            t.wf(),
            t.produced() == 0,
    {
        TriangularNumber { tri: 0, counter: 1 }
    }

    /// Produces the next triangular number.
    pub fn next(&mut self) -> (r: Option<usize>)
        requires
            old(self).wf(),
            triangular(old(self).produced() + 1) <= usize::MAX,
        ensures
            final(self).wf(),
            final(self).produced() == old(self).produced() + 1,
            r == Some(triangular(final(self).produced()) as usize),
    {
        proof {
            lemma_triangular_at_least(self.counter as nat);
        }
        self.tri += self.counter;
        self.counter += 1;
        Some(self.tri)
    }
}

} // verus!
