//! Chain lengths of the iteration "halve an even number, triple an odd one
//! and add 1", memoized in a table that only ever grows.

use std::collections::HashMap;
use vstd::prelude::*;

verus! {

/// The number that follows `v` in its chain.
pub open spec fn successor(v: nat) -> nat {
    if v % 2 == 0 {
        v / 2
    } else {
        3 * v + 1
    }
}

/// The `i`-th number of the chain that starts at `n`.
pub open spec fn term(n: nat, i: nat) -> nat
    decreases i,
{
    if i == 0 {
        n
    } else {
        successor(term(n, (i - 1) as nat))
    }
}

/// The chain from `v` has exactly `len` numbers, the last of which is its
/// first 1. The chain of 1 itself has length 1.
pub open spec fn has_length(v: nat, len: nat) -> bool
    decreases len,
{
    if len == 0 {
        false
    } else if v == 1 {
        len == 1
    } else {
        has_length(successor(v), (len - 1) as nat)
    }
}

/// None of the first `len` numbers of the chain from `v` exceeds `bound`.
pub open spec fn fits(v: nat, len: nat, bound: nat) -> bool
    decreases len,
{
    len == 0 || (v <= bound && fits(successor(v), (len - 1) as nat, bound))
}

/// The chain from `n` reaches 1, and neither its numbers nor its length
/// exceed `bound`.
pub open spec fn resolves_within(n: nat, bound: nat) -> bool {
    exists|len: nat| len <= bound && has_length(n, len) && #[trigger] fits(n, len, bound)
}

/// The chain from `n` reaches 1 within `budget` numbers, none of them
/// beyond a `u128`.
pub open spec fn resolves_in_budget(n: nat, budget: nat) -> bool {
    exists|len: nat|
        len <= budget && has_length(n, len) && #[trigger] fits(n, len, u128::MAX as nat)
}

/// The length of the chain from `v`, where it reaches 1.
pub open spec fn chain_length(v: nat) -> nat {
    choose|len: nat| has_length(v, len)
}

/// The length of a chain that reaches 1 is `chain_length`.
pub proof fn lemma_chain_length(v: nat, len: nat)
    requires
        has_length(v, len),
    ensures
        chain_length(v) == len,
{
    lemma_length_unique(v, len, chain_length(v));
}

/// A chain has one length only.
pub proof fn lemma_length_unique(v: nat, a: nat, b: nat)
    requires
        has_length(v, a),
        has_length(v, b),
    ensures
        a == b,
    decreases a,
{
    if v != 1 {
        lemma_length_unique(successor(v), (a - 1) as nat, (b - 1) as nat);
    }
}

/// After `i` steps along a chain of length `len`, what is left has length
/// `len - i`, and it fits where the whole chain fits.
pub proof fn lemma_rest_of_chain(n: nat, len: nat, i: nat, bound: nat)
    requires
        has_length(n, len),
        i < len,
    ensures
        has_length(term(n, i), (len - i) as nat),
        fits(n, len, bound) ==> fits(term(n, i), (len - i) as nat, bound),
        term(n, i) == 1 <==> i == len - 1,
    decreases i,
{
    if i > 0 {
        lemma_rest_of_chain(n, len, (i - 1) as nat, bound);
    }
    let t = term(n, i);
    assert(has_length(t, (len - i) as nat));
    if t != 1 && i == len - 1 {
        assert(!has_length(successor(t), 0));
    }
}

/// What a table must hold to be a memo of chain lengths: each entry is the
/// true length, and with a number other than 1 its successor is stored too.
pub open spec fn is_memo(cache: Map<u128, u128>) -> bool {
    forall|k: u128| #[trigger]
        cache.contains_key(k) ==> {
            &&& has_length(k as nat, cache[k] as nat)
            &&& (k != 1 ==> successor(k as nat) <= u128::MAX && cache.contains_key(
                successor(k as nat) as u128,
            ))
        }
}

/// Every number on the work stack is the number of the chain from `n` at
/// its depth.
spec fn follows_chain(stack: Seq<u128>, n: nat, total: nat) -> bool {
    &&& stack.len() <= total
    &&& forall|i: int| 0 <= i < stack.len() ==> #[trigger] stack[i] as nat == term(n, i as nat)
}

/// `cache` keeps what `start` held and adds numbers of the chain from `n`
/// only.
spec fn grown_along(start: Map<u128, u128>, cache: Map<u128, u128>, n: nat, total: nat) -> bool {
    &&& forall|k: u128| #[trigger]
        start.contains_key(k) ==> cache.contains_key(k) && cache[k] == start[k]
    &&& forall|k: u128| #[trigger]
        cache.contains_key(k) ==> start.contains_key(k) || exists|i: nat|
            i < total && #[trigger] term(n, i) == k
}

/// What holds between two rounds of the loop of `Collatz::collatz`.
spec fn in_progress(
    start: Map<u128, u128>,
    cache: Map<u128, u128>,
    stack: Seq<u128>,
    n: u128,
    total: nat,
) -> bool {
    &&& total <= u128::MAX
    &&& has_length(n as nat, total)
    &&& fits(n as nat, total, u128::MAX as nat)
    &&& is_memo(cache)
    &&& follows_chain(stack, n as nat, total)
    &&& (stack.len() == 0 ==> cache.contains_key(n))
    &&& grown_along(start, cache, n as nat, total)
    &&& (start.contains_key(n) ==> cache == start && stack.len() <= 1)
}

/// Work left for the loop of `Collatz::collatz`: the size of the stack, plus
/// twice the chain length of its top while the top cannot be resolved at
/// once.
spec fn pending(stack: Seq<u128>, cache: Map<u128, u128>, total: nat) -> nat {
    if stack.len() == 0 {
        0
    } else {
        let top = stack.last();
        if top == 1 || cache.contains_key(successor(top as nat) as u128) {
            stack.len()
        } else {
            (stack.len() + 2 * (total - (stack.len() - 1))) as nat
        }
    }
}

/// What is known of the top of the work stack.
proof fn lemma_top_of_stack(stack: Seq<u128>, n: u128, total: nat)
    requires
        has_length(n as nat, total),
        fits(n as nat, total, u128::MAX as nat),
        follows_chain(stack, n as nat, total),
        stack.len() > 0,
    ensures
        stack.last() as nat == term(n as nat, (stack.len() - 1) as nat),
        has_length(stack.last() as nat, (total - (stack.len() - 1)) as nat),
        stack.last() == 1 <==> stack.len() == total,
        stack.last() != 1 ==> {
            &&& successor(stack.last() as nat) <= u128::MAX
            &&& successor(stack.last() as nat) == term(n as nat, stack.len())
            &&& has_length(successor(stack.last() as nat), (total - stack.len()) as nat)
        },
        stack.len() >= 2 ==> successor(stack[stack.len() - 2] as nat) == stack.last(),
{
    let depth = (stack.len() - 1) as nat;
    let bound = u128::MAX as nat;
    lemma_rest_of_chain(n as nat, total, depth, bound);
    assert(stack[depth as int] as nat == term(n as nat, depth));
    if stack.last() != 1 {
        lemma_rest_of_chain(n as nat, total, depth + 1, bound);
        assert(fits(term(n as nat, depth + 1), (total - depth - 1) as nat, bound));
    }
    if stack.len() >= 2 {
        assert(stack[depth - 1] as nat == term(n as nat, (depth - 1) as nat));
    }
}

/// Storing the length of the top of the stack, once it can be told, keeps
/// the loop's state in order and leaves less work.
proof fn lemma_after_resolving(
    start: Map<u128, u128>,
    cache: Map<u128, u128>,
    stack: Seq<u128>,
    n: u128,
    total: nat,
)
    requires
        in_progress(start, cache, stack, n, total),
        stack.len() > 0,
        stack.last() == 1 || cache.contains_key(successor(stack.last() as nat) as u128),
    ensures
        ({
            let val = stack.last();
            let length = chain_length_of_top(cache, val);
            &&& length <= u128::MAX
            &&& in_progress(start, cache.insert(val, length as u128), stack.drop_last(), n, total)
            &&& pending(stack.drop_last(), cache.insert(val, length as u128), total) < pending(
                stack,
                cache,
                total,
            )
        }),
{
    let val = stack.last();
    let depth = (stack.len() - 1) as nat;
    let length = chain_length_of_top(cache, val);
    let rest = stack.drop_last();
    lemma_top_of_stack(stack, n, total);
    if val != 1 {
        let next = successor(val as nat) as u128;
        assert(has_length(next as nat, cache[next] as nat));
        lemma_length_unique(next as nat, cache[next] as nat, (total - stack.len()) as nat);
    }
    assert(length == total - depth);
    let stored = cache.insert(val, length as u128);
    if cache.contains_key(val) {
        assert(has_length(val as nat, cache[val] as nat));
        lemma_length_unique(val as nat, cache[val] as nat, length);
        assert(stored =~= cache);
    }
    assert(is_memo(stored)) by {
        assert forall|k: u128| #[trigger] stored.contains_key(k) implies {
            &&& has_length(k as nat, stored[k] as nat)
            &&& (k != 1 ==> successor(k as nat) <= u128::MAX && stored.contains_key(
                successor(k as nat) as u128,
            ))
        } by {
            if k != val {
                assert(cache.contains_key(k));
            }
        }
    }
    assert(follows_chain(rest, n as nat, total)) by {
        assert forall|i: int| 0 <= i < rest.len() implies #[trigger] rest[i] as nat == term(
            n as nat,
            i as nat,
        ) by {
            assert(rest[i] == stack[i]);
        }
    }
    assert(grown_along(start, stored, n as nat, total)) by {
        assert forall|k: u128| #[trigger] start.contains_key(k) implies stored.contains_key(k)
            && stored[k] == start[k] by {
            assert(cache.contains_key(k) && cache[k] == start[k]);
        }
        assert forall|k: u128| #[trigger] stored.contains_key(k) implies start.contains_key(k)
            || exists|i: nat| i < total && #[trigger] term(n as nat, i) == k by {
            if k == val {
                assert(depth < total && term(n as nat, depth) == k);
            } else {
                assert(cache.contains_key(k));
            }
        }
    }
    if rest.len() > 0 {
        assert(rest.last() == stack[stack.len() - 2]);
        assert(stored.contains_key(successor(rest.last() as nat) as u128));
    }
}

/// The chain length of `val`, told from the stored length of its successor.
spec fn chain_length_of_top(cache: Map<u128, u128>, val: u128) -> nat {
    if val == 1 {
        1
    } else {
        (cache[successor(val as nat) as u128] + 1) as nat
    }
}

/// Putting the successor of the top on the stack, where its length is not
/// stored yet, keeps the loop's state in order and leaves less work.
proof fn lemma_after_deferring(
    start: Map<u128, u128>,
    cache: Map<u128, u128>,
    stack: Seq<u128>,
    n: u128,
    total: nat,
)
    requires
        in_progress(start, cache, stack, n, total),
        stack.len() > 0,
        stack.last() != 1,
        successor(stack.last() as nat) <= u128::MAX,
        !cache.contains_key(successor(stack.last() as nat) as u128),
    ensures
        in_progress(start, cache, stack.push(successor(stack.last() as nat) as u128), n, total),
        pending(stack.push(successor(stack.last() as nat) as u128), cache, total) < pending(
            stack,
            cache,
            total,
        ),
{
    let val = stack.last();
    let next = successor(val as nat) as u128;
    let more = stack.push(next);
    lemma_top_of_stack(stack, n, total);
    assert(has_length(next as nat, (total - stack.len()) as nat));
    assert(stack.len() < total);
    assert(follows_chain(more, n as nat, total)) by {
        assert forall|i: int| 0 <= i < more.len() implies #[trigger] more[i] as nat == term(
            n as nat,
            i as nat,
        ) by {
            if i < stack.len() {
                assert(more[i] == stack[i]);
            }
        }
    }
    if start.contains_key(n) {
        assert(stack[0] as nat == term(n as nat, 0));
        assert(cache.contains_key(val));
    }
    assert(more.last() == next);
}

/// The number that follows `n` in its chain.
fn collatz(n: &u128) -> (r: u128)
    requires
        successor(*n as nat) <= u128::MAX,
    ensures
        r == successor(*n as nat),
{
    if *n % 2 == 0 {
        *n / 2
    } else {
        3 * *n + 1
    }
}

/// Memoizing evaluator of chain lengths.
pub struct Collatz {
    cache: HashMap<u128, u128>,
}

impl View for Collatz {
    type V = Map<u128, u128>;

    /// The table of the chain lengths known so far.
    closed spec fn view(&self) -> Map<u128, u128> {
        self.cache@
    }
}

impl Collatz {
    /// The table holds true chain lengths and is closed under `successor`.
    pub open spec fn wf(&self) -> bool {
        is_memo(self@)
    }

    /// An evaluator that knows nothing yet.
    pub fn new() -> (c: Collatz)
        ensures
            c.wf(),
            c@ == Map::<u128, u128>::empty(),
    {
        Collatz { cache: HashMap::new() }
    }

    /// How many chain lengths are known.
    pub fn len(&self) -> (n: usize)
        ensures
            n == self@.len(),
    {
        self.cache.len()
    }

    /// Whether the chain from `n` reaches 1 within `budget` numbers, none of
    /// them beyond a `u128`. Where it does, `collatz` can be asked for `n`.
    pub fn resolves(n: u128, budget: usize) -> (ok: bool)
        ensures
            ok <==> resolves_in_budget(n as nat, budget as nat),
            ok ==> resolves_within(n as nat, u128::MAX as nat),
    {
        let ghost bound = u128::MAX as nat;
        let mut v = n;
        let mut used: usize = 0;
        while used < budget
            invariant
                used <= budget,
                bound == u128::MAX,
                v as nat == term(n as nat, used as nat),
                forall|i: nat| i < used ==> #[trigger] term(n as nat, i) != 1,
                forall|i: nat| i < used ==> #[trigger] term(n as nat, i) <= bound,
            decreases budget - used,
        {
            if v == 1 {
                proof {
                    lemma_chain_from_terms(n as nat, used as nat, bound);
                    assert(fits(n as nat, (used + 1) as nat, bound));
                }
                return true;
            }
            if v % 2 != 0 && v > (u128::MAX - 1) / 3 {
                proof {
                    assert forall|len: nat|
                        len <= budget && has_length(n as nat, len) implies !#[trigger] fits(
                        n as nat,
                        len,
                        bound,
                    ) by {
                        lemma_rest_of_chain(n as nat, len, (len - 1) as nat, bound);
                        assert(used < len - 1);
                        lemma_rest_of_chain(n as nat, len, (used + 1) as nat, bound);
                    }
                }
                return false;
            }
            v = collatz(&v);
            used += 1;
        }
        proof {
            assert forall|len: nat|
                len <= budget && has_length(n as nat, len) implies !#[trigger] fits(
                n as nat,
                len,
                bound,
            ) by {
                lemma_rest_of_chain(n as nat, len, (len - 1) as nat, bound);
            }
        }
        false
    }

    /// The length of the chain from `n`. Every number of the chain that was
    /// not known before is stored with its own length; nothing else is
    /// stored, and nothing is stored where `n` was known already.
    pub fn collatz(&mut self, n: u128) -> (r: u128)
        requires
            old(self).wf(),
            resolves_within(n as nat, u128::MAX as nat),
        ensures
            final(self).wf(),
            has_length(n as nat, r as nat),
            final(self)@.contains_key(n) && final(self)@[n] == r,
            forall|k: u128| #[trigger]
                old(self)@.contains_key(k) ==> final(self)@.contains_key(k) && final(self)@[k]
                    == old(self)@[k],
            forall|k: u128| #[trigger]
                final(self)@.contains_key(k) ==> old(self)@.contains_key(k) || exists|i: nat|
                    i < r && #[trigger] term(n as nat, i) == k,
            forall|i: nat|
                i < r ==> final(self)@.contains_key(#[trigger] term(n as nat, i) as u128),
            old(self)@.contains_key(n) ==> final(self)@ == old(self)@,
    {
        let ghost start = self.cache@;
        let ghost total = choose|len: nat|
            len <= u128::MAX && has_length(n as nat, len) && #[trigger] fits(
                n as nat,
                len,
                u128::MAX as nat,
            );
        let mut to_do: Vec<u128> = Vec::new();
        to_do.push(n);
        proof {
            assert(to_do@[0] as nat == term(n as nat, 0));
            assert(follows_chain(to_do@, n as nat, total));
        }
        while to_do.len() > 0
            invariant
                start == old(self)@,
                in_progress(start, self.cache@, to_do@, n, total),
            decreases pending(to_do@, self.cache@, total),
        {
            let ghost stack = to_do@;
            let ghost before = self.cache@;
            proof {
                lemma_top_of_stack(stack, n, total);
            }
            let val = to_do.pop().unwrap();
            if val == 1 {
                proof {
                    lemma_after_resolving(start, before, stack, n, total);
                }
                self.cache.insert(1, 1);
            } else {
                let next = collatz(&val);
                match self.cache.get(&next) {
                    Some(dist) => {
                        let steps = *dist;
                        proof {
                            lemma_after_resolving(start, before, stack, n, total);
                        }
                        self.cache.insert(val, steps + 1);
                    },
                    None => {
                        proof {
                            lemma_after_deferring(start, before, stack, n, total);
                            assert(stack.drop_last().push(val).push(next) =~= stack.push(next));
                        }
                        to_do.push(val);
                        to_do.push(next);
                    },
                }
            }
        }
        let r = *self.cache.get(&n).unwrap();
        proof {
            assert(has_length(n as nat, r as nat));
            lemma_length_unique(n as nat, r as nat, total);
            assert forall|i: nat| i < r implies self.cache@.contains_key(
                #[trigger] term(n as nat, i) as u128,
            ) by {
                lemma_chain_is_stored(self.cache@, n, r as nat, i);
            }
        }
        r
    }
}

/// A memo that holds `n` holds every number of the chain from `n`.
pub proof fn lemma_chain_is_stored(cache: Map<u128, u128>, n: u128, len: nat, i: nat)
    requires
        is_memo(cache),
        cache.contains_key(n),
        has_length(n as nat, len),
        i < len,
    ensures
        term(n as nat, i) <= u128::MAX,
        cache.contains_key(term(n as nat, i) as u128),
    decreases i,
{
    if i > 0 {
        lemma_chain_is_stored(cache, n, len, (i - 1) as nat);
        lemma_rest_of_chain(n as nat, len, (i - 1) as nat, 0);
    }
}

/// The chain from the successor of `n` is the chain from `n` without its
/// first number.
pub proof fn lemma_term_shift(n: nat, i: nat)
    ensures
        term(successor(n), i) == term(n, i + 1),
    decreases i,
{
    if i > 0 {
        lemma_term_shift(n, (i - 1) as nat);
        assert(term(n, i + 1) == successor(term(n, i)));
    } else {
        assert(term(n, 1) == successor(term(n, 0)));
    }
}

/// A chain whose number at position `k` is its first 1 has length `k + 1`,
/// and it fits where its numbers up to there do.
pub proof fn lemma_chain_from_terms(n: nat, k: nat, bound: nat)
    requires
        term(n, k) == 1,
        forall|i: nat| i < k ==> #[trigger] term(n, i) != 1,
        forall|i: nat| i <= k ==> #[trigger] term(n, i) <= bound,
    ensures
        has_length(n, k + 1),
        fits(n, k + 1, bound),
    decreases k,
{
    assert(term(n, 0) == n);
    if k > 0 {
        let m = successor(n);
        assert forall|i: nat| i < k - 1 implies #[trigger] term(m, i) != 1 by {
            lemma_term_shift(n, i);
            assert(term(n, i + 1) != 1);
        }
        assert forall|i: nat| i <= k - 1 implies #[trigger] term(m, i) <= bound by {
            lemma_term_shift(n, i);
            assert(term(n, i + 1) <= bound);
        }
        lemma_term_shift(n, (k - 1) as nat);
        lemma_chain_from_terms(m, (k - 1) as nat, bound);
    } else {
        assert(fits(successor(n), 0, bound));
    }
}

} // verus!
