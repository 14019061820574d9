//! Small arithmetic helpers: powers of two, population count and trailing
//! zeros of chunk counters, used to bound the hasher's subtree stack and to
//! size tree storage.

use vstd::prelude::*;

verus! {

pub open spec fn pow2(k: nat) -> nat
    decreases k,
{
    if k == 0 {
        1
    } else {
        2 * pow2((k - 1) as nat)
    }
}

/// Whether `n` is a power of two.
pub open spec fn is_pow2(n: int) -> bool
    decreases n,
{
    if n <= 0 {
        false
    } else if n == 1 {
        true
    } else {
        n % 2 == 0 && is_pow2(n / 2)
    }
}

/// The number of one bits in `n`.
pub open spec fn popcount(n: nat) -> nat
    decreases n,
{
    if n == 0 {
        0
    } else {
        popcount(n / 2) + n % 2
    }
}

/// The number of trailing zero bits of `n` (0 for n == 0, by convention).
pub open spec fn trailing_zeros(n: nat) -> nat
    decreases n,
{
    if n == 0 || n % 2 == 1 {
        0
    } else {
        1 + trailing_zeros(n / 2)
    }
}

/// Incrementing a counter turns its trailing one bits into zeros and sets
/// the next bit: the popcount drops by the new trailing zero count less one.
pub proof fn lemma_popcount_succ(n: nat)
    ensures
        trailing_zeros(n + 1) <= popcount(n),
        popcount(n + 1) == popcount(n) - trailing_zeros(n + 1) + 1,
    decreases n,
{
    if (n + 1) % 2 == 1 {
        // n is even: no carry.
        assert(popcount(n + 1) == popcount((n + 1) / 2) + 1);
    } else {
        // n is odd: one carry step, then recurse on n / 2.
        let m = n / 2;
        lemma_popcount_succ(m);
        assert((n + 1) / 2 == m + 1);
        assert(popcount(n) == popcount(m) + 1);
        assert(trailing_zeros(n + 1) == 1 + trailing_zeros(m + 1));
        assert(popcount(n + 1) == popcount(m + 1));
    }
}

/// A counter below 2^b has at most b one bits.
pub proof fn lemma_popcount_bound(n: nat, b: nat)
    requires
        n < pow2(b),
    ensures
        popcount(n) <= b,
    decreases b,
{
    if b == 0 {
        assert(n == 0);
    } else if n == 0 {
    } else {
        assert(n / 2 < pow2((b - 1) as nat));
        lemma_popcount_bound(n / 2, (b - 1) as nat);
    }
}

pub proof fn lemma_pow2_54()
    ensures
        pow2(54) == 0x40000000000000,
{
    reveal_with_fuel(pow2, 55);
}

/// The smallest power of two no smaller than `n` (1 for n <= 1).
pub open spec fn next_pow2(n: nat) -> nat
    decreases n,
{
    if n <= 1 {
        1
    } else {
        2 * next_pow2(((n + 1) / 2) as nat)
    }
}

pub proof fn lemma_next_pow2_props(n: nat)
    ensures
        is_pow2(next_pow2(n) as int),
        next_pow2(n) >= n,
        n >= 1 ==> next_pow2(n) < 2 * n,
        n <= 1 ==> next_pow2(n) == 1,
    decreases n,
{
    if n > 1 {
        lemma_next_pow2_props(((n + 1) / 2) as nat);
    }
}

/// Distinct powers of two differ by at least a factor of two.
pub proof fn lemma_pow2_ordering(p: int, q: int)
    requires
        is_pow2(p),
        is_pow2(q),
        p < q,
    ensures
        2 * p <= q,
    decreases p,
{
    if p > 1 {
        lemma_pow2_ordering(p / 2, q / 2);
    }
}

/// A power of two in [n, 2n) is the next power of two of n.
pub proof fn lemma_next_pow2_unique(n: nat, r: nat)
    requires
        is_pow2(r as int),
        r >= n,
        n >= 1,
        r < 2 * n,
    ensures
        r == next_pow2(n),
{
    lemma_next_pow2_props(n);
    let x = next_pow2(n);
    if r < x {
        lemma_pow2_ordering(r as int, x as int);
    } else if x < r {
        lemma_pow2_ordering(x as int, r as int);
    }
}

/// The bit length of `n`: 0 for n <= 0, else one more than that of n / 2.
pub open spec fn bitlen(n: int) -> nat
    decreases n,
{
    if n <= 0 {
        0
    } else {
        1 + bitlen(n / 2)
    }
}

/// The total bit length of a work queue of node indices; it shrinks with
/// every parent step, which bounds the update loops.
pub open spec fn queue_measure(q: Seq<int>) -> nat
    decreases q.len(),
{
    if q.len() == 0 {
        0
    } else {
        bitlen(q[0]) + queue_measure(q.skip(1))
    }
}

pub proof fn lemma_queue_measure_push(q: Seq<int>, x: int)
    ensures
        queue_measure(q.push(x)) == queue_measure(q) + bitlen(x),
    decreases q.len(),
{
    let p = q.push(x);
    assert(p.len() == q.len() + 1);
    if q.len() == 0 {
        assert(p.skip(1) =~= Seq::<int>::empty());
        assert(p[0] == x);
        assert(queue_measure(p) == bitlen(x) + queue_measure(p.skip(1)));
        assert(queue_measure(p.skip(1)) == 0);
    } else {
        assert(p.skip(1) =~= q.skip(1).push(x));
        assert(p[0] == q[0]);
        lemma_queue_measure_push(q.skip(1), x);
        assert(queue_measure(p) == bitlen(q[0]) + queue_measure(p.skip(1)));
    }
}

pub fn next_power_of_two(n: usize) -> (r: usize)
    requires
        n <= usize::MAX / 2 + 1,
    ensures
        is_pow2(r as int),
        r >= n,
        n >= 1 ==> r < 2 * n,
        r == next_pow2(n as nat),
{
    let mut r: usize = 1;
    while r < n
        invariant
            r >= 1,
            is_pow2(r as int),
            n <= usize::MAX / 2 + 1,
            n >= 1 ==> r < 2 * n,
            n <= 1 ==> r == 1,
        decreases 2 * n - r,
    {
        r = r * 2;
    }
    proof {
        if n >= 1 {
            lemma_next_pow2_unique(n as nat, r as nat);
        }
    }
    r
}

} // verus!
