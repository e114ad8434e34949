use vstd::prelude::*;

verus! {

/// Whether `n` is a power of two (1, 2, 4, ...).
pub open spec fn is_pow2(n: nat) -> bool
    decreases n,
{
    if n == 1 {
        true
    } else if n == 0 || n % 2 == 1 {
        false
    } else {
        is_pow2(n / 2)
    }
}

/// The first value reached by doubling `p` that is at least `n`.
pub open spec fn climb(p: nat, n: nat) -> nat
    decreases (if p < n { n - p } else { 0 }),
{
    if p == 0 || p >= n {
        p
    } else {
        climb(2 * p, n)
    }
}

/// The smallest power of two that is at least `n` (1 when `n` is 0).
pub open spec fn next_pow2(n: nat) -> nat {
    climb(1, n)
}

pub proof fn lemma_climb_ge(p: nat, n: nat)
    ensures
        climb(p, n) >= p,
        p > 0 ==> climb(p, n) >= n,
    decreases (if p < n { n - p } else { 0 }),
{
    if p != 0 && p < n {
        lemma_climb_ge(2 * p, n);
    }
}

/// Doubling from a power of two gives powers of two.
pub proof fn lemma_climb_pow2(p: nat, n: nat)
    requires
        is_pow2(p),
    ensures
        is_pow2(climb(p, n)),
    decreases (if p < n { n - p } else { 0 }),
{
    if p != 0 && p < n {
        assert((2 * p) / 2 == p);
        assert(is_pow2(2 * p));
        lemma_climb_pow2(2 * p, n);
    }
}

/// Doubling a power of two `p` below a power of two `n` never overshoots `n`.
pub proof fn lemma_climb_to_pow2(p: nat, n: nat)
    requires
        is_pow2(p),
        is_pow2(n),
        p <= n,
    ensures
        climb(p, n) == n,
    decreases n - p,
{
    if p < n {
        lemma_pow2_double_le(p, n);
        assert((2 * p) / 2 == p);
        lemma_climb_to_pow2(2 * p, n);
    }
}

/// Of two powers of two, the smaller one doubled is at most the larger one.
pub proof fn lemma_pow2_double_le(p: nat, n: nat)
    requires
        is_pow2(p),
        is_pow2(n),
        p < n,
    ensures
        2 * p <= n,
    decreases n,
{
    if p != 1 {
        lemma_pow2_double_le(p / 2, n / 2);
    }
}

/// A power of two is its own smallest power of two above.
pub proof fn lemma_next_pow2_of_pow2(n: nat)
    requires
        is_pow2(n),
    ensures
        next_pow2(n) == n,
{
    lemma_pow2_ge1(n);
    lemma_climb_to_pow2(1, n);
}

pub proof fn lemma_pow2_ge1(n: nat)
    requires
        is_pow2(n),
    ensures
        n >= 1,
        is_pow2(1),
{
}

/// Whether `n` is a power of two.
pub fn is_power_of_two(n: usize) -> (r: bool)
    ensures
        r == is_pow2(n as nat),
{
    let mut m: usize = n;
    while m > 1 && m % 2 == 0
        invariant
            is_pow2(m as nat) == is_pow2(n as nat),
        decreases m,
    {
        m = m / 2;
    }
    m == 1
}

/// The smallest power of two that is at least `n`, or `None` where that
/// power does not fit in a `usize`.
pub fn checked_next_power_of_two(n: usize) -> (r: Option<usize>)
    ensures
        match r {
            Some(p) => p == next_pow2(n as nat),
            None => next_pow2(n as nat) > usize::MAX,
        },
{
    let mut p: usize = 1;
    while p < n
        invariant
            1 <= p,
            climb(p as nat, n as nat) == next_pow2(n as nat),
        decreases usize::MAX - p,
    {
        if p > usize::MAX / 2 {
            proof {
                lemma_climb_ge((2 * p) as nat, n as nat);
            }
            return None;
        }
        p = p * 2;
    }
    Some(p)
}

/// Half of the smallest power of two at or above `c`: the largest power of
/// two strictly below `c` for a `c` above 1, and 0 otherwise.
pub fn lower_power_of_two(c: usize) -> (r: usize)
    ensures
        r == next_pow2(c as nat) / 2,
{
    if c <= 1 {
        return 0;
    }
    let mut p: usize = 1;
    while p < c - p
        invariant
            1 <= p < c,
            climb(p as nat, c as nat) == next_pow2(c as nat),
        decreases c - p,
    {
        p = p * 2;
    }
    assert(climb((2 * p) as nat, c as nat) == 2 * p);
    p
}

} // verus!
