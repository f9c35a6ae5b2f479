//! Powers of two, and rounding up to the next one.
use vstd::prelude::*;

verus! {

/// Whether `n` is a power of two.
pub open spec fn is_pow2(n: nat) -> bool
    decreases n,
{
    if n <= 1 {
        n == 1
    } else {
        n % 2 == 0 && is_pow2(n / 2)
    }
}

/// The smallest power of two that is at least `n`.
pub open spec fn next_pow2(n: nat) -> nat
    decreases n,
{
    if n <= 1 {
        1
    } else {
        2 * next_pow2(((n + 1) / 2) as nat)
    }
}

/// A power of two that is at least `n`, and whose half is below `n`, is
/// `next_pow2(n)`.
pub proof fn lemma_next_pow2_unique(n: nat, p: nat)
    requires
        is_pow2(p),
        n <= p,
        p == 1 || p / 2 < n,
    ensures
        p == next_pow2(n),
    decreases n,
{
    if n <= 1 {
        if p > 1 {
            assert(p / 2 >= 1);
        }
    } else {
        assert(p > 1);
        let q = p / 2;
        let m = ((n + 1) / 2) as nat;
        assert(p == 2 * q);
        assert(is_pow2(q));
        assert(q >= m);
        assert(q == 1 || q / 2 < m);
        lemma_next_pow2_unique(m, q);
    }
}

/// `next_pow2(n)` is at least `n`, and is a power of two.
pub proof fn lemma_next_pow2_at_least(n: nat)
    ensures
        next_pow2(n) >= n,
        is_pow2(next_pow2(n)),
    decreases n,
{
    if n > 1 {
        let m = ((n + 1) / 2) as nat;
        lemma_next_pow2_at_least(m);
        lemma_double_pow2(next_pow2(m));
    }
}

/// `next_pow2(n)` is less than twice `n`: its half is below `n`.
pub proof fn lemma_next_pow2_below_double(n: nat)
    requires
        n >= 1,
    ensures
        next_pow2(n) / 2 < n,
        next_pow2(n) < 2 * n,
    decreases n,
{
    if n > 1 {
        let m = ((n + 1) / 2) as nat;
        lemma_next_pow2_below_double(m);
        lemma_next_pow2_at_least(m);
        let q = next_pow2(m);
        if q > 1 {
            assert(q % 2 == 0);
            assert(q == 2 * (q / 2));
        }
        assert(next_pow2(n) == 2 * q);
    }
}

/// The product of two powers of two is a power of two.
pub proof fn lemma_pow2_mul(a: nat, b: nat)
    requires
        is_pow2(a),
        is_pow2(b),
    ensures
        is_pow2(a * b),
    decreases b,
{
    if b > 1 {
        let h = b / 2;
        assert(b == 2 * h);
        lemma_pow2_mul(a, h);
        assert(a * b == (a * h) * 2) by (nonlinear_arith)
            requires
                b == 2 * h,
        ;
        lemma_double_pow2(a * h);
    } else {
        assert(b == 1);
        assert(a * b == a) by (nonlinear_arith)
            requires
                b == 1,
        ;
    }
}

/// The largest argument that `next_power_of_two` takes: beyond it the next
/// power of two does not fit in a `usize` (where `usize::next_power_of_two`
/// panics in debug builds).
pub open spec fn max_rounded() -> int {
    usize::MAX / 2 + 1
}

/// The smallest power of two greater than or equal to `n`, as
/// `usize::next_power_of_two` computes it.
pub fn next_power_of_two(n: usize) -> (p: usize)
    requires
        n <= max_rounded(),
    ensures
        is_pow2(p as nat),
        n <= p,
        p == 1 || p / 2 < n,
        p == next_pow2(n as nat),
{
    let mut p: usize = 1;
    while p < n
        invariant
            is_pow2(p as nat),
            p >= 1,
            p == 1 || p / 2 < n,
            n <= max_rounded(),
        decreases usize::MAX - p,
    {
        proof {
            lemma_double_pow2(p as nat);
        }
        p = p * 2;
    }
    proof {
        lemma_next_pow2_unique(n as nat, p as nat);
    }
    p
}

/// Doubling keeps a power of two.
pub proof fn lemma_double_pow2(p: nat)
    requires
        is_pow2(p),
    ensures
        is_pow2(p * 2),
{
    assert((p * 2) / 2 == p);
}

} // verus!
