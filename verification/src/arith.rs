//! Integer facts used by the block and slice geometry.
use vstd::prelude::*;

verus! {

/// `2^e`.
pub open spec fn two_pow(e: nat) -> nat
    decreases e,
{
    if e == 0 {
        1
    } else {
        2 * two_pow((e - 1) as nat)
    }
}

/// `ceil(log2(n))`, with `ceil_log2(0) == ceil_log2(1) == 0`.
pub open spec fn ceil_log2(n: nat) -> nat
    decreases n,
{
    if n <= 1 {
        0
    } else {
        1 + ceil_log2(((n + 1) / 2) as nat)
    }
}

/// The smallest power of two that is at least `n` (`1` for `n == 0`).
pub open spec fn next_pow2(n: nat) -> nat {
    two_pow(ceil_log2(n))
}

pub proof fn lemma_two_pow_pos(e: nat)
    ensures
        two_pow(e) >= 1,
    decreases e,
{
    if e > 0 {
        lemma_two_pow_pos((e - 1) as nat);
    }
}

pub proof fn lemma_two_pow_monotone(a: nat, b: nat)
    requires
        a <= b,
    ensures
        two_pow(a) <= two_pow(b),
    decreases b,
{
    if a < b {
        lemma_two_pow_monotone(a, (b - 1) as nat);
        lemma_two_pow_pos((b - 1) as nat);
    }
}

/// `2^ceil_log2(n)` is the least power of two not below `n`.
pub proof fn lemma_next_pow2_bounds(n: nat)
    ensures
        n <= next_pow2(n),
        n >= 2 ==> two_pow((ceil_log2(n) - 1) as nat) < n,
        ceil_log2(n) >= 1 <==> n >= 2,
    decreases n,
{
    if n <= 1 {
    } else {
        let h = ((n + 1) / 2) as nat;
        lemma_next_pow2_bounds(h);
        assert(two_pow(ceil_log2(n)) == 2 * two_pow(ceil_log2(h)));
        if h >= 2 {
            assert(two_pow((ceil_log2(h) - 1) as nat) < h);
            assert(two_pow((ceil_log2(n) - 1) as nat) == two_pow(ceil_log2(h)));
            assert(two_pow(ceil_log2(h)) == 2 * two_pow((ceil_log2(h) - 1) as nat));
        } else {
            assert(ceil_log2(h) == 0);
        }
    }
}

/// The fixed-width value `2^e`, when it fits.
pub fn checked_two_pow(e: usize) -> (r: Option<usize>)
    ensures
        r matches Some(v) ==> v == two_pow(e as nat),
        r is None <==> two_pow(e as nat) > usize::MAX,
{
    let mut p: usize = 1;
    let mut i: usize = 0;
    while i < e
        invariant
            i <= e,
            p == two_pow(i as nat),
        decreases e - i,
    {
        match p.checked_mul(2) {
            Some(q) => {
                p = q;
                i = i + 1;
                assert(two_pow(i as nat) == 2 * two_pow((i - 1) as nat));
            },
            None => {
                proof {
                    lemma_two_pow_monotone((i + 1) as nat, e as nat);
                    assert(two_pow((i + 1) as nat) == 2 * two_pow(i as nat));
                }
                return None;
            },
        }
    }
    Some(p)
}

/// `ceil(log2(n))` computed without overflow.
pub fn ceil_log2_exec(n: usize) -> (r: usize)
    ensures
        r == ceil_log2(n as nat),
{
    let mut m: usize = n;
    let mut k: usize = 0;
    while m > 1
        invariant
            ceil_log2(n as nat) == k + ceil_log2(m as nat),
            k + m <= n,
        decreases m,
    {
        proof {
            assert(ceil_log2(m as nat) == 1 + ceil_log2(((m + 1) / 2) as nat));
        }
        m = m / 2 + m % 2;
        k = k + 1;
    }
    k
}

/// Length of the `s`-th of `count` near-equal consecutive block ranges
/// over `live` blocks never exceeds `ceil(live / count)`.
pub proof fn lemma_range_len_bound(live: int, count: int, s: int)
    requires
        count >= 1,
        live >= 0,
        s >= 0,
    ensures
        (live * (s + 1)) / count - (live * s) / count <= (live + count - 1) / count,
        (live * s) / count <= (live * (s + 1)) / count,
{
    let a = live * s;
    let q = a / count;
    let r = a % count;
    let q2 = live / count;
    let r2 = live % count;
    assert(a >= 0) by (nonlinear_arith)
        requires live >= 0, s >= 0, a == live * s;
    assert(a == count * q + r && 0 <= r < count) by (nonlinear_arith)
        requires count >= 1, q == a / count, r == a % count;
    assert(live == count * q2 + r2 && 0 <= r2 < count) by (nonlinear_arith)
        requires count >= 1, q2 == live / count, r2 == live % count;
    let b = live * (s + 1);
    assert(b == a + live) by (nonlinear_arith)
        requires b == live * (s + 1), a == live * s;
    assert(b == count * (q + q2) + (r + r2)) by (nonlinear_arith)
        requires b == a + live, a == count * q + r, live == count * q2 + r2;
    assert(b / count == q + q2 + (r + r2) / count) by (nonlinear_arith)
        requires b == count * (q + q2) + (r + r2), count >= 1, r + r2 >= 0;
    assert((live + count - 1) / count == q2 + (r2 + count - 1) / count) by (nonlinear_arith)
        requires live == count * q2 + r2, count >= 1, r2 >= 0;
    assert(0 <= (r + r2) / count <= 1) by (nonlinear_arith)
        requires 0 <= r < count, 0 <= r2 < count;
    if r2 == 0 {
        assert((r + r2) / count == 0) by (nonlinear_arith)
            requires 0 <= r < count, r2 == 0;
        assert((r2 + count - 1) / count == 0) by (nonlinear_arith)
            requires r2 == 0, count >= 1;
    } else {
        assert((r2 + count - 1) / count == 1) by (nonlinear_arith)
            requires 0 < r2 < count;
    }
}

} // verus!
