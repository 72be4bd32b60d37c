//! Counters that wrap around.

use vstd::prelude::*;

verus! {

/// What a counter shows after counting to `n`.
pub open spec fn wrapped(n: nat) -> int {
    n as int % (usize::MAX + 1)
}

/// Counting on by one.
proof fn lemma_wrapped_next(n: nat)
    ensures
        wrapped(n + 1) == (if wrapped(n) == usize::MAX {
            0
        } else {
            wrapped(n) + 1
        }),
{
    let m = usize::MAX + 1;
    vstd::arithmetic::div_mod::lemma_fundamental_div_mod(n as int, m);
    let q = n as int / m;
    let r = n as int % m;
    assert(m * q == q * m) by (nonlinear_arith);
    if r == m - 1 {
        assert((q + 1) * m == q * m + m) by (nonlinear_arith);
        vstd::arithmetic::div_mod::lemma_fundamental_div_mod_converse(n as int + 1, m, q + 1, 0);
    } else {
        vstd::arithmetic::div_mod::lemma_fundamental_div_mod_converse(n as int + 1, m, q, r + 1);
    }
}

/// A counter shows a count that fits as it is.
pub proof fn lemma_wrapped_small(n: nat)
    ensures
        n <= usize::MAX ==> wrapped(n) == n,
{
    if n <= usize::MAX {
        vstd::arithmetic::div_mod::lemma_small_mod(n, (usize::MAX + 1) as nat);
    }
}

/// Counting on from what a counter shows is counting on.
pub proof fn lemma_wrapped_sum(a: nat, b: nat)
    ensures
        0 <= wrapped(b) <= usize::MAX,
        wrapped(a + wrapped(b) as nat) == wrapped(a + b),
{
    let m = usize::MAX + 1;
    vstd::arithmetic::div_mod::lemma_mod_bound(b as int, m);
    vstd::arithmetic::div_mod::lemma_add_mod_noop_right(a as int, b as int, m);
}

/// What two counts come to, shown by a counter.
pub(crate) fn add_counts(a: usize, b: usize) -> (r: usize)
    ensures
        r == wrapped(a as nat + b as nat),
{
    proof {
        let m = usize::MAX + 1;
        if a + b <= usize::MAX {
            lemma_wrapped_small(a as nat + b as nat);
        } else {
            vstd::arithmetic::div_mod::lemma_fundamental_div_mod_converse(a + b, m, 1, a + b - m);
        }
    }
    a.wrapping_add(b)
}

/// A counter that counted to `total`, counted on by one.
pub(crate) fn count_up(n: usize, Ghost(total): Ghost<nat>) -> (r: usize)
    requires
        n == wrapped(total),
    ensures
        r == wrapped(total + 1),
{
    proof {
        lemma_wrapped_next(total);
    }
    n.wrapping_add(1)
}

} // verus!
