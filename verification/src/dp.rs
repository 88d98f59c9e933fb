//! Staircase counting and costing, solved bottom-up.
//!
//! Each function fills a table (or a constant-space window of one) following
//! a recurrence; the recurrence itself is the specification.  The `_opt`
//! variants that the table-free versions accompany reproduce their wrapping
//! two's-complement arithmetic exactly, so their results are stated against a
//! recurrence reduced modulo one past `usize::MAX`.

use vstd::prelude::*;

verus! {

/// Ways to climb `n` stairs taking 1 or 2 steps at a time.
pub open spec fn stair_ways(n: int) -> int
    decreases n,
{
    if n <= 1 {
        1
    } else {
        stair_ways(n - 1) + stair_ways(n - 2)
    }
}

/// The same recurrence with every sum reduced modulo `usize::MAX + 1`: the
/// value the wrapping variant computes.
pub open spec fn stair_ways_wrap(n: int) -> int
    decreases n,
{
    if n <= 1 {
        1
    } else {
        (stair_ways_wrap(n - 1) + stair_ways_wrap(n - 2)) % (usize::MAX as int + 1)
    }
}

/// Every two-step count is at least one.
pub proof fn lemma_stair_ways_ge1(n: int)
    ensures
        1 <= stair_ways(n),
    decreases (if n <= 1 { 0int } else { n }),
{
    if n > 1 {
        lemma_stair_ways_ge1(n - 1);
        lemma_stair_ways_ge1(n - 2);
    }
}

/// The two-step counts never shrink as the staircase grows.
pub proof fn lemma_stair_ways_mono(i: int, n: int)
    requires
        i <= n,
    ensures
        stair_ways(i) <= stair_ways(n),
        1 <= stair_ways(i),
    decreases n - i,
{
    lemma_stair_ways_ge1(i);
    if i < n {
        lemma_stair_ways_mono(i, n - 1);
        lemma_stair_ways_ge1(n - 2);
    }
}

/// Count the ways up `n` stairs with a full table.
pub fn climb_stairs(n: usize) -> (r: usize)
    requires
        n < usize::MAX,
        stair_ways(n as int) <= usize::MAX,
    ensures
        r == stair_ways(n as int),
{
    proof {
        lemma_stair_ways_mono(0, n as int);
    }
    let len = if n + 1 < 2 { 2 } else { n + 1 };
    let mut dp: Vec<usize> = vec![0; len];
    dp[0] = 1;
    dp[1] = 1;
    let mut i: usize = 2;
    while i <= n
        invariant
            2 <= i <= n + 1 || (n < 2 && i == 2),
            dp@.len() == len,
            len >= 2,
            n + 1 <= len,
            stair_ways(n as int) <= usize::MAX,
            forall|j: int| 0 <= j < i && j < len ==> dp@[j] == stair_ways(j),
        decreases n + 1 - i,
    {
        proof {
            lemma_stair_ways_mono(i as int, n as int);
            assert(i < len);
            assert(dp@[i as int - 1] == stair_ways(i as int - 1));
            assert(dp@[i as int - 2] == stair_ways(i as int - 2));
            assert(stair_ways(i as int) == stair_ways(i as int - 1) + stair_ways(i as int - 2));
            assert(stair_ways(i as int) <= usize::MAX);
        }
        dp[i] = dp[i - 1] + dp[i - 2];
        i += 1;
    }
    dp[n]
}

/// Count the ways up `n` stairs in constant space, with the wrapping
/// addition the table-free variant uses.
pub fn climb_stairs_opt(n: usize) -> (r: usize)
    requires
        n < usize::MAX,
    ensures
        r == stair_ways_wrap(n as int),
{
    let mut a: usize = 1;
    let mut b: usize = 1;
    let mut c: usize = 1;
    let mut i: usize = 2;
    while i <= n
        invariant
            n < usize::MAX,
            2 <= i <= n + 1 || (n < 2 && i == 2),
            a == stair_ways_wrap(i - 2),
            b == stair_ways_wrap(i - 1),
            i > 2 ==> c == stair_ways_wrap(i - 1),
            i == 2 ==> c == 1,
        decreases n + 1 - i,
    {
        c = a.wrapping_add(b);
        a = b;
        b = c;
        i += 1;
    }
    c
}

/// Ways to climb `n` stairs taking 1, 2 or 3 steps at a time.
pub open spec fn stair_ways3(n: int) -> int
    decreases n,
{
    if n <= 1 {
        1
    } else if n == 2 {
        2
    } else {
        stair_ways3(n - 1) + stair_ways3(n - 2) + stair_ways3(n - 3)
    }
}

/// Every three-step count is at least one.
pub proof fn lemma_stair_ways3_ge1(n: int)
    ensures
        1 <= stair_ways3(n),
    decreases (if n <= 1 { 0int } else { n }),
{
    if n > 2 {
        lemma_stair_ways3_ge1(n - 1);
        lemma_stair_ways3_ge1(n - 2);
        lemma_stair_ways3_ge1(n - 3);
    }
}

/// The three-step counts never shrink as the staircase grows.
pub proof fn lemma_stair_ways3_mono(i: int, n: int)
    requires
        i <= n,
    ensures
        stair_ways3(i) <= stair_ways3(n),
        1 <= stair_ways3(i),
    decreases n - i,
{
    lemma_stair_ways3_ge1(i);
    if i < n {
        lemma_stair_ways3_mono(i, n - 1);
        lemma_stair_ways3_ge1(n - 2);
        lemma_stair_ways3_ge1(n - 3);
    }
}

/// Count the three-step ways with a full table.
pub fn climb_stairs_3_steps(n: usize) -> (r: usize)
    requires
        n < usize::MAX,
        stair_ways3(n as int) <= usize::MAX,
    ensures
        r == stair_ways3(n as int),
{
    proof {
        lemma_stair_ways3_mono(0, n as int);
    }
    let len = if n + 1 < 3 { 3 } else { n + 1 };
    let mut dp: Vec<usize> = vec![0; len];
    dp[0] = 1;
    dp[1] = 1;
    dp[2] = 2;
    let mut i: usize = 3;
    while i <= n
        invariant
            3 <= i <= n + 1 || (n < 3 && i == 3),
            dp@.len() == len,
            len >= 3,
            n + 1 <= len,
            stair_ways3(n as int) <= usize::MAX,
            forall|j: int| 0 <= j < i && j < len ==> dp@[j] == stair_ways3(j),
        decreases n + 1 - i,
    {
        proof {
            lemma_stair_ways3_mono(i as int, n as int);
            assert(i < len);
            assert(dp@[i as int - 1] == stair_ways3(i as int - 1));
            assert(dp@[i as int - 2] == stair_ways3(i as int - 2));
            assert(dp@[i as int - 3] == stair_ways3(i as int - 3));
            assert(stair_ways3(i as int) == stair_ways3(i as int - 1) + stair_ways3(i as int - 2)
                + stair_ways3(i as int - 3));
            assert(stair_ways3(i as int) <= usize::MAX);
        }
        dp[i] = dp[i - 1] + dp[i - 2] + dp[i - 3];
        i += 1;
    }
    dp[n]
}

/// Count the three-step ways in constant space.
pub fn climb_stairs_3_steps_opt(n: usize) -> (r: usize)
    requires
        n < usize::MAX,
        stair_ways3(n as int) <= usize::MAX,
    ensures
        r == stair_ways3(n as int),
{
    if n < 2 {
        return 1;
    }
    proof {
        lemma_stair_ways3_mono(0, n as int);
    }
    let mut a: usize = 1;
    let mut b: usize = 1;
    let mut c: usize = 2;
    let mut d: usize = 2;
    let mut i: usize = 3;
    while i <= n
        invariant
            n >= 2,
            n < usize::MAX,
            3 <= i <= n + 1 || (n == 2 && i == 3),
            stair_ways3(n as int) <= usize::MAX,
            a == stair_ways3(i - 3),
            b == stair_ways3(i - 2),
            c == stair_ways3(i - 1),
            i > 3 ==> d == stair_ways3(i - 1),
            i == 3 ==> d == 2,
        decreases n + 1 - i,
    {
        proof {
            lemma_stair_ways3_mono(i as int, n as int);
            lemma_stair_ways3_mono(i - 3, i as int);
            lemma_stair_ways3_mono(i - 2, i as int);
            lemma_stair_ways3_mono(i - 1, i as int);
            assert(stair_ways3(i as int) == stair_ways3(i as int - 1) + stair_ways3(i as int - 2)
                + stair_ways3(i as int - 3));
            assert(stair_ways3(i as int) <= usize::MAX);
        }
        d = a + b + c;
        a = b;
        b = c;
        c = d;
        i += 1;
    }
    d
}

/// Ways to climb `n` stairs taking from 1 up to `k` steps at a time.
pub open spec fn ways_k(n: int, k: int) -> int
    decreases n, k + 1,
        when k >= 0
{
    if n <= 1 {
        1
    } else {
        ways_k_sum(n, k, 1)
    }
}

/// The tail of the `ways_k` recurrence: the ways contributed by first steps
/// of `j` stairs or more (up to `k`, and never more than `n`).
pub open spec fn ways_k_sum(n: int, k: int, j: int) -> int
    decreases n, k - j + 1,
        when 1 <= j && k >= 0
{
    if j > k || j > n {
        0
    } else {
        ways_k(n - j, k) + ways_k_sum(n, k, j + 1)
    }
}

/// The counts are never negative.
pub proof fn lemma_ways_k_nonneg(n: int, k: int)
    requires
        k >= 0,
    ensures
        ways_k(n, k) >= 0,
    decreases n, k + 1,
{
    if n > 1 {
        lemma_ways_k_sum_nonneg(n, k, 1);
    }
}

/// Nor are the tails of the sum.
pub proof fn lemma_ways_k_sum_nonneg(n: int, k: int, j: int)
    requires
        k >= 0,
        1 <= j,
    ensures
        ways_k_sum(n, k, j) >= 0,
    decreases n, k - j + 1,
{
    if !(j > k || j > n) {
        lemma_ways_k_nonneg(n - j, k);
        lemma_ways_k_sum_nonneg(n, k, j + 1);
    }
}

/// Count the ways up `n` stairs with steps of 1 to `k`, with a full table.
pub fn climb_stairs_k_steps(n: usize, k: usize) -> (r: usize)
    requires
        n < usize::MAX,
        forall|i: int| 0 <= i <= n ==> ways_k(i, k as int) <= usize::MAX,
    ensures
        r == ways_k(n as int, k as int),
{
    let len = if n + 1 < 2 { 2 } else { n + 1 };
    let mut dp: Vec<usize> = vec![0; len];
    dp[0] = 1;
    dp[1] = 1;
    let mut i: usize = 2;
    while i <= n
        invariant
            2 <= i <= n + 1 || (n < 2 && i == 2),
            dp@.len() == len,
            len >= 2,
            n + 1 <= len,
            forall|m: int| 0 <= m <= n ==> ways_k(m, k as int) <= usize::MAX,
            forall|m: int| 0 <= m < i && m < len ==> dp@[m] == ways_k(m, k as int),
            forall|m: int| i <= m < len ==> dp@[m] == 0,
        decreases n + 1 - i,
    {
        let mut j: usize = 1;
        let ghost ki = k as int;
        proof {
            assert(dp@[i as int] == 0);
        }
        while j <= k
            invariant
                1 <= j,
                2 <= i <= n,
                dp@.len() == len,
                n + 1 <= len,
                k == ki,
                forall|m: int| 0 <= m <= n ==> ways_k(m, ki) <= usize::MAX,
                forall|m: int| 0 <= m < i ==> dp@[m] == ways_k(m, ki),
                j <= k + 1,
                j <= i + 1,
                dp@[i as int] == ways_k_sum(i as int, ki, 1) - ways_k_sum(i as int, ki, j as int),
                forall|m: int| i < m < len ==> dp@[m] == 0,
            ensures
                j > k || j > i,
            decreases k + 1 - j,
        {
            if i < j {
                break;
            }
            proof {
                lemma_ways_k_sum_nonneg(i as int, ki, j + 1);
                lemma_ways_k_nonneg(i - j, ki);
                assert(ways_k_sum(i as int, ki, j as int) == ways_k(i - j, ki) + ways_k_sum(
                    i as int,
                    ki,
                    j + 1,
                ));
                assert(dp@[i - j] == ways_k(i - j, ki));
                assert(ways_k(i as int, ki) == ways_k_sum(i as int, ki, 1));
            }
            dp[i] = dp[i] + dp[i - j];
            j += 1;
        }
        proof {
            assert(ways_k_sum(i as int, ki, j as int) == 0);
            assert(dp@[i as int] == ways_k(i as int, ki));
        }
        i += 1;
    }
    dp[n]
}

/// The `ways_k` recurrence reduced modulo one past `usize::MAX`: the value
/// the ring-buffer variant computes with wrapping additions.
pub open spec fn ways_k_wrap(n: int, k: int) -> int
    decreases n, k + 1,
        when k >= 1
{
    if n <= 0 {
        1
    } else {
        ways_k_wrap_sum(n, k, 1) % (usize::MAX as int + 1)
    }
}

/// The tail of the wrapped recurrence from step size `j` on.
pub open spec fn ways_k_wrap_sum(n: int, k: int, j: int) -> int
    decreases n, k - j + 1,
        when 1 <= j && k >= 1
{
    if j > k || j > n {
        0
    } else {
        ways_k_wrap(n - j, k) + ways_k_wrap_sum(n, k, j + 1)
    }
}

/// The head of the wrapped sum that the inner loop accumulates: steps `j` to
/// `k - 1`, never more than `i`.
pub open spec fn wrap_head(i: int, k: int, j: int) -> int
    decreases k - j,
        when 1 <= j && k >= 1
{
    if j > k - 1 || j > i {
        0
    } else {
        ways_k_wrap(i - j, k) + wrap_head(i, k, j + 1)
    }
}

/// The stale slot the ring buffer contributes: the count from `k` stairs
/// below, when there is one.
pub open spec fn wrap_stale(i: int, k: int) -> int {
    if k <= i {
        ways_k_wrap(i - k, k)
    } else {
        0
    }
}

/// The whole wrapped sum is its loop head plus the stale slot.
pub proof fn lemma_wrap_split(i: int, k: int, j: int)
    requires
        k >= 1,
        1 <= j <= k,
        i >= 1,
    ensures
        ways_k_wrap_sum(i, k, j) == wrap_head(i, k, j) + (if k <= i {
            ways_k_wrap(i - k, k)
        } else {
            0int
        }),
    decreases k - j,
{
    if j < k {
        lemma_wrap_split(i, k, j + 1);
    } else {
        assert(ways_k_wrap_sum(i, k, k + 1) == 0);
        assert(wrap_head(i, k, k) == 0);
        if k <= i {
            assert(ways_k_wrap_sum(i, k, k) == ways_k_wrap(i - k, k) + ways_k_wrap_sum(
                i,
                k,
                k + 1,
            ));
        } else {
            assert(ways_k_wrap_sum(i, k, k) == 0);
        }
    }
}

/// Subtracting one full cycle leaves the ring-buffer slot unchanged.
proof fn lemma_mod_cycle(i: int, k: int)
    requires
        k >= 1,
        i >= k,
    ensures
        (i - k) % k == i % k,
{
    vstd::arithmetic::div_mod::lemma_sub_mod_noop(i, k, k);
    vstd::arithmetic::div_mod::lemma_mod_self_0(k);
    vstd::arithmetic::div_mod::lemma_mod_twice(i, k);
}

/// Distinct positions within one cycle use distinct slots.
proof fn lemma_mod_distinct(p: int, q: int, k: int)
    requires
        k >= 1,
        p < q,
        q - p < k,
        0 <= p,
    ensures
        p % k != q % k,
{
    if p % k == q % k {
        vstd::arithmetic::div_mod::lemma_sub_mod_noop(q, p, k);
        vstd::arithmetic::div_mod::lemma_small_mod((q - p) as nat, k as nat);
        assert((q - p) % k == ((q % k) - (p % k)) % k);
        assert(((q % k) - (p % k)) % k == 0int % k);
        vstd::arithmetic::div_mod::lemma_small_mod(0nat, k as nat);
        assert(q - p == 0);
    }
}

/// Count the ways up `n` stairs with steps of 1 to `k`, in a ring buffer of
/// `k` slots with wrapping additions.
#[verifier::rlimit(100)]
pub fn climb_stairs_k_steps_opt(n: usize, k: usize) -> (r: usize)
    requires
        k >= 1,
        n < usize::MAX,
    ensures
        r == ways_k_wrap(n as int, k as int),
{
    let ghost mm = usize::MAX as int + 1;
    let mut dp: Vec<usize> = vec![0; k];
    dp[0] = 1;
    let ghost ki = k as int;
    proof {
        assert(0int % ki == 0) by {
            vstd::arithmetic::div_mod::lemma_small_mod(0nat, k as nat);
        }
        assert(ways_k_wrap(0, ki) == 1);
    }
    let mut i: usize = 1;
    while i <= n
        invariant
            k >= 1,
            k == ki,
            mm == usize::MAX as int + 1,
            n < usize::MAX,
            1 <= i <= n + 1,
            dp@.len() == k,
            forall|p: int| 0 <= p < i && i - ki <= p ==> #[trigger] dp@[p % ki]
                == ways_k_wrap(p, ki),
            forall|m: int| i <= m < k ==> #[trigger] dp@[m] == 0,
        decreases n + 1 - i,
    {
        proof {
            if ki <= i {
                lemma_mod_cycle(i as int, ki);
                assert(dp@[(i - ki) % ki] == ways_k_wrap(i - ki, ki));
            } else {
                vstd::arithmetic::div_mod::lemma_small_mod(i as nat, k as nat);
                assert(dp@[i as int % ki] == 0);
            }
            assert(dp@[i as int % ki] == wrap_stale(i as int, ki));
            assert(0 <= wrap_stale(i as int, ki) < mm);
            vstd::arithmetic::div_mod::lemma_small_mod(wrap_stale(i as int, ki) as nat, mm as nat);
            assert(dp@[i as int % ki] == (wrap_stale(i as int, ki) + (wrap_head(i as int, ki, 1)
                - wrap_head(i as int, ki, 1))) % mm);
        }
        let mut j: usize = 1;
        while j < k
            invariant
                k >= 1,
                k == ki,
                1 <= i <= n,
                n < usize::MAX,
                1 <= j <= k,
                dp@.len() == k,
                mm == usize::MAX as int + 1,
                forall|p: int| 0 <= p < i && i - ki <= p && p % ki != i as int % ki
                    ==> #[trigger] dp@[p % ki] == ways_k_wrap(p, ki),
                forall|m: int| i < m < k ==> #[trigger] dp@[m] == 0,
                dp@[i as int % ki] == (wrap_stale(i as int, ki) + (wrap_head(i as int, ki, 1)
                    - wrap_head(i as int, ki, j as int))) % mm,
            ensures
                j > k - 1 || j > i,
                dp@.len() == k,
                forall|p: int| 0 <= p < i && i - ki <= p && p % ki != i as int % ki
                    ==> #[trigger] dp@[p % ki] == ways_k_wrap(p, ki),
                forall|m: int| i < m < k ==> #[trigger] dp@[m] == 0,
                dp@[i as int % ki] == (wrap_stale(i as int, ki) + wrap_head(i as int, ki, 1))
                    % mm,
            decreases k - j,
        {
            if i < j {
                proof {
                    assert(wrap_head(i as int, ki, j as int) == 0);
                }
                break;
            }
            proof {
                assert(j as int <= ki - 1 && j as int <= i);
                assert(wrap_head(i as int, ki, j as int) == ways_k_wrap(i - j, ki)
                    + wrap_head(i as int, ki, j + 1));
                lemma_mod_distinct(i - j, i as int, ki);
                assert(dp@[(i - j) % ki] == ways_k_wrap(i - j, ki));
                assert(0 <= ways_k_wrap(i - j, ki) < mm) by {
                    if i - j > 0 {
                        assert(ways_k_wrap(i - j, ki) == ways_k_wrap_sum(i - j, ki, 1) % mm);
                    }
                }
                vstd::arithmetic::div_mod::lemma_small_mod(
                    ways_k_wrap(i - j, ki) as nat,
                    mm as nat,
                );
                vstd::arithmetic::div_mod::lemma_add_mod_noop(
                    wrap_stale(i as int, ki) + (wrap_head(i as int, ki, 1) - wrap_head(
                        i as int,
                        ki,
                        j as int,
                    )),
                    ways_k_wrap(i - j, ki),
                    mm,
                );
            }
            let slot = i % k;
            let from = (i - j) % k;
            let a = dp[slot];
            let b = dp[from];
            let ghost pre_dp = dp@;
            dp[slot] = a.wrapping_add(b);
            proof {
                assert(slot as int == i as int % ki);
                assert forall|p: int| 0 <= p < i && i - ki <= p && p % ki != i as int % ki
                    implies #[trigger] dp@[p % ki] == ways_k_wrap(p, ki) by {
                    assert(dp@[p % ki] == pre_dp[p % ki]);
                }
                assert forall|m: int| i < m < k implies #[trigger] dp@[m] == 0 by {
                    vstd::arithmetic::div_mod::lemma_mod_decreases(i as nat, k as nat);
                    assert(i as int % ki <= i < m);
                    assert(dp@[m] == pre_dp[m]);
                }
            }
            j += 1;
        }
        proof {
            lemma_wrap_split(i as int, ki, 1);
            assert(ways_k_wrap_sum(i as int, ki, 1) == wrap_head(i as int, ki, 1)
                + wrap_stale(i as int, ki));
            assert(dp@[i as int % ki] == ways_k_wrap(i as int, ki));
            assert forall|p: int| 0 <= p < i + 1 && i + 1 - ki <= p implies #[trigger] dp@[p
                % ki] == ways_k_wrap(p, ki) by {
                if p < i {
                    lemma_mod_distinct(p, i as int, ki);
                }
            }
            assert forall|m: int| i + 1 <= m < k implies #[trigger] dp@[m] == 0 by {
                assert(i < m < k);
            }
        }
        i += 1;
    }
    let r = dp[n % k];
    proof {
        if n == 0 {
            vstd::arithmetic::div_mod::lemma_small_mod(0nat, k as nat);
        } else {
            assert(dp@[n as int % ki] == ways_k_wrap(n as int, ki));
        }
    }
    r
}

/// The wrapped recurrence with forbidden stairs: a red stair can never be
/// stood on, so it contributes no ways.
pub open spec fn ways_red(n: int, k: int, st: Seq<bool>) -> int
    decreases n, k + 1,
        when k >= 1
{
    if n <= 0 {
        1
    } else if st[n - 1] {
        0
    } else {
        ways_red_sum(n, k, st, 1) % (usize::MAX as int + 1)
    }
}

/// The tail of the red-stairs recurrence from step size `j` on.
pub open spec fn ways_red_sum(n: int, k: int, st: Seq<bool>, j: int) -> int
    decreases n, k - j + 1,
        when 1 <= j && k >= 1
{
    if j > k || j > n {
        0
    } else {
        ways_red(n - j, k, st) + ways_red_sum(n, k, st, j + 1)
    }
}

/// The head of the red-stairs sum that the inner loop accumulates.
pub open spec fn red_head(i: int, k: int, st: Seq<bool>, j: int) -> int
    decreases k - j,
        when 1 <= j && k >= 1
{
    if j > k - 1 || j > i {
        0
    } else {
        ways_red(i - j, k, st) + red_head(i, k, st, j + 1)
    }
}

/// The stale ring-buffer slot of the red-stairs recurrence.
pub open spec fn red_stale(i: int, k: int, st: Seq<bool>) -> int {
    if k <= i {
        ways_red(i - k, k, st)
    } else {
        0
    }
}

/// The whole red-stairs sum is its loop head plus the stale slot.
pub proof fn lemma_red_split(i: int, k: int, st: Seq<bool>, j: int)
    requires
        k >= 1,
        1 <= j <= k,
        i >= 1,
    ensures
        ways_red_sum(i, k, st, j) == red_head(i, k, st, j) + (if k <= i {
            ways_red(i - k, k, st)
        } else {
            0int
        }),
    decreases k - j,
{
    if j < k {
        lemma_red_split(i, k, st, j + 1);
    } else {
        assert(ways_red_sum(i, k, st, k + 1) == 0);
        assert(red_head(i, k, st, k) == 0);
        if k <= i {
            assert(ways_red_sum(i, k, st, k) == ways_red(i - k, k, st) + ways_red_sum(
                i,
                k,
                st,
                k + 1,
            ));
        } else {
            assert(ways_red_sum(i, k, st, k) == 0);
        }
    }
}

/// Count the ways up `n` stairs with steps of 1 to `k`, never standing on a
/// red stair (`stairs[i - 1]` marks stair `i` red), in a ring buffer with
/// wrapping additions.
#[verifier::rlimit(100)]
pub fn climb_stairs_k_steps_skip_red(n: usize, k: usize, stairs: &[bool]) -> (r: usize)
    requires
        k >= 1,
        n < usize::MAX,
        stairs@.len() >= n,
    ensures
        r == ways_red(n as int, k as int, stairs@),
{
    let ghost mm = usize::MAX as int + 1;
    let ghost st = stairs@;
    let mut dp: Vec<usize> = vec![0; k];
    dp[0] = 1;
    let ghost ki = k as int;
    proof {
        assert(0int % ki == 0) by {
            vstd::arithmetic::div_mod::lemma_small_mod(0nat, k as nat);
        }
        assert(ways_red(0, ki, st) == 1);
    }
    let mut i: usize = 1;
    while i <= n
        invariant
            k >= 1,
            k == ki,
            st == stairs@,
            st.len() >= n,
            mm == usize::MAX as int + 1,
            n < usize::MAX,
            1 <= i <= n + 1,
            dp@.len() == k,
            forall|p: int| 0 <= p < i && i - ki <= p ==> #[trigger] dp@[p % ki]
                == ways_red(p, ki, st),
            forall|m: int| i <= m < k ==> #[trigger] dp@[m] == 0,
        decreases n + 1 - i,
    {
        if stairs[i - 1] {
            let slot = i % k;
            let ghost pre_dp = dp@;
            dp[slot] = 0;
            proof {
                assert(slot as int == i as int % ki);
                assert(ways_red(i as int, ki, st) == 0);
                assert forall|p: int| 0 <= p < i + 1 && i + 1 - ki <= p implies
                    #[trigger] dp@[p % ki] == ways_red(p, ki, st) by {
                    if p < i {
                        lemma_mod_distinct(p, i as int, ki);
                        assert(dp@[p % ki] == pre_dp[p % ki]);
                    }
                }
                assert forall|m: int| i + 1 <= m < k implies #[trigger] dp@[m] == 0 by {
                    vstd::arithmetic::div_mod::lemma_mod_decreases(i as nat, k as nat);
                    assert(dp@[m] == pre_dp[m]);
                }
            }
            i += 1;
            continue;
        }
        proof {
            if ki <= i {
                lemma_mod_cycle(i as int, ki);
                assert(dp@[(i - ki) % ki] == ways_red(i - ki, ki, st));
            } else {
                vstd::arithmetic::div_mod::lemma_small_mod(i as nat, k as nat);
                assert(dp@[i as int % ki] == 0);
            }
            assert(dp@[i as int % ki] == red_stale(i as int, ki, st));
            assert(0 <= red_stale(i as int, ki, st) < mm);
            vstd::arithmetic::div_mod::lemma_small_mod(
                red_stale(i as int, ki, st) as nat,
                mm as nat,
            );
            assert(dp@[i as int % ki] == (red_stale(i as int, ki, st) + (red_head(
                i as int,
                ki,
                st,
                1,
            ) - red_head(i as int, ki, st, 1))) % mm);
        }
        let mut j: usize = 1;
        while j < k
            invariant
                k >= 1,
                k == ki,
                st == stairs@,
                1 <= i <= n,
                n < usize::MAX,
                1 <= j <= k,
                dp@.len() == k,
                mm == usize::MAX as int + 1,
                forall|p: int| 0 <= p < i && i - ki <= p && p % ki != i as int % ki
                    ==> #[trigger] dp@[p % ki] == ways_red(p, ki, st),
                forall|m: int| i < m < k ==> #[trigger] dp@[m] == 0,
                dp@[i as int % ki] == (red_stale(i as int, ki, st) + (red_head(
                    i as int,
                    ki,
                    st,
                    1,
                ) - red_head(i as int, ki, st, j as int))) % mm,
            ensures
                j > k - 1 || j > i,
                dp@.len() == k,
                forall|p: int| 0 <= p < i && i - ki <= p && p % ki != i as int % ki
                    ==> #[trigger] dp@[p % ki] == ways_red(p, ki, st),
                forall|m: int| i < m < k ==> #[trigger] dp@[m] == 0,
                dp@[i as int % ki] == (red_stale(i as int, ki, st) + red_head(
                    i as int,
                    ki,
                    st,
                    1,
                )) % mm,
            decreases k - j,
        {
            if i < j {
                proof {
                    assert(red_head(i as int, ki, st, j as int) == 0);
                }
                break;
            }
            proof {
                assert(j as int <= ki - 1 && j as int <= i);
                assert(red_head(i as int, ki, st, j as int) == ways_red(i - j, ki, st)
                    + red_head(i as int, ki, st, j + 1));
                lemma_mod_distinct(i - j, i as int, ki);
                assert(dp@[(i - j) % ki] == ways_red(i - j, ki, st));
                assert(0 <= ways_red(i - j, ki, st) < mm) by {
                    if i - j > 0 && !st[i - j - 1] {
                        assert(ways_red(i - j, ki, st) == ways_red_sum(i - j, ki, st, 1) % mm);
                    }
                }
                vstd::arithmetic::div_mod::lemma_small_mod(
                    ways_red(i - j, ki, st) as nat,
                    mm as nat,
                );
                vstd::arithmetic::div_mod::lemma_add_mod_noop(
                    red_stale(i as int, ki, st) + (red_head(i as int, ki, st, 1) - red_head(
                        i as int,
                        ki,
                        st,
                        j as int,
                    )),
                    ways_red(i - j, ki, st),
                    mm,
                );
            }
            let slot = i % k;
            let from = (i - j) % k;
            let a = dp[slot];
            let b = dp[from];
            let ghost pre_dp = dp@;
            dp[slot] = a.wrapping_add(b);
            proof {
                assert(slot as int == i as int % ki);
                assert forall|p: int| 0 <= p < i && i - ki <= p && p % ki != i as int % ki
                    implies #[trigger] dp@[p % ki] == ways_red(p, ki, st) by {
                    assert(dp@[p % ki] == pre_dp[p % ki]);
                }
                assert forall|m: int| i < m < k implies #[trigger] dp@[m] == 0 by {
                    vstd::arithmetic::div_mod::lemma_mod_decreases(i as nat, k as nat);
                    assert(i as int % ki <= i < m);
                    assert(dp@[m] == pre_dp[m]);
                }
            }
            j += 1;
        }
        proof {
            lemma_red_split(i as int, ki, st, 1);
            assert(ways_red_sum(i as int, ki, st, 1) == red_head(i as int, ki, st, 1)
                + red_stale(i as int, ki, st));
            assert(dp@[i as int % ki] == ways_red(i as int, ki, st));
            assert forall|p: int| 0 <= p < i + 1 && i + 1 - ki <= p implies #[trigger] dp@[p
                % ki] == ways_red(p, ki, st) by {
                if p < i {
                    lemma_mod_distinct(p, i as int, ki);
                }
            }
            assert forall|m: int| i + 1 <= m < k implies #[trigger] dp@[m] == 0 by {
                assert(i < m < k);
            }
        }
        i += 1;
    }
    let r = dp[n % k];
    proof {
        if n == 0 {
            vstd::arithmetic::div_mod::lemma_small_mod(0nat, k as nat);
        } else {
            assert(dp@[n as int % ki] == ways_red(n as int, ki, st));
        }
    }
    r
}

/// The cheapest total price of reaching the top of an `n`-stair staircase
/// whose `i`-th stair costs `p[i]`, stepping up 1 or 2 stairs at a time.
pub open spec fn stair_cost(p: Seq<usize>, n: int) -> int
    decreases n,
{
    if n <= 0 {
        0
    } else if n == 1 {
        p[1] as int
    } else {
        p[n] + if stair_cost(p, n - 1) <= stair_cost(p, n - 2) {
            stair_cost(p, n - 1)
        } else {
            stair_cost(p, n - 2)
        }
    }
}

/// Costs are never negative.
pub proof fn lemma_stair_cost_nonneg(p: Seq<usize>, n: int)
    ensures
        stair_cost(p, n) >= 0,
    decreases n,
{
    if n > 1 {
        lemma_stair_cost_nonneg(p, n - 1);
        lemma_stair_cost_nonneg(p, n - 2);
    }
}

/// The cheapest climb, with a full table.
pub fn paid_staircase(n: usize, p: &[usize]) -> (r: usize)
    requires
        n < usize::MAX,
        p@.len() >= 2,
        p@.len() >= n + 1,
        forall|i: int| 1 <= i <= n ==> stair_cost(p@, i) <= usize::MAX,
    ensures
        r == stair_cost(p@, n as int),
{
    let len = if n + 1 < 2 { 2 } else { n + 1 };
    let mut dp: Vec<usize> = vec![0; len];
    dp[0] = 0;
    dp[1] = p[1];
    let mut i: usize = 2;
    while i <= n
        invariant
            2 <= i <= n + 1 || (n < 2 && i == 2),
            dp@.len() == len,
            len >= 2,
            n + 1 <= len,
            p@.len() >= n + 1,
            forall|k: int| 1 <= k <= n ==> stair_cost(p@, k) <= usize::MAX,
            forall|j: int| 0 <= j < i && j < len ==> dp@[j] == stair_cost(p@, j),
        decreases n + 1 - i,
    {
        proof {
            lemma_stair_cost_nonneg(p@, i - 1);
            lemma_stair_cost_nonneg(p@, i - 2);
            assert(i < len);
            assert(dp@[i as int - 1] == stair_cost(p@, i as int - 1));
            assert(dp@[i as int - 2] == stair_cost(p@, i as int - 2));
            assert(stair_cost(p@, i as int) <= usize::MAX);
        }
        let low = if dp[i - 1] <= dp[i - 2] { dp[i - 1] } else { dp[i - 2] };
        proof {
            assert(stair_cost(p@, i as int) == p@[i as int] + low);
        }
        dp[i] = p[i] + low;
        i += 1;
    }
    dp[n]
}

/// The cheapest climb, in constant space.
pub fn paid_staircase_opt(n: usize, p: &[usize]) -> (r: usize)
    requires
        n < usize::MAX,
        n >= 1 ==> p@.len() >= 2,
        n >= 1 ==> p@.len() >= n + 1,
        forall|i: int| 1 <= i <= n ==> stair_cost(p@, i) <= usize::MAX,
    ensures
        r == stair_cost(p@, n as int),
{
    if n < 1 {
        return 0;
    }
    let mut a: usize = 0;
    let mut b: usize = p[1];
    let mut c: usize = b;
    let mut i: usize = 2;
    while i <= n
        invariant
            n >= 1,
            2 <= i <= n + 1,
            p@.len() >= n + 1,
            forall|k: int| 1 <= k <= n ==> stair_cost(p@, k) <= usize::MAX,
            a == stair_cost(p@, i - 2),
            b == stair_cost(p@, i - 1),
            i > 2 ==> c == stair_cost(p@, i - 1),
            i == 2 ==> c == b,
        decreases n + 1 - i,
    {
        proof {
            lemma_stair_cost_nonneg(p@, i - 1);
            lemma_stair_cost_nonneg(p@, i - 2);
        }
        let low = if a <= b { a } else { b };
        proof {
            assert(stair_cost(p@, i as int) == p@[i as int] + low);
            assert(stair_cost(p@, i as int) <= usize::MAX);
        }
        c = p[i] + low;
        a = b;
        b = c;
        i += 1;
    }
    c
}

/// Triangular number: the sum of the integers `1..=n`.
pub open spec fn triangular(n: nat) -> nat
    decreases n,
{
    if n == 0 {
        0
    } else {
        n + triangular((n - 1) as nat)
    }
}

/// Triangular numbers never shrink.
pub proof fn lemma_triangular_mono(i: nat, n: nat)
    requires
        i <= n,
    ensures
        triangular(i) <= triangular(n),
    decreases n - i,
{
    if i < n {
        lemma_triangular_mono(i, (n - 1) as nat);
    }
}

/// The sum of the integers `1..=n`.
pub fn sum(n: usize) -> (r: usize)
    requires
        n < usize::MAX,
        triangular(n as nat) <= usize::MAX,
    ensures
        r == triangular(n as nat),
{
    let mut dp: Vec<usize> = vec![0; n + 1];
    dp[0] = 0;
    let mut i: usize = 1;
    while i <= n
        invariant
            1 <= i <= n + 1,
            dp@.len() == n + 1,
            triangular(n as nat) <= usize::MAX,
            forall|j: int| 0 <= j < i && j <= n ==> dp@[j] == triangular(j as nat),
        decreases n + 1 - i,
    {
        proof {
            lemma_triangular_mono(i as nat, n as nat);
        }
        dp[i] = dp[i - 1] + i;
        i += 1;
    }
    dp[n]
}

} // verus!
