//! A boat race lasts a given time: holding the button for `i` units gives
//! the boat the speed `i` for the rest of the time. The puzzle asks in how
//! many ways each record can be beaten, and multiplies the counts.

use vstd::prelude::*;

verus! {

/// The number of hold times `i` with `1 <= i < n` that beat the record in
/// a race of time `t`: those with `i * (t - i) > record`.
pub open spec fn wins_below(t: int, record: int, n: int) -> int
    decreases n,
{
    if n <= 1 {
        0
    } else {
        wins_below(t, record, n - 1) + if (n - 1) * (t - (n - 1)) > record {
            1int
        } else {
            0int
        }
    }
}

/// The number of ways to beat the record in a race of time `t`.
pub open spec fn ways(t: int, record: int) -> int {
    wins_below(t, record, t)
}

/// The product of the numbers of ways of the first `k` races.
pub open spec fn ways_product(races: Seq<(i64, i64)>, k: int) -> int
    decreases k,
{
    if k <= 0 {
        1
    } else {
        ways_product(races, k - 1) * ways(races[k - 1].0 as int, races[k - 1].1 as int)
    }
}

/// Every distance of a race of time `t` fits 64 bits.
pub open spec fn distances_fit(t: int) -> bool {
    forall|i: int| 1 <= i < t ==> #[trigger] (i * (t - i)) <= i64::MAX
}

/// The count never exceeds the number of hold times tried.
pub proof fn lemma_wins_bound(t: int, record: int, n: int)
    ensures
        0 <= wins_below(t, record, n),
        n >= 1 ==> wins_below(t, record, n) <= n - 1,
        n < 1 ==> wins_below(t, record, n) == 0,
    decreases n,
{
    if n > 1 {
        lemma_wins_bound(t, record, n - 1);
    }
}

/// The number of ways to beat the record in one race.
pub fn count_ways(t: i64, record: i64) -> (r: i64)
    requires
        distances_fit(t as int),
    ensures
        r == ways(t as int, record as int),
        0 <= r,
{
    let mut count: i64 = 0;
    let mut i: i64 = 1;
    proof {
        lemma_wins_bound(t as int, record as int, t as int);
    }
    while i < t
        invariant
            1 <= i,
            i <= t || (t < 1 && i == 1),
            distances_fit(t as int),
            count == wins_below(t as int, record as int, i as int),
            0 <= count <= i - 1,
        decreases t - i,
    {
        proof {
            assert(i * (t - i) <= i64::MAX);
            assert(i * (t - i) >= 0) by (nonlinear_arith)
                requires
                    i >= 1,
                    t - i >= 1,
            ;
        }
        if i * (t - i) > record {
            count += 1;
        }
        i += 1;
    }
    proof {
        if t < 1 {
            assert(wins_below(t as int, record as int, 1) == 0);
            assert(wins_below(t as int, record as int, t as int) == 0);
        }
    }
    count
}

/// The product, over all races, of the number of ways to beat the record.
pub fn part1_2(input: &[(i64, i64)]) -> (r: i64)
    requires
        forall|k: int| 0 <= k < input@.len() ==> distances_fit(#[trigger] input@[k].0 as int),
        forall|k: int|
            0 <= k <= input@.len() ==> i64::MIN <= #[trigger] ways_product(input@, k) <= i64::MAX,
    ensures
        r == ways_product(input@, input@.len() as int),
{
    let mut product: i64 = 1;
    let mut k: usize = 0;
    while k < input.len()
        invariant
            k <= input@.len(),
            forall|j: int| 0 <= j < input@.len() ==> distances_fit(#[trigger] input@[j].0 as int),
            forall|j: int|
                0 <= j <= input@.len() ==> i64::MIN <= #[trigger] ways_product(input@, j)
                    <= i64::MAX,
            product == ways_product(input@, k as int),
        decreases input@.len() - k,
    {
        let w = count_ways(input[k].0, input[k].1);
        proof {
            assert(i64::MIN <= ways_product(input@, k + 1) <= i64::MAX);
        }
        product = product * w;
        k += 1;
    }
    product
}

} // verus!
