//! Representability of an integer as a sum of coins, and what it means for
//! a value to be the Frobenius number of a coin set.

use vstd::prelude::*;

verus! {

/// `n` is a sum, with repetition allowed, of positive entries of `coins`.
/// Zero is the empty sum.
pub open spec fn rep(coins: Seq<int>, n: int) -> bool
    decreases n,
{
    if n <= 0 {
        n == 0
    } else {
        exists|j: int|
            0 <= j < coins.len() && 0 < coins[j] <= n && rep(coins, n - coins[j])
    }
}

/// `f` is the Frobenius number of `coins`: the largest integer that is not
/// a sum of coins, with -1 meaning that every non-negative integer is one.
pub open spec fn is_frobenius(coins: Seq<int>, f: int) -> bool {
    &&& f >= -1
    &&& !rep(coins, f)
    &&& forall|n: int| n > f ==> rep(coins, n)
}

/// `f` is the largest integer up to `bound` that is not a sum of coins,
/// with -1 meaning everything in `[0, bound]` is one.
pub open spec fn frob_within(coins: Seq<int>, f: int, bound: int) -> bool {
    &&& -1 <= f <= bound
    &&& !rep(coins, f)
    &&& forall|n: int| f < n <= bound ==> rep(coins, n)
}

/// Adding one more coin to a sum keeps it a sum.
pub proof fn lemma_rep_add_coin(coins: Seq<int>, m: int, j: int)
    requires
        rep(coins, m),
        0 <= j < coins.len(),
        coins[j] > 0,
    ensures
        rep(coins, m + coins[j]),
{
    let n = m + coins[j];
    assert(0 <= j < coins.len() && 0 < coins[j] <= n && rep(coins, n - coins[j]));
}

/// A sum stays a sum when the coin list grows by one entry.
pub proof fn lemma_rep_push(coins: Seq<int>, c: int, n: int)
    requires
        rep(coins, n),
    ensures
        rep(coins.push(c), n),
    decreases n,
{
    if n > 0 {
        let k = choose|k: int| 0 <= k < coins.len() && 0 < coins[k] <= n && rep(coins, n - coins[k]);
        lemma_rep_push(coins, c, n - coins[k]);
        assert(coins.push(c)[k] == coins[k]);
        assert(0 <= k < coins.push(c).len() && 0 < coins.push(c)[k] <= n && rep(
            coins.push(c),
            n - coins.push(c)[k],
        ));
    }
}

/// A sum over `coins.push(c)` either avoids `c` or can shed one use of it:
/// the step that lets a sieve treat one coin at a time.
pub proof fn lemma_rep_push_iff(coins: Seq<int>, c: int, n: int)
    requires
        c > 0,
    ensures
        rep(coins.push(c), n) <==> (rep(coins, n) || (n >= c && rep(coins.push(c), n - c))),
    decreases n,
{
    let full = coins.push(c);
    if n > 0 {
        if rep(full, n) {
            let k = choose|k: int| 0 <= k < full.len() && 0 < full[k] <= n && rep(full, n - full[k]);
            if k == coins.len() {
                assert(full[k] == c);
            } else {
                let d = coins[k];
                assert(full[k] == d);
                lemma_rep_push_iff(coins, c, n - d);
                if rep(coins, n - d) {
                    assert(0 <= k < coins.len() && 0 < coins[k] <= n && rep(coins, n - coins[k]));
                    assert(rep(coins, n));
                } else {
                    assert(n - d >= c && rep(full, n - d - c));
                    assert(0 <= k < full.len() && 0 < full[k] <= n - c && rep(
                        full,
                        (n - c) - full[k],
                    ));
                    assert(rep(full, n - c));
                }
            }
        }
        if rep(coins, n) {
            lemma_rep_push(coins, c, n);
        }
        if n >= c && rep(full, n - c) {
            let k = coins.len() as int;
            assert(full[k] == c);
            assert(0 <= k < full.len() && 0 < full[k] <= n && rep(full, n - full[k]));
        }
    }
}

/// A sum plus any number of copies of the coin at index `j` is a sum.
pub proof fn lemma_rep_multiples(coins: Seq<int>, v: int, j: int, n: int)
    requires
        rep(coins, v),
        0 <= j < coins.len(),
        coins[j] > 0,
        n >= v,
        (n - v) % coins[j] == 0,
    ensures
        rep(coins, n),
    decreases n - v,
{
    let a = coins[j];
    if n == v {
    } else {
        assert(n - v >= a) by {
            vstd::arithmetic::div_mod::lemma_fundamental_div_mod(n - v, a);
            let q = (n - v) / a;
            assert(n - v == a * q + (n - v) % a);
            assert(n - v == a * q);
            assert(q >= 1) by (nonlinear_arith)
                requires
                    n - v > 0,
                    a > 0,
                    n - v == a * q,
            ;
            assert(a * q >= a) by (nonlinear_arith)
                requires
                    q >= 1,
                    a > 0,
            ;
        }
        assert(((n - a) - v) % a == 0) by {
            vstd::arithmetic::div_mod::lemma_mod_sub_multiples_vanish(n - v, a);
        }
        lemma_rep_multiples(coins, v, j, n - a);
        lemma_rep_add_coin(coins, n - a, j);
    }
}

/// Two values that are both the Frobenius number of one coin set are equal.
pub proof fn lemma_frobenius_unique(coins: Seq<int>, f1: int, f2: int)
    requires
        is_frobenius(coins, f1),
        is_frobenius(coins, f2),
    ensures
        f1 == f2,
{
}

/// When a sieve bounded by `bound` leaves a full window of `a` sums above
/// its last gap, the gap is the Frobenius number outright: anything larger
/// is a window value plus copies of the coin `a`.
pub proof fn lemma_window(coins: Seq<int>, f: int, bound: int, j: int)
    requires
        frob_within(coins, f, bound),
        0 <= j < coins.len(),
        coins[j] > 0,
        bound - f >= coins[j],
    ensures
        is_frobenius(coins, f),
{
    assert forall|n: int| n > f implies rep(coins, n) by {
        lemma_above_window(coins, f, bound, j, n);
    }
}

proof fn lemma_above_window(coins: Seq<int>, f: int, bound: int, j: int, n: int)
    requires
        frob_within(coins, f, bound),
        0 <= j < coins.len(),
        coins[j] > 0,
        bound - f >= coins[j],
        n > f,
    ensures
        rep(coins, n),
    decreases n,
{
    let a = coins[j];
    if n <= bound {
    } else {
        lemma_above_window(coins, f, bound, j, n - a);
        lemma_rep_add_coin(coins, n - a, j);
    }
}

/// Where an exact Frobenius number and a bounded sieve result both exist
/// and the exact one lies inside the sieve's bound, they agree: the two
/// solving strategies return the same answer.
pub proof fn lemma_cross_agreement(coins: Seq<int>, f1: int, f2: int, bound: int)
    requires
        is_frobenius(coins, f1),
        frob_within(coins, f2, bound),
        f1 <= bound,
    ensures
        f1 == f2,
{
    if f1 < f2 {
        assert(rep(coins, f2));
    }
    if f2 < f1 {
        assert(rep(coins, f1));
    }
}

} // verus!
