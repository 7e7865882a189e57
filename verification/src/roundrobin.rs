//! The round-robin residue solver: per residue class modulo the smallest
//! coin, relax towards the least representable value in that class. At a
//! fixpoint the table is exact, and the Frobenius number is the largest
//! entry minus the smallest coin.

use vstd::prelude::*;
use crate::FrobeniusError;
use crate::bignum::{Big, all_pos, all_wf, big_from_u128, big_is_one, big_neg_one, gcd_of_vec,
    gcd_seq, mag_to_u64, sorted_vals, values_of};
use crate::represent::{is_frobenius, lemma_rep_add_coin, lemma_rep_multiples, rep};

verus! {

/// The residue-table ceiling on the smallest coin.
pub const RR_MAX_SMALLEST: u64 = 10_000_000;

/// The safety cap on relaxation rounds.
pub const RR_MAX_ROUNDS: u32 = 1000;

/// A coin too large for the fixed-width arithmetic.
pub open spec fn rr_coin_too_large(vals: Seq<int>) -> bool {
    vals[0] > RR_MAX_SMALLEST || exists|k: int| 0 <= k < vals.len() && vals[k] > u64::MAX
}

/// Each filled residue entry holds a representable value in its own class;
/// the class of zero starts, and stays, at zero.
pub open spec fn states_ok(states: Seq<Option<u128>>, vals: Seq<int>) -> bool {
    &&& vals.len() >= 1
    &&& vals[0] >= 1
    &&& states.len() == vals[0]
    &&& states[0] == Some(0u128)
    &&& forall|r: int|
        0 <= r < states.len() ==> ((#[trigger] states[r]) matches Some(v) ==> (v as int) % vals[0]
            == r && rep(vals, v as int))
}

/// Every filled entry is at most `cap`.
pub open spec fn states_bounded(states: Seq<Option<u128>>, cap: int) -> bool {
    forall|r: int|
        0 <= r < states.len() ==> ((#[trigger] states[r]) matches Some(v) ==> v as int <= cap)
}

/// No relaxation step improves the table: adding any one further coin to a
/// filled entry leads to a filled entry at least as small.
pub open spec fn closed_under(states: Seq<Option<u128>>, vals: Seq<int>) -> bool {
    forall|i: int, j: int|
        #![trigger states[i], vals[j]]
        0 <= i < states.len() && 1 <= j < vals.len() ==> (states[i] matches Some(v)
            ==> (states[(i + vals[j]) % vals[0]] matches Some(w) && w as int <= v + vals[j]))
}

/// `m` is a sum of at most `n` coins other than the smallest (the list's
/// tail); zero is the empty sum.
pub open spec fn rep_within(vals: Seq<int>, n: nat, m: int) -> bool
    decreases n,
{
    if m < 0 {
        false
    } else if m == 0 {
        true
    } else {
        n > 0 && exists|j: int|
            1 <= j < vals.len() && 0 < vals[j] <= m && rep_within(vals, (n - 1) as nat, m - vals[j])
    }
}

/// The class `r` modulo the smallest coin has a least representable value,
/// and that value is a sum of fewer tail coins than the round cap.
pub open spec fn class_settles(vals: Seq<int>, r: int) -> bool {
    exists|m: int|
        {
            &&& 0 <= m
            &&& #[trigger] rep_within(vals, (RR_MAX_ROUNDS - 1) as nat, m)
            &&& m % vals[0] == r
            &&& forall|m2: int| 0 <= m2 < m && m2 % vals[0] == r ==> !rep(vals, m2)
        }
}

/// Every residue class settles within the round cap: exactly the sets on
/// which the relaxation is owed an answer rather than `Unresolved`.
pub open spec fn relaxes_within_cap(vals: Seq<int>) -> bool {
    forall|r: int| 0 <= r < vals[0] ==> #[trigger] class_settles(vals, r)
}

/// After `k` rounds the table is complete for sums of at most `k` tail
/// coins: each such sum's class is filled by an entry no larger than it.
#[verifier::opaque]
pub open spec fn complete_upto(states: Seq<Option<u128>>, vals: Seq<int>, k: nat) -> bool {
    forall|m: int|
        0 <= m && #[trigger] rep_within(vals, k, m) ==> (states[m % vals[0]] matches Some(v)
            && v as int <= m)
}

/// A sum of tail coins is a sum of coins.
proof fn lemma_rep_within_rep(vals: Seq<int>, n: nat, m: int)
    requires
        rep_within(vals, n, m),
    ensures
        rep(vals, m),
    decreases n,
{
    if m > 0 {
        let j = choose|j: int|
            1 <= j < vals.len() && 0 < vals[j] <= m && rep_within(
                vals,
                (n - 1) as nat,
                m - vals[j],
            );
        lemma_rep_within_rep(vals, (n - 1) as nat, m - vals[j]);
        assert(0 <= j < vals.len() && 0 < vals[j] <= m && rep(vals, m - vals[j]));
    }
}

/// Two values congruent modulo `a` differ by a multiple of `a`.
proof fn lemma_cong_diff(x: int, y: int, a: int)
    requires
        a >= 1,
        x % a == y % a,
    ensures
        (x - y) % a == 0,
{
    vstd::arithmetic::div_mod::lemma_fundamental_div_mod(x, a);
    vstd::arithmetic::div_mod::lemma_fundamental_div_mod(y, a);
    let qx = x / a;
    let qy = y / a;
    assert(x - y == a * (qx - qy)) by (nonlinear_arith)
        requires
            x == a * qx + x % a,
            y == a * qy + y % a,
            x % a == y % a,
    ;
    vstd::arithmetic::div_mod::lemma_mod_multiples_vanish(qx - qy, 0, a);
    vstd::arithmetic::div_mod::lemma_small_mod(0, a as nat);
}

/// A multiple of `a` that is more than `-a` is non-negative.
proof fn lemma_multiple_nonneg(x: int, a: int)
    requires
        a >= 1,
        x % a == 0,
        x > -a,
    ensures
        x >= 0,
{
    vstd::arithmetic::div_mod::lemma_fundamental_div_mod(x, a);
    let q = x / a;
    if x < 0 {
        assert(q <= -1) by (nonlinear_arith)
            requires
                x == a * q,
                x < 0,
                a >= 1,
        ;
        assert(a * q <= -a) by (nonlinear_arith)
            requires
                q <= -1,
                a >= 1,
        ;
    }
}

/// At a fixpoint with the zero class filled, every representable value has
/// its class filled by an entry no larger than itself.
proof fn lemma_fixpoint(states: Seq<Option<u128>>, vals: Seq<int>, m: int)
    requires
        states_ok(states, vals),
        closed_under(states, vals),
        all_pos(vals),
        rep(vals, m),
        m >= 0,
    ensures
        states[m % vals[0]] matches Some(v) && v as int <= m,
    decreases m,
{
    let a = vals[0];
    vstd::arithmetic::div_mod::lemma_mod_bound(m, a);
    if m == 0 {
        vstd::arithmetic::div_mod::lemma_small_mod(0, a as nat);
    } else {
        let j = choose|j: int| 0 <= j < vals.len() && 0 < vals[j] <= m && rep(vals, m - vals[j]);
        let c = vals[j];
        lemma_fixpoint(states, vals, m - c);
        let i = (m - c) % a;
        vstd::arithmetic::div_mod::lemma_mod_bound(m - c, a);
        let v = states[i]->Some_0;
        if j == 0 {
            assert(c == a);
            assert((m - a) % a == m % a) by {
                vstd::arithmetic::div_mod::lemma_mod_sub_multiples_vanish(m, a);
            }
        } else {
            assert(states[i] matches Some(_v2));
            assert(states[(i + vals[j]) % vals[0]] matches Some(w) && w as int <= v + vals[j]);
            assert((i + c) % a == m % a) by {
                vstd::arithmetic::div_mod::lemma_small_mod(i as nat, a as nat);
                vstd::arithmetic::div_mod::lemma_add_mod_noop(i, c, a);
                vstd::arithmetic::div_mod::lemma_add_mod_noop(m - c, c, a);
            }
        }
    }
}

/// At a fixpoint with every class filled, the largest entry minus the
/// smallest coin is the Frobenius number.
proof fn lemma_rr_result(states: Seq<Option<u128>>, vals: Seq<int>, vmax: u128, rmax: int)
    requires
        states_ok(states, vals),
        closed_under(states, vals),
        all_pos(vals),
        forall|r: int| 0 <= r < states.len() ==> (#[trigger] states[r]) is Some,
        0 <= rmax < states.len(),
        states[rmax] == Some(vmax),
        forall|r: int|
            0 <= r < states.len() ==> ((#[trigger] states[r]) matches Some(v) ==> v <= vmax),
    ensures
        is_frobenius(vals, vmax as int - vals[0]),
{
    let a = vals[0];
    let f = vmax as int - a;
    assert(f >= -1) by {
        assert(states[a - 1] matches Some(v));
        let v = states[a - 1]->Some_0;
        assert((v as int) % a == a - 1);
        vstd::arithmetic::div_mod::lemma_fundamental_div_mod(v as int, a);
        let q = (v as int) / a;
        assert(q >= 0) by (nonlinear_arith)
            requires
                v as int == a * q + (a - 1),
                v as int >= 0,
                a >= 1,
        ;
        assert(a * q >= 0) by (nonlinear_arith)
            requires
                q >= 0,
                a >= 1,
        ;
        assert(v as int >= a - 1);
        assert(vmax as int >= a - 1);
    }
    assert((vmax as int) % a == rmax);
    assert(!rep(vals, f)) by {
        if f >= 0 && rep(vals, f) {
            lemma_fixpoint(states, vals, f);
            assert(f % a == (vmax as int) % a) by {
                vstd::arithmetic::div_mod::lemma_mod_sub_multiples_vanish(vmax as int, a);
            }
            assert(states[f % a] == Some(vmax));
            let v = states[f % a]->Some_0;
            assert(v as int <= f);
        }
    }
    assert forall|n: int| n > f implies rep(vals, n) by {
        let rn = n % a;
        vstd::arithmetic::div_mod::lemma_mod_bound(n, a);
        assert(states[rn] matches Some(v));
        let v = states[rn]->Some_0;
        assert((v as int) % a == rn && rep(vals, v as int) && v <= vmax);
        assert((n - v as int) % a == 0) by {
            vstd::arithmetic::div_mod::lemma_small_mod(rn as nat, a as nat);
            lemma_cong_diff(n, v as int, a);
        }
        assert(n - v as int > -a);
        lemma_multiple_nonneg(n - v as int, a);
        lemma_rep_multiples(vals, v as int, 0, n);
    }
}

/// One relaxation round keeps the table complete: after `k` rounds every
/// sum of at most `k` tail coins has its class filled by an entry no larger
/// than itself.
proof fn lemma_round_completeness(
    start: Seq<Option<u128>>,
    ns: Seq<Option<u128>>,
    merged: Seq<Option<u128>>,
    vals: Seq<int>,
    k: nat,
)
    requires
        vals.len() >= 1,
        vals[0] >= 1,
        k >= 1,
        start.len() == vals[0],
        ns.len() == vals[0],
        merged.len() == vals[0],
        merged[0] == Some(0u128),
        complete_upto(start, vals, (k - 1) as nat),
        forall|i2: int, j2: int|
            #![trigger start[i2], vals[j2]]
            0 <= i2 < vals[0] && 1 <= j2 < vals.len() ==> (start[i2] matches Some(v) ==> (ns[(i2
                + vals[j2]) % vals[0]] matches Some(w) && w as int <= v + vals[j2])),
        forall|r: int|
            0 <= r < ns.len() ==> ((#[trigger] ns[r]) matches Some(w) ==> (merged[r] matches Some(
            u,
            ) && u <= w)),
    ensures
        complete_upto(merged, vals, k),
{
    reveal(complete_upto);
    let a = vals[0];
    assert forall|m: int|
        0 <= m && #[trigger] rep_within(vals, k, m) implies (merged[m % a] matches Some(v)
        && v as int <= m) by {
        vstd::arithmetic::div_mod::lemma_mod_bound(m, a);
        if m == 0 {
            vstd::arithmetic::div_mod::lemma_small_mod(0, a as nat);
        } else {
            let j = choose|j: int|
                1 <= j < vals.len() && 0 < vals[j] <= m && rep_within(
                    vals,
                    (k - 1) as nat,
                    m - vals[j],
                );
            let c = vals[j];
            let i2 = (m - c) % a;
            vstd::arithmetic::div_mod::lemma_mod_bound(m - c, a);
            assert(start[i2] matches Some(v2) && v2 as int <= m - c);
            let v2 = start[i2]->Some_0;
            assert(ns[(i2 + c) % a] matches Some(w) && w as int <= v2 + c);
            assert((i2 + c) % a == m % a) by {
                vstd::arithmetic::div_mod::lemma_small_mod(i2 as nat, a as nat);
                vstd::arithmetic::div_mod::lemma_add_mod_noop(i2, c, a);
                vstd::arithmetic::div_mod::lemma_add_mod_noop(m - c, c, a);
            }
            vstd::arithmetic::div_mod::lemma_mod_bound(i2 + c, a);
        }
    }
}

/// Once the table is complete for sums of fewer tail coins than the round
/// cap and every class settles within the cap, the table already holds each
/// class's least value, so no further round can improve any entry.
proof fn lemma_cap_no_improve(start: Seq<Option<u128>>, ns: Seq<Option<u128>>, vals: Seq<int>)
    requires
        vals.len() >= 1,
        vals[0] >= 1,
        start.len() == vals[0],
        ns.len() == vals[0],
        states_ok(start, vals),
        complete_upto(start, vals, (RR_MAX_ROUNDS - 1) as nat),
        forall|r: int|
            0 <= r < ns.len() ==> ((#[trigger] ns[r]) matches Some(w) ==> (w as int) % vals[0] == r
                && rep(vals, w as int)),
        relaxes_within_cap(vals),
    ensures
        forall|r: int|
            0 <= r < ns.len() ==> ((#[trigger] ns[r]) matches Some(w) ==> (start[r] matches Some(
            u,
            ) && u <= w)),
{
    reveal(complete_upto);
    let a = vals[0];
    assert forall|r: int|
        0 <= r < ns.len() implies ((#[trigger] ns[r]) matches Some(w) ==> (start[r] matches Some(
    u,
    ) && u <= w)) by {
        if ns[r] is Some {
            let w = ns[r]->Some_0;
            assert(class_settles(vals, r));
            let mr = choose|m: int|
                {
                    &&& 0 <= m
                    &&& #[trigger] rep_within(vals, (RR_MAX_ROUNDS - 1) as nat, m)
                    &&& m % vals[0] == r
                    &&& forall|m2: int| 0 <= m2 < m && m2 % vals[0] == r ==> !rep(vals, m2)
                };
            assert(start[mr % a] matches Some(u2) && u2 as int <= mr);
            assert(mr % a == r);
            let u2 = start[r]->Some_0;
            assert(rep(vals, u2 as int) && (u2 as int) % a == r);
            assert(u2 as int >= mr);
            assert(rep(vals, w as int) && (w as int) % a == r && 0 <= w as int);
            assert(w as int >= mr) by {
                if (w as int) < mr {
                    assert(!rep(vals, w as int));
                }
            }
            assert(u2 <= w);
        }
    }
}

/// The u64 values of the coins; `None` when one does not fit.
fn coin_values(coins: &Vec<Big>) -> (r: Option<Vec<u64>>)
    requires
        all_wf(coins@),
        all_pos(values_of(coins@)),
    ensures
        match r {
            Some(cv) => cv@.len() == coins@.len() && forall|k: int|
                0 <= k < cv@.len() ==> #[trigger] cv@[k] as int == values_of(coins@)[k],
            None => exists|k: int|
                0 <= k < coins@.len() && values_of(coins@)[k] > u64::MAX,
        },
{
    let ghost vals = values_of(coins@);
    let n = coins.len();
    let mut cv: Vec<u64> = Vec::new();
    let mut i: usize = 0;
    while i < n
        invariant
            i <= n,
            n == coins@.len(),
            all_wf(coins@),
            all_pos(vals),
            vals == values_of(coins@),
            cv@.len() == i,
            forall|k: int| 0 <= k < i ==> #[trigger] cv@[k] as int == vals[k],
        decreases n - i,
    {
        proof {
            assert(vals[i as int] == coins@[i as int].value());
            assert(vals[i as int] > 0);
        }
        match mag_to_u64(&coins[i].limbs) {
            Some(v) => {
                cv.push(v);
            },
            None => {
                proof {
                    assert(vals[i as int] > u64::MAX);
                }
                return None;
            },
        }
        i += 1;
    }
    Some(cv)
}

/// One relaxation round's candidates: for each filled class and each other
/// coin, the least new sum that lands in each class.
fn rr_candidates(
    states: &Vec<Option<u128>>,
    cv: &Vec<u64>,
    a: usize,
    Ghost(vals): Ghost<Seq<int>>,
    Ghost(cap0): Ghost<int>,
) -> (ns: Vec<Option<u128>>)
    requires
        vals.len() == cv@.len(),
        vals.len() >= 1,
        all_pos(vals),
        forall|k: int| 0 <= k < cv@.len() ==> #[trigger] cv@[k] as int == vals[k],
        a as int == vals[0],
        a >= 1,
        states_ok(states@, vals),
        states_bounded(states@, cap0),
        0 <= cap0 <= 999 * 0xffff_ffff_ffff_ffff,
    ensures
        ns@.len() == a,
        forall|r: int|
            0 <= r < a ==> ((#[trigger] ns@[r]) matches Some(w) ==> (w as int) % vals[0] == r
                && rep(vals, w as int) && w as int <= cap0 + 0xffff_ffff_ffff_ffff),
        forall|i2: int, j2: int|
            #![trigger states@[i2], vals[j2]]
            0 <= i2 < a && 1 <= j2 < vals.len() ==> (states@[i2] matches Some(v) ==> (ns@[(i2
                + vals[j2]) % vals[0]] matches Some(w) && w as int <= v + vals[j2])),
{
    let ghost ai = vals[0];
    let ghost cap = cap0 + 0xffff_ffff_ffff_ffff;
    let n = cv.len();
    let mut ns: Vec<Option<u128>> = Vec::new();
    let mut r: usize = 0;
    while r < a
        invariant
            r <= a,
            ns@.len() == r,
            forall|k: int| 0 <= k < r ==> (#[trigger] ns@[k]) is None,
        decreases a - r,
    {
        ns.push(None);
        r += 1;
    }
    let mut j: usize = 1;
    while j < n
        invariant
            1 <= j <= n,
            n == cv@.len(),
            vals.len() == n,
            all_pos(vals),
            forall|k: int| 0 <= k < n ==> #[trigger] cv@[k] as int == vals[k],
            ai == vals[0],
            a as int == ai,
            a >= 1,
            0 <= cap0 <= 999 * 0xffff_ffff_ffff_ffff,
            cap == cap0 + 0xffff_ffff_ffff_ffff,
            states_ok(states@, vals),
            states_bounded(states@, cap0),
            ns@.len() == a,
            forall|r2: int|
                0 <= r2 < a ==> ((#[trigger] ns@[r2]) matches Some(w) ==> (w as int) % ai == r2
                    && rep(vals, w as int) && w as int <= cap),
            forall|i2: int, j2: int|
                #![trigger states@[i2], vals[j2]]
                0 <= i2 < a && 1 <= j2 < j ==> (states@[i2] matches Some(v) ==> (ns@[(i2
                    + vals[j2]) % ai] matches Some(w) && w as int <= v + vals[j2])),
        decreases n - j,
    {
        let c = cv[j];
        let ghost ci = vals[j as int];
        proof {
            assert(c as int == ci);
            assert(ci > 0);
        }
        let mut i: usize = 0;
        while i < a
            invariant
                i <= a,
                1 <= j < n,
                n == cv@.len(),
                vals.len() == n,
                all_pos(vals),
                forall|k: int| 0 <= k < n ==> #[trigger] cv@[k] as int == vals[k],
                ai == vals[0],
                a as int == ai,
                a >= 1,
                0 <= cap0 <= 999 * 0xffff_ffff_ffff_ffff,
                cap == cap0 + 0xffff_ffff_ffff_ffff,
                c as int == ci,
                ci == vals[j as int],
                ci > 0,
                states_ok(states@, vals),
                states_bounded(states@, cap0),
                ns@.len() == a,
                forall|r2: int|
                    0 <= r2 < a ==> ((#[trigger] ns@[r2]) matches Some(w) ==> (w as int) % ai == r2
                        && rep(vals, w as int) && w as int <= cap),
                forall|i2: int, j2: int|
                    #![trigger states@[i2], vals[j2]]
                    0 <= i2 < a && 1 <= j2 < j ==> (states@[i2] matches Some(v) ==> (ns@[(i2
                        + vals[j2]) % ai] matches Some(w) && w as int <= v + vals[j2])),
                forall|i2: int|
                    0 <= i2 < i ==> ((#[trigger] states@[i2]) matches Some(v) ==> (ns@[(i2 + ci)
                        % ai] matches Some(w) && w as int <= v + ci)),
            decreases a - i,
        {
            match states[i] {
                Some(v) => {
                    let t_wide = (i as u128 + c as u128) % (a as u128);
                    let t = t_wide as usize;
                    let cand = v + c as u128;
                    proof {
                        assert(t as int == (i as int + ci) % ai);
                        vstd::arithmetic::div_mod::lemma_mod_bound(i as int + ci, ai);
                        assert((v as int) % ai == i as int);
                        assert((cand as int) % ai == t as int) by {
                            vstd::arithmetic::div_mod::lemma_small_mod(i as nat, ai as nat);
                            vstd::arithmetic::div_mod::lemma_add_mod_noop(v as int, ci, ai);
                            vstd::arithmetic::div_mod::lemma_add_mod_noop(i as int, ci, ai);
                        }
                        lemma_rep_add_coin(vals, v as int, j as int);
                        assert(rep(vals, cand as int));
                        assert(cand as int <= cap);
                    }
                    let ghost ns_before = ns@;
                    let improved: bool = match ns[t] {
                        None => true,
                        Some(w) => cand < w,
                    };
                    if improved {
                        ns[t] = Some(cand);
                    }
                    proof {
                        assert forall|r2: int|
                            0 <= r2 < a implies ((#[trigger] ns@[r2]) matches Some(w) ==> (
                        w as int) % ai == r2 && rep(vals, w as int) && w as int <= cap) by {
                            if r2 != t as int {
                                assert(ns@[r2] == ns_before[r2]);
                            }
                        }
                        assert forall|i2: int, j2: int|
                            #![trigger states@[i2], vals[j2]]
                            0 <= i2 < a && 1 <= j2 < j implies (states@[i2] matches Some(v2) ==> (
                        ns@[(i2 + vals[j2]) % ai] matches Some(w) && w as int <= v2 + vals[j2]))
                            by {
                            if states@[i2] is Some && 1 <= j2 < j {
                                let tt = (i2 + vals[j2]) % ai;
                                vstd::arithmetic::div_mod::lemma_mod_bound(i2 + vals[j2], ai);
                                if tt != t as int {
                                    assert(ns@[tt] == ns_before[tt]);
                                }
                            }
                        }
                        assert forall|i2: int|
                            0 <= i2 < i + 1 implies ((#[trigger] states@[i2]) matches Some(v2)
                            ==> (ns@[(i2 + ci) % ai] matches Some(w) && w as int <= v2 + ci)) by {
                            if states@[i2] is Some {
                                let tt = (i2 + ci) % ai;
                                vstd::arithmetic::div_mod::lemma_mod_bound(i2 + ci, ai);
                                if i2 < i {
                                    if tt != t as int {
                                        assert(ns@[tt] == ns_before[tt]);
                                    }
                                } else {
                                    assert(tt == t as int);
                                }
                            }
                        }
                    }
                },
                None => {},
            }
            i += 1;
        }
        j += 1;
    }
    ns
}

/// Folds one round's candidates into the table, keeping the smaller value
/// per class; reports whether anything improved.
fn rr_merge(
    states: &mut Vec<Option<u128>>,
    ns: &Vec<Option<u128>>,
    Ghost(vals): Ghost<Seq<int>>,
    Ghost(cap1): Ghost<int>,
) -> (modified: bool)
    requires
        states_ok(old(states)@, vals),
        states_bounded(old(states)@, cap1),
        ns@.len() == old(states)@.len(),
        forall|r: int|
            0 <= r < ns@.len() ==> ((#[trigger] ns@[r]) matches Some(w) ==> (w as int) % vals[0]
                == r && rep(vals, w as int) && w as int <= cap1),
    ensures
        final(states)@.len() == old(states)@.len(),
        states_ok(final(states)@, vals),
        states_bounded(final(states)@, cap1),
        forall|r: int|
            0 <= r < ns@.len() ==> ((#[trigger] ns@[r]) matches Some(w)
                ==> (final(states)@[r] matches Some(u) && u <= w)),
        !modified ==> final(states)@ == old(states)@,
        modified ==> exists|r: int|
            0 <= r < ns@.len() && ((#[trigger] ns@[r]) matches Some(w) && (old(
                states,
            )@[r] is None || (old(states)@[r] matches Some(u) && w < u))),
{
    let a = states.len();
    let mut modified = false;
    let mut r: usize = 0;
    while r < a
        invariant
            r <= a,
            a == old(states)@.len(),
            states@.len() == a,
            ns@.len() == a,
            states_ok(states@, vals),
            states_bounded(states@, cap1),
            forall|r2: int|
                0 <= r2 < ns@.len() ==> ((#[trigger] ns@[r2]) matches Some(w) ==> (w as int)
                    % vals[0] == r2 && rep(vals, w as int) && w as int <= cap1),
            forall|r2: int| r as int <= r2 < a ==> #[trigger] states@[r2] == old(states)@[r2],
            forall|r2: int|
                0 <= r2 < r ==> ((#[trigger] ns@[r2]) matches Some(w) ==> (states@[r2] matches
                Some(u) && u <= w)),
            !modified ==> states@ == old(states)@,
            modified ==> exists|r2: int|
                0 <= r2 < ns@.len() && ((#[trigger] ns@[r2]) matches Some(w) && (old(
                    states,
                )@[r2] is None || (old(states)@[r2] matches Some(u) && w < u))),
        decreases a - r,
    {
        let ghost st_before = states@;
        match ns[r] {
            Some(w) => {
                let replace: bool = match states[r] {
                    None => true,
                    Some(u) => w < u,
                };
                if replace {
                    states[r] = Some(w);
                    modified = true;
                    proof {
                        if r == 0 {
                            assert(st_before[0] == Some(0u128));
                        }
                        assert forall|r2: int|
                            0 <= r2 < a && r2 != r as int implies states@[r2] == st_before[r2]
                            by {}
                        assert(st_before[r as int] == old(states)@[r as int]);
                        assert(0 <= r as int && (r as int) < ns@.len());
                        assert(ns@[r as int] matches Some(w2) && (old(states)@[r as int] is None
                            || (old(states)@[r as int] matches Some(u) && w2 < u)));
                    }
                }
            },
            None => {},
        }
        r += 1;
    }
    modified
}

/// True iff every residue class is filled.
fn all_filled(states: &Vec<Option<u128>>) -> (r: bool)
    ensures
        r == forall|k: int| 0 <= k < states@.len() ==> (#[trigger] states@[k]) is Some,
{
    let n = states.len();
    let mut i: usize = 0;
    while i < n
        invariant
            i <= n,
            n == states@.len(),
            forall|k: int| 0 <= k < i ==> (#[trigger] states@[k]) is Some,
        decreases n - i,
    {
        if states[i].is_none() {
            return false;
        }
        i += 1;
    }
    true
}

/// The largest filled entry, with the class it fills.
fn table_max(states: &Vec<Option<u128>>) -> (r: (u128, Ghost<int>))
    requires
        states@.len() >= 1,
        states@[0] == Some(0u128),
    ensures
        0 <= r.1@ < states@.len(),
        states@[r.1@] == Some(r.0),
        forall|k: int|
            0 <= k < states@.len() ==> ((#[trigger] states@[k]) matches Some(v) ==> v <= r.0),
{
    let n = states.len();
    let mut vmax: u128 = 0;
    let mut rmax: Ghost<int> = Ghost(0);
    let mut i: usize = 0;
    while i < n
        invariant
            i <= n,
            n == states@.len(),
            states@[0] == Some(0u128),
            0 <= rmax@ < n,
            states@[rmax@] == Some(vmax),
            forall|k: int| 0 <= k < i ==> ((#[trigger] states@[k]) matches Some(v) ==> v <= vmax),
        decreases n - i,
    {
        match states[i] {
            Some(v) => {
                if v > vmax {
                    vmax = v;
                    rmax = Ghost(i as int);
                }
            },
            None => {},
        }
        i += 1;
    }
    (vmax, rmax)
}

/// Relaxes residue classes modulo the smallest coin until no entry
/// improves, then reads the Frobenius number off the table. Fails with
/// `Unresolved` when the round cap is hit before the fixpoint, or when a
/// class is still unfilled at the fixpoint; for a coprime set the latter
/// cannot happen.
/// Reads the answer off a fixpoint table: the largest entry minus the
/// smallest coin, or `Unresolved` where a class is unfilled, which cannot
/// happen when every class settles within the cap.
fn rr_finish(states: &Vec<Option<u128>>, a64: u64, Ghost(vals): Ghost<Seq<int>>) -> (result:
    Result<Big, FrobeniusError>)
    requires
        all_pos(vals),
        a64 as int == vals[0],
        1 <= a64 <= RR_MAX_SMALLEST,
        states@.len() == vals[0],
        states_ok(states@, vals),
        closed_under(states@, vals),
    ensures
        result matches Ok(f) ==> f.wf() && is_frobenius(vals, f.value()),
        result is Err ==> result == Err::<Big, FrobeniusError>(FrobeniusError::Unresolved)
            && !relaxes_within_cap(vals),
{
    let ghost ai = vals[0];
    let a = a64 as usize;
    if !all_filled(states) {
        proof {
            assert(!relaxes_within_cap(vals)) by {
                if relaxes_within_cap(vals) {
                    let r = choose|r: int| 0 <= r < a && (#[trigger] states@[r]) is None;
                    assert(class_settles(vals, r));
                    let mr = choose|m: int|
                        {
                            &&& 0 <= m
                            &&& #[trigger] rep_within(vals, (RR_MAX_ROUNDS - 1) as nat, m)
                            &&& m % vals[0] == r
                            &&& forall|m2: int|
                                0 <= m2 < m && m2 % vals[0] == r ==> !rep(vals, m2)
                        };
                    lemma_rep_within_rep(vals, (RR_MAX_ROUNDS - 1) as nat, mr);
                    lemma_fixpoint(states@, vals, mr);
                }
            }
        }
        return Err(FrobeniusError::Unresolved);
    }
    let (vmax, rmax_track) = table_max(states);
    proof {
        lemma_rr_result(states@, vals, vmax, rmax_track@);
    }
    if vmax >= a64 as u128 {
        let fv = vmax - a64 as u128;
        let res = big_from_u128(fv);
        Ok(res)
    } else {
        proof {
            assert(vmax as int - ai >= -1);
            assert(vmax as int - ai == -1);
        }
        Ok(big_neg_one())
    }
}

pub fn round_robin(coins: &Vec<Big>) -> (result: Result<Big, FrobeniusError>)
    requires
        coins@.len() >= 1,
        all_wf(coins@),
        all_pos(values_of(coins@)),
        sorted_vals(values_of(coins@)),
    ensures
        ({
            let vals = values_of(coins@);
            &&& result matches Ok(f) ==> f.wf() && is_frobenius(vals, f.value())
            &&& gcd_seq(vals) != 1 ==> (result matches Err(e) && e matches
                FrobeniusError::NonCoprime(g) && g.wf() && g.value() == gcd_seq(vals))
            &&& gcd_seq(vals) == 1 ==> ((result == Err::<Big, FrobeniusError>(
                FrobeniusError::ValueTooLarge,
            )) <==> rr_coin_too_large(vals))
            &&& gcd_seq(vals) == 1 && !rr_coin_too_large(vals) ==> (result matches Ok(_) || result
                == Err::<Big, FrobeniusError>(FrobeniusError::Unresolved))
            &&& gcd_seq(vals) == 1 && !rr_coin_too_large(vals) && relaxes_within_cap(vals)
                ==> result is Ok
        }),
{
    let ghost vals = values_of(coins@);
    let g = gcd_of_vec(coins);
    if !big_is_one(&g) {
        return Err(FrobeniusError::NonCoprime(g));
    }
    let cv = match coin_values(coins) {
        Some(cv) => cv,
        None => {
            return Err(FrobeniusError::ValueTooLarge);
        },
    };
    let n = cv.len();
    let a64 = cv[0];
    proof {
        assert(a64 as int == vals[0]);
    }
    if a64 > RR_MAX_SMALLEST {
        return Err(FrobeniusError::ValueTooLarge);
    }
    proof {
        assert(!rr_coin_too_large(vals)) by {
            assert forall|k: int| 0 <= k < vals.len() implies !(vals[k] > u64::MAX) by {
                assert(cv@[k] as int == vals[k]);
            }
        }
    }
    let a = a64 as usize;
    let ghost ai = vals[0];
    proof {
        assert(a as int == ai);
        assert(1 <= a <= 10_000_000);
    }
    let mut states: Vec<Option<u128>> = Vec::new();
    states.push(Some(0u128));
    let mut r: usize = 1;
    while r < a
        invariant
            1 <= r <= a,
            states@.len() == r,
            states@[0] == Some(0u128),
            forall|k: int| 1 <= k < r ==> (#[trigger] states@[k]) is None,
        decreases a - r,
    {
        states.push(None);
        r += 1;
    }
    proof {
        assert(rep(vals, 0));
        assert(0int % ai == 0) by {
            vstd::arithmetic::div_mod::lemma_small_mod(0, ai as nat);
        }
        assert(states_ok(states@, vals));
        assert(states_bounded(states@, 0));
        assert(complete_upto(states@, vals, 0)) by {
            reveal(complete_upto);
            assert forall|m: int|
                0 <= m && #[trigger] rep_within(vals, 0nat, m) implies (states@[m
                % ai] matches Some(v) && v as int <= m) by {
                assert(m == 0);
                vstd::arithmetic::div_mod::lemma_small_mod(0, ai as nat);
            }
        }
    }
    let mut iterations: u32 = 0;
    let mut modified = true;
    while modified && iterations < RR_MAX_ROUNDS
        invariant
            iterations <= RR_MAX_ROUNDS,
            n == cv@.len(),
            n >= 1,
            vals.len() == n,
            all_pos(vals),
            forall|k: int| 0 <= k < n ==> #[trigger] cv@[k] as int == vals[k],
            ai == vals[0],
            a as int == ai,
            1 <= a <= 10_000_000,
            states_ok(states@, vals),
            states_bounded(states@, iterations as int * 0xffff_ffff_ffff_ffff),
            !modified ==> closed_under(states@, vals),
            complete_upto(states@, vals, iterations as nat),
            relaxes_within_cap(vals) && iterations == RR_MAX_ROUNDS ==> !modified,
        decreases RR_MAX_ROUNDS - iterations,
    {
        iterations += 1;
        let ghost cap0 = (iterations - 1) as int * 0xffff_ffff_ffff_ffff;
        let ghost cap1 = iterations as int * 0xffff_ffff_ffff_ffff;
        let ghost start = states@;
        let ns = rr_candidates(&states, &cv, a, Ghost(vals), Ghost(cap0));
        modified = rr_merge(&mut states, &ns, Ghost(vals), Ghost(cap1));
        proof {
            lemma_round_completeness(start, ns@, states@, vals, iterations as nat);
            if iterations == RR_MAX_ROUNDS && relaxes_within_cap(vals) {
                lemma_cap_no_improve(start, ns@, vals);
                if modified {
                    let r = choose|r: int|
                        0 <= r < ns@.len() && ((#[trigger] ns@[r]) matches Some(w) && (
                        start[r] is None || (start[r] matches Some(u) && w < u)));
                    assert(start[r] matches Some(u) && u <= ns@[r]->Some_0);
                }
                assert(!modified);
            }
            if !modified {
                assert(states@ == start);
                assert forall|i2: int, j2: int|
                    #![trigger states@[i2], vals[j2]]
                    0 <= i2 < states@.len() && 1 <= j2 < vals.len() implies (states@[i2] matches
                Some(v) ==> (states@[(i2 + vals[j2]) % vals[0]] matches Some(w) && w as int <= v
                    + vals[j2])) by {
                    if states@[i2] is Some && 1 <= j2 < vals.len() {
                        let v = states@[i2]->Some_0;
                        let tt = (i2 + vals[j2]) % ai;
                        vstd::arithmetic::div_mod::lemma_mod_bound(i2 + vals[j2], ai);
                        assert(start[i2] matches Some(v3) && v3 == v);
                        assert(ns@[tt] matches Some(w) && w as int <= v + vals[j2]);
                    }
                }
                assert(closed_under(states@, vals));
            }
        }
    }
    if modified {
        proof {
            assert(iterations == RR_MAX_ROUNDS);
            assert(!relaxes_within_cap(vals));
        }
        return Err(FrobeniusError::Unresolved);
    }
    rr_finish(&states, a64, Ghost(vals))
}

} // verus!
