//! The bounded reachability sieve: a bit per integer up to an analytic
//! bound, true iff that integer is a sum of coins. The bits live in a
//! `bitvec` bit vector behind trusted wrappers.

use vstd::prelude::*;
use crate::FrobeniusError;
use crate::bignum::{Big, all_pos, all_wf, big_from_u128, big_neg_one, mag_to_u64, sorted_vals,
    values_of};
use crate::represent::{frob_within, is_frobenius, lemma_rep_push_iff, lemma_window, rep};
use bitvec::order::Lsb0;
use bitvec::vec::BitVec;

verus! {

/// A bit-indexed reachability table, kept in a `bitvec` bit vector. Verus
/// sees the bits only through `sieve_bits` and the wrappers below.
#[verifier::external_body]
pub struct Sieve {
    bits: BitVec<u64, Lsb0>,
}

/// The bits a sieve holds, in index order.
pub uninterp spec fn sieve_bits(v: Sieve) -> Seq<bool>;

/// Relies on bitvec's `BitVec::repeat`: `len` copies of the given bit.
#[verifier::external_body]
fn bv_new(len: usize) -> (r: Sieve)
    ensures
        sieve_bits(r).len() == len,
        forall|i: int| 0 <= i < len ==> sieve_bits(r)[i] == false,
{
    Sieve { bits: BitVec::repeat(false, len) }
}

/// Relies on bitvec's `BitVec::set`, which writes one bit in place; it
/// panics out of range, which the `requires` rules out.
#[verifier::external_body]
fn bv_set(v: &mut Sieve, i: usize, value: bool)
    requires
        i < sieve_bits(*old(v)).len(),
    ensures
        sieve_bits(*final(v)) == sieve_bits(*old(v)).update(i as int, value),
{
    v.bits.set(i, value);
}

/// Relies on bitvec's indexing into the underlying bit slice; it panics
/// out of range, which the `requires` rules out.
#[verifier::external_body]
fn bv_get(v: &Sieve, i: usize) -> (r: bool)
    requires
        i < sieve_bits(*v).len(),
    ensures
        r == sieve_bits(*v)[i as int],
{
    v.bits[i]
}

/// The Schur-style bound over the sorted values: largest times smallest,
/// minus both.
pub open spec fn schur_bound(vals: Seq<int>) -> int {
    vals.last() * vals[0] - vals[0] - vals.last()
}

/// The Vitek-style bound: largest times half the smallest rounded up,
/// minus one.
pub open spec fn vitek_bound(vals: Seq<int>) -> int {
    vals.last() * ((vals[0] + 1) / 2) - 1
}

/// The sieve bound: the smaller of the two analytic bounds.
pub open spec fn dp_bound(vals: Seq<int>) -> int {
    if schur_bound(vals) <= vitek_bound(vals) {
        schur_bound(vals)
    } else {
        vitek_bound(vals)
    }
}

/// A coin too large for the sieve's fixed-width indexing.
pub open spec fn some_coin_over_u64(vals: Seq<int>) -> bool {
    exists|k: int| 0 <= k < vals.len() && vals[k] > u64::MAX
}

/// The hard ceiling on the sieve bound.
pub const DP_MAX_BOUND: u64 = 100_000_000;

/// Builds the reachability sieve up to the derived bound and returns the
/// largest unmarked index, or -1 when every index is marked. The result is
/// exact up to the bound; when the bound leaves a window of at least the
/// smallest coin above the result, it is the Frobenius number outright.
pub fn dp_frobenius(coins: &Vec<Big>) -> (result: Result<Big, FrobeniusError>)
    requires
        coins@.len() >= 3,
        all_wf(coins@),
        all_pos(values_of(coins@)),
        sorted_vals(values_of(coins@)),
    ensures
        ({
            let vals = values_of(coins@);
            &&& some_coin_over_u64(vals) ==> result == Err::<Big, FrobeniusError>(
                FrobeniusError::ValueTooLarge,
            )
            &&& !some_coin_over_u64(vals) && !(0 <= dp_bound(vals) <= DP_MAX_BOUND)
                ==> result == Err::<Big, FrobeniusError>(FrobeniusError::BoundExceeded)
            &&& result matches Ok(f) ==> {
                &&& f.wf()
                &&& 0 <= dp_bound(vals) <= DP_MAX_BOUND
                &&& frob_within(vals, f.value(), dp_bound(vals))
                &&& dp_bound(vals) - f.value() >= vals[0] ==> is_frobenius(vals, f.value())
            }
            &&& result matches Err(e) ==> (e == FrobeniusError::ValueTooLarge || e
                == FrobeniusError::BoundExceeded)
            &&& !some_coin_over_u64(vals) && 0 <= dp_bound(vals) <= DP_MAX_BOUND
                ==> result is Ok
        }),
{
    let ghost vals = values_of(coins@);
    let n = coins.len();
    let mut cv: Vec<u64> = Vec::new();
    let mut i: usize = 0;
    while i < n
        invariant
            i <= n,
            n == coins@.len(),
            all_wf(coins@),
            all_pos(vals),
            vals == values_of(coins@),
            cv@.len() == i,
            forall|k: int| 0 <= k < i ==> #[trigger] cv@[k] as int == vals[k],
        decreases n - i,
    {
        proof {
            assert(vals[i as int] == coins@[i as int].value());
        }
        match mag_to_u64(&coins[i].limbs) {
            Some(v) => {
                cv.push(v);
            },
            None => {
                proof {
                    assert(vals[i as int] > u64::MAX);
                }
                return Err(FrobeniusError::ValueTooLarge);
            },
        }
        i += 1;
    }
    proof {
        assert(!some_coin_over_u64(vals)) by {
            assert forall|k: int| 0 <= k < vals.len() implies !(vals[k] > u64::MAX) by {
                assert(cv@[k] as int == vals[k]);
            }
        }
    }
    let f = cv[0];
    let l = cv[n - 1];
    let ghost fi = vals[0];
    let ghost li = vals.last();
    proof {
        assert(f as int == fi);
        assert(l as int == li);
        assert(fi <= li);
        assert(fi >= 1 && li >= 1);
    }
    if f == 1 {
        proof {
            assert(schur_bound(vals) == li * 1 - 1 - li) by (nonlinear_arith)
                requires
                    fi == 1,
                    schur_bound(vals) == li * fi - fi - li,
            ;
            assert((1int + 1) / 2 == 1);
            assert(vitek_bound(vals) == li * 1 - 1);
            assert(dp_bound(vals) == -1);
        }
        return Err(FrobeniusError::BoundExceeded);
    }
    if l > 0xffff_ffffu64 {
        proof {
            let q = (fi + 1) / 2;
            assert(q >= 1);
            assert(li * q >= li) by (nonlinear_arith)
                requires
                    q >= 1,
                    li > 0,
            ;
            assert(vitek_bound(vals) >= li - 1);
            if fi == 2 {
                assert(li * 2 == li + li) by (nonlinear_arith);
                assert(schur_bound(vals) == li - 2);
            } else {
                assert(schur_bound(vals) >= li) by (nonlinear_arith)
                    requires
                        fi >= 3,
                        li >= fi,
                        schur_bound(vals) == li * fi - fi - li,
                ;
            }
            assert(dp_bound(vals) > DP_MAX_BOUND);
        }
        return Err(FrobeniusError::BoundExceeded);
    }
    proof {
        assert(l * f <= 0xffff_ffffu64 * 0xffff_ffffu64 && l * f >= f + l && l * ((f + 1) / 2)
            <= 0xffff_ffffu64 * 0x8000_0000u64 && l * ((f + 1) / 2) >= 1) by (nonlinear_arith)
            requires
                2 <= f <= l <= 0xffff_ffffu64,
        ;
    }
    let schur: u64 = l * f - f - l;
    let vitek: u64 = l * ((f + 1) / 2) - 1;
    let bound: u64 = if schur <= vitek {
        schur
    } else {
        vitek
    };
    proof {
        assert((f + 1) as int / 2 == (fi + 1) / 2);
        assert(schur as int == schur_bound(vals));
        assert(vitek as int == vitek_bound(vals));
        assert(bound as int == dp_bound(vals));
    }
    if bound > DP_MAX_BOUND {
        return Err(FrobeniusError::BoundExceeded);
    }
    let bound_us: usize = bound as usize;
    let mut bits = bv_new(bound_us + 1);
    bv_set(&mut bits, 0, true);
    proof {
        assert forall|x: int| 0 <= x <= bound_us implies sieve_bits(bits)[x] == rep(
            vals.subrange(0, 0),
            x,
        ) by {
            if x > 0 {
                assert(!rep(vals.subrange(0, 0), x));
            }
        }
    }
    let mut j: usize = 0;
    while j < n
        invariant
            j <= n,
            n == cv@.len(),
            vals.len() == n,
            all_pos(vals),
            forall|k: int| 0 <= k < n ==> #[trigger] cv@[k] as int == vals[k],
            bound_us <= 100_000_000,
            bound_us as int == bound as int,
            sieve_bits(bits).len() == bound_us + 1,
            forall|x: int|
                0 <= x <= bound_us ==> #[trigger] sieve_bits(bits)[x] == rep(
                    vals.subrange(0, j as int),
                    x,
                ),
        decreases n - j,
    {
        let c = cv[j];
        let ghost prev = vals.subrange(0, j as int);
        let ghost cur = vals.subrange(0, j as int + 1);
        let ghost cval = vals[j as int];
        proof {
            assert(cur =~= prev.push(cval));
            assert(cval > 0);
            assert(c as int == cval);
        }
        if c <= bound {
            let cu: usize = c as usize;
            proof {
                assert(cu as int == cval);
                assert(bound_us as int == bound as int);
                assert forall|y: int| 0 <= y < cu implies #[trigger] sieve_bits(bits)[y] == rep(
                    cur,
                    y,
                ) by {
                    lemma_rep_push_iff(prev, cval, y);
                }
            }
            let mut x: usize = cu;
            while x <= bound_us
                invariant
                    cu <= x <= bound_us + 1,
                    bound_us <= 100_000_000,
                    cu == cval,
                    cu >= 1,
                    cur == prev.push(cval),
                    sieve_bits(bits).len() == bound_us + 1,
                    forall|y: int| 0 <= y < x ==> #[trigger] sieve_bits(bits)[y] == rep(cur, y),
                    forall|y: int|
                        x <= y <= bound_us ==> #[trigger] sieve_bits(bits)[y] == rep(prev, y),
                decreases bound_us + 1 - x,
            {
                let reach = bv_get(&bits, x - cu);
                let ghost before = sieve_bits(bits);
                if reach {
                    bv_set(&mut bits, x, true);
                }
                proof {
                    lemma_rep_push_iff(prev, cval, x as int);
                    assert(rep(cur, x as int) == (rep(prev, x as int) || rep(cur, x - cval)));
                    if reach {
                        assert(sieve_bits(bits) == before.update(x as int, true));
                        assert(rep(cur, x - cval));
                        assert(sieve_bits(bits)[x as int] == rep(cur, x as int));
                        assert forall|y: int| 0 <= y < x + 1 && y != x implies #[trigger] sieve_bits(
                            bits,
                        )[y] == rep(cur, y) by {
                            assert(sieve_bits(bits)[y] == before[y]);
                        }
                    } else {
                        assert(!rep(cur, x - cval));
                        assert(sieve_bits(bits)[x as int] == rep(prev, x as int));
                        assert(sieve_bits(bits)[x as int] == rep(cur, x as int));
                    }
                }
                x += 1;
            }
        } else {
            proof {
                assert forall|y: int| 0 <= y <= bound_us implies #[trigger] sieve_bits(bits)[y]
                    == rep(cur, y) by {
                    lemma_rep_push_iff(prev, cval, y);
                }
            }
        }
        proof {
            assert(vals.subrange(0, j + 1) == cur);
        }
        j += 1;
    }
    proof {
        assert(vals.subrange(0, n as int) =~= vals);
    }
    let ghost b = dp_bound(vals);
    let mut i: usize = bound_us;
    proof {
        assert(bound_us as int == b);
    }
    while i > 0
        invariant
            i <= bound_us,
            bound_us <= 100_000_000,
            bound_us as int == b,
            b == dp_bound(vals),
            0 <= b <= DP_MAX_BOUND,
            vals == values_of(coins@),
            !some_coin_over_u64(vals),
            vals.len() >= 2,
            all_pos(vals),
            sieve_bits(bits).len() == bound_us + 1,
            forall|x: int| 0 <= x <= bound_us ==> #[trigger] sieve_bits(bits)[x] == rep(vals, x),
            forall|x: int| i < x <= bound_us ==> #[trigger] rep(vals, x),
        decreases i,
    {
        if !bv_get(&bits, i) {
            let result = big_from_u128(i as u128);
            proof {
                assert(!rep(vals, i as int));
                assert forall|m: int| i < m <= b implies rep(vals, m) by {
                    assert(rep(vals, m));
                }
                assert(frob_within(vals, i as int, b));
                if b - i as int >= vals[0] {
                    lemma_window(vals, i as int, b, 0);
                }
            }
            return Ok(result);
        }
        i -= 1;
    }
    let result = big_neg_one();
    proof {
        assert forall|m: int| -1 < m <= b implies rep(vals, m) by {
            if m == 0 {
                assert(rep(vals, 0));
            } else {
                assert(rep(vals, m));
            }
        }
        assert(frob_within(vals, -1, b));
        if b - (-1int) >= vals[0] {
            lemma_window(vals, -1, b, 0);
        }
    }
    Ok(result)
}

} // verus!
