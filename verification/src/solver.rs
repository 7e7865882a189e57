//! The solver: input normalization, the two-value closed form, the result
//! cache, and the dispatcher that picks between the round-robin and sieve
//! algorithms.

use vstd::prelude::*;
use crate::FrobeniusError;
use crate::bignum::{abs_int, all_pos, all_wf, big_is_one, big_neg_one, gcd_nat, gcd_of_vec,
    gcd_seq, limbs_value, mag_add, mag_lt, mag_mul, mag_sub, mag_to_u64, sorted_vals, values_of,
    Big};
use crate::represent::{frob_within, is_frobenius, rep};
use crate::roundrobin::{relaxes_within_cap, round_robin, rr_coin_too_large};
use crate::sieve::{dp_bound, dp_frobenius, some_coin_over_u64, DP_MAX_BOUND};

verus! {

broadcast use {vstd::seq_lib::group_to_multiset_ensures, vstd::multiset::group_multiset_axioms};

/// Keeps a value: it is positive.
pub open spec fn pos_filter() -> spec_fn(int) -> bool {
    |x: int| 0 < x
}

/// `norm` is the canonical form of `input`: its positive entries, sorted.
pub open spec fn is_norm_of(input: Seq<int>, norm: Seq<int>) -> bool {
    &&& sorted_vals(norm)
    &&& all_pos(norm)
    &&& norm.to_multiset() == input.filter(pos_filter()).to_multiset()
}

/// What a cached or returned Frobenius value means for its key: the exact
/// closed forms for one and two coins; the full characterization for up to
/// four coins, which always go through the round-robin solver; and for five
/// or more either that, or the sieve's answer, exact up to the analytic
/// bound (its equality with the Frobenius number rests on the Schur and
/// Vitek bounds lying above it, which is taken from the design, not proven
/// here).
pub open spec fn entry_ok(k: Seq<int>, f: int) -> bool {
    if k.len() == 1 {
        f == (if k[0] > 1 {
            k[0] - 1
        } else {
            -1
        })
    } else if k.len() == 2 {
        f == k[0] * k[1] - k[0] - k[1] && gcd_nat(abs_int(k[0]), abs_int(k[1])) == 1
    } else if k.len() <= 4 {
        is_frobenius(k, f)
    } else {
        is_frobenius(k, f) || frob_within(k, f, dp_bound(k))
    }
}

/// Law: normalization is canonical. Two inputs whose positive parts hold
/// the same values, in any order, normalize to the same key, so a repeated
/// solve finds its answer in the cache.
pub proof fn lemma_norm_unique(s1: Seq<int>, s2: Seq<int>, n1: Seq<int>, n2: Seq<int>)
    requires
        is_norm_of(s1, n1),
        is_norm_of(s2, n2),
        s1.filter(pos_filter()).to_multiset() == s2.filter(pos_filter()).to_multiset(),
    ensures
        n1 == n2,
{
    let leq = |x: int, y: int| x <= y;
    assert(vstd::relations::total_ordering(leq)) by {
        assert(vstd::relations::reflexive(leq));
        assert(vstd::relations::transitive(leq));
        assert(vstd::relations::antisymmetric(leq));
        assert(vstd::relations::connected(leq));
    }
    assert(vstd::relations::sorted_by(n1, leq));
    assert(vstd::relations::sorted_by(n2, leq));
    vstd::seq_lib::lemma_sorted_unique(n1, n2, leq);
    assert(n1 == n2);
}

/// The positive entries, in input order.
fn filter_positive(coins: &Vec<Big>) -> (r: Vec<Big>)
    requires
        all_wf(coins@),
    ensures
        all_wf(r@),
        all_pos(values_of(r@)),
        values_of(r@) == values_of(coins@).filter(pos_filter()),
{
    let ghost input = values_of(coins@);
    let n = coins.len();
    let mut r: Vec<Big> = Vec::new();
    let mut i: usize = 0;
    while i < n
        invariant
            i <= n,
            n == coins@.len(),
            all_wf(coins@),
            input == values_of(coins@),
            all_wf(r@),
            all_pos(values_of(r@)),
            values_of(r@) == input.subrange(0, i as int).filter(pos_filter()),
        decreases n - i,
    {
        let ghost pre = input.subrange(0, i as int);
        let ghost ext = input.subrange(0, i + 1);
        proof {
            assert(ext.drop_last() =~= pre);
            assert(ext.last() == input[i as int]);
            assert(input[i as int] == coins@[i as int].value());
        }
        if coins[i].is_positive() {
            let ghost before = r@;
            r.push(coins[i].duplicate());
            proof {
                reveal(Seq::filter);
                assert(values_of(r@) =~= values_of(before).push(input[i as int]));
                assert(ext.drop_last() == pre);
                assert(pos_filter()(ext.last()));
                assert(ext.filter(pos_filter()) == pre.filter(pos_filter()).push(ext.last()));
            }
        } else {
            proof {
                reveal(Seq::filter);
                assert(ext.drop_last() == pre);
                assert(!pos_filter()(ext.last()));
                assert(ext.filter(pos_filter()) == pre.filter(pos_filter()));
            }
        }
        i += 1;
    }
    proof {
        assert(input.subrange(0, n as int) =~= input);
    }
    r
}

/// The values a `Big` sequence stands for commute with removing an entry.
proof fn lemma_values_remove(s: Seq<Big>, i: int)
    requires
        0 <= i < s.len(),
    ensures
        values_of(s.remove(i)) =~= values_of(s).remove(i),
{
}

/// True iff `x`'s value is less than `y`'s; both must be non-negative.
fn big_lt(x: &Big, y: &Big) -> (r: bool)
    requires
        x.wf(),
        y.wf(),
        x.value() >= 0,
        y.value() >= 0,
    ensures
        r == (x.value() < y.value()),
{
    proof {
        if x.negative {
            crate::bignum::lemma_canonical_pos(x.limbs@);
        }
        if y.negative {
            crate::bignum::lemma_canonical_pos(y.limbs@);
        }
    }
    mag_lt(&x.limbs, &y.limbs)
}

/// Sorts the coins ascending by value: selection of the least remaining
/// value, so the result is sorted and holds the same values.
fn sort_coins(input: Vec<Big>) -> (r: Vec<Big>)
    requires
        all_wf(input@),
        all_pos(values_of(input@)),
    ensures
        all_wf(r@),
        all_pos(values_of(r@)),
        sorted_vals(values_of(r@)),
        values_of(r@).to_multiset() == values_of(input@).to_multiset(),
        r@.len() == input@.len(),
{
    let ghost orig = values_of(input@);
    let mut src = input;
    let mut out: Vec<Big> = Vec::new();
    while src.len() > 0
        invariant
            all_wf(src@),
            all_wf(out@),
            all_pos(values_of(src@)),
            all_pos(values_of(out@)),
            sorted_vals(values_of(out@)),
            forall|p: int, q: int|
                #![trigger values_of(out@)[p], values_of(src@)[q]]
                0 <= p < out@.len() && 0 <= q < src@.len() ==> values_of(out@)[p] <= values_of(
                    src@,
                )[q],
            values_of(out@).to_multiset().add(values_of(src@).to_multiset())
                == orig.to_multiset(),
            out@.len() + src@.len() == orig.len(),
        decreases src@.len(),
    {
        let m = src.len();
        let mut mi: usize = 0;
        let mut k: usize = 1;
        while k < m
            invariant
                m == src@.len(),
                m >= 1,
                mi < m,
                k <= m,
                all_wf(src@),
                all_pos(values_of(src@)),
                forall|kk: int|
                    0 <= kk < k ==> values_of(src@)[mi as int] <= #[trigger] values_of(src@)[kk],
            decreases m - k,
        {
            proof {
                assert(values_of(src@)[k as int] == src@[k as int].value());
                assert(values_of(src@)[mi as int] == src@[mi as int].value());
            }
            if big_lt(&src[k], &src[mi]) {
                mi = k;
            }
            k += 1;
        }
        let ghost src_before = src@;
        let ghost out_before = out@;
        let x = src.remove(mi);
        let ghost xv = x.value();
        proof {
            assert(src@ == src_before.remove(mi as int));
            lemma_values_remove(src_before, mi as int);
            assert(values_of(src@) =~= values_of(src_before).remove(mi as int));
            assert(values_of(src_before)[mi as int] == xv);
            assert(values_of(src_before).to_multiset().contains(xv));
        }
        out.push(x);
        proof {
            assert(values_of(out@) =~= values_of(out_before).push(xv));
            assert(values_of(out@).to_multiset() =~= values_of(out_before).to_multiset().insert(
                xv,
            ));
            assert(values_of(src@).to_multiset() =~= values_of(src_before).to_multiset().remove(
                xv,
            ));
            assert(values_of(out@).to_multiset().add(values_of(src@).to_multiset())
                =~= values_of(out_before).to_multiset().add(
                values_of(src_before).to_multiset(),
            ));
            assert forall|p: int, q: int|
                #![trigger values_of(out@)[p], values_of(src@)[q]]
                0 <= p < out@.len() && 0 <= q < src@.len() implies values_of(out@)[p]
                <= values_of(src@)[q] by {
                let sv = values_of(src@)[q];
                if q < mi {
                    assert(sv == values_of(src_before)[q]);
                } else {
                    assert(sv == values_of(src_before)[q + 1]);
                }
                if p < out_before.len() {
                    assert(values_of(out@)[p] == values_of(out_before)[p]);
                } else {
                    assert(values_of(out@)[p] == xv);
                }
            }
            assert forall|p: int, q: int|
                #![trigger values_of(out@)[p], values_of(out@)[q]]
                0 <= p <= q < out@.len() implies values_of(out@)[p] <= values_of(out@)[q] by {
                if q < out_before.len() {
                    assert(values_of(out@)[p] == values_of(out_before)[p]);
                    assert(values_of(out@)[q] == values_of(out_before)[q]);
                } else if p < out_before.len() {
                    assert(values_of(out@)[p] == values_of(out_before)[p]);
                    assert(values_of(out_before)[p] <= values_of(src_before)[mi as int]);
                }
            }
        }
    }
    proof {
        assert(values_of(src@).to_multiset() =~= Seq::<int>::empty().to_multiset());
        assert(values_of(out@).to_multiset() =~= orig.to_multiset());
    }
    out
}

/// The two-value closed form: for coprime positive `a` and `b` the result
/// is exactly `a*b - a - b`; otherwise the pair's gcd is reported.
pub fn case_n2(a: &Big, b: &Big) -> (result: Result<Big, FrobeniusError>)
    requires
        a.wf(),
        b.wf(),
        a.value() > 0,
        b.value() > 0,
    ensures
        ({
            let g = gcd_nat(abs_int(a.value()), abs_int(b.value()));
            &&& g != 1 ==> (result matches Err(e) && e matches FrobeniusError::NonCoprime(gb)
                && gb.wf() && gb.value() == g)
            &&& g == 1 ==> (result matches Ok(f) && f.wf() && f.value() == a.value() * b.value()
                - a.value() - b.value())
        }),
{
    proof {
        if a.negative {
            crate::bignum::lemma_canonical_pos(a.limbs@);
        }
        if b.negative {
            crate::bignum::lemma_canonical_pos(b.limbs@);
        }
        assert(limbs_value(a.limbs@) == abs_int(a.value()));
        assert(limbs_value(b.limbs@) == abs_int(b.value()));
    }
    let g_limbs = crate::bignum::mag_gcd(&a.limbs, &b.limbs);
    let g = Big { negative: false, limbs: g_limbs };
    if !big_is_one(&g) {
        return Err(FrobeniusError::NonCoprime(g));
    }
    let m = mag_mul(&a.limbs, &b.limbs);
    let s = mag_add(&a.limbs, &b.limbs);
    if mag_lt(&m, &s) {
        let limbs = mag_sub(&s, &m);
        proof {
            crate::bignum::lemma_canonical_pos(limbs@);
        }
        Ok(Big { negative: true, limbs })
    } else {
        let limbs = mag_sub(&m, &s);
        Ok(Big { negative: false, limbs })
    }
}

/// The solver: a verbosity flag, a clamped worker count, and the result
/// cache, which maps each normalized coin list it has solved to its
/// Frobenius number.
pub struct FrobeniusSolver {
    pub verbose: bool,
    pub thread_count: usize,
    pub cache: Vec<(Vec<Big>, Big)>,
}

impl FrobeniusSolver {
    /// The cached keys, as value sequences.
    pub open spec fn cache_keys(self) -> Seq<Seq<int>> {
        self.cache@.map_values(|e: (Vec<Big>, Big)| values_of(e.0@))
    }

    /// True iff `k` has a cached result.
    pub open spec fn cache_has(self, k: Seq<int>) -> bool {
        exists|i: int| 0 <= i < self.cache@.len() && #[trigger] self.cache_keys()[i] == k
    }

    /// The cached result for `k`.
    pub open spec fn cache_at(self, k: Seq<int>) -> int {
        let i = choose|i: int| 0 <= i < self.cache@.len() && #[trigger] self.cache_keys()[i] == k;
        self.cache@[i].1.value()
    }

    /// The structural invariant: a sane thread count; every cached key a
    /// well-formed normalized list, every key unique, and every cached
    /// value correct for its key.
    pub open spec fn wf(self) -> bool {
        &&& 1 <= self.thread_count <= 8
        &&& forall|i: int|
            0 <= i < self.cache@.len() ==> {
                let e = #[trigger] self.cache@[i];
                &&& all_wf(e.0@)
                &&& all_pos(values_of(e.0@))
                &&& sorted_vals(values_of(e.0@))
                &&& values_of(e.0@).len() >= 1
                &&& e.1.wf()
                &&& entry_ok(values_of(e.0@), e.1.value())
            }
        &&& forall|i: int, j: int|
            0 <= i < j < self.cache@.len() ==> #[trigger] self.cache_keys()[i]
                != #[trigger] self.cache_keys()[j]
    }
}


/// True iff the two values are equal.
fn big_eq(x: &Big, y: &Big) -> (r: bool)
    requires
        x.wf(),
        y.wf(),
    ensures
        r == (x.value() == y.value()),
{
    proof {
        if x.negative {
            crate::bignum::lemma_canonical_pos(x.limbs@);
        }
        if y.negative {
            crate::bignum::lemma_canonical_pos(y.limbs@);
        }
    }
    x.negative == y.negative && !mag_lt(&x.limbs, &y.limbs) && !mag_lt(&y.limbs, &x.limbs)
}

/// True iff the two coin lists hold the same values in the same order.
fn keys_equal(a: &Vec<Big>, b: &Vec<Big>) -> (r: bool)
    requires
        all_wf(a@),
        all_wf(b@),
    ensures
        r == (values_of(a@) == values_of(b@)),
{
    if a.len() != b.len() {
        proof {
            assert(values_of(a@).len() != values_of(b@).len());
        }
        return false;
    }
    let n = a.len();
    let mut i: usize = 0;
    while i < n
        invariant
            i <= n,
            n == a@.len(),
            n == b@.len(),
            all_wf(a@),
            all_wf(b@),
            forall|k: int| 0 <= k < i ==> #[trigger] values_of(a@)[k] == values_of(b@)[k],
        decreases n - i,
    {
        proof {
            assert(values_of(a@)[i as int] == a@[i as int].value());
            assert(values_of(b@)[i as int] == b@[i as int].value());
        }
        if !big_eq(&a[i], &b[i]) {
            proof {
                assert(values_of(a@)[i as int] != values_of(b@)[i as int]);
            }
            return false;
        }
        i += 1;
    }
    proof {
        assert(values_of(a@) =~= values_of(b@));
    }
    true
}

/// Where a key sits in the cache, the lookup reads that entry's value.
proof fn lemma_cache_at(s: FrobeniusSolver, k: Seq<int>, i: int)
    requires
        s.wf(),
        0 <= i < s.cache@.len(),
        s.cache_keys()[i] == k,
    ensures
        s.cache_has(k),
        s.cache_at(k) == s.cache@[i].1.value(),
{
    assert(s.cache_has(k));
    let j = choose|j: int| 0 <= j < s.cache@.len() && #[trigger] s.cache_keys()[j] == k;
    if i < j {
        assert(s.cache_keys()[i] != s.cache_keys()[j]);
    } else if j < i {
        assert(s.cache_keys()[j] != s.cache_keys()[i]);
    }
}

impl FrobeniusSolver {
    /// A solver with the given verbosity and the machine's CPU count,
    /// clamped to the supported range, as its worker count.
    pub fn new(verbose: bool) -> (s: FrobeniusSolver)
        ensures
            s.wf(),
            s.verbose == verbose,
            s.cache@.len() == 0,
    {
        let threads = crate::clamp_threads(available_cpus());
        FrobeniusSolver { verbose, thread_count: threads, cache: Vec::new() }
    }

    /// A solver with an explicit worker count, clamped to the supported
    /// range.
    pub fn with_threads(verbose: bool, threads: usize) -> (s: FrobeniusSolver)
        ensures
            s.wf(),
            s.verbose == verbose,
            s.cache@.len() == 0,
            s.thread_count == if threads < 1 {
                1usize
            } else if threads > 8 {
                8usize
            } else {
                threads
            },
    {
        let t = crate::clamp_threads(threads);
        FrobeniusSolver { verbose, thread_count: t, cache: Vec::new() }
    }

    /// The cached value for this key, if one is stored.
    fn cache_get(&self, key: &Vec<Big>) -> (r: Option<Big>)
        requires
            self.wf(),
            all_wf(key@),
        ensures
            match r {
                Some(v) => v.wf() && self.cache_has(values_of(key@)) && v.value() == self.cache_at(
                    values_of(key@),
                ),
                None => !self.cache_has(values_of(key@)),
            },
    {
        let ghost kv = values_of(key@);
        let n = self.cache.len();
        let mut i: usize = 0;
        while i < n
            invariant
                i <= n,
                n == self.cache@.len(),
                self.wf(),
                all_wf(key@),
                kv == values_of(key@),
                forall|j: int| 0 <= j < i ==> #[trigger] self.cache_keys()[j] != kv,
            decreases n - i,
        {
            proof {
                assert(self.cache_keys()[i as int] == values_of(self.cache@[i as int].0@));
            }
            if keys_equal(&self.cache[i].0, key) {
                let v = self.cache[i].1.duplicate();
                proof {
                    lemma_cache_at(*self, kv, i as int);
                }
                return Some(v);
            }
            i += 1;
        }
        proof {
            assert forall|j: int| 0 <= j < self.cache@.len() implies #[trigger] self.cache_keys()[j]
                != kv by {}
        }
        None
    }

    /// Stores a result for a key that is not yet cached.
    fn cache_insert(&mut self, key: Vec<Big>, value: Big)
        requires
            old(self).wf(),
            all_wf(key@),
            all_pos(values_of(key@)),
            sorted_vals(values_of(key@)),
            values_of(key@).len() >= 1,
            value.wf(),
            entry_ok(values_of(key@), value.value()),
            !old(self).cache_has(values_of(key@)),
        ensures
            final(self).wf(),
            final(self).verbose == old(self).verbose,
            final(self).thread_count == old(self).thread_count,
            final(self).cache@.len() == old(self).cache@.len() + 1,
            final(self).cache_has(values_of(key@)),
            final(self).cache_at(values_of(key@)) == value.value(),
            forall|k: Seq<int>|
                #[trigger] old(self).cache_has(k) ==> final(self).cache_has(k)
                    && final(self).cache_at(k) == old(self).cache_at(k),
    {
        let ghost kv = values_of(key@);
        let ghost old_keys = old(self).cache_keys();
        let ghost old_len = old(self).cache@.len() as int;
        self.cache.push((key, value));
        proof {
            assert(self.cache@ == old(self).cache@.push((key, value)));
            assert(self.cache_keys() =~= old_keys.push(kv));
            assert forall|j: int| 0 <= j < old_len implies #[trigger] old_keys[j] != kv by {
                if old_keys[j] == kv {
                    assert(old(self).cache_has(kv));
                }
            }
            assert(self.wf()) by {
                assert forall|i: int, j: int|
                    0 <= i < j < self.cache@.len() implies #[trigger] self.cache_keys()[i]
                    != #[trigger] self.cache_keys()[j] by {
                    if j < old_len {
                        assert(old_keys[i] != old_keys[j]);
                    } else {
                        assert(self.cache_keys()[j] == kv);
                        assert(old_keys[i] != kv);
                    }
                }
            }
            lemma_cache_at(*self, kv, old_len);
            assert forall|k: Seq<int>| #[trigger] old(self).cache_has(k) implies self.cache_has(k)
                && self.cache_at(k) == old(self).cache_at(k) by {
                let j = choose|j: int| 0 <= j < old_len && #[trigger] old_keys[j] == k;
                assert(self.cache_keys()[j] == k);
                lemma_cache_at(*self, k, j);
                lemma_cache_at(*old(self), k, j);
            }
        }
    }
}

/// Relies on num_cpus::get: the number of available CPUs of the system,
/// always at least 1.
#[verifier::external_body]
fn available_cpus() -> (r: usize)
    ensures
        r >= 1,
{
    num_cpus::get()
}


impl FrobeniusSolver {
    /// Computes the Frobenius number of the positive entries of `coins`:
    /// normalizes, answers from the cache when it can, uses the closed
    /// forms for one and two coins, the round-robin solver for up to four,
    /// and the sieve with round-robin fallback beyond that; a fresh result
    /// is cached before it is returned.
    pub fn solve(&mut self, coins: Vec<Big>) -> (result: Result<Big, FrobeniusError>)
        requires
            old(self).wf(),
            all_wf(coins@),
        ensures
            final(self).wf(),
            final(self).verbose == old(self).verbose,
            final(self).thread_count == old(self).thread_count,
            ({
                let input = values_of(coins@);
                &&& ((result == Err::<Big, FrobeniusError>(FrobeniusError::EmptyInput)) <==> input.filter(
                    pos_filter(),
                ).len() == 0)
                &&& (result matches Ok(f) ==> f.wf() && f.value() >= -1 && exists|norm: Seq<int>|
                    #[trigger] is_norm_of(input, norm) && entry_ok(norm, f.value())
                        && final(self).cache_has(norm) && final(self).cache_at(norm) == f.value())
                &&& (forall|norm: Seq<int>|
                    #[trigger] is_norm_of(input, norm) && old(self).cache_has(norm)
                        ==> (result matches Ok(f) && f.value() == old(self).cache_at(norm)
                        && final(self).cache@ == old(self).cache@))
                &&& (result is Err ==> final(self).cache@ == old(self).cache@)
                &&& (forall|k: Seq<int>|
                    #[trigger] old(self).cache_has(k) ==> final(self).cache_has(k)
                        && final(self).cache_at(k) == old(self).cache_at(k))
                &&& (forall|norm: Seq<int>|
                    #[trigger] is_norm_of(input, norm) && !old(self).cache_has(norm) && norm.len()
                        >= 2 && gcd_seq(norm) != 1 ==> (result matches Err(e) && e matches
                        FrobeniusError::NonCoprime(g) && g.wf() && g.value() == gcd_seq(norm)))
                &&& (forall|norm: Seq<int>|
                    #[trigger] is_norm_of(input, norm) && !old(self).cache_has(norm) && (norm.len()
                        == 1 || (norm.len() == 2 && gcd_seq(norm) == 1)) ==> result is Ok)
                &&& (forall|norm: Seq<int>|
                    #[trigger] is_norm_of(input, norm) && !old(self).cache_has(norm) && norm.len()
                        >= 3 && gcd_seq(norm) == 1 ==> (((result == Err::<Big, FrobeniusError>(
                        FrobeniusError::ValueTooLarge,
                    )) <==> rr_coin_too_large(norm)) && (!rr_coin_too_large(norm) ==> (result is Ok
                        || result == Err::<Big, FrobeniusError>(FrobeniusError::Unresolved)))))
                &&& (forall|norm: Seq<int>|
                    #[trigger] is_norm_of(input, norm) && !old(self).cache_has(norm) && norm.len()
                        >= 3 && gcd_seq(norm) == 1 && !rr_coin_too_large(norm)
                        && relaxes_within_cap(norm) ==> result is Ok)
                &&& (result is Ok ==> final(self).cache@.len() <= old(self).cache@.len() + 1)
            }),
    {
        let ghost input = values_of(coins@);
        let filtered = filter_positive(&coins);
        if filtered.len() == 0 {
            proof {
                let pf = input.filter(pos_filter());
                assert(values_of(filtered@).len() == 0);
                assert(pf.len() == 0);
                assert forall|norm: Seq<int>| #[trigger] is_norm_of(input, norm) implies !old(
                    self,
                ).cache_has(norm) && norm.len() == 0 by {
                    assert(norm.to_multiset().len() == pf.to_multiset().len());
                    assert(norm.len() == 0);
                    if old(self).cache_has(norm) {
                        let i = choose|i: int|
                            0 <= i < old(self).cache@.len() && #[trigger] old(
                                self,
                            ).cache_keys()[i] == norm;
                        assert(values_of(old(self).cache@[i].0@).len() >= 1);
                    }
                }
            }
            return Err(FrobeniusError::EmptyInput);
        }
        let norm = sort_coins(filtered);
        let ghost nv = values_of(norm@);
        proof {
            assert(values_of(filtered@).len() > 0);
            assert(is_norm_of(input, nv));
            assert forall|nn: Seq<int>| #[trigger] is_norm_of(input, nn) implies nn == nv by {
                lemma_norm_unique(input, input, nn, nv);
            }
            assert(nv.len() == values_of(filtered@).len() >= 1) by {
                assert(nv.to_multiset().len() == values_of(filtered@).to_multiset().len());
            }
        }
        match self.cache_get(&norm) {
            Some(v) => {
                proof {
                    assert(entry_ok(nv, v.value()));
                    lemma_entry_min(nv, v.value());
                }
                return Ok(v);
            },
            None => {},
        }
        let result: Big;
        if norm.len() == 1 {
            let one_coin = big_is_one(&norm[0]);
            proof {
                assert(norm@[0].value() == nv[0]);
            }
            if one_coin {
                result = big_neg_one();
            } else {
                let mut one: Vec<u32> = Vec::new();
                one.push(1);
                proof {
                    assert(one@ =~= seq![1u32]);
                    assert(seq![1u32].drop_first() =~= Seq::<u32>::empty());
                    assert(limbs_value(seq![1u32]) == 1u32 as nat + 0x1_0000_0000 * limbs_value(
                        seq![1u32].drop_first(),
                    ));
                    assert(limbs_value(one@) == 1);
                    assert(!norm@[0].negative);
                    assert(limbs_value(norm@[0].limbs@) == nv[0]);
                }
                let limbs = mag_sub(&norm[0].limbs, &one);
                result = Big { negative: false, limbs };
            }
        } else if norm.len() == 2 {
            proof {
                lemma_gcd_pair(nv);
                assert(norm@[0].value() == nv[0] && norm@[1].value() == nv[1]);
            }
            match case_n2(&norm[0], &norm[1]) {
                Ok(v) => {
                    result = v;
                },
                Err(e) => {
                    return Err(e);
                },
            }
        } else {
            let g = gcd_of_vec(&norm);
            if !big_is_one(&g) {
                return Err(FrobeniusError::NonCoprime(g));
            }
            if norm.len() <= 4 {
                match round_robin(&norm) {
                    Ok(v) => {
                        result = v;
                    },
                    Err(e) => {
                        return Err(e);
                    },
                }
            } else {
                let mut use_dp = false;
                match mag_to_u64(&norm[norm.len() - 1].limbs) {
                    Some(v) => {
                        if v < 1_000_000 {
                            use_dp = true;
                        }
                    },
                    None => {},
                }
                let mut dp_res: Option<Big> = None;
                if use_dp {
                    proof {
                        assert(!norm@[nv.len() - 1].negative);
                        assert(nv[nv.len() - 1] < 1_000_000);
                    }
                    match dp_frobenius(&norm) {
                        Ok(v) => {
                            dp_res = Some(v);
                        },
                        Err(_) => {},
                    }
                }
                match dp_res {
                    Some(v) => {
                        proof {
                            assert forall|k: int| 0 <= k < nv.len() implies #[trigger] nv[k]
                                < 1_000_000 by {
                                assert(nv[k] <= nv[nv.len() - 1]);
                            }
                            assert(!crate::roundrobin::rr_coin_too_large(nv));
                        }
                        result = v;
                    },
                    None => {
                        match round_robin(&norm) {
                            Ok(v) => {
                                result = v;
                            },
                            Err(e) => {
                                return Err(e);
                            },
                        }
                    },
                }
            }
        }
        proof {
            assert(entry_ok(nv, result.value()));
            lemma_entry_min(nv, result.value());
        }
        let dup = result.duplicate();
        self.cache_insert(norm, dup);
        Ok(result)
    }

    /// Runs the round-robin solver and, where it applies, the sieve (or the
    /// two-coin closed form in its place) on the same normalized input, and
    /// returns both results; the second is `None` when the sieve declined.
    /// Where both results are exact, they agree.
    pub fn benchmark(&mut self, coins: Vec<Big>) -> (result: Result<
        (Big, Option<Big>),
        FrobeniusError,
    >)
        requires
            old(self).wf(),
            all_wf(coins@),
        ensures
            *final(self) == *old(self),
            ({
                let input = values_of(coins@);
                &&& ((result == Err::<(Big, Option<Big>), FrobeniusError>(
                    FrobeniusError::EmptyInput,
                )) <==> input.filter(pos_filter()).len() == 0)
                &&& (result matches Ok(p) ==> exists|norm: Seq<int>|
                    #[trigger] is_norm_of(input, norm) && p.0.wf() && is_frobenius(
                        norm,
                        p.0.value(),
                    ) && (p.1 is Some <==> (norm.len() == 2 || (norm.len() >= 3
                        && !some_coin_over_u64(norm) && 0 <= dp_bound(norm) <= DP_MAX_BOUND))) && (
                    p.1 matches Some(d) ==> d.wf() && (if norm.len() == 2 {
                        d.value() == norm[0] * norm[1] - norm[0] - norm[1]
                    } else {
                        frob_within(norm, d.value(), dp_bound(norm)) && (p.0.value() <= dp_bound(
                            norm,
                        ) ==> d.value() == p.0.value())
                    })))
                &&& (forall|norm: Seq<int>|
                    #[trigger] is_norm_of(input, norm) && norm.len() >= 1 ==> {
                        &&& (gcd_seq(norm) != 1 ==> (result matches Err(e) && e matches
                            FrobeniusError::NonCoprime(g) && g.wf() && g.value() == gcd_seq(norm)))
                        &&& (gcd_seq(norm) == 1 ==> ((result == Err::<
                            (Big, Option<Big>),
                            FrobeniusError,
                        >(FrobeniusError::ValueTooLarge)) <==> rr_coin_too_large(norm)))
                        &&& (gcd_seq(norm) == 1 && !rr_coin_too_large(norm) ==> (result is Ok
                            || result == Err::<(Big, Option<Big>), FrobeniusError>(
                            FrobeniusError::Unresolved,
                        )))
                        &&& (gcd_seq(norm) == 1 && !rr_coin_too_large(norm) && relaxes_within_cap(
                            norm,
                        ) ==> result is Ok)
                    })
            }),
    {
        let ghost input = values_of(coins@);
        let filtered = filter_positive(&coins);
        if filtered.len() == 0 {
            proof {
                let pf = input.filter(pos_filter());
                assert(values_of(filtered@).len() == 0);
                assert(pf.len() == 0);
                assert forall|norm: Seq<int>| #[trigger] is_norm_of(input, norm) implies norm.len()
                    == 0 by {
                    assert(norm.to_multiset().len() == pf.to_multiset().len());
                }
            }
            return Err(FrobeniusError::EmptyInput);
        }
        let norm = sort_coins(filtered);
        let ghost nv = values_of(norm@);
        proof {
            assert(values_of(filtered@).len() > 0);
            assert(is_norm_of(input, nv));
            assert forall|nn: Seq<int>| #[trigger] is_norm_of(input, nn) implies nn == nv by {
                lemma_norm_unique(input, input, nn, nv);
            }
            assert(nv.len() == values_of(filtered@).len() >= 1) by {
                assert(nv.to_multiset().len() == values_of(filtered@).to_multiset().len());
            }
        }
        let rr = match round_robin(&norm) {
            Ok(v) => v,
            Err(e) => {
                return Err(e);
            },
        };
        let mut dp_res: Option<Big> = None;
        if norm.len() == 2 {
            proof {
                lemma_gcd_pair(nv);
                assert(norm@[0].value() == nv[0] && norm@[1].value() == nv[1]);
            }
            match case_n2(&norm[0], &norm[1]) {
                Ok(v) => {
                    dp_res = Some(v);
                },
                Err(_) => {
                    proof {
                        assert(false);
                    }
                },
            }
        } else if norm.len() >= 3 {
            match dp_frobenius(&norm) {
                Ok(v) => {
                    dp_res = Some(v);
                },
                Err(_) => {},
            }
        }
        proof {
            if dp_res is Some && nv.len() >= 3 && rr.value() <= dp_bound(nv) {
                let d = dp_res->Some_0;
                crate::represent::lemma_cross_agreement(nv, rr.value(), d.value(), dp_bound(nv));
            }
        }
        Ok((rr, dp_res))
    }

    /// Solves the classic sample sets and compares each against its
    /// traditional expected value. The table's last entry expects 96 of the
    /// five consecutive odd coins, but 96 is a sum of them (four 15s, a 17
    /// and a 19), so by the meaning of a correct entry that comparison must
    /// fail, and the check reports failure.
    pub fn test_known_cases(&mut self) -> (all_passed: bool)
        requires
            old(self).wf(),
        ensures
            final(self).wf(),
            all_passed == false,
    {
        let mut all_passed = true;
        let mut c1: Vec<Big> = Vec::new();
        c1.push(Big::from_i64(3));
        c1.push(Big::from_i64(5));
        all_passed = all_passed && self.check_case(c1, 7);
        let mut c2: Vec<Big> = Vec::new();
        c2.push(Big::from_i64(3));
        c2.push(Big::from_i64(5));
        c2.push(Big::from_i64(7));
        all_passed = all_passed && self.check_case(c2, 4);
        let mut c3: Vec<Big> = Vec::new();
        c3.push(Big::from_i64(6));
        c3.push(Big::from_i64(9));
        c3.push(Big::from_i64(20));
        all_passed = all_passed && self.check_case(c3, 43);
        let mut c4: Vec<Big> = Vec::new();
        c4.push(Big::from_i64(11));
        c4.push(Big::from_i64(13));
        c4.push(Big::from_i64(15));
        c4.push(Big::from_i64(17));
        c4.push(Big::from_i64(19));
        let ghost i4 = values_of(c4@);
        let odd_case = self.check_case(c4, 96);
        proof {
            lemma_odd_sample_entry_wrong(i4);
        }
        all_passed = all_passed && odd_case;
        all_passed
    }

    /// Solves one set and compares the result with its expected value: it
    /// passes only if the expected value is correct for the set.
    fn check_case(&mut self, coins: Vec<Big>, expected: i64) -> (passed: bool)
        requires
            old(self).wf(),
            all_wf(coins@),
        ensures
            final(self).wf(),
            passed ==> exists|norm: Seq<int>|
                #[trigger] is_norm_of(values_of(coins@), norm) && entry_ok(norm, expected as int),
    {
        match self.solve(coins) {
            Ok(v) => big_eq(&v, &Big::from_i64(expected)),
            Err(_) => false,
        }
    }
}

/// The five consecutive odd sample coins: 96 is a sum of them, so no
/// correct entry for that set can be 96.
proof fn lemma_odd_sample_entry_wrong(i4: Seq<int>)
    requires
        i4 =~= seq![11int, 13int, 15int, 17int, 19int],
    ensures
        !(exists|norm: Seq<int>| #[trigger] is_norm_of(i4, norm) && entry_ok(norm, 96)),
{
    let p = pos_filter();
    let s0 = Seq::<int>::empty();
    let s1 = seq![11int];
    let s2 = seq![11int, 13int];
    let s3 = seq![11int, 13int, 15int];
    let s4 = seq![11int, 13int, 15int, 17int];
    let s5 = seq![11int, 13int, 15int, 17int, 19int];
    reveal(Seq::filter);
    assert(s1.drop_last() =~= s0);
    assert(s2.drop_last() =~= s1);
    assert(s3.drop_last() =~= s2);
    assert(s4.drop_last() =~= s3);
    assert(s5.drop_last() =~= s4);
    assert(p(11int) && p(13int) && p(15int) && p(17int) && p(19int));
    assert(s0.filter(p) =~= s0);
    assert(s1.filter(p) =~= s1);
    assert(s2.filter(p) =~= s2);
    assert(s3.filter(p) =~= s3);
    assert(s4.filter(p) =~= s4);
    assert(s5.filter(p) =~= s5);
    assert(is_norm_of(i4, s5));
    assert(rep(s5, 15)) by {
        assert(0 <= 2 < s5.len() && 0 < s5[2] <= 15 && rep(s5, 0));
    }
    assert(rep(s5, 30)) by {
        assert(0 <= 2 < s5.len() && 0 < s5[2] <= 30 && rep(s5, 15));
    }
    assert(rep(s5, 45)) by {
        assert(0 <= 2 < s5.len() && 0 < s5[2] <= 45 && rep(s5, 30));
    }
    assert(rep(s5, 60)) by {
        assert(0 <= 2 < s5.len() && 0 < s5[2] <= 60 && rep(s5, 45));
    }
    assert(rep(s5, 77)) by {
        assert(0 <= 3 < s5.len() && 0 < s5[3] <= 77 && rep(s5, 60));
    }
    assert(rep(s5, 96)) by {
        assert(0 <= 4 < s5.len() && 0 < s5[4] <= 96 && rep(s5, 77));
    }
    assert forall|norm: Seq<int>| #[trigger] is_norm_of(i4, norm) implies !entry_ok(norm, 96) by {
        lemma_norm_unique(i4, i4, norm, s5);
        assert(norm == s5);
        assert(!is_frobenius(s5, 96) && !frob_within(s5, 96, dp_bound(s5)));
    }
}

/// Every correct entry value is at least -1.
proof fn lemma_entry_min(k: Seq<int>, f: int)
    requires
        k.len() >= 1,
        all_pos(k),
        entry_ok(k, f),
    ensures
        f >= -1,
{
    if k.len() == 2 {
        assert(k[0] >= 1 && k[1] >= 1);
        assert(k[0] * k[1] - k[0] - k[1] >= -1) by (nonlinear_arith)
            requires
                k[0] >= 1,
                k[1] >= 1,
        ;
    }
}

/// For a two-entry list the folded gcd is the gcd of the pair.
proof fn lemma_gcd_pair(k: Seq<int>)
    requires
        k.len() == 2,
        all_pos(k),
    ensures
        gcd_seq(k) == gcd_nat(abs_int(k[0]), abs_int(k[1])),
{
    let one = k.subrange(0, 1);
    assert(k.drop_last() =~= one);
    assert(one.drop_last() =~= Seq::<int>::empty());
    let v0 = abs_int(k[0]);
    assert(v0 > 0);
    assert(0nat % v0 == 0) by (nonlinear_arith)
        requires
            v0 > 0,
    ;
    assert(gcd_nat(0, v0) == gcd_nat(v0, 0nat % v0));
    assert(gcd_nat(v0, 0) == v0);
    assert(gcd_seq(one) == gcd_nat(gcd_seq(one.drop_last()), abs_int(one.last())));
    assert(gcd_seq(one) == v0);
    assert(gcd_seq(k) == gcd_nat(gcd_seq(one), abs_int(k[1])));
}

} // verus!
