//! Arbitrary-precision integers, modelled as a sign and base-2^32 digits.
//! The arithmetic itself is done by the `num_bigint` crate through trusted
//! wrappers whose contracts speak over `limbs_value`.

use vstd::prelude::*;
use num_bigint::BigUint;
use num_integer::Integer;
use num_traits::ToPrimitive;

verus! {

/// The value of base-2^32 digits, least significant first.
pub open spec fn limbs_value(s: Seq<u32>) -> nat
    decreases s.len(),
{
    if s.len() == 0 {
        0
    } else {
        (s[0] + 0x1_0000_0000 * limbs_value(s.drop_first())) as nat
    }
}

/// Digits with no trailing zero: each magnitude has one such form.
pub open spec fn canonical(s: Seq<u32>) -> bool {
    s.len() == 0 || s.last() != 0
}

/// The greatest common divisor, by Euclid's recursion.
pub open spec fn gcd_nat(a: nat, b: nat) -> nat
    decreases b,
{
    if b == 0 {
        a
    } else {
        gcd_nat(b, a % b)
    }
}

/// A non-empty canonical digit string holds a positive value.
pub proof fn lemma_canonical_pos(s: Seq<u32>)
    requires
        canonical(s),
        s.len() > 0,
    ensures
        limbs_value(s) > 0,
    decreases s.len(),
{
    if s.len() == 1 {
        assert(s.last() == s[0]);
    } else {
        assert(s.drop_first().last() == s.last());
        lemma_canonical_pos(s.drop_first());
    }
}

/// The gcd with 1 on the left is 1.
pub proof fn lemma_gcd_one_left(x: nat)
    ensures
        gcd_nat(1, x) == 1,
{
    if x == 0 {
        assert(gcd_nat(1, 0) == 1);
    } else if x == 1 {
        assert(1nat % 1nat == 0) by (nonlinear_arith);
        assert(gcd_nat(1, 1) == gcd_nat(1, 1nat % 1nat));
    } else {
        assert(1nat % x == 1) by (nonlinear_arith)
            requires
                x > 1,
        ;
        assert(x % 1nat == 0) by (nonlinear_arith);
        assert(gcd_nat(1, x) == gcd_nat(x, 1nat % x));
        assert(gcd_nat(x, 1) == gcd_nat(1, x % 1nat));
        assert(gcd_nat(1, 0) == 1);
    }
}

/// The integers that a sequence of `Big` values stands for.
pub open spec fn values_of(s: Seq<Big>) -> Seq<int> {
    s.map_values(|b: Big| b.value())
}

/// Every entry satisfies the structural invariant.
pub open spec fn all_wf(s: Seq<Big>) -> bool {
    forall|i: int| 0 <= i < s.len() ==> (#[trigger] s[i]).wf()
}

/// Every entry is strictly positive.
pub open spec fn all_pos(s: Seq<int>) -> bool {
    forall|i: int| 0 <= i < s.len() ==> #[trigger] s[i] > 0
}

/// The entries never decrease.
pub open spec fn sorted_vals(s: Seq<int>) -> bool {
    forall|i: int, j: int| #![trigger s[i], s[j]] 0 <= i <= j < s.len() ==> s[i] <= s[j]
}

/// A signed arbitrary-precision integer: a sign and canonical magnitude
/// digits. Zero is never negative.
#[derive(Debug, PartialEq, Eq)]
pub struct Big {
    pub negative: bool,
    pub limbs: Vec<u32>,
}

impl Big {
    /// The structural invariant: canonical digits, and no negative zero.
    pub open spec fn wf(self) -> bool {
        canonical(self.limbs@) && (self.negative ==> self.limbs@.len() > 0)
    }

    /// The integer this value stands for.
    pub open spec fn value(self) -> int {
        if self.negative {
            -(limbs_value(self.limbs@) as int)
        } else {
            limbs_value(self.limbs@) as int
        }
    }

    /// Builds the value `v`.
    pub fn from_i64(v: i64) -> (r: Big)
        ensures
            r.wf(),
            r.value() == v,
    {
        let negative = v < 0;
        let mag: u64 = if v == i64::MIN {
            0x8000_0000_0000_0000u64
        } else if v < 0 {
            (-v) as u64
        } else {
            v as u64
        };
        let limbs = limbs_from_u64(mag);
        Big { negative, limbs }
    }

    /// True iff the value is strictly positive.
    pub fn is_positive(&self) -> (r: bool)
        requires
            self.wf(),
        ensures
            r == (self.value() > 0),
    {
        proof {
            if self.limbs@.len() > 0 {
                lemma_canonical_pos(self.limbs@);
            }
        }
        !self.negative && self.limbs.len() > 0
    }

    /// An identical copy.
    pub fn duplicate(&self) -> (r: Big)
        ensures
            r.negative == self.negative,
            r.limbs@ == self.limbs@,
            r.value() == self.value(),
            r.wf() == self.wf(),
    {
        let limbs = copy_limbs(&self.limbs);
        proof {
            assert(limbs@ =~= self.limbs@);
        }
        Big { negative: self.negative, limbs }
    }
}

/// The magnitude of an integer.
pub open spec fn abs_int(v: int) -> nat {
    if v < 0 {
        (-v) as nat
    } else {
        v as nat
    }
}

/// The gcd of the magnitudes, folded left to right; 0 for the empty list.
pub open spec fn gcd_seq(vals: Seq<int>) -> nat
    decreases vals.len(),
{
    if vals.len() == 0 {
        0
    } else {
        gcd_nat(gcd_seq(vals.drop_last()), abs_int(vals.last()))
    }
}

/// Once a prefix of the list reaches gcd 1, the whole list has gcd 1.
pub proof fn lemma_gcd_seq_stays_one(vals: Seq<int>, i: int)
    requires
        0 <= i <= vals.len(),
        gcd_seq(vals.subrange(0, i)) == 1,
    ensures
        gcd_seq(vals.subrange(0, vals.len() as int)) == 1,
    decreases vals.len() - i,
{
    if i == vals.len() {
    } else {
        let pre = vals.subrange(0, i);
        let ext = vals.subrange(0, i + 1);
        assert(ext.drop_last() =~= pre);
        assert(ext.last() == vals[i]);
        lemma_gcd_one_left(abs_int(vals[i]));
        lemma_gcd_seq_stays_one(vals, i + 1);
    }
}

/// A canonical magnitude with value 1 is the single digit 1.
pub proof fn lemma_value_one_canonical(s: Seq<u32>)
    requires
        canonical(s),
        limbs_value(s) == 1,
    ensures
        s =~= seq![1u32],
{
    if s.len() == 0 {
    } else if s.len() == 1 {
        assert(s.drop_first() =~= Seq::<u32>::empty());
        assert(limbs_value(s) == s[0]);
    } else {
        assert(s.drop_first().last() == s.last());
        lemma_canonical_pos(s.drop_first());
        assert(limbs_value(s) >= 0x1_0000_0000);
    }
}

/// The value `v` as a `Big`.
pub(crate) fn big_from_u128(v: u128) -> (r: Big)
    ensures
        r.wf(),
        r.value() == v,
{
    let limbs = mag_from_u128(v);
    Big { negative: false, limbs }
}

/// The value -1 as a `Big`.
pub fn big_neg_one() -> (r: Big)
    ensures
        r.wf(),
        r.value() == -1,
{
    let mut limbs: Vec<u32> = Vec::new();
    limbs.push(1);
    proof {
        assert(limbs@ =~= seq![1u32]);
        assert(seq![1u32].drop_first() =~= Seq::<u32>::empty());
        assert(limbs_value(seq![1u32]) == 1nat + 0x1_0000_0000 * limbs_value(
            seq![1u32].drop_first(),
        ));
    }
    Big { negative: true, limbs }
}

/// True iff the value is exactly 1.
pub fn big_is_one(b: &Big) -> (r: bool)
    requires
        b.wf(),
    ensures
        r == (b.value() == 1),
{
    let r = !b.negative && b.limbs.len() == 1 && b.limbs[0] == 1;
    proof {
        if r {
            assert(b.limbs@ =~= seq![1u32]);
            assert(seq![1u32].drop_first() =~= Seq::<u32>::empty());
            assert(limbs_value(seq![1u32]) == 1u32 as nat + 0x1_0000_0000 * limbs_value(
                seq![1u32].drop_first(),
            ));
            assert(limbs_value(b.limbs@) == 1);
        } else if b.value() == 1 {
            lemma_value_one_canonical(b.limbs@);
        }
    }
    r
}

/// The gcd of a non-empty list of positive values, folded left to right,
/// stopping early once it reaches 1.
pub fn gcd_of_vec(coins: &Vec<Big>) -> (g: Big)
    requires
        coins@.len() >= 1,
        all_wf(coins@),
        all_pos(values_of(coins@)),
    ensures
        g.wf(),
        !g.negative,
        g.value() == gcd_seq(values_of(coins@)),
{
    let ghost vals = values_of(coins@);
    let n = coins.len();
    proof {
        assert(vals[0] == coins@[0].value());
        assert(vals[0] > 0);
    }
    let mut acc = coins[0].duplicate();
    proof {
        let one = vals.subrange(0, 1);
        assert(one.drop_last() =~= Seq::<int>::empty());
        assert(one.last() == vals[0]);
        let v0 = abs_int(vals[0]);
        assert(0nat % v0 == 0) by (nonlinear_arith)
            requires
                v0 > 0,
        ;
        assert(gcd_nat(0, v0) == gcd_nat(v0, 0nat % v0));
        assert(gcd_nat(v0, 0) == v0);
        assert(gcd_seq(Seq::<int>::empty()) == 0);
        assert(gcd_seq(one) == gcd_nat(gcd_seq(one.drop_last()), abs_int(one.last())));
        assert(gcd_seq(one) == v0);
        assert(!acc.negative);
        assert(acc.value() == gcd_seq(vals.subrange(0, 1)));
    }
    let mut i: usize = 1;
    while i < n
        invariant
            1 <= i <= n,
            n == coins@.len(),
            vals == values_of(coins@),
            all_wf(coins@),
            all_pos(vals),
            acc.wf(),
            !acc.negative,
            acc.value() == gcd_seq(vals.subrange(0, i as int)),
        decreases n - i,
    {
        if big_is_one(&acc) {
            proof {
                lemma_gcd_seq_stays_one(vals, i as int);
                assert(vals.subrange(0, vals.len() as int) =~= vals);
            }
            return acc;
        }
        proof {
            assert(vals[i as int] == coins@[i as int].value());
            assert(vals[i as int] > 0);
            assert(!coins@[i as int].negative);
            assert(limbs_value(coins@[i as int].limbs@) == abs_int(vals[i as int]));
        }
        let limbs = mag_gcd(&acc.limbs, &coins[i].limbs);
        proof {
            let ext = vals.subrange(0, i + 1);
            assert(ext.drop_last() =~= vals.subrange(0, i as int));
            assert(ext.last() == vals[i as int]);
            assert(limbs_value(acc.limbs@) == gcd_seq(vals.subrange(0, i as int)));
            assert(limbs_value(limbs@) == gcd_seq(ext));
        }
        acc = Big { negative: false, limbs };
        i += 1;
    }
    proof {
        assert(vals.subrange(0, n as int) =~= vals);
    }
    acc
}

/// An element-by-element copy of a digit vector.
fn copy_limbs(v: &Vec<u32>) -> (r: Vec<u32>)
    ensures
        r@ == v@,
{
    let mut r: Vec<u32> = Vec::new();
    let mut i: usize = 0;
    while i < v.len()
        invariant
            i <= v@.len(),
            r@ == v@.subrange(0, i as int),
        decreases v@.len() - i,
    {
        r.push(v[i]);
        proof {
            assert(r@ =~= v@.subrange(0, i + 1));
        }
        i += 1;
    }
    proof {
        assert(v@.subrange(0, v@.len() as int) =~= v@);
    }
    r
}

/// The canonical digits of a `u64`.
fn limbs_from_u64(v: u64) -> (r: Vec<u32>)
    ensures
        canonical(r@),
        limbs_value(r@) == v,
{
    let lo = (v & 0xffff_ffffu64) as u32;
    let hi = (v >> 32u64) as u32;
    proof {
        assert(v == (v & 0xffff_ffffu64) + 0x1_0000_0000u64 * (v >> 32u64) && (v
            & 0xffff_ffffu64) < 0x1_0000_0000u64 && (v >> 32u64) < 0x1_0000_0000u64 && ((v
            >> 32u64) == 0u64 ==> v == (v & 0xffff_ffffu64))) by (bit_vector);
    }
    let mut r: Vec<u32> = Vec::new();
    proof {
        assert(limbs_value(Seq::<u32>::empty()) == 0);
    }
    if hi != 0 {
        r.push(lo);
        r.push(hi);
        proof {
            assert(r@ =~= seq![lo, hi]);
            assert(seq![lo, hi].drop_first() =~= seq![hi]);
            assert(seq![hi].drop_first() =~= Seq::<u32>::empty());
            assert(limbs_value(seq![hi]) == hi as nat + 0x1_0000_0000 * limbs_value(
                seq![hi].drop_first(),
            ));
            assert(limbs_value(seq![hi]) == hi as nat);
            assert(limbs_value(r@) == lo as nat + 0x1_0000_0000 * limbs_value(seq![hi]));
        }
    } else if lo != 0 {
        r.push(lo);
        proof {
            assert(r@ =~= seq![lo]);
            assert(seq![lo].drop_first() =~= Seq::<u32>::empty());
            assert(limbs_value(r@) == lo as nat + 0x1_0000_0000 * limbs_value(r@.drop_first()));
            assert(limbs_value(r@) == lo as nat);
        }
    }
    r
}

/// Relies on num_bigint: `BigUint::new` reads base-2^32 little-endian
/// digits, `+` is exact addition, and `to_u32_digits` writes the same
/// digits back with no trailing zero.
#[verifier::external_body]
pub(crate) fn mag_add(a: &Vec<u32>, b: &Vec<u32>) -> (r: Vec<u32>)
    ensures
        canonical(r@),
        limbs_value(r@) == limbs_value(a@) + limbs_value(b@),
{
    (BigUint::new(a.clone()) + BigUint::new(b.clone())).to_u32_digits()
}

/// Relies on num_bigint's exact subtraction; the `requires` keeps the
/// difference non-negative, where `BigUint` subtraction would panic.
#[verifier::external_body]
pub(crate) fn mag_sub(a: &Vec<u32>, b: &Vec<u32>) -> (r: Vec<u32>)
    requires
        limbs_value(b@) <= limbs_value(a@),
    ensures
        canonical(r@),
        limbs_value(r@) == limbs_value(a@) - limbs_value(b@),
{
    (BigUint::new(a.clone()) - BigUint::new(b.clone())).to_u32_digits()
}

/// Relies on num_bigint's exact multiplication.
#[verifier::external_body]
pub(crate) fn mag_mul(a: &Vec<u32>, b: &Vec<u32>) -> (r: Vec<u32>)
    ensures
        canonical(r@),
        limbs_value(r@) == limbs_value(a@) * limbs_value(b@),
{
    (BigUint::new(a.clone()) * BigUint::new(b.clone())).to_u32_digits()
}

/// Relies on num_bigint's magnitude ordering.
#[verifier::external_body]
pub(crate) fn mag_lt(a: &Vec<u32>, b: &Vec<u32>) -> (r: bool)
    ensures
        r == (limbs_value(a@) < limbs_value(b@)),
{
    BigUint::new(a.clone()) < BigUint::new(b.clone())
}

/// Relies on num_integer's `gcd` for `BigUint`, which computes the
/// greatest common divisor (Stein's algorithm).
#[verifier::external_body]
pub(crate) fn mag_gcd(a: &Vec<u32>, b: &Vec<u32>) -> (r: Vec<u32>)
    ensures
        canonical(r@),
        limbs_value(r@) == gcd_nat(limbs_value(a@), limbs_value(b@)),
{
    BigUint::new(a.clone()).gcd(&BigUint::new(b.clone())).to_u32_digits()
}

/// Relies on num_traits' `ToPrimitive::to_u64`: `Some` exactly when the
/// value fits in a `u64`.
#[verifier::external_body]
pub(crate) fn mag_to_u64(a: &Vec<u32>) -> (r: Option<u64>)
    ensures
        match r {
            Some(v) => v == limbs_value(a@),
            None => limbs_value(a@) > u64::MAX,
        },
{
    BigUint::new(a.clone()).to_u64()
}

/// Relies on num_bigint's `From<u128>` and `to_u32_digits`.
#[verifier::external_body]
pub(crate) fn mag_from_u128(v: u128) -> (r: Vec<u32>)
    ensures
        canonical(r@),
        limbs_value(r@) == v,
{
    BigUint::from(v).to_u32_digits()
}

} // verus!
