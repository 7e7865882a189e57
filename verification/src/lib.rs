use vstd::prelude::*;

pub mod bignum;
pub mod represent;
pub mod roundrobin;
pub mod solver;
pub mod sieve;
pub mod petri;

verus! {

/// Why a solve attempt was rejected.
#[derive(Debug, PartialEq, Eq)]
pub enum FrobeniusError {
    /// No positive coin remains after filtering the input.
    EmptyInput,
    /// The coins' greatest common divisor is not 1; it is carried here.
    NonCoprime(crate::bignum::Big),
    /// A coin is too large for the fixed-width arithmetic of the chosen
    /// algorithm, or the smallest coin is over the residue-table ceiling.
    ValueTooLarge,
    /// The derived sieve bound is negative or over the hard ceiling.
    BoundExceeded,
    /// The residue relaxation did not settle within its round cap.
    Unresolved,
}

/// Clamps a requested worker-thread count to the supported range.
pub fn clamp_threads(threads: usize) -> (r: usize)
    ensures
        1 <= r <= 8,
        r == if threads < 1 { 1usize } else if threads > 8 { 8usize } else { threads },
{
    if threads < 1 { 1 } else if threads > 8 { 8 } else { threads }
}

} // verus!
