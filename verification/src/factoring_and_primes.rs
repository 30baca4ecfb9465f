//! Prime factorization of 32-bit magnitudes.

use vstd::prelude::*;
use crate::error::InvalidInput;
use crate::primes::{
    all_prime, factor_list, is_factor_list, is_prime, is_prime_factorization,
    lemma_factor_list_unique, lemma_product_bounds, product,
};

verus! {

/// The elements of `s` as mathematical integers.
pub open spec fn ints_of_u64(s: Seq<u64>) -> Seq<int> {
    s.map_values(|f: u64| f as int)
}

/// The elements of `s` as mathematical integers.
pub open spec fn ints_of_i32(s: Seq<i32>) -> Seq<int> {
    s.map_values(|f: i32| f as int)
}

/// Calls `reikna::factor::quick_factorize`.
///
/// Trusted, not proved: for a value from 1 to 2^31 the call returns the prime
/// factors of the value with multiplicity, sorted ascending (for 1 the empty
/// list). Below 65536 the function divides by the primes of a sieve; from
/// there on it splits the value with Pollard's rho and sorts what it found.
#[verifier::external_body]
fn quick_factorize(value: u64) -> (factors: Vec<u64>)
    requires
        1 <= value <= 0x8000_0000,
    ensures
        is_prime_factorization(ints_of_u64(factors@), value as int),
{
    reikna::factor::quick_factorize(value)
}

/// The factor list of a magnitude between 1 and 2^31, the largest magnitude
/// that a 32-bit coefficient can have.
pub(crate) fn factor_magnitude(magnitude: u32) -> (factors: Vec<i32>)
    requires
        1 <= magnitude <= 0x8000_0000,
    ensures
        is_factor_list(ints_of_i32(factors@), magnitude as int),
        ints_of_i32(factors@) == factor_list(magnitude as int),
{
    if magnitude == 1 {
        let factors: Vec<i32> = vec![1i32];
        proof {
            assert(ints_of_i32(factors@) =~= seq![1int]);
            lemma_factor_list_unique(seq![1int], seq![1int], 1);
        }
        return factors;
    }
    let wide: Vec<u64> = quick_factorize(magnitude as u64);
    let ghost primes: Seq<int> = ints_of_u64(wide@);
    proof {
        assert forall|i: int| 0 <= i < primes.len() implies #[trigger] primes[i] >= 1 by {
            assert(is_prime(primes[i]));
        }
        lemma_product_bounds(primes);
    }
    let mut factors: Vec<i32> = Vec::with_capacity(wide.len());
    let mut i: usize = 0;
    while i < wide.len()
        invariant
            0 <= i <= wide.len(),
            primes == ints_of_u64(wide@),
            all_prime(primes),
            product(primes) == magnitude as int,
            magnitude <= 0x8000_0000,
            forall|k: int| 0 <= k < primes.len() ==> #[trigger] primes[k] <= product(primes),
            factors@.len() == i,
            forall|k: int| 0 <= k < i ==> factors@[k] as int == primes[k],
        decreases wide.len() - i,
    {
        let f: u64 = wide[i];
        proof {
            assert(primes[i as int] == f as int);
            assert(is_prime(primes[i as int]));
            if f == 0x8000_0000u64 {
                assert(0x8000_0000int % 2 == 0);
            }
        }
        factors.push(f as i32);
        i = i + 1;
    }
    proof {
        assert(ints_of_i32(factors@) =~= primes);
        lemma_factor_list_unique(primes, primes, magnitude as int);
    }
    factors
}

/// The prime factors of `*num_to_fac` with multiplicity, in ascending order;
/// for 1 the one-element list `[1]`. Zero and negative numbers are rejected.
pub fn our_factor(num_to_fac: &i32) -> (result: Result<Vec<i32>, InvalidInput>)
    ensures
        result is Err <==> *num_to_fac <= 0,
        result is Err ==> result == Err::<Vec<i32>, InvalidInput>(InvalidInput::NonPositiveMagnitude),
        result matches Ok(factors) ==> {
            &&& is_factor_list(ints_of_i32(factors@), *num_to_fac as int)
            &&& ints_of_i32(factors@) == factor_list(*num_to_fac as int)
        },
{
    if *num_to_fac <= 0 {
        return Err(InvalidInput::NonPositiveMagnitude);
    }
    Ok(factor_magnitude(*num_to_fac as u32))
}

} // verus!
