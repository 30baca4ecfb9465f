//! Exact evaluation of a polynomial at an integer point.

use vstd::prelude::*;
use vstd::arithmetic::power::pow;
use crate::factoring_and_primes::ints_of_i32;
use crate::polynomial_object::PolyEquat;

verus! {

/// The value that Horner's rule gives for the coefficients `coeffs`, highest
/// power first, at the point `x`: starting from 0, each coefficient in turn
/// is added to `x` times what has been accumulated.
pub open spec fn horner(coeffs: Seq<int>, x: int) -> int
    decreases coeffs.len(),
{
    if coeffs.len() == 0 {
        0
    } else {
        coeffs.last() + x * horner(coeffs.drop_last(), x)
    }
}

/// The sum of the first `k` terms of the polynomial at `x`, the term of the
/// coefficient at index `i` being `coeffs[i] * x^(degree - i)`.
pub open spec fn leading_terms(coeffs: Seq<int>, x: int, k: int) -> int
    decreases k,
{
    if k <= 0 {
        0
    } else {
        leading_terms(coeffs, x, k - 1) + coeffs[k - 1] * pow(x, (coeffs.len() - k) as nat)
    }
}

/// The value of the polynomial at `x`, written out as the sum of its terms.
pub open spec fn expansion(coeffs: Seq<int>, x: int) -> int {
    leading_terms(coeffs, x, coeffs.len() as int)
}

/// Every value that Horner's rule accumulates on the way fits in 64 bits.
pub open spec fn horner_fits(coeffs: Seq<int>, x: int) -> bool {
    forall|k: int|
        0 <= k <= coeffs.len() ==> i64::MIN <= #[trigger] horner(coeffs.take(k), x) <= i64::MAX
}

/// Appending a coefficient raises the power of every earlier term by one.
proof fn lemma_leading_terms_shift(coeffs: Seq<int>, x: int, k: int)
    requires
        coeffs.len() > 0,
        0 <= k < coeffs.len(),
    ensures
        leading_terms(coeffs, x, k) == x * leading_terms(coeffs.drop_last(), x, k),
    decreases k,
{
    if k > 0 {
        let front = coeffs.drop_last();
        lemma_leading_terms_shift(coeffs, x, k - 1);
        let e = (front.len() - k) as nat;
        assert((coeffs.len() - k) as nat == e + 1);
        assert(pow(x, e + 1) == x * pow(x, e)) by {
            reveal(pow);
        }
        assert(front[k - 1] == coeffs[k - 1]);
        let a = leading_terms(front, x, k - 1);
        let c = coeffs[k - 1];
        let p = pow(x, e);
        assert(x * a + c * (x * p) == x * (a + c * p)) by (nonlinear_arith);
    }
}

/// Horner's rule computes the value of the polynomial: for all coefficients
/// and every point it agrees with the sum of the terms
/// `coeffs[i] * x^(degree - i)`.
pub proof fn lemma_horner_is_expansion(coeffs: Seq<int>, x: int)
    ensures
        horner(coeffs, x) == expansion(coeffs, x),
    decreases coeffs.len(),
{
    if coeffs.len() > 0 {
        let front = coeffs.drop_last();
        let n = coeffs.len() as int;
        lemma_horner_is_expansion(front, x);
        lemma_leading_terms_shift(coeffs, x, n - 1);
        assert(pow(x, 0) == 1) by {
            reveal(pow);
        }
        assert(coeffs[n - 1] * pow(x, 0) == coeffs.last()) by (nonlinear_arith)
            requires
                pow(x, 0) == 1,
                coeffs[n - 1] == coeffs.last(),
        ;
    }
}

/// A polynomial without coefficients is zero everywhere, and a polynomial's
/// value at 0 is its constant term.
pub proof fn lemma_horner_at_zero(coeffs: Seq<int>)
    ensures
        horner(coeffs, 0) == (if coeffs.len() == 0 {
            0
        } else {
            coeffs.last()
        }),
{
}

impl PolyEquat {
    /// The exact value of the polynomial at the integer `value`, by Horner's
    /// rule in 64-bit arithmetic; `None` when a value accumulated on the way
    /// does not fit in 64 bits.
    pub fn horner_eval_exact(&self, value: i64) -> (result: Option<i64>)
        ensures
            result is Some <==> horner_fits(self@, value as int),
            result matches Some(v) ==> v as int == horner(self@, value as int) && v as int
                == expansion(self@, value as int),
    {
        let ghost coeffs: Seq<int> = self@;
        let ghost x: int = value as int;
        let mut acc: i64 = 0;
        let mut i: usize = 0;
        assert(coeffs.take(0) =~= Seq::<int>::empty());
        while i < self.polynomial_coefficients.len()
            invariant
                0 <= i <= self.polynomial_coefficients.len(),
                coeffs == ints_of_i32(self.polynomial_coefficients@),
                x == value as int,
                acc as int == horner(coeffs.take(i as int), x),
                forall|k: int|
                    0 <= k <= i ==> i64::MIN <= #[trigger] horner(coeffs.take(k), x) <= i64::MAX,
            decreases self.polynomial_coefficients.len() - i,
        {
            let coeff: i32 = self.polynomial_coefficients[i];
            proof {
                let next = coeffs.take(i + 1);
                assert(next.drop_last() =~= coeffs.take(i as int));
                assert(next.last() == coeff as int);
                assert(-0x4000_0000_0000_0000_0000_0000_0000_0000 <= (value as int) * (acc as int)
                    <= 0x4000_0000_0000_0000_0000_0000_0000_0000) by (nonlinear_arith)
                    requires
                        -0x8000_0000_0000_0000 <= value as int <= 0x8000_0000_0000_0000,
                        -0x8000_0000_0000_0000 <= acc as int <= 0x8000_0000_0000_0000,
                ;
            }
            let wide: i128 = coeff as i128 + (value as i128) * (acc as i128);
            assert(wide as int == horner(coeffs.take(i + 1), x));
            if wide < i64::MIN as i128 || wide > i64::MAX as i128 {
                return None;
            }
            acc = wide as i64;
            i = i + 1;
        }
        proof {
            assert(coeffs.take(i as int) =~= coeffs);
            lemma_horner_is_expansion(coeffs, x);
        }
        Some(acc)
    }
}

} // verus!
