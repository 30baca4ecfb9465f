//! Polynomials with integer coefficients and the candidates for their
//! rational roots.

use vstd::prelude::*;
use crate::error::InvalidInput;
use crate::factoring_and_primes::{factor_magnitude, ints_of_i32};
use crate::primes::{
    factor_list, lemma_factor_list_bounds, lemma_factor_list_exists, non_decreasing,
};

verus! {

/// A polynomial in one variable, given by its coefficients. The first
/// coefficient belongs to the highest power, the last one is the constant
/// term, so the degree is the number of coefficients minus one.
pub struct PolyEquat {
    pub polynomial_coefficients: Vec<i32>,
}

impl View for PolyEquat {
    type V = Seq<int>;

    /// The coefficients as mathematical integers, highest power first.
    open spec fn view(&self) -> Seq<int> {
        ints_of_i32(self.polynomial_coefficients@)
    }
}

/// The absolute value of `c`.
pub open spec fn magnitude(c: int) -> int {
    if c < 0 {
        -c
    } else {
        c
    }
}

/// `s` without every element that equals the element just before it.
pub open spec fn distinct(s: Seq<int>) -> Seq<int>
    decreases s.len(),
{
    if s.len() == 0 {
        s
    } else if s.len() >= 2 && s[s.len() - 2] == s.last() {
        distinct(s.drop_last())
    } else {
        distinct(s.drop_last()).push(s.last())
    }
}

/// Each element of `s` is smaller than the one after it.
pub open spec fn strictly_increasing(s: Seq<int>) -> bool {
    forall|i: int, j: int| 0 <= i < j < s.len() ==> s[i] < s[j]
}

/// The candidates with numerator magnitude `p`: for each denominator of `qs`
/// in turn, first `p` over it, then `-p` over it.
pub open spec fn candidate_row(p: int, qs: Seq<int>) -> Seq<(int, int)>
    decreases qs.len(),
{
    if qs.len() == 0 {
        Seq::empty()
    } else {
        candidate_row(p, qs.drop_last()).push((p, qs.last())).push((-p, qs.last()))
    }
}

/// The rows of all numerator magnitudes of `ps`, one after the other.
pub open spec fn candidate_grid(ps: Seq<int>, qs: Seq<int>) -> Seq<(int, int)>
    decreases ps.len(),
{
    if ps.len() == 0 {
        Seq::empty()
    } else {
        candidate_grid(ps.drop_last(), qs) + candidate_row(ps.last(), qs)
    }
}

/// Why no rational root can be sought for these coefficients, if anything.
pub open spec fn rejection(coeffs: Seq<int>) -> Option<InvalidInput> {
    if coeffs.len() == 0 {
        Some(InvalidInput::EmptyCoefficients)
    } else if coeffs.first() == 0 {
        Some(InvalidInput::ZeroLeadingCoefficient)
    } else if coeffs.last() == 0 {
        Some(InvalidInput::ZeroTrailingCoefficient)
    } else {
        None
    }
}

/// The candidate roots of a polynomial whose first and last coefficients are
/// not zero, as pairs of numerator and denominator. Numerators come from the
/// distinct factors of the constant term, denominators from those of the
/// leading coefficient.
pub open spec fn candidates(coeffs: Seq<int>) -> Seq<(int, int)> {
    candidate_grid(
        distinct(factor_list(magnitude(coeffs.last()))),
        distinct(factor_list(magnitude(coeffs.first()))),
    )
}

/// The candidates whose verdict is `true`, in their order.
pub open spec fn accepted(cands: Seq<(int, int)>, verdicts: Seq<bool>) -> Seq<(int, int)>
    recommends
        cands.len() == verdicts.len(),
    decreases cands.len(),
{
    if cands.len() == 0 || verdicts.len() == 0 {
        Seq::empty()
    } else if verdicts.last() {
        accepted(cands.drop_last(), verdicts.drop_last()).push(cands.last())
    } else {
        accepted(cands.drop_last(), verdicts.drop_last())
    }
}

/// What the search returns for these coefficients and verdicts.
pub open spec fn solve_outcome(coeffs: Seq<int>, verdicts: Seq<bool>) -> Result<
    Seq<(int, int)>,
    InvalidInput,
> {
    match rejection(coeffs) {
        Some(reason) => Err(reason),
        None => if verdicts.len() != candidates(coeffs).len() {
            Err(InvalidInput::VerdictCountMismatch)
        } else {
            Ok(accepted(candidates(coeffs), verdicts))
        },
    }
}

/// The pairs of `s` as pairs of mathematical integers.
pub open spec fn pairs_of(s: Seq<(i32, i32)>) -> Seq<(int, int)> {
    s.map_values(|c: (i32, i32)| (c.0 as int, c.1 as int))
}

/// A result of pairs with the pairs taken as mathematical integers.
pub open spec fn outcome_of(result: Result<Vec<(i32, i32)>, InvalidInput>) -> Result<
    Seq<(int, int)>,
    InvalidInput,
> {
    match result {
        Ok(pairs) => Ok(pairs_of(pairs@)),
        Err(reason) => Err(reason),
    }
}

/// Every element of `distinct(s)` is an element of `s`.
pub proof fn lemma_distinct_within(s: Seq<int>)
    ensures
        forall|i: int|
            0 <= i < distinct(s).len() ==> s.contains(#[trigger] distinct(s)[i]),
    decreases s.len(),
{
    if s.len() > 0 {
        let front = s.drop_last();
        lemma_distinct_within(front);
        assert forall|i: int| 0 <= i < distinct(s).len() implies s.contains(
            #[trigger] distinct(s)[i],
        ) by {
            if i < distinct(front).len() {
                let x = distinct(front)[i];
                assert(front.contains(x));
                let k = choose|k: int| 0 <= k < front.len() && front[k] == x;
                assert(s[k] == x);
            } else {
                assert(s[s.len() - 1] == distinct(s)[i]);
            }
        }
    }
}

/// Removing adjacent repetitions from a non-decreasing list leaves a strictly
/// increasing list with the same elements.
pub proof fn lemma_distinct_of_sorted(s: Seq<int>)
    requires
        non_decreasing(s),
    ensures
        strictly_increasing(distinct(s)),
        forall|x: int| s.contains(x) <==> distinct(s).contains(x),
        s.len() > 0 ==> distinct(s).len() > 0 && distinct(s).last() == s.last(),
    decreases s.len(),
{
    let d = distinct(s);
    if s.len() > 0 {
        let front = s.drop_last();
        let df = distinct(front);
        assert forall|i: int, j: int| 0 <= i <= j < front.len() implies front[i] <= front[j] by {
            assert(front[i] == s[i] && front[j] == s[j]);
        }
        lemma_distinct_of_sorted(front);
        lemma_distinct_within(s);
        if s.len() >= 2 {
            assert(front.last() == s[s.len() - 2]);
            assert(s[s.len() - 2] <= s[s.len() - 1]);
        }
        assert forall|x: int| s.contains(x) implies d.contains(x) by {
            let k = choose|k: int| 0 <= k < s.len() && s[k] == x;
            if k < s.len() - 1 {
                assert(front[k] == x);
                assert(front.contains(x));
                let m = choose|m: int| 0 <= m < df.len() && df[m] == x;
                assert(d[m] == x);
            } else if s.len() >= 2 && s[s.len() - 2] == s.last() {
                assert(df[df.len() - 1] == x);
            } else {
                assert(d[d.len() - 1] == x);
            }
        }
    }
}

/// Every candidate has a numerator that is in `ps`, or whose negation is,
/// and a denominator in `qs`.
pub proof fn lemma_candidate_grid_members(ps: Seq<int>, qs: Seq<int>)
    ensures
        forall|k: int|
            0 <= k < candidate_grid(ps, qs).len() ==> {
                let c = #[trigger] candidate_grid(ps, qs)[k];
                (ps.contains(c.0) || ps.contains(-c.0)) && qs.contains(c.1)
            },
    decreases ps.len(),
{
    if ps.len() > 0 {
        let front = ps.drop_last();
        let p = ps.last();
        lemma_candidate_grid_members(front, qs);
        lemma_candidate_row_members(p, qs);
        let g = candidate_grid(ps, qs);
        let gf = candidate_grid(front, qs);
        assert forall|k: int| 0 <= k < g.len() implies ({
            let c = #[trigger] g[k];
            (ps.contains(c.0) || ps.contains(-c.0)) && qs.contains(c.1)
        }) by {
            let c = g[k];
            if k < gf.len() {
                assert(c == gf[k]);
                let m = choose|m: int|
                    0 <= m < front.len() && (front[m] == c.0 || front[m] == -c.0);
                assert(ps[m] == front[m]);
            } else {
                assert(c == candidate_row(p, qs)[k - gf.len()]);
                assert(ps[ps.len() - 1] == p);
            }
        }
    }
}

/// Every candidate of a row has numerator `p` or `-p` and a denominator in
/// `qs`.
pub proof fn lemma_candidate_row_members(p: int, qs: Seq<int>)
    ensures
        candidate_row(p, qs).len() == 2 * qs.len(),
        forall|k: int|
            0 <= k < candidate_row(p, qs).len() ==> {
                let c = #[trigger] candidate_row(p, qs)[k];
                (c.0 == p || c.0 == -p) && qs.contains(c.1)
            },
    decreases qs.len(),
{
    if qs.len() > 0 {
        let front = qs.drop_last();
        lemma_candidate_row_members(p, front);
        let r = candidate_row(p, qs);
        let rf = candidate_row(p, front);
        assert forall|k: int| 0 <= k < r.len() implies ({
            let c = #[trigger] r[k];
            (c.0 == p || c.0 == -p) && qs.contains(c.1)
        }) by {
            let c = r[k];
            if k < rf.len() {
                assert(c == rf[k]);
                let m = choose|m: int| 0 <= m < front.len() && front[m] == c.1;
                assert(qs[m] == c.1);
            } else {
                assert(qs[qs.len() - 1] == c.1);
            }
        }
    }
}

/// The denominator of a candidate root is a positive divisor of the leading
/// coefficient, and the magnitude of its numerator a positive divisor of the
/// constant term. So no candidate has the denominator zero, nor the
/// numerator.
pub proof fn lemma_candidates_divide_coefficients(coeffs: Seq<int>)
    requires
        rejection(coeffs) is None,
    ensures
        forall|k: int|
            0 <= k < candidates(coeffs).len() ==> {
                let c = #[trigger] candidates(coeffs)[k];
                &&& 1 <= c.1 <= magnitude(coeffs.first())
                &&& magnitude(coeffs.first()) % c.1 == 0
                &&& 1 <= magnitude(c.0) <= magnitude(coeffs.last())
                &&& magnitude(coeffs.last()) % magnitude(c.0) == 0
            },
{
    let fp = factor_list(magnitude(coeffs.last()));
    let fq = factor_list(magnitude(coeffs.first()));
    let ps = distinct(fp);
    let qs = distinct(fq);
    lemma_factor_list_exists(magnitude(coeffs.last()));
    lemma_factor_list_exists(magnitude(coeffs.first()));
    lemma_factor_list_bounds(fp, magnitude(coeffs.last()));
    lemma_factor_list_bounds(fq, magnitude(coeffs.first()));
    lemma_distinct_within(fp);
    lemma_distinct_within(fq);
    lemma_candidate_grid_members(ps, qs);
    assert forall|k: int| 0 <= k < candidates(coeffs).len() implies ({
        let c = #[trigger] candidates(coeffs)[k];
        &&& 1 <= c.1 <= magnitude(coeffs.first())
        &&& magnitude(coeffs.first()) % c.1 == 0
        &&& 1 <= magnitude(c.0) <= magnitude(coeffs.last())
        &&& magnitude(coeffs.last()) % magnitude(c.0) == 0
    }) by {
        let c = candidates(coeffs)[k];
        let m = choose|m: int| 0 <= m < ps.len() && (ps[m] == c.0 || ps[m] == -c.0);
        assert(fp.contains(ps[m]));
        let n = choose|n: int| 0 <= n < qs.len() && qs[n] == c.1;
        assert(fq.contains(qs[n]));
    }
}

/// The search is a function of the polynomial and of the verdicts alone: two
/// results for the same coefficients and the same verdicts are identical.
pub proof fn lemma_rational_solve_deterministic(
    coeffs: Seq<int>,
    verdicts: Seq<bool>,
    first: Result<Vec<(i32, i32)>, InvalidInput>,
    second: Result<Vec<(i32, i32)>, InvalidInput>,
)
    requires
        outcome_of(first) == solve_outcome(coeffs, verdicts),
        outcome_of(second) == solve_outcome(coeffs, verdicts),
    ensures
        first matches Ok(a) ==> second matches Ok(b) && a@ == b@,
        first matches Err(reason) ==> second matches Err(other) && reason == other,
{
    if let Ok(a) = first {
        let b = second->Ok_0;
        assert(pairs_of(a@) == pairs_of(b@));
        assert(a@.len() == b@.len());
        assert forall|i: int| 0 <= i < a@.len() implies a@[i] == b@[i] by {
            assert(pairs_of(a@)[i] == pairs_of(b@)[i]);
        }
        assert(a@ =~= b@);
    }
}

/// The absolute value of a coefficient.
fn magnitude_of(coefficient: i32) -> (m: u32)
    ensures
        m as int == magnitude(coefficient as int),
{
    if coefficient >= 0 {
        coefficient as u32
    } else {
        (0 - coefficient as i64) as u32
    }
}

/// Removes every factor that repeats the factor just before it. Of factors
/// in ascending order this leaves each value once, still in ascending order.
pub fn distinct_factors(factors: &Vec<i32>) -> (kept: Vec<i32>)
    ensures
        ints_of_i32(kept@) == distinct(ints_of_i32(factors@)),
        non_decreasing(ints_of_i32(factors@)) ==> {
            &&& strictly_increasing(ints_of_i32(kept@))
            &&& forall|x: int|
                ints_of_i32(factors@).contains(x) <==> ints_of_i32(kept@).contains(x)
        },
{
    let ghost all: Seq<int> = ints_of_i32(factors@);
    let mut kept: Vec<i32> = Vec::new();
    let mut i: usize = 0;
    assert(all.take(0) =~= Seq::<int>::empty());
    assert(ints_of_i32(kept@) =~= Seq::<int>::empty());
    while i < factors.len()
        invariant
            0 <= i <= factors.len(),
            all == ints_of_i32(factors@),
            ints_of_i32(kept@) == distinct(all.take(i as int)),
        decreases factors.len() - i,
    {
        let ghost before: Seq<int> = ints_of_i32(kept@);
        proof {
            let next = all.take(i + 1);
            assert(next.drop_last() =~= all.take(i as int));
            assert(next.last() == factors@[i as int] as int);
            if i >= 1 {
                assert(next[next.len() - 2] == factors@[i - 1] as int);
            }
        }
        if i == 0 || factors[i - 1] != factors[i] {
            kept.push(factors[i]);
            assert(ints_of_i32(kept@) =~= before.push(factors@[i as int] as int));
        }
        i = i + 1;
    }
    proof {
        assert(all.take(i as int) =~= all);
        if non_decreasing(all) {
            lemma_distinct_of_sorted(all);
        }
    }
    kept
}

impl PolyEquat {
    /// The polynomial with the given coefficients, highest power first.
    pub fn new(input_coeffs: Vec<i32>) -> (poly: Self)
        ensures
            poly.polynomial_coefficients == input_coeffs,
            poly@ == ints_of_i32(input_coeffs@),
    {
        Self { polynomial_coefficients: input_coeffs }
    }

    /// The candidates for a rational root, in the order in which they are
    /// tried: for each distinct factor `p` of the constant term's magnitude,
    /// and under it for each distinct factor `q` of the leading coefficient's
    /// magnitude, the pair `(p, q)` and then `(-p, q)`.
    ///
    /// A polynomial without coefficients, or whose leading coefficient or
    /// constant term is zero, is rejected.
    pub fn rational_candidates(&self) -> (result: Result<Vec<(i32, i32)>, InvalidInput>)
        ensures
            outcome_of(result) == (match rejection(self@) {
                Some(reason) => Err::<Seq<(int, int)>, InvalidInput>(reason),
                None => Ok(candidates(self@)),
            }),
            result matches Ok(pairs) ==> forall|k: int|
                0 <= k < pairs@.len() ==> (#[trigger] pairs@[k]).1 >= 1 && pairs@[k].0 != 0,
    {
        let n: usize = self.polynomial_coefficients.len();
        if n == 0 {
            return Err(InvalidInput::EmptyCoefficients);
        }
        let leading: i32 = self.polynomial_coefficients[0];
        let trailing: i32 = self.polynomial_coefficients[n - 1];
        assert(self@.first() == leading as int);
        assert(self@.last() == trailing as int);
        if leading == 0 {
            return Err(InvalidInput::ZeroLeadingCoefficient);
        }
        if trailing == 0 {
            return Err(InvalidInput::ZeroTrailingCoefficient);
        }
        let all_ps: Vec<i32> = factor_magnitude(magnitude_of(trailing));
        let all_qs: Vec<i32> = factor_magnitude(magnitude_of(leading));
        let poss_ps: Vec<i32> = distinct_factors(&all_ps);
        let poss_qs: Vec<i32> = distinct_factors(&all_qs);
        let ghost ps: Seq<int> = ints_of_i32(poss_ps@);
        let ghost qs: Seq<int> = ints_of_i32(poss_qs@);
        proof {
            lemma_candidates_divide_coefficients(self@);
            lemma_factor_list_bounds(ints_of_i32(all_ps@), magnitude(trailing as int));
            lemma_distinct_within(ints_of_i32(all_ps@));
            assert forall|i: int| 0 <= i < ps.len() implies #[trigger] ps[i] >= 1 by {
                assert(ints_of_i32(all_ps@).contains(ps[i]));
            }
        }
        let mut pairs: Vec<(i32, i32)> = Vec::new();
        let mut i: usize = 0;
        assert(ps.take(0) =~= Seq::<int>::empty());
        assert(pairs_of(pairs@) =~= Seq::<(int, int)>::empty());
        while i < poss_ps.len()
            invariant
                0 <= i <= poss_ps.len(),
                ps == ints_of_i32(poss_ps@),
                qs == ints_of_i32(poss_qs@),
                forall|k: int| 0 <= k < ps.len() ==> #[trigger] ps[k] >= 1,
                pairs_of(pairs@) == candidate_grid(ps.take(i as int), qs),
            decreases poss_ps.len() - i,
        {
            let numerator: i32 = poss_ps[i];
            assert(ps[i as int] == numerator as int);
            let ghost done: Seq<(int, int)> = pairs_of(pairs@);
            let mut j: usize = 0;
            assert(qs.take(0) =~= Seq::<int>::empty());
            assert(done + candidate_row(numerator as int, qs.take(0)) =~= done);
            while j < poss_qs.len()
                invariant
                    0 <= j <= poss_qs.len(),
                    qs == ints_of_i32(poss_qs@),
                    numerator >= 1,
                    pairs_of(pairs@) == done + candidate_row(numerator as int, qs.take(j as int)),
                decreases poss_qs.len() - j,
            {
                let denominator: i32 = poss_qs[j];
                let ghost before: Seq<(int, int)> = pairs_of(pairs@);
                pairs.push((numerator, denominator));
                pairs.push((-numerator, denominator));
                proof {
                    let next = qs.take(j + 1);
                    assert(next.drop_last() =~= qs.take(j as int));
                    assert(next.last() == denominator as int);
                    assert(pairs_of(pairs@) =~= before.push(
                        (numerator as int, denominator as int),
                    ).push((-(numerator as int), denominator as int)));
                    assert(pairs_of(pairs@) =~= done + candidate_row(numerator as int, next));
                }
                j = j + 1;
            }
            proof {
                assert(qs.take(j as int) =~= qs);
                let next = ps.take(i + 1);
                assert(next.drop_last() =~= ps.take(i as int));
                assert(next.last() == numerator as int);
            }
            i = i + 1;
        }
        proof {
            assert(ps.take(i as int) =~= ps);
            assert forall|k: int| 0 <= k < pairs@.len() implies (#[trigger] pairs@[k]).1 >= 1
                && pairs@[k].0 != 0 by {
                assert(pairs_of(pairs@)[k] == candidates(self@)[k]);
            }
        }
        Ok(pairs)
    }

    /// The rational roots found among the candidates of
    /// [`PolyEquat::rational_candidates`]: those candidates, in their order,
    /// whose verdict is `true`. The verdict at position `k` says whether the
    /// value of the polynomial at numerator over denominator of the `k`-th
    /// candidate lies below the tolerance; working it out takes real
    /// arithmetic, which is the caller's part.
    ///
    /// A polynomial that has no candidates is rejected as there, and so is a
    /// list of verdicts that does not have one verdict for each candidate.
    pub fn rational_solve(&self, below_tolerance: &Vec<bool>) -> (result: Result<
        Vec<(i32, i32)>,
        InvalidInput,
    >)
        ensures
            outcome_of(result) == solve_outcome(self@, below_tolerance@),
            result matches Ok(roots) ==> forall|k: int|
                0 <= k < roots@.len() ==> (#[trigger] roots@[k]).1 >= 1 && roots@[k].0 != 0,
    {
        let found: Vec<(i32, i32)> = match self.rational_candidates() {
            Ok(found) => found,
            Err(reason) => {
                return Err(reason);
            },
        };
        if below_tolerance.len() != found.len() {
            return Err(InvalidInput::VerdictCountMismatch);
        }
        let ghost cands: Seq<(int, int)> = pairs_of(found@);
        let mut roots: Vec<(i32, i32)> = Vec::new();
        let mut k: usize = 0;
        assert(cands.take(0) =~= Seq::<(int, int)>::empty());
        assert(pairs_of(roots@) =~= Seq::<(int, int)>::empty());
        while k < found.len()
            invariant
                0 <= k <= found.len(),
                found.len() == below_tolerance.len(),
                cands == pairs_of(found@),
                pairs_of(roots@) == accepted(cands.take(k as int), below_tolerance@.take(k as int)),
                forall|m: int| 0 <= m < found@.len() ==> (#[trigger] found@[m]).1 >= 1 && found@[m].0 != 0,
                forall|m: int| 0 <= m < roots@.len() ==> (#[trigger] roots@[m]).1 >= 1 && roots@[m].0 != 0,
            decreases found.len() - k,
        {
            let ghost before: Seq<(int, int)> = pairs_of(roots@);
            proof {
                let next = cands.take(k + 1);
                let next_verdicts = below_tolerance@.take(k + 1);
                assert(next.drop_last() =~= cands.take(k as int));
                assert(next_verdicts.drop_last() =~= below_tolerance@.take(k as int));
                assert(next.last() == cands[k as int]);
                assert(next_verdicts.last() == below_tolerance@[k as int]);
            }
            if below_tolerance[k] {
                let root: (i32, i32) = found[k];
                roots.push(root);
                assert(pairs_of(roots@) =~= before.push(cands[k as int]));
            }
            k = k + 1;
        }
        assert(cands.take(k as int) =~= cands);
        assert(below_tolerance@.take(k as int) =~= below_tolerance@);
        Ok(roots)
    }
}

} // verus!
