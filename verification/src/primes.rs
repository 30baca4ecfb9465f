//! Primes, products and prime factorizations as mathematical definitions.

use vstd::prelude::*;

verus! {

/// `p` is a prime number: at least 2, and no number strictly between 1 and
/// `p` divides it.
pub open spec fn is_prime(p: int) -> bool {
    &&& p >= 2
    &&& forall|d: int| 2 <= d < p ==> #[trigger] (p % d) != 0
}

/// The product of all elements of `s`; the empty product is 1.
pub open spec fn product(s: Seq<int>) -> int
    decreases s.len(),
{
    if s.len() == 0 {
        1
    } else {
        product(s.drop_last()) * s.last()
    }
}

/// Every element of `s` is prime.
pub open spec fn all_prime(s: Seq<int>) -> bool {
    forall|i: int| 0 <= i < s.len() ==> is_prime(#[trigger] s[i])
}

/// No element of `s` is smaller than one before it.
pub open spec fn non_decreasing(s: Seq<int>) -> bool {
    forall|i: int, j: int| 0 <= i <= j < s.len() ==> s[i] <= s[j]
}

/// `s` lists the prime factors of `n` with multiplicity, in ascending order.
pub open spec fn is_prime_factorization(s: Seq<int>, n: int) -> bool {
    &&& product(s) == n
    &&& all_prime(s)
    &&& non_decreasing(s)
}

/// `s` is the factor list of the magnitude `n`: the one-element list `[1]`
/// for `n == 1`, and the prime factorization of `n` for `n >= 2`.
pub open spec fn is_factor_list(s: Seq<int>, n: int) -> bool {
    if n == 1 {
        s == seq![1int]
    } else {
        n >= 2 && is_prime_factorization(s, n)
    }
}

/// The factor list of the magnitude `n`. It is the only list `s` with
/// `is_factor_list(s, n)`, see [`lemma_factor_list_unique`].
pub open spec fn factor_list(n: int) -> Seq<int> {
    choose|s: Seq<int>| is_factor_list(s, n)
}

/// A product of positive numbers is positive and at least as large as each
/// of them.
pub proof fn lemma_product_bounds(s: Seq<int>)
    requires
        forall|i: int| 0 <= i < s.len() ==> #[trigger] s[i] >= 1,
    ensures
        product(s) >= 1,
        forall|i: int| 0 <= i < s.len() ==> #[trigger] s[i] <= product(s),
    decreases s.len(),
{
    if s.len() > 0 {
        let front = s.drop_last();
        lemma_product_bounds(front);
        let a = product(front);
        let b = s.last();
        assert(a * b >= a && a * b >= b) by (nonlinear_arith)
            requires
                a >= 1,
                b >= 1,
        ;
        assert forall|i: int| 0 <= i < s.len() implies #[trigger] s[i] <= product(s) by {
            if i < s.len() - 1 {
                assert(front[i] == s[i]);
            }
        }
    }
}

/// Euclid's lemma: a prime that divides a product of two numbers divides one
/// of them.
pub proof fn lemma_prime_divides_factor(p: int, a: int, b: int)
    requires
        is_prime(p),
        a >= 1,
        b >= 0,
        (a * b) % p == 0,
    ensures
        a % p == 0 || b % p == 0,
    decreases a,
{
    let r = a % p;
    if r != 0 {
        // r * b is a multiple of p as well
        let q = (a * b) / p;
        let k = a / p;
        assert((r * b) % p == 0) by {
            assert(a * b == p * q) by {
                vstd::arithmetic::div_mod::lemma_fundamental_div_mod(a * b, p);
            }
            assert(a == p * k + r) by {
                vstd::arithmetic::div_mod::lemma_fundamental_div_mod(a, p);
            }
            assert(r * b == (q - k * b) * p) by (nonlinear_arith)
                requires
                    a * b == p * q,
                    a == p * k + r,
            ;
            vstd::arithmetic::div_mod::lemma_mod_multiples_basic(q - k * b, p);
        }
        assert(r % p == r) by {
            vstd::arithmetic::div_mod::lemma_small_mod(r as nat, p as nat);
        }
        if a >= p {
            lemma_prime_divides_factor(p, r, b);
        } else if a == 1 {
            assert(a * b == b) by (nonlinear_arith)
                requires
                    a == 1,
            ;
        } else {
            // 2 <= a < p, so a does not divide p and the remainder is smaller than a
            let s = p % a;
            let m = p / a;
            assert(s != 0);
            assert(p == a * m + s) by {
                vstd::arithmetic::div_mod::lemma_fundamental_div_mod(p, a);
            }
            assert((s * b) % p == 0) by {
                assert(a * b == p * q) by {
                    vstd::arithmetic::div_mod::lemma_fundamental_div_mod(a * b, p);
                }
                assert(s * b == (b - m * q) * p) by (nonlinear_arith)
                    requires
                        a * b == p * q,
                        p == a * m + s,
                ;
                vstd::arithmetic::div_mod::lemma_mod_multiples_basic(b - m * q, p);
            }
            assert(s % p == s) by {
                vstd::arithmetic::div_mod::lemma_small_mod(s as nat, p as nat);
            }
            lemma_prime_divides_factor(p, s, b);
        }
    }
}

/// A prime that divides a product of primes is one of them.
pub proof fn lemma_prime_divides_product(p: int, s: Seq<int>)
    requires
        is_prime(p),
        all_prime(s),
        product(s) % p == 0,
    ensures
        exists|i: int| 0 <= i < s.len() && s[i] == p,
    decreases s.len(),
{
    if s.len() == 0 {
        assert(1int % p == 1) by {
            vstd::arithmetic::div_mod::lemma_small_mod(1, p as nat);
        }
    } else {
        let front = s.drop_last();
        let q = s.last();
        assert(is_prime(q));
        assert forall|i: int| 0 <= i < front.len() implies is_prime(#[trigger] front[i]) by {
            assert(front[i] == s[i]);
        }
        assert forall|i: int| 0 <= i < front.len() implies #[trigger] front[i] >= 1 by {
            assert(is_prime(front[i]));
        }
        lemma_product_bounds(front);
        lemma_prime_divides_factor(p, product(front), q);
        if product(front) % p == 0 {
            lemma_prime_divides_product(p, front);
            let i = choose|i: int| 0 <= i < front.len() && front[i] == p;
            assert(s[i] == p);
        } else {
            // p divides the prime q, so p is q
            if p > q {
                vstd::arithmetic::div_mod::lemma_small_mod(q as nat, p as nat);
            }
            assert(s[s.len() - 1] == p);
        }
    }
}

/// The last element of a non-decreasing list of primes is no larger than the
/// last element of another such list with the same product.
proof fn lemma_last_bounded(a: Seq<int>, b: Seq<int>)
    requires
        a.len() > 0,
        b.len() > 0,
        all_prime(a),
        all_prime(b),
        non_decreasing(b),
        product(a) == product(b),
    ensures
        a.last() <= b.last(),
{
    let p = a.last();
    assert(is_prime(p));
    assert(product(a) % p == 0) by {
        vstd::arithmetic::div_mod::lemma_mod_multiples_basic(product(a.drop_last()), p);
    }
    lemma_prime_divides_product(p, b);
    let j = choose|j: int| 0 <= j < b.len() && b[j] == p;
    assert(b[j] <= b[b.len() - 1]);
}

/// Uniqueness of prime factorization: two non-decreasing lists of primes
/// with the same product are the same list.
pub proof fn lemma_prime_factorization_unique(a: Seq<int>, b: Seq<int>)
    requires
        all_prime(a),
        all_prime(b),
        non_decreasing(a),
        non_decreasing(b),
        product(a) == product(b),
    ensures
        a == b,
    decreases a.len(),
{
    assert forall|i: int| 0 <= i < a.len() implies #[trigger] a[i] >= 1 by {
        assert(is_prime(a[i]));
    }
    assert forall|i: int| 0 <= i < b.len() implies #[trigger] b[i] >= 1 by {
        assert(is_prime(b[i]));
    }
    lemma_product_bounds(a);
    lemma_product_bounds(b);
    if a.len() == 0 || b.len() == 0 {
        if a.len() > 0 {
            assert(is_prime(a[0]));
        }
        if b.len() > 0 {
            assert(is_prime(b[0]));
        }
        assert(a =~= b);
    } else {
        lemma_last_bounded(a, b);
        lemma_last_bounded(b, a);
        let p = a.last();
        let fa = a.drop_last();
        let fb = b.drop_last();
        assert(is_prime(p));
        assert(product(fa) == product(fb)) by (nonlinear_arith)
            requires
                product(fa) * p == product(fb) * p,
                p >= 2,
        ;
        assert forall|i: int| 0 <= i < fa.len() implies is_prime(#[trigger] fa[i]) by {
            assert(fa[i] == a[i]);
        }
        assert forall|i: int| 0 <= i < fb.len() implies is_prime(#[trigger] fb[i]) by {
            assert(fb[i] == b[i]);
        }
        assert forall|i: int, j: int| 0 <= i <= j < fa.len() implies fa[i] <= fa[j] by {
            assert(fa[i] == a[i] && fa[j] == a[j]);
        }
        assert forall|i: int, j: int| 0 <= i <= j < fb.len() implies fb[i] <= fb[j] by {
            assert(fb[i] == b[i] && fb[j] == b[j]);
        }
        lemma_prime_factorization_unique(fa, fb);
        assert(a =~= fa.push(p));
        assert(b =~= fb.push(p));
    }
}

/// The smallest number from `d` upwards that divides `n`.
spec fn least_divisor_from(n: int, d: int) -> int
    decreases n - d,
{
    if d >= n {
        n
    } else if n % d == 0 {
        d
    } else {
        least_divisor_from(n, d + 1)
    }
}

/// `least_divisor_from(n, d)` divides `n`, and nothing from `d` up to it
/// does.
proof fn lemma_least_divisor(n: int, d: int)
    requires
        2 <= d <= n,
    ensures
        d <= least_divisor_from(n, d) <= n,
        n % least_divisor_from(n, d) == 0,
        forall|e: int| d <= e < least_divisor_from(n, d) ==> #[trigger] (n % e) != 0,
    decreases n - d,
{
    if d >= n {
        vstd::arithmetic::div_mod::lemma_mod_multiples_basic(1, n);
    } else if n % d != 0 {
        lemma_least_divisor(n, d + 1);
    }
}

/// A divisor of a divisor of `c` divides `c`.
proof fn lemma_divides_transitive(a: int, b: int, c: int)
    requires
        a > 0,
        b > 0,
        b % a == 0,
        c % b == 0,
    ensures
        c % a == 0,
{
    let k = b / a;
    let m = c / b;
    vstd::arithmetic::div_mod::lemma_fundamental_div_mod(b, a);
    vstd::arithmetic::div_mod::lemma_fundamental_div_mod(c, b);
    assert(c == (k * m) * a) by (nonlinear_arith)
        requires
            b == a * k,
            c == b * m,
    ;
    vstd::arithmetic::div_mod::lemma_mod_multiples_basic(k * m, a);
}

/// Each element of a list of positive numbers divides their product.
proof fn lemma_element_divides_product(s: Seq<int>, i: int)
    requires
        forall|k: int| 0 <= k < s.len() ==> #[trigger] s[k] >= 1,
        0 <= i < s.len(),
    ensures
        product(s) % s[i] == 0,
    decreases s.len(),
{
    let front = s.drop_last();
    if i == s.len() - 1 {
        vstd::arithmetic::div_mod::lemma_mod_multiples_basic(product(front), s.last());
    } else {
        assert forall|k: int| 0 <= k < front.len() implies #[trigger] front[k] >= 1 by {
            assert(front[k] == s[k]);
        }
        lemma_element_divides_product(front, i);
        assert(front[i] == s[i]);
        let q = product(front) / s[i];
        vstd::arithmetic::div_mod::lemma_fundamental_div_mod(product(front), s[i]);
        assert(product(front) * s.last() == (q * s.last()) * s[i]) by (nonlinear_arith)
            requires
                product(front) == s[i] * q,
        ;
        vstd::arithmetic::div_mod::lemma_mod_multiples_basic(q * s.last(), s[i]);
    }
}

/// The product of a single number is that number.
proof fn lemma_product_single(d: int)
    ensures
        product(seq![d]) == d,
{
    let s = seq![d];
    assert(s.drop_last() =~= Seq::<int>::empty());
    assert(product(s.drop_last()) == 1);
    assert(s.last() == d);
    assert(product(s) == product(s.drop_last()) * s.last());
    assert(1 * d == d);
}

/// The product of a list with one more element in front.
proof fn lemma_product_prepend(d: int, s: Seq<int>)
    ensures
        product(seq![d] + s) == d * product(s),
    decreases s.len(),
{
    let whole = seq![d] + s;
    if s.len() == 0 {
        assert(whole =~= seq![d]);
        lemma_product_single(d);
        assert(d * 1 == d);
    } else {
        assert(whole.drop_last() =~= seq![d] + s.drop_last());
        assert(whole.last() == s.last());
        lemma_product_prepend(d, s.drop_last());
        let a = product(s.drop_last());
        let b = s.last();
        assert((d * a) * b == d * (a * b)) by (nonlinear_arith);
    }
}

/// Every number from 2 on has a prime factorization: its least divisor above
/// 1, followed by the factorization of what is left.
proof fn lemma_prime_factorization_exists(n: int) -> (s: Seq<int>)
    requires
        n >= 2,
    ensures
        is_prime_factorization(s, n),
    decreases n,
{
    let d = least_divisor_from(n, 2);
    lemma_least_divisor(n, 2);
    assert(is_prime(d)) by {
        assert forall|e: int| 2 <= e < d implies #[trigger] (d % e) != 0 by {
            if d % e == 0 {
                lemma_divides_transitive(e, d, n);
            }
        }
    }
    let m = n / d;
    vstd::arithmetic::div_mod::lemma_fundamental_div_mod(n, d);
    assert(1 <= m < n) by (nonlinear_arith)
        requires
            n == d * m,
            n >= 2,
            d >= 2,
    ;
    if m == 1 {
        let s = seq![d];
        lemma_product_single(d);
        assert(d * 1 == d);
        assert(product(s) == n);
        assert(all_prime(s));
        assert(non_decreasing(s));
        s
    } else {
        let t = lemma_prime_factorization_exists(m);
        let s = seq![d] + t;
        lemma_product_prepend(d, t);
        assert forall|i: int| 0 <= i < t.len() implies #[trigger] t[i] >= 1 by {
            assert(is_prime(t[i]));
        }
        assert(n % m == 0) by {
            assert(n == d * m);
            vstd::arithmetic::div_mod::lemma_mod_multiples_basic(d, m);
        }
        assert forall|i: int| 0 <= i < t.len() implies d <= #[trigger] t[i] by {
            assert(is_prime(t[i]));
            lemma_element_divides_product(t, i);
            lemma_divides_transitive(t[i], m, n);
        }
        assert forall|i: int| 0 <= i < s.len() implies is_prime(#[trigger] s[i]) by {
            if i > 0 {
                assert(s[i] == t[i - 1]);
            }
        }
        assert forall|i: int, j: int| 0 <= i <= j < s.len() implies s[i] <= s[j] by {
            if i > 0 {
                assert(s[i] == t[i - 1] && s[j] == t[j - 1]);
            } else if j > 0 {
                assert(s[j] == t[j - 1]);
            }
        }
        assert(product(s) == n);
        assert(all_prime(s));
        assert(non_decreasing(s));
        s
    }
}

/// Every magnitude from 1 on has a factor list, and `factor_list` is it: its
/// product is the magnitude, its elements are prime and in ascending order
/// (but for the magnitude 1, whose factor list is `[1]`).
pub proof fn lemma_factor_list_exists(n: int)
    requires
        n >= 1,
    ensures
        is_factor_list(factor_list(n), n),
{
    if n == 1 {
        assert(is_factor_list(seq![1int], n));
    } else {
        let s = lemma_prime_factorization_exists(n);
        assert(is_factor_list(s, n));
    }
}

/// A magnitude has at most one factor list.
pub proof fn lemma_factor_list_unique(s: Seq<int>, t: Seq<int>, n: int)
    requires
        is_factor_list(s, n),
        is_factor_list(t, n),
    ensures
        s == t,
        s == factor_list(n),
{
    let u = factor_list(n);
    assert(is_factor_list(u, n));
    if n != 1 {
        lemma_prime_factorization_unique(s, t);
        lemma_prime_factorization_unique(s, u);
    }
}

/// Every element of a factor list is at least 1, at most the magnitude, and
/// divides it.
pub proof fn lemma_factor_list_bounds(s: Seq<int>, n: int)
    requires
        is_factor_list(s, n),
    ensures
        forall|i: int| 0 <= i < s.len() ==> 1 <= #[trigger] s[i] <= n && n % s[i] == 0,
{
    if n != 1 {
        assert forall|i: int| 0 <= i < s.len() implies #[trigger] s[i] >= 1 by {
            assert(is_prime(s[i]));
        }
        lemma_product_bounds(s);
        assert forall|i: int| 0 <= i < s.len() implies 1 <= #[trigger] s[i] <= n && n % s[i]
            == 0 by {
            lemma_element_divides_product(s, i);
        }
    }
}

} // verus!
