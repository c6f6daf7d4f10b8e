//! Primality as a mathematical definition, and the square-root-bound facts
//! that make segmented sieving sound.

use vstd::prelude::*;
use vstd::arithmetic::div_mod::lemma_fundamental_div_mod;
use vstd::arithmetic::div_mod::lemma_mod_multiples_basic;

verus! {

/// A number is prime when it is at least 2 and no smaller number of at
/// least 2 divides it.
pub open spec fn is_prime(n: int) -> bool {
    n >= 2 && forall|d: int| 2 <= d < n ==> #[trigger] (n % d) != 0
}

/// Sieving with prime `p` strikes exactly the proper multiples of `p`:
/// the values `p * k` with `k >= 2`.
pub open spec fn strikes(p: int, v: int) -> bool {
    v % p == 0 && v >= 2 * p
}

/// Divisibility is transitive: if `e` divides `d` and `d` divides `n`,
/// then `e` divides `n`.
proof fn lemma_divides_transitive(e: int, d: int, n: int)
    requires
        2 <= e,
        2 <= d,
        d % e == 0,
        n % d == 0,
    ensures
        n % e == 0,
{
    lemma_fundamental_div_mod(n, d);
    lemma_fundamental_div_mod(d, e);
    let k = n / d;
    let m = d / e;
    assert(n == e * (m * k)) by (nonlinear_arith)
        requires
            n == d * k,
            d == e * m,
    ;
    lemma_mod_multiples_basic(m * k, e);
}

/// A value struck by a prime is composite: `p` itself disproves primality.
pub proof fn lemma_struck_is_composite(p: int, v: int)
    requires
        is_prime(p),
        strikes(p, v),
    ensures
        !is_prime(v),
{
    assert(2 <= p);
    assert(p < v);
    assert(v % p == 0);
}

/// Every number of at least 2 has a prime divisor; when the number is
/// composite, that divisor can be chosen with its square at most the number.
///
/// The witness is the least divisor `>= 2`: it is prime (a proper factor of
/// it would be a smaller divisor), and for a composite number the cofactor
/// is at least as large, bounding the square.
pub proof fn lemma_prime_factor(n: int)
    requires
        n >= 2,
    ensures
        is_prime(n) || exists|p: int|
            is_prime(p) && #[trigger] (n % p) == 0 && p * p <= n && 2 * p <= n,
{
    if !is_prime(n) {
        let d = choose|d: int| 2 <= d < n && #[trigger] (n % d) == 0;
        lemma_least_divisor(n, 2);
        let p = choose|p: int|
            2 <= p <= n && #[trigger] (n % p) == 0 && forall|e: int|
                2 <= e < p ==> #[trigger] (n % e) != 0;
        // p is prime: a divisor of p in [2, p) would divide n, below p.
        assert forall|e: int| 2 <= e < p implies #[trigger] (p % e) != 0 by {
            if p % e == 0 {
                lemma_divides_transitive(e, p, n);
            }
        }
        assert(p < n) by {
            assert(n % d == 0 && d < n);
            if p == n {
                assert(n % d != 0);
            }
        }
        // the cofactor k = n / p is a divisor of at least 2, hence >= p.
        lemma_fundamental_div_mod(n, p);
        let k = n / p;
        assert(n == p * k);
        assert(k >= 2) by (nonlinear_arith)
            requires
                n == p * k,
                2 <= p < n,
        ;
        lemma_mod_multiples_basic(p, k);
        assert(n % k == 0) by {
            assert(k * p == p * k) by (nonlinear_arith);
        }
        assert(k >= p) by {
            if k < p {
                assert(n % k != 0);
            }
        }
        assert(p * p <= n) by (nonlinear_arith)
            requires
                n == p * k,
                2 <= p <= k,
        ;
        assert(2 * p <= n) by (nonlinear_arith)
            requires
                n == p * k,
                2 <= p,
                2 <= k,
        ;
        assert(is_prime(p) && n % p == 0 && p * p <= n && 2 * p <= n);
    }
}

/// There is a divisor of `n` in `[2, n]` below which none divides `n`.
proof fn lemma_least_divisor(n: int, c: int)
    requires
        2 <= c <= n,
        forall|e: int| 2 <= e < c ==> #[trigger] (n % e) != 0,
    ensures
        exists|p: int|
            2 <= p <= n && #[trigger] (n % p) == 0 && forall|e: int|
                2 <= e < p ==> #[trigger] (n % e) != 0,
    decreases n - c,
{
    if n % c == 0 {
        assert(2 <= c <= n && n % c == 0 && forall|e: int| 2 <= e < c ==> #[trigger] (n % e) != 0);
    } else {
        assert(c < n) by {
            if c == n {
                lemma_mod_multiples_basic(1, n);
            }
        }
        lemma_least_divisor(n, c + 1);
    }
}

} // verus!
