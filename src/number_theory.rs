//! Fermat's little theorem, proved through the binomial theorem and Euclid's
//! lemma.
use vstd::prelude::*;
use vstd::arithmetic::div_mod::{
    lemma_add_mod_noop, lemma_fundamental_div_mod, lemma_mod_multiples_basic,
    lemma_mul_mod_noop_left, lemma_small_mod, lemma_sub_mod_noop,
};
use vstd::arithmetic::power::{lemma0_pow, lemma_pow0, pow};

verus! {

/// `p` is a prime number.
pub open spec fn is_prime(p: int) -> bool {
    p > 1 && forall|d: int| 1 < d < p ==> #[trigger] (p % d) != 0
}

/// The binomial coefficient `n` choose `k`, by Pascal's rule.
pub open spec fn binom(n: nat, k: nat) -> nat
    decreases n,
{
    if k == 0 {
        1
    } else if n == 0 {
        0
    } else {
        binom((n - 1) as nat, (k - 1) as nat) + binom((n - 1) as nat, k)
    }
}

/// The first `m` terms of the expansion of `(x + 1)^n`: the sum over `k < m`
/// of `binom(n, k) * x^k`.
pub open spec fn binomial_sum(n: nat, x: int, m: nat) -> int
    decreases m,
{
    if m == 0 {
        0
    } else {
        binomial_sum(n, x, (m - 1) as nat) + binom(n, (m - 1) as nat) * pow(x, (m - 1) as nat)
    }
}

proof fn lemma_binom_above(n: nat, k: nat)
    requires
        k > n,
    ensures
        binom(n, k) == 0,
    decreases n,
{
    if n > 0 {
        lemma_binom_above((n - 1) as nat, (k - 1) as nat);
        lemma_binom_above((n - 1) as nat, k);
    }
}

proof fn lemma_binom_all(n: nat)
    ensures
        binom(n, n) == 1,
    decreases n,
{
    if n > 0 {
        lemma_binom_all((n - 1) as nat);
        lemma_binom_above((n - 1) as nat, n);
    }
}

/// Pascal's rule carried through a partial expansion.
proof fn lemma_binomial_split(n: nat, x: int, m: nat)
    requires
        m >= 1,
    ensures
        binomial_sum(n + 1, x, m) == binomial_sum(n, x, m) + x * binomial_sum(n, x, (m - 1) as nat),
    decreases m,
{
    let j = (m - 1) as nat;
    if m == 1 {
        lemma_pow0(x);
        assert(binomial_sum(n + 1, x, 0) == 0);
        assert(binomial_sum(n, x, 0) == 0);
        assert(binomial_sum(n + 1, x, 1) == 1);
        assert(binomial_sum(n, x, 1) == 1);
    } else {
        let i = (m - 2) as nat;
        lemma_binomial_split(n, x, j);
        reveal(pow);
        let (pi, pj) = (pow(x, i), pow(x, j));
        assert(pj == x * pi);
        let (ci, cj) = (binom(n, i) as int, binom(n, j) as int);
        assert(binom(n + 1, j) == ci + cj);
        let (si, sj, sm) = (binomial_sum(n, x, i), binomial_sum(n, x, j), binomial_sum(n, x, m));
        assert(sj == si + ci * pi);
        assert(sm == sj + cj * pj);
        let t = binomial_sum(n + 1, x, j);
        assert(t == sj + x * si);
        assert(binomial_sum(n + 1, x, m) == t + (ci + cj) * pj);
        assert(t + (ci + cj) * pj == sm + x * sj) by (nonlinear_arith)
            requires
                pj == x * pi,
                sj == si + ci * pi,
                sm == sj + cj * pj,
                t == sj + x * si,
        ;
    }
}

/// `(x + 1)^n` is the full expansion.
pub proof fn lemma_binomial_theorem(n: nat, x: int)
    ensures
        pow(x + 1, n) == binomial_sum(n, x, n + 1),
    decreases n,
{
    reveal(pow);
    if n == 0 {
        assert(binomial_sum(0, x, 0) == 0);
    } else {
        let k = (n - 1) as nat;
        lemma_binomial_theorem(k, x);
        lemma_binomial_split(k, x, n + 1);
        lemma_binom_above(k, n);
        let s = binomial_sum(k, x, n);
        assert(binomial_sum(k, x, n + 1) == s);
        assert((x + 1) * s == s + x * s) by (nonlinear_arith);
    }
}

/// `k * binom(n, k) == n * binom(n - 1, k - 1)`.
proof fn lemma_absorption(n: nat, k: nat)
    requires
        n >= 1,
        k >= 1,
    ensures
        k * binom(n, k) == n * binom((n - 1) as nat, (k - 1) as nat),
    decreases n,
{
    let n1 = (n - 1) as nat;
    let k1 = (k - 1) as nat;
    assert(binom(n, k) == binom(n1, k1) + binom(n1, k));
    if n == 1 {
        lemma_binom_above(0, k);
        if k > 1 {
            lemma_binom_above(0, k1);
        }
        assert(binom(n, k) == binom(n1, k1));
        assert(k * binom(n1, k1) == n * binom(n1, k1)) by (nonlinear_arith)
            requires
                k == 1 || binom(n1, k1) == 0,
                n == 1,
        ;
    } else {
        let n2 = (n - 2) as nat;
        lemma_absorption(n1, k);
        let (c, d) = (binom(n1, k1) as int, binom(n1, k) as int);
        assert(k * d == n1 * binom(n2, k1));
        if k == 1 {
            assert(binom(n2, 0) == 1);
            assert(c == 1);
            assert(k * (c + d) == n * c) by (nonlinear_arith)
                requires
                    k == 1,
                    c == 1,
                    k * d == n1 * 1,
                    n1 == n - 1,
            ;
        } else {
            let k2 = (k - 2) as nat;
            lemma_absorption(n1, k1);
            let (a, b) = (binom(n2, k2) as int, binom(n2, k1) as int);
            assert(c == a + b);
            assert(k1 * c == n1 * a);
            assert(k * (c + d) == n * c) by (nonlinear_arith)
                requires
                    c == a + b,
                    k1 * c == n1 * a,
                    k * d == n1 * b,
                    k1 == k - 1,
                    n1 == n - 1,
            ;
        }
    }
}

/// Euclid's lemma: a prime dividing `a * b`, with `a` not a multiple of it,
/// divides `b`.
pub proof fn lemma_euclid(p: int, a: int, b: int)
    requires
        is_prime(p),
        0 < a < p,
        (a * b) % p == 0,
    ensures
        b % p == 0,
    decreases a,
{
    if a == 1 {
        assert(a * b == b) by (nonlinear_arith)
            requires
                a == 1,
        ;
    } else {
        let r = p % a;
        let q = p / a;
        lemma_fundamental_div_mod(p, a);
        assert(r != 0);
        lemma_fundamental_div_mod(a * b, p);
        let t = (a * b) / p;
        assert(a * b == p * t);
        assert(r * b == p * (b - q * t)) by (nonlinear_arith)
            requires
                p == a * q + r,
                a * b == p * t,
        ;
        lemma_mod_multiples_basic(b - q * t, p);
        assert((p * (b - q * t)) == (b - q * t) * p) by (nonlinear_arith);
        lemma_euclid(p, r, b);
    }
}

/// A prime divides every binomial coefficient of its row but the two ends.
proof fn lemma_prime_divides_binom(p: int, k: nat)
    requires
        is_prime(p),
        0 < k < p,
    ensures
        (binom(p as nat, k) as int) % p == 0,
{
    lemma_absorption(p as nat, k);
    let c = binom((p - 1) as nat, (k - 1) as nat) as int;
    lemma_mod_multiples_basic(c, p);
    assert(p * c == c * p) by (nonlinear_arith);
    lemma_euclid(p, k as int, binom(p as nat, k) as int);
}

/// Modulo a prime the inner terms of `(x + 1)^p` vanish.
proof fn lemma_inner_terms_vanish(p: int, x: int, m: nat)
    requires
        is_prime(p),
        1 <= m <= p,
    ensures
        binomial_sum(p as nat, x, m) % p == 1,
    decreases m,
{
    if m == 1 {
        lemma_pow0(x);
        assert(binomial_sum(p as nat, x, 0) == 0);
        lemma_small_mod(1, p as nat);
    } else {
        let j = (m - 1) as nat;
        lemma_inner_terms_vanish(p, x, j);
        lemma_prime_divides_binom(p, j);
        let c = binom(p as nat, j) as int;
        lemma_mul_mod_noop_left(c, pow(x, j), p);
        assert((c % p) * pow(x, j) == 0) by (nonlinear_arith)
            requires
                c % p == 0,
        ;
        lemma_small_mod(0, p as nat);
        lemma_add_mod_noop(binomial_sum(p as nat, x, j), c * pow(x, j), p);
        lemma_small_mod(1, p as nat);
    }
}

/// `x^p` and `x` leave the same remainder modulo a prime `p`.
pub proof fn lemma_pow_prime_mod(p: int, x: nat)
    requires
        is_prime(p),
    ensures
        pow(x as int, p as nat) % p == (x as int) % p,
    decreases x,
{
    if x == 0 {
        lemma0_pow(p as nat);
    } else {
        let y = (x - 1) as int;
        lemma_pow_prime_mod(p, (x - 1) as nat);
        lemma_binomial_theorem(p as nat, y);
        lemma_inner_terms_vanish(p, y, p as nat);
        lemma_binom_all(p as nat);
        let s = binomial_sum(p as nat, y, p as nat);
        assert(binomial_sum(p as nat, y, p as nat + 1) == s + binom(p as nat, p as nat) * pow(
            y,
            p as nat,
        ));
        assert(pow(y + 1, p as nat) == s + pow(y, p as nat));
        lemma_add_mod_noop(s, pow(y, p as nat), p);
        lemma_add_mod_noop(1, y, p);
        lemma_small_mod(1, p as nat);
    }
}

/// Fermat's little theorem: `x^(p-1)` is one modulo a prime `p` that does not
/// divide `x`.
pub proof fn lemma_fermat(p: int, x: nat)
    requires
        is_prime(p),
        (x as int) % p != 0,
    ensures
        pow(x as int, (p - 1) as nat) % p == 1,
{
    let e = (p - 1) as nat;
    let w = pow(x as int, e);
    lemma_pow_prime_mod(p, x);
    reveal(pow);
    assert(pow(x as int, p as nat) == x * w);
    lemma_sub_mod_noop(x * w, x as int, p);
    lemma_small_mod(0, p as nat);
    assert((x * w - x) % p == 0);
    assert(x * w - x == x * (w - 1)) by (nonlinear_arith);
    let a = (x as int) % p;
    lemma_mul_mod_noop_left(x as int, w - 1, p);
    lemma_fundamental_div_mod(x as int, p);
    lemma_euclid(p, a, w - 1);
    lemma_sub_mod_noop(w, 1, p);
    lemma_add_mod_noop(w - 1, 1, p);
    lemma_small_mod(1, p as nat);
}

} // verus!
