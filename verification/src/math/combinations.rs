//! Binomial coefficients and related counts modulo a prime, from
//! precomputed factorials and inverse factorials.
use crate::math::numeric::{divides, euclid_gcd, is_multiple, lemma_bezout, lemma_gcd_divisors, lemma_gcd_shape, lemma_gcd_zero};
use crate::math::prime_factorization::{is_prime_number, lemma_divides_mod, lemma_mod_pow_step};
use vstd::arithmetic::div_mod::{lemma_mod_pos_bound, lemma_mul_mod_noop_left, lemma_mul_mod_noop_right, lemma_small_mod};
use vstd::arithmetic::power::{lemma_pow0, lemma_pow_mod_noop, pow};
use vstd::prelude::*;

verus! {

/// `n!`.
pub open spec fn factorial(n: nat) -> nat
    decreases n,
{
    if n == 0 {
        1
    } else {
        n * factorial((n - 1) as nat)
    }
}

/// `(lo + 1) * (lo + 2) * ... * hi`, which is `hi! / lo!` for `lo <= hi`.
pub open spec fn range_product(lo: nat, hi: nat) -> nat
    decreases hi - lo,
{
    if hi <= lo {
        1
    } else {
        range_product(lo, (hi - 1) as nat) * hi
    }
}

/// The inverse factorial table entry for `k` in a table built up to
/// `max_n` modulo `m`: `(max_n!)^(m - 2) * (max_n! / k!)` modulo `m`, which
/// by Fermat's little theorem is the inverse of `k!` when `m` is a prime
/// greater than `max_n`.
pub open spec fn inverse_factorial(k: nat, max_n: nat, m: int) -> int {
    (pow(factorial(max_n) as int, (m - 2) as nat) * range_product(k, max_n)) % m
}


/// Euclid's lemma: a prime dividing a product of nonnegative integers
/// divides one of the factors.
pub proof fn lemma_prime_divides_product(p: int, a: int, b: int)
    requires
        is_prime_number(p),
        a >= 0,
        b >= 0,
        divides(p, a * b),
    ensures
        divides(p, a) || divides(p, b),
{
    let g = euclid_gcd(p, a);
    lemma_gcd_shape(p, a);
    lemma_gcd_zero(p, a);
    assert(is_multiple(g, g, 1));
    lemma_gcd_divisors(p, a, g);
    let j = choose|j: int| is_multiple(p, g, j);
    assert(g <= p) by (nonlinear_arith)
        requires
            p == g * j,
            g > 0,
            p > 0,
    ;
    if g != p {
        if g >= 2 {
            assert(divides(g, p));
            assert(false);
        }
        assert(g == 1);
        let (x, y) = lemma_bezout(p, a);
        let k = choose|k: int| #[trigger] is_multiple(a * b, p, k);
        assert(is_multiple(b, p, b * x + k * y)) by (nonlinear_arith)
            requires
                p * x + a * y == 1,
                a * b == p * k,
        ;
    }
}

/// A prime does not divide any positive integer below it.
proof fn lemma_prime_not_divides_smaller(p: int, k: int)
    requires
        is_prime_number(p),
        0 < k < p,
    ensures
        !divides(p, k),
{
    if divides(p, k) {
        let j = choose|j: int| is_multiple(k, p, j);
        assert(false) by (nonlinear_arith)
            requires
                k == p * j,
                0 < k < p,
        ;
    }
}

/// A prime does not divide the factorial of a number below it.
pub proof fn lemma_prime_not_divides_factorial(p: int, k: nat)
    requires
        is_prime_number(p),
        k < p,
    ensures
        !divides(p, factorial(k) as int),
    decreases k,
{
    if k == 0 {
        assert(factorial(0) == 1);
        lemma_prime_not_divides_smaller(p, 1);
    } else {
        lemma_prime_not_divides_factorial(p, (k - 1) as nat);
        lemma_prime_not_divides_smaller(p, k as int);
        if divides(p, factorial(k) as int) {
            lemma_prime_divides_product(p, k as int, factorial((k - 1) as nat) as int);
        }
    }
}

/// The product of a sequence of integers.
pub open spec fn product(s: Seq<int>) -> int
    decreases s.len(),
{
    if s.len() == 0 {
        1
    } else {
        product(s.drop_last()) * s.last()
    }
}

proof fn lemma_product_concat(a: Seq<int>, b: Seq<int>)
    ensures
        product(a + b) == product(a) * product(b),
    decreases b.len(),
{
    if b.len() == 0 {
        assert(a + b =~= a);
    } else {
        lemma_product_concat(a, b.drop_last());
        assert((a + b).drop_last() =~= a + b.drop_last());
        assert(product(a) * product(b.drop_last()) * b.last() == product(a) * (product(
            b.drop_last(),
        ) * b.last())) by (nonlinear_arith);
    }
}

proof fn lemma_product_remove(s: Seq<int>, k: int)
    requires
        0 <= k < s.len(),
    ensures
        product(s) == product(s.remove(k)) * s[k],
{
    let pre = s.take(k);
    let post = s.skip(k + 1);
    assert(s =~= pre + seq![s[k]] + post);
    assert(s.remove(k) =~= pre + post);
    lemma_product_concat(pre + seq![s[k]], post);
    lemma_product_concat(pre, seq![s[k]]);
    lemma_product_concat(pre, post);
    assert(seq![s[k]].drop_last() =~= Seq::<int>::empty());
    assert(product(Seq::<int>::empty()) == 1);
    assert(product(seq![s[k]]) == s[k]);
    assert(product(pre) * s[k] * product(post) == product(pre) * product(post) * s[k])
        by (nonlinear_arith);
}

/// Sequences with the same elements, counted with multiplicity, have the
/// same product.
proof fn lemma_product_permutation(s: Seq<int>, t: Seq<int>)
    requires
        s.to_multiset() == t.to_multiset(),
    ensures
        product(s) == product(t),
    decreases s.len(),
{
    broadcast use vstd::seq_lib::to_multiset_contains, vstd::seq_lib::to_multiset_remove, vstd::seq_lib::to_multiset_len;

    vstd::seq_lib::to_multiset_len(s);
    vstd::seq_lib::to_multiset_len(t);
    if s.len() == 0 {
        assert(t.len() == 0);
    } else {
        let x = s.last();
        assert(s.drop_last().push(x) =~= s);
        vstd::seq_lib::to_multiset_build(s.drop_last(), x);
        assert(s.to_multiset().count(x) > 0) by {
            vstd::seq_lib::to_multiset_contains(s, x);
            assert(s.contains(x)) by {
                assert(s[s.len() - 1] == x);
            }
        }
        assert(t.contains(x)) by {
            vstd::seq_lib::to_multiset_contains(t, x);
        }
        let k = choose|k: int| 0 <= k < t.len() && t[k] == x;
        vstd::seq_lib::to_multiset_remove(t, k);
        assert(s.drop_last().to_multiset() =~= t.remove(k).to_multiset()) by {
            broadcast use vstd::multiset::group_multiset_axioms;

        }
        lemma_product_permutation(s.drop_last(), t.remove(k));
        lemma_product_remove(t, k);
    }
}



/// Equal remainders modulo `p` differ by a multiple of `p`.
proof fn lemma_same_remainder(x: int, y: int, p: int)
    requires
        p > 0,
        x % p == y % p,
    ensures
        divides(p, y - x),
{
    vstd::arithmetic::div_mod::lemma_fundamental_div_mod(x, p);
    vstd::arithmetic::div_mod::lemma_fundamental_div_mod(y, p);
    assert(is_multiple(y - x, p, y / p - x / p)) by (nonlinear_arith)
        requires
            x == p * (x / p) + x % p,
            y == p * (y / p) + y % p,
            x % p == y % p,
    ;
}

/// `[1, 2, ..., n]`.
spec fn one_to(n: nat) -> Seq<int> {
    Seq::new(n, |i: int| i + 1)
}

/// `[a, 2a, ..., na]`.
spec fn multiples(a: int, n: nat) -> Seq<int> {
    Seq::new(n, |i: int| a * (i + 1))
}

/// `[a mod p, 2a mod p, ..., na mod p]`.
spec fn multiples_mod(a: int, p: int, n: nat) -> Seq<int> {
    Seq::new(n, |i: int| (a * (i + 1)) % p)
}

proof fn lemma_product_one_to(n: nat)
    ensures
        product(one_to(n)) == factorial(n),
    decreases n,
{
    if n > 0 {
        lemma_product_one_to((n - 1) as nat);
        assert(one_to(n).drop_last() =~= one_to((n - 1) as nat));
        let f = factorial((n - 1) as nat);
        assert(f * n == n * f) by (nonlinear_arith);
    } else {
        assert(one_to(0) =~= Seq::<int>::empty());
    }
}

proof fn lemma_product_multiples(a: int, n: nat)
    ensures
        product(multiples(a, n)) == pow(a, n) * factorial(n),
    decreases n,
{
    reveal(pow);
    if n > 0 {
        lemma_product_multiples(a, (n - 1) as nat);
        assert(multiples(a, n).drop_last() =~= multiples(a, (n - 1) as nat));
        let q = pow(a, (n - 1) as nat);
        let f = factorial((n - 1) as nat);
        assert(q * f * (a * n) == (a * q) * (n * f)) by (nonlinear_arith);
    } else {
        assert(multiples(a, 0) =~= Seq::<int>::empty());
    }
}

proof fn lemma_product_multiples_mod(a: int, p: int, n: nat)
    requires
        p > 0,
    ensures
        product(multiples_mod(a, p, n)) % p == product(multiples(a, n)) % p,
    decreases n,
{
    if n > 0 {
        lemma_product_multiples_mod(a, p, (n - 1) as nat);
        assert(multiples_mod(a, p, n).drop_last() =~= multiples_mod(a, p, (n - 1) as nat));
        assert(multiples(a, n).drop_last() =~= multiples(a, (n - 1) as nat));
        let x = product(multiples_mod(a, p, (n - 1) as nat));
        let y = product(multiples(a, (n - 1) as nat));
        let t = a * n;
        vstd::arithmetic::div_mod::lemma_mul_mod_noop(x, t % p, p);
        vstd::arithmetic::div_mod::lemma_mul_mod_noop(y, t, p);
        vstd::arithmetic::div_mod::lemma_mod_twice(t, p);
    } else {
        assert(multiples_mod(a, p, 0) =~= Seq::<int>::empty());
        assert(multiples(a, 0) =~= Seq::<int>::empty());
    }
}

/// For a prime `p` not dividing `a`, the residues `a, 2a, ..., (p-1)a`
/// modulo `p` are `1, ..., p - 1` in some order.
proof fn lemma_multiples_permute(a: int, p: int)
    requires
        is_prime_number(p),
        a >= 0,
        !divides(p, a),
    ensures
        multiples_mod(a, p, (p - 1) as nat).to_multiset() == one_to((p - 1) as nat).to_multiset(),
{
    let n = (p - 1) as nat;
    let s = multiples_mod(a, p, n);
    let t = one_to(n);
    assert forall|i: int| 0 <= i < n implies 1 <= #[trigger] s[i] < p by {
        vstd::arithmetic::div_mod::lemma_mod_bound(a * (i + 1), p);
        if s[i] == 0 {
            lemma_divides_mod(p, a * (i + 1));
            lemma_prime_divides_product(p, a, i + 1);
            lemma_prime_not_divides_smaller(p, i + 1);
        }
    }
    assert(s.no_duplicates()) by {
        assert forall|i: int, j: int| 0 <= i < s.len() && 0 <= j < s.len() && i != j implies s[i]
            != s[j] by {
            if s[i] == s[j] {
                let (lo, hi) = if i < j {
                    (i, j)
                } else {
                    (j, i)
                };
                lemma_same_remainder(a * (lo + 1), a * (hi + 1), p);
                assert(a * (hi + 1) - a * (lo + 1) == a * (hi - lo)) by (nonlinear_arith);
                lemma_prime_divides_product(p, a, hi - lo);
                lemma_prime_not_divides_smaller(p, hi - lo);
            }
        }
    }
    assert(t.no_duplicates());
    s.unique_seq_to_set();
    t.unique_seq_to_set();
    assert(s.to_set().subset_of(t.to_set())) by {
        assert forall|x: int| s.to_set().contains(x) implies t.to_set().contains(x) by {
            let i = choose|i: int| 0 <= i < s.len() && s[i] == x;
            assert(t[x - 1] == x);
        }
    }
    vstd::seq_lib::seq_to_set_is_finite(s);
    vstd::seq_lib::seq_to_set_is_finite(t);
    vstd::set_lib::lemma_subset_equality(s.to_set(), t.to_set());
    s.lemma_multiset_has_no_duplicates();
    t.lemma_multiset_has_no_duplicates();
    assert forall|x: int| s.to_multiset().count(x) == t.to_multiset().count(x) by {
        vstd::seq_lib::to_multiset_contains(s, x);
        vstd::seq_lib::to_multiset_contains(t, x);
        assert(s.contains(x) <==> s.to_set().contains(x));
        assert(t.contains(x) <==> t.to_set().contains(x));
    }
    assert(s.to_multiset() =~= t.to_multiset());
}

/// Fermat's little theorem: for a prime `p` not dividing `a`,
/// `a^(p-1)` is `1` modulo `p`.
pub proof fn lemma_fermat_little(a: int, p: int)
    requires
        is_prime_number(p),
        a >= 0,
        !divides(p, a),
    ensures
        pow(a, (p - 1) as nat) % p == 1,
{
    let n = (p - 1) as nat;
    lemma_multiples_permute(a, p);
    lemma_product_permutation(multiples_mod(a, p, n), one_to(n));
    lemma_product_one_to(n);
    lemma_product_multiples(a, n);
    lemma_product_multiples_mod(a, p, n);
    let f = factorial(n) as int;
    let q = pow(a, n);
    assert(a != 0) by {
        assert(is_multiple(0, p, 0));
    }
    vstd::arithmetic::power::lemma_pow_positive(a, n);
    lemma_same_remainder(f, q * f, p);
    assert(q * f - f == (q - 1) * f) by (nonlinear_arith);
    lemma_prime_divides_product(p, q - 1, f);
    lemma_prime_not_divides_factorial(p, n);
    lemma_divides_mod(p, q - 1);
    vstd::arithmetic::div_mod::lemma_fundamental_div_mod(q - 1, p);
    vstd::arithmetic::div_mod::lemma_fundamental_div_mod_converse_mod(q, p, (q - 1) / p, 1);
}


/// The binomial coefficient `n choose k`, by Pascal's rule.
pub open spec fn binomial(n: nat, k: nat) -> nat
    decreases n,
{
    if k == 0 {
        1
    } else if n == 0 {
        0
    } else {
        binomial((n - 1) as nat, (k - 1) as nat) + binomial((n - 1) as nat, k)
    }
}

proof fn lemma_binomial_above(n: nat, k: nat)
    requires
        k > n,
    ensures
        binomial(n, k) == 0,
    decreases n,
{
    if n > 0 {
        lemma_binomial_above((n - 1) as nat, (k - 1) as nat);
        lemma_binomial_above((n - 1) as nat, k);
    }
}

/// `n! = (n choose k) * k! * (n - k)!`.
pub proof fn lemma_binomial_factorial(n: nat, k: nat)
    requires
        k <= n,
    ensures
        binomial(n, k) * factorial(k) * factorial((n - k) as nat) == factorial(n),
    decreases n,
{
    if k == 0 {
        assert(factorial(0) == 1);
        assert(binomial(n, 0) == 1);
        assert((n - k) as nat == n);
        let x = factorial(n);
        assert(1 * 1 * x == x) by (nonlinear_arith);
    } else {
        let f = factorial((n - 1) as nat);
        lemma_binomial_factorial((n - 1) as nat, (k - 1) as nat);
        let b1 = binomial((n - 1) as nat, (k - 1) as nat);
        let b2 = binomial((n - 1) as nat, k);
        let fk1 = factorial((k - 1) as nat);
        let fnk = factorial((n - k) as nat);
        assert(factorial(k) == k * fk1);
        assert(b1 * fk1 * fnk == f);
        let t1 = b1 * factorial(k) * fnk;
        assert(t1 == k * f) by (nonlinear_arith)
            requires
                t1 == b1 * factorial(k) * fnk,
                factorial(k) == k * fk1,
                b1 * fk1 * fnk == f,
        ;
        let t2 = b2 * factorial(k) * fnk;
        if k == n {
            lemma_binomial_above((n - 1) as nat, k);
            assert(t2 == 0) by (nonlinear_arith)
                requires
                    t2 == b2 * factorial(k) * fnk,
                    b2 == 0,
            ;
            assert(t2 == (n - k) * f);
        } else {
            lemma_binomial_factorial((n - 1) as nat, k);
            let fnk1 = factorial((n - 1 - k) as nat);
            assert(fnk == (n - k) * fnk1);
            assert(b2 * factorial(k) * fnk1 == f);
            assert(t2 == (n - k) * f) by (nonlinear_arith)
                requires
                    t2 == b2 * factorial(k) * fnk,
                    fnk == (n - k) * fnk1,
                    b2 * factorial(k) * fnk1 == f,
            ;
        }
        assert(binomial(n, k) == b1 + b2);
        assert(factorial(n) == n * f);
        assert(binomial(n, k) * factorial(k) * fnk == t1 + t2) by (nonlinear_arith)
            requires
                binomial(n, k) == b1 + b2,
                t1 == b1 * factorial(k) * fnk,
                t2 == b2 * factorial(k) * fnk,
        ;
        assert(t1 + t2 == n * f) by (nonlinear_arith)
            requires
                t1 == k * f,
                t2 == (n - k) * f,
        ;
        assert(binomial(n, k) * factorial(k) * factorial((n - k) as nat) == factorial(n));
    }
}

/// `k! * ((k + 1) * ... * n) = n!`.
proof fn lemma_factorial_split(k: nat, n: nat)
    requires
        k <= n,
    ensures
        factorial(k) * range_product(k, n) == factorial(n),
    decreases n - k,
{
    if k < n {
        lemma_factorial_split(k, (n - 1) as nat);
        let f = factorial(k);
        let r = range_product(k, (n - 1) as nat);
        assert(range_product(k, n) == r * n);
        assert(factorial(n) == n * factorial((n - 1) as nat));
        assert(f * (r * n) == n * (f * r)) by (nonlinear_arith);
    } else {
        assert(range_product(k, n) == 1);
    }
}

/// When the modulus is a prime greater than `max_n`, the inverse factorial
/// table entry for `k` is the inverse of `k!`.
pub proof fn lemma_inverse_factorial(k: nat, max_n: nat, m: int)
    requires
        is_prime_number(m),
        k <= max_n < m,
    ensures
        ((factorial(k) as int % m) * inverse_factorial(k, max_n, m)) % m == 1,
{
    let big = factorial(max_n) as int;
    let e = (m - 2) as nat;
    let q = pow(big, e);
    let rp = range_product(k, max_n) as int;
    let fk = factorial(k) as int;
    lemma_factorial_split(k, max_n);
    vstd::arithmetic::div_mod::lemma_mul_mod_noop(fk, q * rp, m);
    vstd::arithmetic::div_mod::lemma_mod_twice(q * rp, m);
    vstd::arithmetic::div_mod::lemma_mul_mod_noop(fk % m, q * rp, m);
    assert(fk * (q * rp) == q * big) by (nonlinear_arith)
        requires
            fk * rp == big,
    ;
    vstd::arithmetic::power::lemma_pow_adds(big, e, 1);
    vstd::arithmetic::power::lemma_pow1(big);
    assert(e + 1 == (m - 1) as nat);
    lemma_prime_not_divides_factorial(m, max_n);
    lemma_fermat_little(big, m);
}

/// When the modulus is a prime greater than `max_n`, the value `n_c_r`
/// computes from the tables is the binomial coefficient modulo the prime.
pub proof fn lemma_n_c_r_is_binomial(n: nat, r: nat, max_n: nat, m: int)
    requires
        is_prime_number(m),
        r <= n <= max_n < m,
    ensures
        ((factorial(n) as int % m) * ((inverse_factorial(r, max_n, m) * inverse_factorial(
            (n - r) as nat,
            max_n,
            m,
        )) % m)) % m == binomial(n, r) as int % m,
{
    let a = factorial(n) as int;
    let i1 = inverse_factorial(r, max_n, m);
    let i2 = inverse_factorial((n - r) as nat, max_n, m);
    let b = binomial(n, r) as int;
    let f1 = factorial(r) as int;
    let f2 = factorial((n - r) as nat) as int;
    lemma_binomial_factorial(n, r);
    lemma_inverse_factorial(r, max_n, m);
    lemma_inverse_factorial((n - r) as nat, max_n, m);
    vstd::arithmetic::div_mod::lemma_mul_mod_noop_left(f1, i1, m);
    vstd::arithmetic::div_mod::lemma_mul_mod_noop_left(f2, i2, m);
    let u = f1 * i1;
    let v = f2 * i2;
    vstd::arithmetic::div_mod::lemma_mul_mod_noop_left(a, (i1 * i2) % m, m);
    vstd::arithmetic::div_mod::lemma_mul_mod_noop_right(a, i1 * i2, m);
    assert(a * (i1 * i2) == b * u * v) by (nonlinear_arith)
        requires
            a == b * f1 * f2,
            u == f1 * i1,
            v == f2 * i2,
    ;
    vstd::arithmetic::div_mod::lemma_mul_mod_noop(b, u, m);
    vstd::arithmetic::div_mod::lemma_mul_mod_noop(b * u, v, m);
    vstd::arithmetic::div_mod::lemma_mod_twice(b, m);
    vstd::arithmetic::div_mod::lemma_mod_twice(b * u, m);
}

/// When the modulus is a prime greater than `max_n`, the value `n_p_r`
/// computes from the tables is `n! / (n - r)!` modulo the prime.
pub proof fn lemma_n_p_r_is_falling_factorial(n: nat, r: nat, max_n: nat, m: int)
    requires
        is_prime_number(m),
        r <= n <= max_n < m,
    ensures
        ((factorial(n) as int % m) * inverse_factorial((n - r) as nat, max_n, m)) % m
            == range_product((n - r) as nat, n) as int % m,
{
    let a = factorial(n) as int;
    let i2 = inverse_factorial((n - r) as nat, max_n, m);
    let f2 = factorial((n - r) as nat) as int;
    let rp = range_product((n - r) as nat, n) as int;
    lemma_factorial_split((n - r) as nat, n);
    lemma_inverse_factorial((n - r) as nat, max_n, m);
    vstd::arithmetic::div_mod::lemma_mul_mod_noop_left(f2, i2, m);
    vstd::arithmetic::div_mod::lemma_mul_mod_noop_left(a, i2, m);
    let v = f2 * i2;
    assert(a * i2 == rp * v) by (nonlinear_arith)
        requires
            a == f2 * rp,
            v == f2 * i2,
    ;
    vstd::arithmetic::div_mod::lemma_mul_mod_noop(rp, v, m);
    vstd::arithmetic::div_mod::lemma_mod_twice(rp, m);
}

/// Peeling the lowest factor off a range product.
#[verifier::spinoff_prover]
proof fn lemma_range_product_step(lo: nat, hi: nat)
    requires
        lo < hi,
    ensures
        range_product(lo, hi) == (lo + 1) * range_product((lo + 1) as nat, hi),
    decreases hi - lo,
{
    let whole = range_product(lo, hi);
    let below = range_product(lo, (hi - 1) as nat);
    assert(whole == below * hi);
    if lo + 1 == hi {
        assert(below == 1);
        assert(range_product((lo + 1) as nat, hi) == 1);
        assert(whole == (lo + 1) * 1) by (nonlinear_arith)
            requires
                whole == below * hi,
                below == 1,
                hi == lo + 1,
        ;
    } else {
        lemma_range_product_step(lo, (hi - 1) as nat);
        let a = range_product((lo + 1) as nat, (hi - 1) as nat);
        assert(below == (lo + 1) * a);
        assert(range_product((lo + 1) as nat, hi) == a * hi);
        assert(whole == (lo + 1) * (a * hi)) by (nonlinear_arith)
            requires
                whole == below * hi,
                below == (lo + 1) * a,
        ;
    }
}

/// `(a * b) % m` for residues whose product fits in `u64`.
fn mul_mod(a: u64, b: u64, m: u64) -> (r: u64)
    requires
        a < m,
        b < m,
        (m - 1) * (m - 1) <= u64::MAX,
    ensures
        r == (a as int * b as int) % m as int,
{
    assert(a * b <= (m - 1) * (m - 1)) by (nonlinear_arith)
        requires
            a < m,
            b < m,
    ;
    (a * b) % m
}

/// `base^exp % modulo` by binary exponentiation.
fn mod_pow(base: u64, exp: u64, modulo: u64) -> (r: u64)
    requires
        modulo >= 2,
        (modulo - 1) * (modulo - 1) <= u64::MAX,
    ensures
        r == pow(base as int, exp as nat) % modulo as int,
{
    let mut res: u64 = 1;
    let mut b = base % modulo;
    let mut e = exp;
    proof {
        lemma_small_mod(1, modulo as nat);
        lemma_pow_mod_noop(base as int, exp as nat, modulo as int);
        lemma_mod_pos_bound(base as int, modulo as int);
        vstd::arithmetic::div_mod::lemma_mod_twice(base as int, modulo as int);
        lemma_pow_mod_noop(b as int, exp as nat, modulo as int);
    }
    while e > 0
        invariant
            modulo >= 2,
            (modulo - 1) * (modulo - 1) <= u64::MAX,
            res < modulo,
            b < modulo,
            (res * pow(b as int, e as nat)) % modulo as int == pow(base as int, exp as nat)
                % modulo as int,
        decreases e,
    {
        proof {
            lemma_mod_pow_step(res as int, b as int, e as nat, modulo as int);
        }
        if e % 2 == 1 {
            res = mul_mod(res, b, modulo);
        }
        b = mul_mod(b, b, modulo);
        e = e / 2;
    }
    proof {
        lemma_pow0(b as int);
        lemma_small_mod(res as nat, modulo as nat);
    }
    res
}

/// Combinatorics over precomputed factorials modulo `modulo`.
pub struct Combination {
    fact: Vec<u64>,
    inv_fact: Vec<u64>,
    modulo: u64,
}

impl Combination {
    /// The largest `n` the tables cover.
    pub closed spec fn max_n(&self) -> nat {
        (self.fact@.len() - 1) as nat
    }

    /// The modulus.
    pub closed spec fn modulus(&self) -> int {
        self.modulo as int
    }

    /// The tables hold `k! mod m` and the inverse factorial entries for
    /// every `k <= max_n`.
    pub closed spec fn wf(&self) -> bool {
        &&& 1 <= self.fact@.len() <= usize::MAX
        &&& self.inv_fact@.len() == self.fact@.len()
        &&& self.modulo >= 2
        &&& (self.modulo - 1) * (self.modulo - 1) <= u64::MAX
        &&& forall|k: int|
            0 <= k < self.fact@.len() ==> #[trigger] self.fact@[k] == (factorial(k as nat) as int)
                % self.modulo as int
        &&& forall|k: int|
            0 <= k < self.inv_fact@.len() ==> #[trigger] self.inv_fact@[k] == inverse_factorial(
                k as nat,
                self.max_n(),
                self.modulo as int,
            )
    }

    /// Precomputes factorials and inverse factorials modulo `modulo` up to
    /// `max_n`. The inverses are valid when `modulo` is a prime greater
    /// than `max_n` (Fermat's little theorem).
    pub fn new(max_n: usize, modulo: u64) -> (r: Self)
        requires
            max_n < usize::MAX,
            modulo >= 2,
            (modulo - 1) * (modulo - 1) <= u64::MAX,
            (modulo - 1) * max_n <= u64::MAX,
        ensures
            r.wf(),
            r.max_n() == max_n,
            r.modulus() == modulo,
    {
        let mut fact = vec![1u64; max_n + 1];
        let mut inv_fact = vec![1u64; max_n + 1];
        let ghost m = modulo as int;
        proof {
            lemma_small_mod(1, modulo as nat);
        }
        let mut i: usize = 1;
        while i <= max_n
            invariant
                1 <= i <= max_n + 1,
                max_n < usize::MAX,
                fact@.len() == max_n + 1,
                m == modulo,
                modulo >= 2,
                (modulo - 1) * max_n <= u64::MAX,
                forall|k: int| 0 <= k < i ==> #[trigger] fact@[k] == (factorial(k as nat) as int) % m,
            decreases max_n + 1 - i,
        {
            let previous = fact[i - 1];
            proof {
                lemma_mod_pos_bound(factorial((i - 1) as nat) as int, m);
                assert(previous * i <= (modulo - 1) * max_n) by (nonlinear_arith)
                    requires
                        previous <= modulo - 1,
                        i <= max_n,
                ;
                lemma_mul_mod_noop_left(factorial((i - 1) as nat) as int, i as int, m);
                assert(factorial(i as nat) == factorial((i - 1) as nat) * i) by (nonlinear_arith)
                    requires
                        i >= 1,
                        factorial(i as nat) == i * factorial((i - 1) as nat),
                ;
            }
            fact.set(i, (previous * i as u64) % modulo);
            i += 1;
        }
        let top = mod_pow(fact[max_n], modulo - 2, modulo);
        proof {
            let e = (m - 2) as nat;
            assert(fact@[max_n as int] == (factorial(max_n as nat) as int) % m);
            lemma_pow_mod_noop(factorial(max_n as nat) as int, e, m);
            assert(top == pow(factorial(max_n as nat) as int, e) % m);
            let pw = pow(factorial(max_n as nat) as int, e);
            assert(range_product(max_n as nat, max_n as nat) == 1);
            assert(pw * range_product(max_n as nat, max_n as nat) == pw);
            assert(inverse_factorial(max_n as nat, max_n as nat, m) == (pw * range_product(max_n as nat, max_n as nat)) % m);
            assert(top == inverse_factorial(max_n as nat, max_n as nat, m));
        }
        inv_fact.set(max_n, top);
        let mut j: usize = max_n;
        while j > 0
            invariant
                j <= max_n,
                inv_fact@.len() == max_n + 1,
                m == modulo,
                modulo >= 2,
                (modulo - 1) * max_n <= u64::MAX,
                forall|k: int|
                    j <= k <= max_n ==> #[trigger] inv_fact@[k] == inverse_factorial(
                        k as nat,
                        max_n as nat,
                        m,
                    ),
            decreases j,
        {
            let current = inv_fact[j];
            proof {
                let p = pow(factorial(max_n as nat) as int, (m - 2) as nat);
                let rp = range_product((j - 1) as nat, max_n as nat);
                lemma_range_product_step((j - 1) as nat, max_n as nat);
                vstd::arithmetic::div_mod::lemma_mod_bound(p * range_product(j as nat, max_n as nat), m);
                assert(current * j <= (modulo - 1) * max_n) by (nonlinear_arith)
                    requires
                        current <= modulo - 1,
                        j <= max_n,
                ;
                lemma_mul_mod_noop_left(p * range_product(j as nat, max_n as nat), j as int, m);
                assert(p * range_product(j as nat, max_n as nat) * j == p * rp) by (nonlinear_arith)
                    requires
                        rp == j * range_product(j as nat, max_n as nat),
                ;
            }
            inv_fact.set(j - 1, (current * j as u64) % modulo);
            j -= 1;
        }
        Combination { fact, inv_fact, modulo }
    }

    /// Calculates nCr (n choose r) modulo M: `n! * inv(r!) * inv((n - r)!)`.
    pub fn n_c_r(&self, n: usize, r: usize) -> (result: u64)
        requires
            self.wf(),
            r > n || n <= self.max_n(),
        ensures
            r > n ==> result == 0,
            r <= n ==> result == ((factorial(n as nat) as int) % self.modulus() * ((inverse_factorial(
                r as nat,
                self.max_n(),
                self.modulus(),
            ) * inverse_factorial((n - r) as nat, self.max_n(), self.modulus()))
                % self.modulus())) % self.modulus(),
    {
        if r > n {
            return 0;
        }
        let numer = self.fact[n];
        let left = self.inv_fact[r];
        let right = self.inv_fact[n - r];
        proof {
            self.lemma_entries_below_modulus();
        }
        let denom = mul_mod(left, right, self.modulo);
        mul_mod(numer, denom, self.modulo)
    }

    /// Calculates nPr (n permute r) modulo M: `n! * inv((n - r)!)`.
    pub fn n_p_r(&self, n: usize, r: usize) -> (result: u64)
        requires
            self.wf(),
            r > n || n <= self.max_n(),
        ensures
            r > n ==> result == 0,
            r <= n ==> result == ((factorial(n as nat) as int) % self.modulus() * inverse_factorial(
                (n - r) as nat,
                self.max_n(),
                self.modulus(),
            )) % self.modulus(),
    {
        if r > n {
            return 0;
        }
        let numer = self.fact[n];
        let denom = self.inv_fact[n - r];
        proof {
            self.lemma_entries_below_modulus();
        }
        mul_mod(numer, denom, self.modulo)
    }

    /// Calculates nHr (n multichoose r) modulo M, which is `(n + r - 1) C r`.
    pub fn n_h_r(&self, n: usize, r: usize) -> (result: u64)
        requires
            self.wf(),
            n == 0 || n + r - 1 <= self.max_n(),
        ensures
            n == 0 && r == 0 ==> result == 1,
            n == 0 && r > 0 ==> result == 0,
            n > 0 ==> result == ((factorial((n + r - 1) as nat) as int) % self.modulus() * ((
            inverse_factorial(r as nat, self.max_n(), self.modulus()) * inverse_factorial(
                (n - 1) as nat,
                self.max_n(),
                self.modulus(),
            )) % self.modulus())) % self.modulus(),
    {
        if n == 0 && r == 0 {
            return 1;
        }
        if n == 0 {
            return 0;
        }
        self.n_c_r(n + r - 1, r)
    }

    /// Returns the factorial of `n` modulo M.
    pub fn fact(&self, n: usize) -> (result: u64)
        requires
            self.wf(),
            n <= self.max_n(),
        ensures
            result == (factorial(n as nat) as int) % self.modulus(),
    {
        self.fact[n]
    }

    /// Returns the inverse factorial of `n` modulo M.
    pub fn inv_fact(&self, n: usize) -> (result: u64)
        requires
            self.wf(),
            n <= self.max_n(),
        ensures
            result == inverse_factorial(n as nat, self.max_n(), self.modulus()),
    {
        self.inv_fact[n]
    }

    /// Every table entry is below the modulus.
    proof fn lemma_entries_below_modulus(&self)
        requires
            self.wf(),
        ensures
            forall|k: int| 0 <= k < self.fact@.len() ==> #[trigger] self.fact@[k] < self.modulo,
            forall|k: int|
                0 <= k < self.inv_fact@.len() ==> #[trigger] self.inv_fact@[k] < self.modulo,
    {
        assert forall|k: int| 0 <= k < self.fact@.len() implies #[trigger] self.fact@[k]
            < self.modulo by {
            lemma_mod_pos_bound(factorial(k as nat) as int, self.modulo as int);
        }
        assert forall|k: int| 0 <= k < self.inv_fact@.len() implies #[trigger] self.inv_fact@[k]
            < self.modulo by {
            vstd::arithmetic::div_mod::lemma_mod_bound(
                pow(factorial(self.max_n()) as int, (self.modulo - 2) as nat) * range_product(
                    k as nat,
                    self.max_n(),
                ),
                self.modulo as int,
            );
        }
    }
}

} // verus!
