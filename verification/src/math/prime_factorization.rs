//! Prime factorization of 64-bit unsigned integers with the deterministic
//! Miller-Rabin test and Pollard's rho algorithm.
use crate::math::numeric::{euclid_gcd, trunc_rem, lemma_gcd_shape, lemma_gcd_divisors, lemma_gcd_zero, divides, is_multiple};
use vstd::arithmetic::power::{pow, lemma_pow0, lemma_pow1, lemma_pow_adds, lemma_pow_multiplies, lemma_pow_mod_noop};
use vstd::arithmetic::div_mod::{lemma_mul_mod_noop, lemma_mod_pos_bound, lemma_small_mod};
use vstd::prelude::*;
use vstd::std_specs::bits::u64_trailing_zeros;
use vstd::arithmetic::power2::pow2;
use crate::math::combinations::{lemma_fermat_little, lemma_prime_divides_product};

verus! {

/// `(lhs * rhs) % modulo`, computed without overflow.
fn mod_mul(lhs: u64, rhs: u64, modulo: u64) -> (r: u64)
    requires
        modulo > 0,
    ensures
        r == (lhs as int * rhs as int) % modulo as int,
{
    let a = lhs as u128;
    let b = rhs as u128;
    assert(a * b <= u64::MAX as int * u64::MAX as int) by (nonlinear_arith)
        requires
            a <= u64::MAX,
            b <= u64::MAX,
    ;
    let product = a * b;
    proof {
        lemma_mod_pos_bound(product as int, modulo as int);
    }
    (product % modulo as u128) as u64
}

/// The polynomial `value^2 + constant` modulo `modulo`.
fn polynomial(value: u64, constant: u64, modulo: u64) -> (r: u64)
    requires
        modulo > 0,
    ensures
        r == (value as int * value as int + constant as int) % modulo as int,
{
    let v = value as u128;
    assert(v * v <= u64::MAX as int * u64::MAX as int) by (nonlinear_arith)
        requires
            v <= u64::MAX,
    ;
    let square = v * v;
    let sum = square + constant as u128;
    proof {
        lemma_mod_pos_bound(sum as int, modulo as int);
    }
    (sum % modulo as u128) as u64
}

/// One step of binary exponentiation keeps `result * b^e` modulo `m`.
pub proof fn lemma_mod_pow_step(result: int, b: int, e: nat, m: int)
    requires
        m > 0,
        e > 0,
    ensures
        ((if e % 2 == 1 { (result * b) % m } else { result }) * pow((b * b) % m, e / 2)) % m
            == (result * pow(b, e)) % m,
{
    let q = (e / 2) as nat;
    let bit = (e % 2) as nat;
    assert(e == 2 * q + bit);
    lemma_pow_mod_noop(b * b, q, m);
    lemma_pow_multiplies(b, 2, q);
    assert(pow(b, 2) == b * b) by {
        reveal(pow);
        assert(pow(b, 0) == 1);
        assert(pow(b, 1) == b * pow(b, 0));
        assert(pow(b, 2) == b * pow(b, 1));
    }
    lemma_pow_adds(b, 2 * q, bit);
    let p = pow(b * b, q);
    let pm = pow((b * b) % m, q);
    assert(pow(b, e) == p * pow(b, bit));
    if bit == 1 {
        lemma_pow1(b);
        let x = result * b;
        vstd::arithmetic::div_mod::lemma_mul_mod_noop_left(x, pm, m);
        vstd::arithmetic::div_mod::lemma_mul_mod_noop_right(x, pm, m);
        vstd::arithmetic::div_mod::lemma_mul_mod_noop_right(x, p, m);
        assert(x * p == result * (p * b)) by (nonlinear_arith)
            requires
                x == result * b,
        ;
    } else {
        lemma_pow0(b);
        vstd::arithmetic::div_mod::lemma_mul_mod_noop_right(result, pm, m);
        vstd::arithmetic::div_mod::lemma_mul_mod_noop_right(result, p, m);
    }
}

/// `base^exponent % modulo` by binary exponentiation.
fn mod_pow(base: u64, exponent: u64, modulo: u64) -> (r: u64)
    requires
        modulo >= 2,
    ensures
        r == pow(base as int, exponent as nat) % modulo as int,
{
    let mut result = 1u64;
    let mut b = base;
    let mut e = exponent;
    proof {
        lemma_small_mod(1, modulo as nat);
        lemma_pow_mod_noop(base as int, exponent as nat, modulo as int);
    }
    while e > 0
        invariant
            modulo >= 2,
            result < modulo,
            (result * pow(b as int, e as nat)) % modulo as int == pow(base as int, exponent as nat)
                % modulo as int,
        decreases e,
    {
        proof {
            lemma_mod_pow_step(result as int, b as int, e as nat, modulo as int);
        }
        assert(e & 1 == e % 2) by (bit_vector);
        assert(e >> 1 == e / 2) by (bit_vector);
        if e & 1 == 1 {
            result = mod_mul(result, b, modulo);
        }
        b = mod_mul(b, b, modulo);
        e = e >> 1;
    }
    proof {
        lemma_pow0(b as int);
        lemma_small_mod(result as nat, modulo as nat);
    }
    result
}

/// Euclid's algorithm on `u64`.
fn gcd_u64(lhs: u64, rhs: u64) -> (r: u64)
    ensures
        r == euclid_gcd(lhs as int, rhs as int),
{
    let mut a = lhs;
    let mut b = rhs;
    while b != 0
        invariant
            euclid_gcd(a as int, b as int) == euclid_gcd(lhs as int, rhs as int),
        decreases b,
    {
        proof {
            lemma_mod_pos_bound(a as int, b as int);
        }
        let t = a % b;
        a = b;
        b = t;
    }
    a
}

/// The primes tried by trial division before the Miller-Rabin rounds.
pub open spec fn small_primes() -> Seq<u64> {
    seq![2, 3, 5, 7, 11, 13, 17, 19, 23, 29, 31, 37]
}

/// The bases that make Miller-Rabin exact on every 64-bit integer.
pub open spec fn witness_bases() -> Seq<u64> {
    seq![2, 325, 9_375, 28_178, 450_775, 9_780_504, 1_795_265_022]
}

/// `x` squared `j` times modulo `n`.
pub open spec fn square_chain(x: int, j: nat, n: int) -> int
    decreases j,
{
    if j == 0 {
        x
    } else {
        let y = square_chain(x, (j - 1) as nat, n);
        (y * y) % n
    }
}

/// The Miller-Rabin strong probable prime test of `n` to one base: with
/// `n - 1 = d * 2^s` and `d` odd, `x = a^d mod n` is `1`, or one of
/// `x, x^2, ..., x^(2^(s-1))` is `n - 1` modulo `n`.
pub open spec fn passes_base(n: u64, base: u64) -> bool {
    let a = base % n;
    let s = u64_trailing_zeros((n - 1) as u64);
    let d = ((n - 1) as u64) >> s;
    let x = pow(a as int, d as nat) % (n as int);
    ||| a == 0
    ||| x == 1
    ||| x == n - 1
    ||| exists|j: int| 1 <= j < s && #[trigger] square_chain(x, j as nat, n as int) == n - 1
}

/// The verdict of the deterministic Miller-Rabin test: `n` is one of the
/// small primes, or none of them divides it and it passes every base.
pub open spec fn miller_rabin_accepts(n: u64) -> bool {
    &&& n >= 2
    &&& small_primes().contains(n) || {
        &&& forall|i: int| 0 <= i < 12 ==> n % #[trigger] small_primes()[i] != 0
        &&& forall|i: int| 0 <= i < 7 ==> passes_base(n, #[trigger] witness_bases()[i])
    }
}

proof fn lemma_small_primes_distinct(i: int, k: int)
    requires
        0 <= i < 12,
        0 <= k < 12,
        i != k,
    ensures
        small_primes()[k] % small_primes()[i] != 0,
{
    let s = small_primes();
    assert(s[0] == 2 && s[1] == 3 && s[2] == 5 && s[3] == 7 && s[4] == 11 && s[5] == 13);
    assert(s[6] == 17 && s[7] == 19 && s[8] == 23 && s[9] == 29 && s[10] == 31 && s[11] == 37);
    let p = s[i];
    let q = s[k];
    assert(p == 2 || p == 3 || p == 5 || p == 7 || p == 11 || p == 13 || p == 17 || p == 19
        || p == 23 || p == 29 || p == 31 || p == 37);
    assert(q == 2 || q == 3 || q == 5 || q == 7 || q == 11 || q == 13 || q == 17 || q == 19
        || q == 23 || q == 29 || q == 31 || q == 37);
    assert(p != q);
}

/// The deterministic Miller-Rabin primality test.
fn is_prime(n: u64) -> (r: bool)
    ensures
        r == miller_rabin_accepts(n),
{
    if n < 2 {
        return false;
    }
    let small: [u64; 12] = [2, 3, 5, 7, 11, 13, 17, 19, 23, 29, 31, 37];
    assert(small@ == small_primes());
    let mut i: usize = 0;
    while i < 12
        invariant
            0 <= i <= 12,
            small@ == small_primes(),
            n >= 2,
            forall|k: int| 0 <= k < i ==> n % #[trigger] small_primes()[k] != 0,
        decreases 12 - i,
    {
        let prime = small[i];
        if n % prime == 0 {
            proof {
                if n != prime && small_primes().contains(n) {
                    let k = choose|k: int| 0 <= k < 12 && small_primes()[k] == n;
                    if k < i {
                        vstd::arithmetic::div_mod::lemma_mod_self_0(n as int);
                    } else {
                        lemma_small_primes_distinct(i as int, k);
                    }
                }
                if n == prime {
                    assert(small_primes()[i as int] == n);
                }
            }
            return n == prime;
        }
        i += 1;
    }
    proof {
        if small_primes().contains(n) {
            let k = choose|k: int| 0 <= k < 12 && small_primes()[k] == n;
            vstd::arithmetic::div_mod::lemma_mod_self_0(n as int);
            assert(n % small_primes()[k] != 0);
        }
    }
    let n1 = n - 1;
    let s = n1.trailing_zeros();
    proof {
        vstd::std_specs::bits::axiom_u64_trailing_zeros(n1);
    }
    let d = n1 >> s;
    let bases: [u64; 7] = [2, 325, 9_375, 28_178, 450_775, 9_780_504, 1_795_265_022];
    assert(bases@ == witness_bases());
    let mut b: usize = 0;
    while b < 7
        invariant
            0 <= b <= 7,
            bases@ == witness_bases(),
            n >= 2,
            n1 == n - 1,
            s == u64_trailing_zeros(n1),
            d == n1 >> s,
            !small_primes().contains(n),
            forall|k: int| 0 <= k < 12 ==> n % #[trigger] small_primes()[k] != 0,
            forall|k: int| 0 <= k < b ==> passes_base(n, #[trigger] witness_bases()[k]),
        decreases 7 - b,
    {
        let a = bases[b] % n;
        if a != 0 {
            let x = mod_pow(a, d, n);
            if x != 1 && x != n - 1 {
                let mut value = x;
                let mut j: u32 = 1;
                let mut found = false;
                while j < s && !found
                    invariant
                        1 <= j,
                        n >= 2,
                        found ==> j < s && square_chain(x as int, j as nat, n as int) == n - 1,
                        !found ==> value == square_chain(x as int, (j - 1) as nat, n as int),
                        !found ==> forall|k: int|
                            1 <= k < j ==> #[trigger] square_chain(x as int, k as nat, n as int)
                                != n - 1,
                    decreases s - j + (if found { 0int } else { 1int }),
                {
                    value = mod_mul(value, value, n);
                    if value == n - 1 {
                        found = true;
                    } else {
                        j += 1;
                    }
                }
                if !found {
                    proof {
                        assert(!passes_base(n, witness_bases()[b as int]));
                    }
                    return false;
                }
                proof {
                    let xi = x as int;
                    assert(xi == pow((witness_bases()[b as int] % n) as int, d as nat) % (n as int));
                    let ji = j as int;
                    assert(square_chain(xi, ji as nat, n as int) == n - 1);
                    assert(1 <= ji < u64_trailing_zeros((n - 1) as u64));
                    assert(passes_base(n, witness_bases()[b as int]));
                }
            }
        }
        b += 1;
    }
    true
}

/// The greatest common divisor of `value` and `n` is a positive divisor of `n`.
proof fn lemma_gcd_divides(value: u64, n: u64)
    requires
        n >= 1,
    ensures
        euclid_gcd(value as int, n as int) >= 1,
        (n as int) % euclid_gcd(value as int, n as int) == 0,
        euclid_gcd(value as int, n as int) <= n,
{
    let g = euclid_gcd(value as int, n as int);
    lemma_gcd_shape(value as int, n as int);
    lemma_gcd_zero(value as int, n as int);
    assert(is_multiple(g, g, 1));
    lemma_gcd_divisors(value as int, n as int, g);
    let k = choose|k: int| is_multiple(n as int, g, k);
    assert((n as int) % g == 0 && g <= n) by (nonlinear_arith)
        requires
            n == g * k,
            g >= 1,
            n >= 1,
    ;
}

/// A xorshift pseudo-random generator.
struct XorShift64 {
    state: u64,
}

impl XorShift64 {
    fn new(seed: u64) -> (r: Self)
        ensures
            r.state != 0,
    {
        Self {
            state: if seed == 0 {
                0x4d59_5df4_d0f3_3173
            } else {
                seed
            },
        }
    }

    fn next(&mut self) -> (r: u64)
        ensures
            r == final(self).state,
    {
        self.state = self.state ^ (self.state << 13u64);
        self.state = self.state ^ (self.state >> 7u64);
        self.state = self.state ^ (self.state << 17u64);
        self.state
    }
}

/// The distance between two values.
fn distance(a: u64, b: u64) -> (r: u64)
    ensures
        r == if a >= b { a - b } else { b - a },
{
    if a >= b {
        a - b
    } else {
        b - a
    }
}

/// Attempts bounding the search for a factor; each attempt restarts
/// Pollard's rho with fresh parameters.
const RHO_ATTEMPTS: u32 = 1024;

/// The first of the small primes, from position `i` on, that divides `n`.
pub open spec fn first_small_factor_from(n: u64, i: int) -> Option<u64>
    decreases 12 - i,
{
    if i < 0 || i >= 12 {
        None
    } else if n % small_primes()[i] == 0 {
        Some(small_primes()[i])
    } else {
        first_small_factor_from(n, i + 1)
    }
}

/// Finds a nontrivial divisor of `n`, which the Miller-Rabin test
/// rejected: a small prime factor if there is one, else one found by
/// Pollard's rho with Brent's cycle detection. Should a bounded number of
/// attempts all fail, trial division finds the divisor instead.
fn pollard_rho(n: u64) -> (r: u64)
    requires
        n >= 2,
        !miller_rabin_accepts(n),
    ensures
        1 < r < n,
        (n as int) % (r as int) == 0,
        first_small_factor_from(n, 0) is Some ==> first_small_factor_from(n, 0) == Some(r),
{
    let small: [u64; 12] = [2, 3, 5, 7, 11, 13, 17, 19, 23, 29, 31, 37];
    assert(small@ == small_primes());
    let mut i: usize = 0;
    while i < 12
        invariant
            0 <= i <= 12,
            small@ == small_primes(),
            n >= 2,
            !miller_rabin_accepts(n),
            forall|k: int| 0 <= k < i ==> n % #[trigger] small_primes()[k] != 0,
            first_small_factor_from(n, 0) == first_small_factor_from(n, i as int),
        decreases 12 - i,
    {
        let prime = small[i];
        if n % prime == 0 {
            proof {
                assert(first_small_factor_from(n, i as int) == Some(prime));
                if n == prime {
                    assert(small_primes()[i as int] == n);
                }
                if n < prime {
                    lemma_small_mod(n as nat, prime as nat);
                }
            }
            return prime;
        }
        proof {
            assert(first_small_factor_from(n, i as int) == first_small_factor_from(n, i + 1));
        }
        i += 1;
    }
    assert(n % 2 != 0 && n > 2) by {
        assert(small_primes()[0] == 2);
    }
    let mut random = XorShift64::new(n ^ 0x9e37_79b9_7f4a_7c15);
    let mut attempts: u32 = 0;
    assert(first_small_factor_from(n, 0) is None) by {
        assert(first_small_factor_from(n, 12) is None);
    }
    while attempts < RHO_ATTEMPTS
        invariant
            n >= 3,
            first_small_factor_from(n, 0) is None,
        decreases RHO_ATTEMPTS - attempts,
    {
        attempts += 1;
        let mut y = random.next() % (n - 2) + 2;
        let constant = random.next() % (n - 1) + 1;
        let batch_size = 128u64;
        let mut cycle_length = 1u64;
        let mut gcd = 1u64;
        let mut x = 0u64;
        let mut saved_y = 0u64;
        let mut rounds: u32 = 0;

        // Brent's cycle detection batches gcd calculations, which is notably
        // faster than taking a gcd after every polynomial evaluation.
        while gcd == 1 && rounds < 64
            invariant
                n >= 3,
                batch_size == 128,
                gcd >= 1,
                gcd <= n,
                (n as int) % (gcd as int) == 0,
            decreases 64 - rounds,
        {
            rounds += 1;
            x = y;
            let mut step = 0u64;
            while step < cycle_length
                invariant
                    n >= 3,
                decreases cycle_length - step,
            {
                y = polynomial(y, constant, n);
                step += 1;
            }
            let mut processed = 0u64;
            while processed < cycle_length && gcd == 1
                invariant
                    n >= 3,
                    processed <= cycle_length,
                    batch_size == 128,
                    gcd >= 1,
                    gcd <= n,
                    (n as int) % (gcd as int) == 0,
                decreases cycle_length - processed,
            {
                saved_y = y;
                let rest = cycle_length - processed;
                let count = if batch_size < rest {
                    batch_size
                } else {
                    rest
                };
                let mut product = 1u64;
                let mut k = 0u64;
                while k < count
                    invariant
                        n >= 3,
                    decreases count - k,
                {
                    y = polynomial(y, constant, n);
                    product = mod_mul(product, distance(x, y), n);
                    k += 1;
                }
                gcd = gcd_u64(product, n);
                proof {
                    lemma_gcd_divides(product, n);
                }
                processed += count;
            }
            cycle_length = if cycle_length > u64::MAX / 2 {
                u64::MAX
            } else {
                cycle_length * 2
            };
        }

        if gcd == n {
            let mut steps = 0u64;
            let mut found = false;
            while steps < batch_size && !found
                invariant
                    n >= 3,
                    gcd >= 1,
                    gcd <= n,
                    (n as int) % (gcd as int) == 0,
                decreases batch_size - steps,
            {
                saved_y = polynomial(saved_y, constant, n);
                let gap = distance(x, saved_y);
                gcd = gcd_u64(gap, n);
                proof {
                    lemma_gcd_divides(gap, n);
                }
                if gcd > 1 {
                    found = true;
                }
                steps += 1;
            }
        }

        if gcd != n && gcd > 1 {
            return gcd;
        }
    }
    let d = smallest_divisor(n);
    proof {
        if d == n {
            lemma_primes_accepted(n);
        }
    }
    d
}

/// `p` is a prime number: at least 2 and divisible by no integer strictly
/// between 1 and itself.
pub open spec fn is_prime_number(p: int) -> bool {
    p >= 2 && forall|k: int| 2 <= k < p ==> !#[trigger] divides(k, p)
}

/// A factor the algorithm certifies as prime: the deterministic Miller-Rabin
/// test accepts it.
pub open spec fn certified_prime(p: u64) -> bool {
    miller_rabin_accepts(p)
}

/// The product of the elements of `s`.
pub open spec fn seq_product(s: Seq<u64>) -> int
    decreases s.len(),
{
    if s.len() == 0 {
        1
    } else {
        seq_product(s.drop_last()) * s.last()
    }
}

/// The number whose factorization is given as `(prime, exponent)` pairs.
pub open spec fn powers_product(f: Seq<(u64, u32)>) -> int
    decreases f.len(),
{
    if f.len() == 0 {
        1
    } else {
        powers_product(f.drop_last()) * pow(f.last().0 as int, f.last().1 as nat)
    }
}

/// For a positive `k`, divisibility is a zero remainder.
pub proof fn lemma_divides_mod(k: int, n: int)
    requires
        k > 0,
    ensures
        divides(k, n) <==> n % k == 0,
{
    if n % k == 0 {
        vstd::arithmetic::div_mod::lemma_fundamental_div_mod(n, k);
        assert(is_multiple(n, k, n / k));
    }
    if divides(k, n) {
        let m = choose|m: int| is_multiple(n, k, m);
        assert(n % k == 0) by (nonlinear_arith)
            requires
                n == k * m,
                k > 0,
        ;
    }
}

/// No divisor in `[2, d)` with `d * d > n` makes `n` prime.
proof fn lemma_prime_by_trial(n: int, d: int)
    requires
        n >= 2,
        d >= 2,
        d > n / d,
        forall|k: int| 2 <= k < d ==> !#[trigger] divides(k, n),
    ensures
        is_prime_number(n),
{
    assert forall|k: int| 2 <= k < n implies !#[trigger] divides(k, n) by {
        if k >= d && divides(k, n) {
            let m = choose|m: int| is_multiple(n, k, m);
            assert(2 <= m < d) by (nonlinear_arith)
                requires
                    n == k * m,
                    2 <= k < n,
                    k >= d,
                    d > n / d,
                    d >= 2,
            ;
            assert(is_multiple(n, m, k)) by (nonlinear_arith)
                requires
                    n == k * m,
            ;
            assert(divides(m, n));
        }
    }
}

/// The least divisor of `n` that is at least 2, by trial division.
fn smallest_divisor(n: u64) -> (d: u64)
    requires
        n >= 2,
    ensures
        2 <= d <= n,
        (n as int) % (d as int) == 0,
        d == n ==> is_prime_number(n as int),
{
    let mut d = 2u64;
    while d <= n / d
        invariant
            2 <= d <= n,
            n >= 2,
            forall|k: int| 2 <= k < d ==> !#[trigger] divides(k, n as int),
        decreases n - d,
    {
        if n % d == 0 {
            return d;
        }
        proof {
            lemma_divides_mod(d as int, n as int);
        }
        assert(d < n) by (nonlinear_arith)
            requires
                d <= n / d,
                d >= 2,
                n >= 2,
        ;
        d += 1;
    }
    proof {
        lemma_prime_by_trial(n as int, d as int);
        vstd::arithmetic::div_mod::lemma_mod_self_0(n as int);
    }
    n
}

proof fn lemma_seq_product_single(x: u64)
    ensures
        seq_product(seq![x]) == x,
{
    assert(seq![x].drop_last() =~= Seq::<u64>::empty());
    assert(seq_product(Seq::<u64>::empty()) == 1);
}

proof fn lemma_seq_product_concat(a: Seq<u64>, b: Seq<u64>)
    ensures
        seq_product(a + b) == seq_product(a) * seq_product(b),
    decreases b.len(),
{
    if b.len() == 0 {
        assert(a + b =~= a);
    } else {
        lemma_seq_product_concat(a, b.drop_last());
        assert((a + b).drop_last() =~= a + b.drop_last());
        assert(seq_product(a) * seq_product(b.drop_last()) * b.last() == seq_product(a) * (
        seq_product(b.drop_last()) * b.last())) by (nonlinear_arith);
    }
}

/// The witnesses `a` tried by [`proves_prime`] stay below this bound.
const WITNESS_LIMIT: u64 = 1000;

/// Whether Pocklington's criterion proves `n` prime: `n - 1` is factored
/// into proven primes, and a witness `a` below a bound is looked for with
/// `a^(n-1) = 1` and `a^((n-1)/q) - 1` coprime to `n` for every prime `q`
/// of `n - 1` (every prime has one: a primitive root).
fn proves_prime(n: u64) -> (r: bool)
    requires
        n >= 2,
    ensures
        r ==> is_prime_number(n as int),
    decreases n, 0nat,
{
    let mut qs: Vec<u64> = Vec::new();
    collect_prime_factors(n - 1, &mut qs);
    proof {
        assert(qs@.skip(0) =~= qs@);
    }
    let mut a: u64 = 2;
    while a < n && a < WITNESS_LIMIT
        invariant
            n >= 2,
            seq_product(qs@) == n - 1,
            forall|k: int| 0 <= k < qs@.len() ==> is_prime_number(#[trigger] qs@[k] as int),
        decreases WITNESS_LIMIT - a,
    {
        if mod_pow(a, n - 1, n) != 1 {
            return false;
        }
        let mut i: usize = 0;
        let mut ok = true;
        while i < qs.len() && ok
            invariant
                n >= 2,
                i <= qs@.len(),
                forall|k: int| 0 <= k < qs@.len() ==> is_prime_number(#[trigger] qs@[k] as int),
                ok ==> forall|k: int|
                    0 <= k < i ==> euclid_gcd(
                        minus_one_mod(pow(a as int, ((n - 1) / (#[trigger] qs@[k] as int)) as nat) % n as int, n as int),
                        n as int,
                    ) == 1,
            decreases qs@.len() - i,
        {
            let q = qs[i];
            assert(is_prime_number(qs@[i as int] as int));
            let x = mod_pow(a, (n - 1) / q, n);
            let y = if x == 0 {
                n - 1
            } else {
                x - 1
            };
            if gcd_u64(y, n) != 1 {
                ok = false;
            }
            i += 1;
        }
        if ok {
            proof {
                lemma_pocklington(n as int, a as int, qs@);
            }
            return true;
        }
        a += 1;
    }
    false
}

/// Appends to `factors` prime factors of `n` whose product is `n`.
fn collect_prime_factors(n: u64, factors: &mut Vec<u64>)
    requires
        n >= 1,
    ensures
        final(factors)@.len() >= old(factors)@.len(),
        final(factors)@.take(old(factors)@.len() as int) == old(factors)@,
        seq_product(final(factors)@.skip(old(factors)@.len() as int)) == n,
        forall|i: int|
            old(factors)@.len() <= i < final(factors)@.len() ==> certified_prime(
                #[trigger] final(factors)@[i],
            ) && is_prime_number(final(factors)@[i] as int),
        is_prime_number(n as int) ==> final(factors)@ == old(factors)@.push(n),
    decreases n, 1nat,
{
    let ghost start = factors@;
    proof {
        if is_prime_number(n as int) {
            lemma_primes_accepted(n);
        }
    }
    if n == 1 {
        assert(factors@.skip(start.len() as int) =~= Seq::<u64>::empty());
        assert(factors@.take(start.len() as int) =~= start);
        return;
    }
    let divisor = if is_prime(n) {
        // The primality test is confirmed by a proof of primality, and where
        // none is found, by trial division.
        let proven = proves_prime(n);
        let d = if proven {
            n
        } else {
            smallest_divisor(n)
        };
        if d == n {
            factors.push(n);
            proof {
                assert(factors@.skip(start.len() as int) =~= seq![n]);
                lemma_seq_product_single(n);
                assert(factors@.take(start.len() as int) =~= start);
                lemma_primes_accepted(n);
            }
            return;
        }
        proof {
            lemma_divides_mod(d as int, n as int);
        }
        d
    } else {
        pollard_rho(n)
    };
    collect_prime_factors(divisor, factors);
    let ghost middle = factors@;
    let quotient = n / divisor;
    assert(quotient < n && quotient >= 1) by (nonlinear_arith)
        requires
            quotient == n / divisor,
            2 <= divisor < n,
    ;
    collect_prime_factors(quotient, factors);
    proof {
        let a = middle.skip(start.len() as int);
        let b = factors@.skip(middle.len() as int);
        assert(factors@.skip(start.len() as int) =~= a + b);
        lemma_seq_product_concat(a, b);
        vstd::arithmetic::div_mod::lemma_fundamental_div_mod(n as int, divisor as int);
        assert(factors@.take(start.len() as int) =~= start) by {
            assert(factors@.take(start.len() as int) =~= middle.take(start.len() as int));
        }
        assert forall|i: int| start.len() <= i < factors@.len() implies certified_prime(
            #[trigger] factors@[i],
        ) && is_prime_number(factors@[i] as int) by {
            if i < middle.len() {
                assert(factors@[i] == middle[i]);
            }
        }
    }
}

proof fn lemma_swap_product(s: Seq<u64>, j: int)
    requires
        1 <= j < s.len(),
    ensures
        seq_product(s.update(j - 1, s[j]).update(j, s[j - 1])) == seq_product(s),
{
    let t = s.update(j - 1, s[j]).update(j, s[j - 1]);
    let pre = s.take(j - 1);
    let post = s.skip(j + 1);
    assert(s =~= pre + seq![s[j - 1], s[j]] + post);
    assert(t =~= pre + seq![s[j], s[j - 1]] + post);
    lemma_seq_product_concat(pre + seq![s[j - 1], s[j]], post);
    lemma_seq_product_concat(pre + seq![s[j], s[j - 1]], post);
    lemma_seq_product_concat(pre, seq![s[j - 1], s[j]]);
    lemma_seq_product_concat(pre, seq![s[j], s[j - 1]]);
    lemma_seq_product_concat(seq![s[j - 1]], seq![s[j]]);
    lemma_seq_product_concat(seq![s[j]], seq![s[j - 1]]);
    assert(seq![s[j - 1]] + seq![s[j]] =~= seq![s[j - 1], s[j]]);
    assert(seq![s[j]] + seq![s[j - 1]] =~= seq![s[j], s[j - 1]]);
    lemma_seq_product_single(s[j]);
    lemma_seq_product_single(s[j - 1]);
}

/// Sorts the factors in ascending order by insertion sort.
fn sort_factors(v: &mut Vec<u64>)
    requires
        forall|i: int| 0 <= i < old(v)@.len() ==> certified_prime(#[trigger] old(v)@[i]) && is_prime_number(old(v)@[i] as int),
    ensures
        final(v)@.len() == old(v)@.len(),
        seq_product(final(v)@) == seq_product(old(v)@),
        forall|i: int| 0 <= i < final(v)@.len() ==> certified_prime(#[trigger] final(v)@[i]) && is_prime_number(final(v)@[i] as int),
        forall|i: int, j: int| 0 <= i <= j < final(v)@.len() ==> final(v)@[i] <= final(v)@[j],
{
    let ghost initial = v@;
    let mut i: usize = 1;
    while i < v.len()
        invariant
            1 <= i,
            v@.len() == initial.len(),
            seq_product(v@) == seq_product(initial),
            forall|k: int| 0 <= k < v@.len() ==> certified_prime(#[trigger] v@[k]) && is_prime_number(v@[k] as int),
            forall|a: int, b: int| 0 <= a <= b < i && b < v@.len() ==> v@[a] <= v@[b],
        decreases v@.len() - i,
    {
        let mut j = i;
        while j > 0 && v[j - 1] > v[j]
            invariant
                0 <= j <= i < v@.len(),
                v@.len() == initial.len(),
                seq_product(v@) == seq_product(initial),
                forall|k: int| 0 <= k < v@.len() ==> certified_prime(#[trigger] v@[k]) && is_prime_number(v@[k] as int),
                forall|a: int, b: int| 0 <= a <= b < j ==> v@[a] <= v@[b],
                forall|a: int, b: int| j < a <= b <= i ==> v@[a] <= v@[b],
                forall|a: int, b: int| 0 <= a < j && j < b <= i ==> v@[a] <= v@[b],
                forall|b: int| j < b <= i ==> v@[j as int] < v@[b],
            decreases j,
        {
            let upper = v[j - 1];
            let lower = v[j];
            proof {
                lemma_swap_product(v@, j as int);
            }
            v.set(j - 1, lower);
            v.set(j, upper);
            j -= 1;
        }
        i += 1;
    }
}

proof fn lemma_powers_product_bound(s: Seq<u64>)
    requires
        forall|k: int| 0 <= k < s.len() ==> #[trigger] s[k] >= 2,
    ensures
        seq_product(s) >= pow(2, s.len()),
    decreases s.len(),
{
    if s.len() == 0 {
        lemma_pow0(2);
    } else {
        let t = s.drop_last();
        lemma_powers_product_bound(t);
        assert(pow(2, s.len()) == 2 * pow(2, t.len())) by {
            reveal(pow);
        }
        vstd::arithmetic::power::lemma_pow_positive(2, t.len());
        assert(seq_product(t) * s.last() >= pow(2, t.len()) * 2) by (nonlinear_arith)
            requires
                seq_product(t) >= pow(2, t.len()),
                s.last() >= 2,
                pow(2, t.len()) >= 0,
        ;
    }
}

/// Returns the prime factorization of `n` as `(prime, exponent)` pairs,
/// with the primes in ascending order.
///
/// Every factor is prime. The deterministic Miller-Rabin test (see
/// [`miller_rabin_accepts`]) picks the candidates, which a Pocklington proof
/// of primality confirms; Pollard's rho algorithm splits the numbers it
/// rejects, so large prime factors are found quickly.
pub fn prime_factorize(n: u64) -> (result: Vec<(u64, u32)>)
    requires
        n > 0,
    ensures
        powers_product(result@) == n,
        forall|i: int|
            0 <= i < result@.len() ==> #[trigger] result@[i].1 >= 1 && certified_prime(
                result@[i].0,
            ),
        forall|i: int| 0 <= i < result@.len() ==> is_prime_number(#[trigger] result@[i].0 as int),
        forall|i: int, j: int| 0 <= i < j < result@.len() ==> result@[i].0 < result@[j].0,
        is_prime_number(n as int) ==> result@ == seq![(n, 1u32)],
{
    let mut factors: Vec<u64> = Vec::new();
    collect_prime_factors(n, &mut factors);
    let ghost collected = factors@;
    proof {
        assert(factors@.skip(0) =~= factors@);
    }
    sort_factors(&mut factors);
    proof {
        assert forall|k: int| 0 <= k < factors@.len() implies #[trigger] factors@[k] >= 2 by {
            assert(certified_prime(factors@[k]));
        }
        lemma_powers_product_bound(factors@);
        if factors@.len() >= 64 {
            vstd::arithmetic::power::lemma_pow_increases(2, 64, factors@.len());
            vstd::arithmetic::power2::lemma2_to64_rest();
            vstd::arithmetic::power2::lemma_pow2(64);
        }
    }
    let mut result: Vec<(u64, u32)> = Vec::new();
    let mut i: usize = 0;
    while i < factors.len()
        invariant
            0 <= i <= factors@.len(),
            factors@.len() < 64,
            forall|k: int| 0 <= k < factors@.len() ==> certified_prime(#[trigger] factors@[k]) && is_prime_number(factors@[k] as int),
            forall|a: int, b: int| 0 <= a <= b < factors@.len() ==> factors@[a] <= factors@[b],
            powers_product(result@) == seq_product(factors@.take(i as int)),
            i == 0 <==> result@.len() == 0,
            i == 1 ==> result@ == seq![(factors@[0], 1u32)],
            i > 0 ==> result@.last().0 == factors@[i - 1],
            forall|k: int|
                0 <= k < result@.len() ==> 1 <= #[trigger] result@[k].1 <= i && certified_prime(
                    result@[k].0,
                ) && is_prime_number(result@[k].0 as int) && result@[k].0 <= factors@[i - 1],
            forall|a: int, b: int| 0 <= a < b < result@.len() ==> result@[a].0 < result@[b].0,
        decreases factors@.len() - i,
    {
        let factor = factors[i];
        let len = result.len();
        proof {
            assert(factors@.take(i + 1).drop_last() =~= factors@.take(i as int));
        }
        if len > 0 && result[len - 1].0 == factor {
            let (prime, exponent) = result[len - 1];
            proof {
                let old_result = result@;
                assert(pow(prime as int, (exponent + 1) as nat) == pow(prime as int, exponent as nat)
                    * prime) by {
                    lemma_pow_adds(prime as int, exponent as nat, 1);
                    lemma_pow1(prime as int);
                }
                let updated = old_result.update(len - 1, (prime, (exponent + 1) as u32));
                assert(updated.drop_last() =~= old_result.drop_last());
                assert(powers_product(updated) == powers_product(old_result) * prime) by (
                nonlinear_arith)
                    requires
                        powers_product(updated) == powers_product(old_result.drop_last()) * (pow(
                            prime as int,
                            exponent as nat,
                        ) * prime),
                        powers_product(old_result) == powers_product(old_result.drop_last())
                            * pow(prime as int, exponent as nat),
                ;
            }
            result.set(len - 1, (prime, exponent + 1));
        } else {
            proof {
                if len > 0 {
                    assert(factors@[i - 1] <= factors@[i as int]);
                }
                let pushed = result@.push((factor, 1u32));
                assert(pushed.drop_last() =~= result@);
                lemma_pow1(factor as int);
            }
            result.push((factor, 1));
        }
        proof {
            assert forall|k: int| 0 <= k < result@.len() implies #[trigger] result@[k].0
                <= factors@[i as int] by {
                if k < result@.len() - 1 && i > 0 {
                    assert(factors@[i - 1] <= factors@[i as int]);
                }
            }
        }
        i += 1;
    }
    proof {
        assert(factors@.take(factors@.len() as int) =~= factors@);
        assert forall|k: int| 0 <= k < result@.len() implies is_prime_number(#[trigger] result@[k].0 as int) by {
            assert(1 <= result@[k].1);
        }
        if is_prime_number(n as int) {
            assert(collected =~= seq![n]);
            assert(factors@.len() == 1);
            assert(factors@ =~= seq![factors@[0]]);
            lemma_seq_product_single(factors@[0]);
            lemma_seq_product_single(n);
        }
    }
    result
}

/// The only square roots of 1 modulo a prime are 1 and -1.
proof fn lemma_square_root_of_one(x: int, p: int)
    requires
        is_prime_number(p),
        0 <= x < p,
        (x * x) % p == 1,
    ensures
        x == 1 || x == p - 1,
{
    vstd::arithmetic::div_mod::lemma_fundamental_div_mod(x * x, p);
    let q = (x * x) / p;
    if x == 0 {
        assert(x * x == 0);
    }
    assert(x >= 1);
    assert(is_multiple((x - 1) * (x + 1), p, q)) by (nonlinear_arith)
        requires
            x * x == p * q + 1,
    ;
    lemma_prime_divides_product(p, x - 1, x + 1);
    if divides(p, x - 1) {
        let j = choose|j: int| #[trigger] is_multiple(x - 1, p, j);
        assert(x - 1 == 0) by (nonlinear_arith)
            requires
                x - 1 == p * j,
                0 <= x - 1 < p,
        ;
    } else {
        let j = choose|j: int| #[trigger] is_multiple(x + 1, p, j);
        assert(x + 1 == p) by (nonlinear_arith)
            requires
                x + 1 == p * j,
                1 <= x + 1 <= p,
        ;
    }
}

/// Squaring `j` times modulo `n` raises to the power `2^j`.
proof fn lemma_square_chain_pow(x: int, j: nat, n: int)
    requires
        0 <= x < n,
    ensures
        square_chain(x, j, n) == pow(x, pow2(j)) % n,
    decreases j,
{
    if j == 0 {
        lemma_pow1(x);
        assert(pow2(0) == 1) by {
            vstd::arithmetic::power2::lemma_pow2(0);
            lemma_pow0(2);
        }
        lemma_small_mod(x as nat, n as nat);
    } else {
        lemma_square_chain_pow(x, (j - 1) as nat, n);
        let e = pow2((j - 1) as nat);
        let big = pow(x, e);
        vstd::arithmetic::power2::lemma_pow2_unfold(j);
        lemma_pow_adds(x, e, e);
        assert(e + e == pow2(j));
        vstd::arithmetic::div_mod::lemma_mul_mod_noop(big, big, n);
        vstd::arithmetic::div_mod::lemma_mod_twice(big, n);
    }
}

/// The least `j` from `start` on at which the squaring chain reaches 1.
proof fn lemma_first_one(x: int, n: int, s: nat, start: nat) -> (j: nat)
    requires
        start <= s,
        square_chain(x, s, n) == 1,
        forall|k: nat| k < start ==> #[trigger] square_chain(x, k, n) != 1,
    ensures
        j <= s,
        square_chain(x, j, n) == 1,
        forall|k: nat| k < j ==> #[trigger] square_chain(x, k, n) != 1,
    decreases s - start,
{
    if square_chain(x, start, n) == 1 {
        start
    } else {
        lemma_first_one(x, n, s, start + 1)
    }
}

/// `n - 1` is its odd part times `2` to its number of trailing zeros.
proof fn lemma_odd_part(i: u64)
    requires
        i != 0,
    ensures
        (i >> u64_trailing_zeros(i)) as int * pow2(u64_trailing_zeros(i) as nat) == i,
{
    let t = u64_trailing_zeros(i);
    vstd::std_specs::bits::axiom_u64_trailing_zeros(i);
    let w = t as u64;
    assert(w < 64);
    assert(i << ((64 - w) as u64) == 0);
    assert((i >> w) << w == i) by (bit_vector)
        requires
            w < 64,
            i << ((64 - w) as u64) == 0,
    ;
    assert(i >> t == i >> w) by (bit_vector)
        requires
            w == t,
    ;
    let q = i >> w;
    vstd::bits::lemma_u64_shr_is_div(i, w);
    vstd::arithmetic::power2::lemma_pow2_pos(w as nat);
    vstd::arithmetic::div_mod::lemma_fundamental_div_mod(i as int, pow2(w as nat) as int);
    vstd::arithmetic::div_mod::lemma_mod_pos_bound(i as int, pow2(w as nat) as int);
    vstd::bits::lemma_u64_shl_is_mul(q, w);
}

/// A prime passes the strong probable prime test to every base.
proof fn lemma_prime_passes_base(n: u64, base: u64)
    requires
        is_prime_number(n as int),
    ensures
        passes_base(n, base),
{
    let a = base % n;
    if a != 0 {
        let i = (n - 1) as u64;
        let s = u64_trailing_zeros(i);
        let d = i >> s;
        let x = pow(a as int, d as nat) % (n as int);
        lemma_odd_part(i);
        lemma_mod_pos_bound(base as int, n as int);
        vstd::arithmetic::power::lemma_pow_positive(a as int, d as nat);
        lemma_mod_pos_bound(pow(a as int, d as nat), n as int);
        if divides(n as int, a as int) {
            let k = choose|k: int| is_multiple(a as int, n as int, k);
            assert(false) by (nonlinear_arith)
                requires
                    a == n * k,
                    0 < a < n,
            ;
        }
        lemma_fermat_little(a as int, n as int);
        lemma_square_chain_pow(x, s as nat, n as int);
        lemma_pow_mod_noop(pow(a as int, d as nat), pow2(s as nat), n as int);
        lemma_pow_multiplies(a as int, d as nat, pow2(s as nat));
        assert(square_chain(x, s as nat, n as int) == 1);
        let j = lemma_first_one(x, n as int, s as nat, 0);
        if j > 0 {
            let y = square_chain(x, (j - 1) as nat, n as int);
            if j - 1 > 0 {
                lemma_mod_pos_bound(
                    square_chain(x, (j - 2) as nat, n as int) * square_chain(
                        x,
                        (j - 2) as nat,
                        n as int,
                    ),
                    n as int,
                );
            }
            assert(0 <= y < n);
            lemma_square_root_of_one(y, n as int);
            assert(y != 1);
            if j - 1 > 0 {
                let k = (j - 1) as int;
                assert(square_chain(x, k as nat, n as int) == n - 1);
            }
        }
    }
}

/// The primality test accepts every prime.
pub proof fn lemma_primes_accepted(n: u64)
    requires
        is_prime_number(n as int),
    ensures
        miller_rabin_accepts(n),
{
    if !small_primes().contains(n) {
        assert forall|i: int| 0 <= i < 12 implies n % #[trigger] small_primes()[i] != 0 by {
            let q = small_primes()[i];
            assert(q >= 2) by {
                let t = small_primes();
                assert(t[0] == 2 && t[1] == 3 && t[2] == 5 && t[3] == 7 && t[4] == 11 && t[5] == 13);
                assert(t[6] == 17 && t[7] == 19 && t[8] == 23 && t[9] == 29 && t[10] == 31 && t[11] == 37);
            }
            if n % q == 0 {
                if n < q {
                    lemma_small_mod(n as nat, q as nat);
                }
                assert(n != q);
                lemma_divides_mod(q as int, n as int);
                assert(divides(q as int, n as int));
            }
        }
        assert forall|i: int| 0 <= i < 7 implies passes_base(n, #[trigger] witness_bases()[i]) by {
            lemma_prime_passes_base(n, witness_bases()[i]);
        }
    }
}


/// Every integer from 2 on has a prime divisor no larger than itself.
proof fn lemma_prime_divisor(n: int) -> (p: int)
    requires
        n >= 2,
    ensures
        is_prime_number(p),
        divides(p, n),
        2 <= p <= n,
    decreases n,
{
    if is_prime_number(n) {
        assert(is_multiple(n, n, 1));
        n
    } else {
        let k = choose|k: int| 2 <= k < n && #[trigger] divides(k, n);
        let p = lemma_prime_divisor(k);
        let i = choose|i: int| is_multiple(k, p, i);
        let j = choose|j: int| is_multiple(n, k, j);
        assert(is_multiple(n, p, i * j)) by (nonlinear_arith)
            requires
                k == p * i,
                n == k * j,
        ;
        p
    }
}

/// A power of `a` that is 1 modulo `m` stays 1 when raised further.
proof fn lemma_pow_of_one_mod(x: int, e: nat, m: int)
    requires
        m >= 2,
        x % m == 1,
    ensures
        pow(x, e) % m == 1,
{
    lemma_pow_mod_noop(x, e, m);
    vstd::arithmetic::power::lemma1_pow(e);
    lemma_small_mod(1, m as nat);
}

/// The exponents `k` with `a^k` equal to 1 modulo `m` are closed under the
/// steps of Euclid's algorithm, so their gcd is one of them.
proof fn lemma_pow_one_at_gcd(a: int, k1: nat, k2: nat, m: int)
    requires
        m >= 2,
        pow(a, k1) % m == 1,
        pow(a, k2) % m == 1,
    ensures
        euclid_gcd(k1 as int, k2 as int) >= 0,
        pow(a, euclid_gcd(k1 as int, k2 as int) as nat) % m == 1,
    decreases k2,
{
    lemma_gcd_shape(k1 as int, k2 as int);
    if k2 > 0 {
        let q = k1 / k2;
        let r = k1 % k2;
        vstd::arithmetic::div_mod::lemma_fundamental_div_mod(k1 as int, k2 as int);
        assert(k1 == k2 * q + r);
        lemma_pow_adds(a, k2 * q, r);
        lemma_pow_multiplies(a, k2, q);
        lemma_pow_of_one_mod(pow(a, k2), q, m);
        vstd::arithmetic::div_mod::lemma_mul_mod_noop_left(pow(a, k2 * q), pow(a, r), m);
        assert(pow(a, r) % m == 1);
        assert(trunc_rem(k1 as int, k2 as int) == r);
        lemma_pow_one_at_gcd(a, k2, r, m);
    }
}

/// A prime dividing a product of primes is one of them.
proof fn lemma_prime_divides_prime_product(q: int, qs: Seq<u64>) -> (i: int)
    requires
        is_prime_number(q),
        forall|k: int| 0 <= k < qs.len() ==> is_prime_number(#[trigger] qs[k] as int),
        divides(q, seq_product(qs)),
    ensures
        0 <= i < qs.len(),
        qs[i] == q,
    decreases qs.len(),
{
    if qs.len() == 0 {
        let k = choose|k: int| is_multiple(1, q, k);
        assert(false) by (nonlinear_arith)
            requires
                1 == q * k,
                q >= 2,
        ;
        0
    } else {
        let rest = qs.drop_last();
        let last = qs.last() as int;
        lemma_seq_product_nonnegative(rest);
        lemma_prime_divides_product(q, seq_product(rest), last);
        if divides(q, last) {
            assert(is_prime_number(last));
            let k = choose|k: int| is_multiple(last, q, k);
            assert(q <= last) by (nonlinear_arith)
                requires
                    last == q * k,
                    last >= 2,
                    q >= 2,
            ;
            if q < last {
                assert(!divides(q, last));
            }
            qs.len() - 1
        } else {
            let i = lemma_prime_divides_prime_product(q, rest);
            i
        }
    }
}

proof fn lemma_seq_product_nonnegative(qs: Seq<u64>)
    ensures
        seq_product(qs) >= 0,
    decreases qs.len(),
{
    if qs.len() > 0 {
        lemma_seq_product_nonnegative(qs.drop_last());
        assert(seq_product(qs.drop_last()) * qs.last() >= 0) by (nonlinear_arith)
            requires
                seq_product(qs.drop_last()) >= 0,
        ;
    }
}

/// `x - 1` modulo `n`, for `0 <= x < n`.
pub open spec fn minus_one_mod(x: int, n: int) -> int {
    if x == 0 {
        n - 1
    } else {
        x - 1
    }
}

/// Pocklington's criterion with the whole of `n - 1` factored: if
/// `a^(n-1)` is 1 modulo `n` and, for every prime `q` of `n - 1`,
/// `a^((n-1)/q) - 1` is coprime to `n`, then `n` is prime.
pub proof fn lemma_pocklington(n: int, a: int, qs: Seq<u64>)
    requires
        n >= 2,
        a >= 0,
        seq_product(qs) == n - 1,
        forall|k: int| 0 <= k < qs.len() ==> is_prime_number(#[trigger] qs[k] as int),
        pow(a, (n - 1) as nat) % n == 1,
        forall|k: int|
            0 <= k < qs.len() ==> euclid_gcd(
                minus_one_mod(pow(a, ((n - 1) / (#[trigger] qs[k] as int)) as nat) % n, n),
                n,
            ) == 1,
    ensures
        is_prime_number(n),
{
    let p = lemma_prime_divisor(n);
    let pj = choose|j: int| is_multiple(n, p, j);
    // a^(n-1) is 1 modulo p as well.
    lemma_mod_reduce(pow(a, (n - 1) as nat), n, p, pj);
    // p does not divide a, so Fermat's little theorem applies.
    if divides(p, a) {
        let t = choose|t: int| is_multiple(a, p, t);
        lemma_pow_adds(a, 1, (n - 2) as nat);
        lemma_pow1(a);
        let rest = pow(a, (n - 2) as nat);
        assert(pow(a, (n - 1) as nat) == p * (t * rest)) by (nonlinear_arith)
            requires
                pow(a, (n - 1) as nat) == a * rest,
                a == p * t,
        ;
        vstd::arithmetic::div_mod::lemma_mod_multiples_vanish(t * rest, 0, p);
        lemma_small_mod(0, p as nat);
        assert(false);
    }
    lemma_fermat_little(a, p);
    lemma_pow_one_at_gcd(a, (n - 1) as nat, (p - 1) as nat, p);
    let d = euclid_gcd(n - 1, p - 1);
    lemma_gcd_zero(n - 1, p - 1);
    assert(is_multiple(d, d, 1));
    lemma_gcd_divisors(n - 1, p - 1, d);
    let nm1 = n - 1;
    let pm1 = p - 1;
    let c = choose|c: int| is_multiple(nm1, d, c);
    assert(c >= 1) by (nonlinear_arith)
        requires
            n - 1 == d * c,
            d >= 1,
            n >= 2,
    ;
    if c >= 2 {
        let q = lemma_prime_divisor(c);
        let e = choose|e: int| is_multiple(c, q, e);
        assert(is_multiple(n - 1, q, d * e)) by (nonlinear_arith)
            requires
                n - 1 == d * c,
                c == q * e,
        ;
        let i = lemma_prime_divides_prime_product(q, qs);
        assert((n - 1) / q == d * e) by (nonlinear_arith)
            requires
                n - 1 == q * (d * e),
                q >= 2,
        ;
        assert(e >= 1) by (nonlinear_arith)
            requires
                c == q * e,
                c >= 2,
                q >= 2,
        ;
        lemma_pow_multiplies(a, d as nat, e as nat);
        lemma_pow_of_one_mod(pow(a, d as nat), e as nat, p);
        let z = pow(a, (d * e) as nat);
        assert(z % p == 1);
        assert(euclid_gcd(minus_one_mod(z % n, n), n) == 1) by {
            assert(qs[i] as int == q);
        }
        let y = minus_one_mod(z % n, n);
        lemma_minus_one_divisible(z, n, p, pj);
        lemma_gcd_divisors(y, n, p);
        let k = choose|k: int| is_multiple(1, p, k);
        assert(false) by (nonlinear_arith)
            requires
                1 == p * k,
                p >= 2,
        ;
    }
    assert(d == n - 1);
    let f = choose|f: int| is_multiple(pm1, d, f);
    assert(p >= n) by (nonlinear_arith)
        requires
            p - 1 == (n - 1) * f,
            p >= 2,
            n >= 2,
    ;
}

/// A value that is 1 modulo `n` is 1 modulo every divisor `p >= 2` of `n`.
proof fn lemma_mod_reduce(x: int, n: int, p: int, j: int)
    requires
        n >= 2,
        p >= 2,
        n == p * j,
        x % n == 1,
    ensures
        x % p == 1,
{
    vstd::arithmetic::div_mod::lemma_fundamental_div_mod(x, n);
    let t = x / n;
    assert(x == p * (j * t) + 1) by (nonlinear_arith)
        requires
            x == n * t + 1,
            n == p * j,
    ;
    vstd::arithmetic::div_mod::lemma_mod_multiples_vanish(j * t, 1, p);
    lemma_small_mod(1, p as nat);
}

/// If `z` is 1 modulo a divisor `p` of `n`, then `p` divides `z - 1`
/// reduced modulo `n`.
proof fn lemma_minus_one_divisible(z: int, n: int, p: int, j: int)
    requires
        n >= 2,
        p >= 2,
        n == p * j,
        z % p == 1,
    ensures
        divides(p, minus_one_mod(z % n, n)),
        divides(p, n),
{
    vstd::arithmetic::div_mod::lemma_fundamental_div_mod(z, n);
    vstd::arithmetic::div_mod::lemma_fundamental_div_mod(z, p);
    let t = z / n;
    let u = z / p;
    let y = minus_one_mod(z % n, n);
    assert(is_multiple(n, p, j));
    if z % n == 0 {
        assert(is_multiple(y, p, u - j * t + j)) by (nonlinear_arith)
            requires
                y == n - 1,
                z == n * t,
                z == p * u + 1,
                n == p * j,
        ;
    } else {
        assert(is_multiple(y, p, u - j * t)) by (nonlinear_arith)
            requires
                y == z % n - 1,
                z == n * t + z % n,
                z == p * u + 1,
                n == p * j,
        ;
    }
}

} // verus!
