//! Prime enumeration using the sieve of Eratosthenes.
use crate::math::numeric::{divides, is_multiple};
use crate::math::prime_factorization::{is_prime_number, lemma_divides_mod};
use vstd::prelude::*;

verus! {

/// A flag still set after sieving with every `d < bound` belongs to a number
/// with no divisor `d` in `[2, bound)` and `d * d <= m`.
spec fn sieved_below(flags: Seq<bool>, bound: int) -> bool {
    forall|m: int, d: int|
        #![trigger flags[m], divides(d, m)]
        0 <= m < flags.len() && 2 <= d < bound && d * d <= m && divides(d, m) ==> !flags[m]
}

/// Every cleared flag belongs to a number that is not prime.
spec fn sound(flags: Seq<bool>) -> bool {
    forall|m: int| 0 <= m < flags.len() && !#[trigger] flags[m] ==> !is_prime_number(m)
}

/// Clears the flags of the multiples of `prime` from `prime * prime` on.
fn cross_out(flags: &mut Vec<bool>, prime: usize, upper_bound: usize)
    requires
        old(flags)@.len() == upper_bound + 1,
        2 <= prime,
        prime * prime <= upper_bound,
        sound(old(flags)@),
    ensures
        final(flags)@.len() == upper_bound + 1,
        sound(final(flags)@),
        forall|m: int| 0 <= m <= upper_bound && !old(flags)@[m] ==> !#[trigger] final(flags)@[m],
        forall|m: int|
            #![trigger final(flags)@[m]]
            prime * prime <= m <= upper_bound && divides(prime as int, m) ==> !final(flags)@[m],
{
    let mut multiple = prime * prime;
    proof {
        vstd::arithmetic::div_mod::lemma_mod_multiples_basic(prime as int, prime as int);
    }
    loop
        invariant
            flags@.len() == upper_bound + 1,
            2 <= prime,
            prime * prime <= multiple <= upper_bound,
            multiple % prime == 0,
            sound(flags@),
            forall|m: int| 0 <= m <= upper_bound && !old(flags)@[m] ==> !#[trigger] flags@[m],
            forall|m: int|
                #![trigger flags@[m]]
                prime * prime <= m < multiple && divides(prime as int, m) ==> !flags@[m],
        ensures
            flags@.len() == upper_bound + 1,
            sound(flags@),
            forall|m: int| 0 <= m <= upper_bound && !old(flags)@[m] ==> !#[trigger] flags@[m],
            forall|m: int|
                #![trigger flags@[m]]
                prime * prime <= m <= upper_bound && divides(prime as int, m) ==> !flags@[m],
        decreases upper_bound - multiple,
    {
        proof {
            lemma_divides_mod(prime as int, multiple as int);
            let k = choose|k: int| is_multiple(multiple as int, prime as int, k);
            assert(k >= 2) by (nonlinear_arith)
                requires
                    multiple == prime * k,
                    prime * prime <= multiple,
                    prime >= 2,
            ;
            assert(is_multiple(multiple as int, k, prime as int)) by (nonlinear_arith)
                requires
                    multiple == prime * k,
            ;
            assert(k < multiple) by (nonlinear_arith)
                requires
                    multiple == prime * k,
                    prime >= 2,
                    k >= 2,
            ;
            assert(!is_prime_number(multiple as int)) by {
                assert(divides(k, multiple as int));
            }
        }
        flags.set(multiple, false);
        if upper_bound - multiple < prime {
            proof {
                assert forall|m: int|
                    #![trigger flags@[m]]
                    prime * prime <= m <= upper_bound && divides(
                        prime as int,
                        m,
                    ) implies !flags@[m] by {
                    if m > multiple {
                        lemma_divides_mod(prime as int, m);
                        assert(false) by (nonlinear_arith)
                            requires
                                m % (prime as int) == 0,
                                (multiple as int) % (prime as int) == 0,
                                multiple < m <= upper_bound,
                                upper_bound - multiple < prime,
                                prime >= 2,
                        ;
                    }
                }
            }
            break;
        }
        proof {
            assert forall|m: int|
                #![trigger flags@[m]]
                prime * prime <= m < multiple + prime && divides(prime as int, m) implies !flags@[m] by {
                if multiple < m {
                    lemma_divides_mod(prime as int, m);
                    assert(false) by (nonlinear_arith)
                        requires
                            m % (prime as int) == 0,
                            (multiple as int) % (prime as int) == 0,
                            multiple < m < multiple + prime,
                            prime >= 2,
                    ;
                }
            }
        }
        proof {
            vstd::arithmetic::div_mod::lemma_mod_add_multiples_vanish(multiple as int, prime as int);
        }
        multiple += prime;
    }
}

/// With no flagged number below `bound * bound` having a small divisor, a
/// flagged number is prime.
proof fn lemma_flagged_is_prime(flags: Seq<bool>, bound: int, m: int)
    requires
        sieved_below(flags, bound),
        2 <= m < flags.len(),
        bound >= 2,
        m < bound * bound,
        flags[m],
    ensures
        is_prime_number(m),
{
    assert forall|k: int| 2 <= k < m implies !#[trigger] divides(k, m) by {
        if divides(k, m) {
            let j = choose|j: int| is_multiple(m, k, j);
            assert(j >= 2) by (nonlinear_arith)
                requires
                    m == k * j,
                    2 <= k < m,
            ;
            if k * k <= m {
                assert(k < bound) by (nonlinear_arith)
                    requires
                        k * k <= m,
                        m < bound * bound,
                        k >= 2,
                        bound >= 2,
                ;
                assert(!flags[m]);
            } else {
                assert(j * j <= m && j < bound) by (nonlinear_arith)
                    requires
                        m == k * j,
                        k * k > m,
                        m < bound * bound,
                        j >= 2,
                        k >= 2,
                        bound >= 2,
                ;
                assert(is_multiple(m, j, k)) by (nonlinear_arith)
                    requires
                        m == k * j,
                ;
                assert(divides(j, m));
                assert(!flags[m]);
            }
        }
    }
}

/// A composite `prime` adds nothing: its multiples from its square on have
/// a smaller divisor already sieved.
proof fn lemma_composite_step(flags: Seq<bool>, prime: int)
    requires
        sieved_below(flags, prime),
        prime >= 2,
        !is_prime_number(prime),
    ensures
        sieved_below(flags, prime + 1),
{
    let k = choose|k: int| 2 <= k < prime && #[trigger] divides(k, prime);
    assert forall|m: int, d: int|
        #![trigger flags[m], divides(d, m)]
        0 <= m < flags.len() && 2 <= d < prime + 1 && d * d <= m && divides(d, m) implies !flags[m] by {
        if d == prime {
            let a = choose|a: int| is_multiple(m, prime, a);
            let b = choose|b: int| is_multiple(prime, k, b);
            assert(is_multiple(m, k, b * a)) by (nonlinear_arith)
                requires
                    m == prime * a,
                    prime == k * b,
            ;
            assert(divides(k, m));
            assert(k * k <= m) by (nonlinear_arith)
                requires
                    2 <= k < prime,
                    prime * prime <= m,
            ;
        }
    }
}

/// Returns all primes less than or equal to `upper_bound` in ascending order.
pub fn enumerate_primes(upper_bound: usize) -> (primes: Vec<usize>)
    requires
        upper_bound < usize::MAX,
    ensures
        forall|i: int|
            0 <= i < primes@.len() ==> #[trigger] primes@[i] <= upper_bound && is_prime_number(
                primes@[i] as int,
            ),
        forall|i: int, j: int| 0 <= i < j < primes@.len() ==> primes@[i] < primes@[j],
        forall|p: int|
            0 <= p <= upper_bound && #[trigger] is_prime_number(p) ==> primes@.contains(p as usize),
{
    if upper_bound < 2 {
        return Vec::new();
    }
    let mut is_prime = vec![true; upper_bound + 1];
    is_prime.set(0, false);
    is_prime.set(1, false);
    let mut prime: usize = 2;
    while prime <= upper_bound / prime
        invariant
            is_prime@.len() == upper_bound + 1,
            2 <= upper_bound < usize::MAX,
            2 <= prime <= upper_bound,
            !is_prime@[0],
            !is_prime@[1],
            sound(is_prime@),
            sieved_below(is_prime@, prime as int),
        decreases upper_bound - prime,
    {
        assert(prime * prime <= upper_bound) by (nonlinear_arith)
            requires
                prime <= upper_bound / prime,
                prime >= 2,
        ;
        if is_prime[prime] {
            let ghost before = is_prime@;
            cross_out(&mut is_prime, prime, upper_bound);
            proof {
                assert forall|m: int, d: int|
                    #![trigger is_prime@[m], divides(d, m)]
                    0 <= m < is_prime@.len() && 2 <= d < prime + 1 && d * d <= m && divides(
                        d,
                        m,
                    ) implies !is_prime@[m] by {
                    if d < prime {
                        assert(!before[m]);
                    }
                }
            }
        } else {
            proof {
                lemma_composite_step(is_prime@, prime as int);
            }
        }
        assert(prime < upper_bound) by (nonlinear_arith)
            requires
                prime * prime <= upper_bound,
                prime >= 2,
        ;
        prime += 1;
    }
    assert(upper_bound < prime * prime) by (nonlinear_arith)
        requires
            prime > upper_bound / prime,
            prime >= 2,
    ;
    let mut primes: Vec<usize> = Vec::new();
    let mut i: usize = 0;
    while i <= upper_bound
        invariant
            is_prime@.len() == upper_bound + 1,
            upper_bound < usize::MAX,
            i <= upper_bound + 1,
            forall|k: int| 0 <= k < primes@.len() ==> #[trigger] primes@[k] < i && is_prime@[primes@[k] as int],
            forall|a: int, b: int| 0 <= a < b < primes@.len() ==> primes@[a] < primes@[b],
            forall|m: int| 0 <= m < i && #[trigger] is_prime@[m] ==> primes@.contains(m as usize),
        decreases upper_bound + 1 - i,
    {
        if is_prime[i] {
            let ghost old_primes = primes@;
            primes.push(i);
            proof {
                assert forall|m: int| 0 <= m < i + 1 && #[trigger] is_prime@[m] implies primes@.contains(m as usize) by {
                    if m == i {
                        assert(primes@[primes@.len() - 1] == i);
                    } else {
                        assert(old_primes.contains(m as usize));
                        let k = choose|k: int| 0 <= k < old_primes.len() && old_primes[k] == m as usize;
                        assert(primes@[k] == m as usize);
                    }
                }
            }
        }
        i += 1;
    }
    proof {
        assert forall|k: int| 0 <= k < primes@.len() implies #[trigger] primes@[k] <= upper_bound && is_prime_number(
            primes@[k] as int,
        ) by {
            lemma_flagged_is_prime(is_prime@, prime as int, primes@[k] as int);
        }
        assert forall|p: int| 0 <= p <= upper_bound && #[trigger] is_prime_number(p) implies primes@.contains(p as usize) by {
            assert(is_prime@[p]);
        }
    }
    primes
}

} // verus!
