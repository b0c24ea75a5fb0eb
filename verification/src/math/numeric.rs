//! Greatest common divisor and least common multiple on the primitive
//! integer types.
use vstd::prelude::*;

verus! {

/// The absolute value of `x`.
pub open spec fn abs(x: int) -> int {
    if x < 0 {
        -x
    } else {
        x
    }
}

/// Rust's `%` on integers: the remainder takes the sign of the dividend and
/// has the magnitude of `|a| mod |b|`.
pub open spec fn trunc_rem(a: int, b: int) -> int {
    if a >= 0 {
        a % b
    } else {
        -((-a) % b)
    }
}

/// `x == d * k`.
pub open spec fn is_multiple(x: int, d: int, k: int) -> bool {
    x == d * k
}

/// `d` divides `x`: `x` is an integer multiple of `d`.
pub open spec fn divides(d: int, x: int) -> bool {
    exists|k: int| is_multiple(x, d, k)
}

/// Facts about Rust's remainder: it is smaller in magnitude than the divisor,
/// keeps the sign of the dividend, and differs from it by a multiple of the
/// divisor.
pub proof fn lemma_trunc_rem(a: int, b: int)
    requires
        b != 0,
    ensures
        abs(trunc_rem(a, b)) < abs(b),
        a >= 0 ==> trunc_rem(a, b) >= 0,
        a < 0 ==> trunc_rem(a, b) <= 0,
        exists|q: int| #[trigger] is_multiple(a - trunc_rem(a, b), b, q),
{
    let x = if a >= 0 { a } else { -a };
    assert(0 <= x % b < abs(b)) by (nonlinear_arith)
        requires
            b != 0,
    ;
    vstd::arithmetic::div_mod::lemma_fundamental_div_mod(x, b);
    let q = x / b;
    if a >= 0 {
        assert(is_multiple(a - trunc_rem(a, b), b, q));
    } else {
        assert(a - trunc_rem(a, b) == -(x - x % b));
        assert(is_multiple(a - trunc_rem(a, b), b, -q)) by (nonlinear_arith)
            requires
                a - trunc_rem(a, b) == -(x - x % b),
                x == b * q + x % b,
        ;
    }
}

/// The value of Euclid's algorithm on `(a, b)` with Rust's remainder: the
/// last nonzero term of `a, b, a % b, ...`.
pub open spec fn euclid_gcd(a: int, b: int) -> int
    decreases abs(b),
{
    if b == 0 {
        a
    } else {
        proof {
            lemma_trunc_rem(a, b);
        }
        euclid_gcd(b, trunc_rem(a, b))
    }
}

/// The result of Euclid's algorithm is `a` when `b` is zero, and otherwise
/// `b` itself or smaller in magnitude than `b`; on nonnegative inputs it is
/// nonnegative.
pub proof fn lemma_gcd_shape(a: int, b: int)
    ensures
        b == 0 ==> euclid_gcd(a, b) == a,
        b != 0 ==> euclid_gcd(a, b) == b || abs(euclid_gcd(a, b)) < abs(b),
        a >= 0 && b >= 0 ==> euclid_gcd(a, b) >= 0,
    decreases abs(b),
{
    if b != 0 {
        lemma_trunc_rem(a, b);
        lemma_gcd_shape(b, trunc_rem(a, b));
    }
}

proof fn lemma_divides_combination(d: int, x: int, y: int, q: int)
    requires
        divides(d, x),
        divides(d, y),
    ensures
        divides(d, x - y * q),
        divides(d, x + y * q),
{
    let kx = choose|k: int| is_multiple(x, d, k);
    let ky = choose|k: int| is_multiple(y, d, k);
    assert(is_multiple(x - y * q, d, kx - ky * q)) by (nonlinear_arith)
        requires
            x == d * kx,
            y == d * ky,
    ;
    assert(is_multiple(x + y * q, d, kx + ky * q)) by (nonlinear_arith)
        requires
            x == d * kx,
            y == d * ky,
    ;
}

/// The common divisors of `a` and `b` are exactly the divisors of
/// `euclid_gcd(a, b)`: its magnitude is the greatest common divisor.
pub proof fn lemma_gcd_divisors(a: int, b: int, d: int)
    ensures
        divides(d, a) && divides(d, b) <==> divides(d, euclid_gcd(a, b)),
    decreases abs(b),
{
    if b == 0 {
        assert(is_multiple(0, d, 0));
    } else {
        let r = trunc_rem(a, b);
        lemma_trunc_rem(a, b);
        let q = choose|q: int| #[trigger] is_multiple(a - r, b, q);
        lemma_gcd_divisors(b, r, d);
        if divides(d, a) && divides(d, b) {
            assert(r == a - b * q);
            lemma_divides_combination(d, a, b, q);
        }
        if divides(d, b) && divides(d, r) {
            assert(a == r + b * q);
            lemma_divides_combination(d, r, b, q);
        }
    }
}

/// Euclid's algorithm yields zero exactly when both arguments are zero.
pub proof fn lemma_gcd_zero(a: int, b: int)
    ensures
        euclid_gcd(a, b) == 0 <==> a == 0 && b == 0,
{
    lemma_gcd_divisors(a, b, 0);
    assert(is_multiple(0, 0, 0));
    if euclid_gcd(a, b) == 0 {
        assert(divides(0, euclid_gcd(a, b)));
        let ka = choose|k: int| is_multiple(a, 0, k);
        let kb = choose|k: int| is_multiple(b, 0, k);
        assert(a == 0 * ka);
        assert(b == 0 * kb);
    }
    if a == 0 && b == 0 {
        lemma_gcd_shape(a, b);
    }
}

/// Bezout's identity: the result of Euclid's algorithm is an integer
/// combination `a * x + b * y` of its arguments.
pub proof fn lemma_bezout(a: int, b: int) -> (xy: (int, int))
    ensures
        a * xy.0 + b * xy.1 == euclid_gcd(a, b),
    decreases abs(b),
{
    if b == 0 {
        (1, 0)
    } else {
        let r = trunc_rem(a, b);
        lemma_trunc_rem(a, b);
        let q = choose|q: int| #[trigger] is_multiple(a - r, b, q);
        let (x, y) = lemma_bezout(b, r);
        assert(a * y + b * (x - q * y) == b * x + r * y) by (nonlinear_arith)
            requires
                a - r == b * q,
        ;
        (y, x - q * y)
    }
}

/// `g` is the greatest common divisor of `a` and `b`: a nonnegative common
/// divisor that every common divisor divides (so `0` for `(0, 0)`).
pub open spec fn is_gcd(g: int, a: int, b: int) -> bool {
    &&& g >= 0
    &&& divides(g, a)
    &&& divides(g, b)
    &&& forall|d: int| divides(d, a) && divides(d, b) ==> #[trigger] divides(d, g)
}

/// The greatest common divisor of `a` and `b` (see [`lemma_gcd_of`]).
pub open spec fn gcd_of(a: int, b: int) -> int {
    choose|g: int| is_gcd(g, a, b)
}

/// `l` is the least common multiple of `a` and `b`: a nonnegative common
/// multiple that divides every common multiple (so `0` when either is `0`).
pub open spec fn is_lcm(l: int, a: int, b: int) -> bool {
    &&& l >= 0
    &&& divides(a, l)
    &&& divides(b, l)
    &&& forall|m: int| divides(a, m) && divides(b, m) ==> #[trigger] divides(l, m)
}

/// The least common multiple of `a` and `b` (see [`lemma_lcm_of`]).
pub open spec fn lcm_of(a: int, b: int) -> int {
    choose|l: int| is_lcm(l, a, b)
}

/// What `gcd` returns on a type with range `[min, max]`: the greatest common
/// divisor `g` where it fits, and `min` where it does not (on a signed type
/// of `n` bits that is `g == 2^(n-1)`, the gcd of the least value with itself
/// or with zero, and `min` is what `g` wraps to).
pub open spec fn gcd_result(g: int, min: int, max: int) -> int {
    if g <= max {
        g
    } else {
        min
    }
}

proof fn lemma_divides_negate(d: int, x: int)
    requires
        divides(d, x),
    ensures
        divides(-d, x),
        divides(d, -x),
{
    let k = choose|k: int| is_multiple(x, d, k);
    assert(is_multiple(x, -d, -k)) by (nonlinear_arith)
        requires
            x == d * k,
    ;
    assert(is_multiple(-x, d, -k)) by (nonlinear_arith)
        requires
            x == d * k,
    ;
}

/// Divisibility depends on magnitudes only.
pub proof fn lemma_divides_abs(d: int, x: int)
    ensures
        divides(d, x) <==> divides(abs(d), x),
        divides(d, x) <==> divides(d, abs(x)),
{
    if divides(d, x) {
        lemma_divides_negate(d, x);
    }
    if divides(-d, x) {
        lemma_divides_negate(-d, x);
        assert(-(-d) == d);
    }
    if divides(d, -x) {
        lemma_divides_negate(d, -x);
        assert(-(-x) == x);
    }
}

proof fn lemma_divides_antisymmetric(x: int, y: int)
    requires
        x >= 0,
        y >= 0,
        divides(x, y),
        divides(y, x),
    ensures
        x == y,
{
    let k = choose|k: int| is_multiple(y, x, k);
    let j = choose|k: int| is_multiple(x, y, k);
    assert(x == y) by (nonlinear_arith)
        requires
            x >= 0,
            y >= 0,
            y == x * k,
            x == y * j,
    ;
}

proof fn lemma_gcd_unique(g: int, a: int, b: int)
    requires
        is_gcd(g, a, b),
    ensures
        gcd_of(a, b) == g,
{
    let h = gcd_of(a, b);
    assert(is_gcd(h, a, b));
    assert(divides(g, h));
    assert(divides(h, g));
    lemma_divides_antisymmetric(g, h);
}

proof fn lemma_lcm_unique(l: int, a: int, b: int)
    requires
        is_lcm(l, a, b),
    ensures
        lcm_of(a, b) == l,
{
    let h = lcm_of(a, b);
    assert(is_lcm(h, a, b));
    assert(divides(l, h));
    assert(divides(h, l));
    lemma_divides_antisymmetric(l, h);
}

/// The greatest common divisor exists and is the magnitude of the result of
/// Euclid's algorithm; it is positive unless both arguments are zero.
pub proof fn lemma_gcd_of(a: int, b: int)
    ensures
        is_gcd(gcd_of(a, b), a, b),
        gcd_of(a, b) == abs(euclid_gcd(a, b)),
        a != 0 || b != 0 ==> gcd_of(a, b) >= 1,
{
    let e = euclid_gcd(a, b);
    let g = abs(e);
    assert(is_multiple(e, e, 1));
    lemma_gcd_divisors(a, b, e);
    lemma_divides_abs(e, a);
    lemma_divides_abs(e, b);
    assert forall|d: int| divides(d, a) && divides(d, b) implies #[trigger] divides(d, g) by {
        lemma_gcd_divisors(a, b, d);
        lemma_divides_abs(d, e);
    }
    lemma_gcd_unique(g, a, b);
    lemma_gcd_zero(a, b);
}

/// Unless both arguments are zero, every common divisor is at most the
/// greatest common divisor.
pub proof fn lemma_gcd_is_greatest(a: int, b: int, d: int)
    requires
        a != 0 || b != 0,
        divides(d, a),
        divides(d, b),
    ensures
        d <= gcd_of(a, b),
{
    lemma_gcd_of(a, b);
    let g = gcd_of(a, b);
    assert(divides(d, g));
    let k = choose|k: int| is_multiple(g, d, k);
    assert(d <= g) by (nonlinear_arith)
        requires
            g >= 1,
            g == d * k,
    ;
}

/// The greatest common divisor does not depend on the signs of the arguments.
pub proof fn lemma_gcd_abs(a: int, b: int)
    ensures
        gcd_of(abs(a), abs(b)) == gcd_of(a, b),
{
    lemma_gcd_of(a, b);
    let g = gcd_of(a, b);
    lemma_divides_abs(g, a);
    lemma_divides_abs(g, b);
    assert forall|d: int| divides(d, abs(a)) && divides(d, abs(b)) implies #[trigger] divides(
        d,
        g,
    ) by {
        lemma_divides_abs(d, a);
        lemma_divides_abs(d, b);
    }
    lemma_gcd_unique(g, abs(a), abs(b));
}

/// The least common multiple exists: `0` when either argument is `0`, and
/// `|a| / gcd(a, b) * |b|` otherwise.
pub proof fn lemma_lcm_of(a: int, b: int)
    ensures
        is_lcm(lcm_of(a, b), a, b),
        lcm_of(a, b) == (if a == 0 || b == 0 {
            0
        } else {
            abs(a) / gcd_of(a, b) * abs(b)
        }),
{
    let l = if a == 0 || b == 0 {
        0
    } else {
        abs(a) / gcd_of(a, b) * abs(b)
    };
    if a == 0 || b == 0 {
        assert(is_multiple(0, a, 0));
        assert(is_multiple(0, b, 0));
        assert forall|m: int| divides(a, m) && divides(b, m) implies #[trigger] divides(l, m) by {
            if a == 0 {
                let k = choose|k: int| is_multiple(m, a, k);
                assert(m == 0 * k);
            } else {
                let k = choose|k: int| is_multiple(m, b, k);
                assert(m == 0 * k);
            }
            assert(is_multiple(m, 0, 0));
        }
    } else {
        let aa = abs(a);
        let bb = abs(b);
        lemma_gcd_of(a, b);
        let g = gcd_of(a, b);
        lemma_divides_abs(g, a);
        lemma_divides_abs(g, b);
        let ka = choose|k: int| is_multiple(aa, g, k);
        let kb = choose|k: int| is_multiple(bb, g, k);
        assert(aa / g == ka) by (nonlinear_arith)
            requires
                aa == g * ka,
                g >= 1,
        ;
        assert(l == ka * bb);
        assert(l >= 0) by (nonlinear_arith)
            requires
                l == ka * bb,
                aa == g * ka,
                aa > 0,
                bb > 0,
                g >= 1,
        ;
        assert(is_multiple(l, bb, ka)) by (nonlinear_arith)
            requires
                l == ka * bb,
        ;
        assert(is_multiple(l, aa, kb)) by (nonlinear_arith)
            requires
                l == ka * bb,
                aa == g * ka,
                bb == g * kb,
        ;
        lemma_divides_abs(a, l);
        lemma_divides_abs(b, l);
        lemma_gcd_abs(a, b);
        lemma_gcd_of(aa, bb);
        lemma_gcd_shape(aa, bb);
        let (x, y) = lemma_bezout(aa, bb);
        assert(aa * x + bb * y == g);
        assert(l * g == aa * bb) by (nonlinear_arith)
            requires
                aa == g * ka,
                l == ka * bb,
        ;
        assert forall|m: int| divides(a, m) && divides(b, m) implies #[trigger] divides(l, m) by {
            lemma_divides_abs(a, m);
            lemma_divides_abs(b, m);
            let s = choose|k: int| is_multiple(m, aa, k);
            let t = choose|k: int| is_multiple(m, bb, k);
            let c = t * x + s * y;
            assert(m * g == m * (aa * x) + m * (bb * y)) by (nonlinear_arith)
                requires
                    aa * x + bb * y == g,
            ;
            assert(m * (aa * x) == aa * bb * (t * x)) by (nonlinear_arith)
                requires
                    m == bb * t,
            ;
            assert(m * (bb * y) == aa * bb * (s * y)) by (nonlinear_arith)
                requires
                    m == aa * s,
            ;
            assert(aa * bb * (t * x) + aa * bb * (s * y) == aa * bb * c) by (nonlinear_arith)
                requires
                    c == t * x + s * y,
            ;
            assert(m * g == l * g * c);
            assert(is_multiple(m, l, c)) by (nonlinear_arith)
                requires
                    m * g == l * g * c,
                    g >= 1,
            ;
        }
    }
    lemma_lcm_unique(l, a, b);
}

/// The least common multiple does not depend on the signs of the arguments.
pub proof fn lemma_lcm_abs(a: int, b: int)
    ensures
        lcm_of(abs(a), abs(b)) == lcm_of(a, b),
{
    lemma_lcm_of(a, b);
    lemma_lcm_of(abs(a), abs(b));
    lemma_gcd_abs(a, b);
}

/// Neither the greatest common divisor nor the least common multiple depends
/// on the order of the arguments.
pub proof fn lemma_gcd_lcm_commutative(a: int, b: int)
    ensures
        gcd_of(a, b) == gcd_of(b, a),
        lcm_of(a, b) == lcm_of(b, a),
{
    lemma_gcd_of(a, b);
    assert(is_gcd(gcd_of(a, b), b, a));
    lemma_gcd_unique(gcd_of(a, b), b, a);
    lemma_lcm_of(a, b);
    assert(is_lcm(lcm_of(a, b), b, a));
    lemma_lcm_unique(lcm_of(a, b), b, a);
}

/// The product of the greatest common divisor and the least common multiple
/// is the magnitude of the product of the arguments.
pub proof fn lemma_gcd_lcm_product(a: int, b: int)
    ensures
        gcd_of(a, b) * lcm_of(a, b) == abs(a * b),
{
    lemma_gcd_of(a, b);
    lemma_lcm_of(a, b);
    let g = gcd_of(a, b);
    if a == 0 || b == 0 {
        assert(a * b == 0) by (nonlinear_arith)
            requires
                a == 0 || b == 0,
        ;
    } else {
        let aa = abs(a);
        let bb = abs(b);
        lemma_divides_abs(g, a);
        let ka = choose|k: int| is_multiple(aa, g, k);
        assert(aa / g == ka) by (nonlinear_arith)
            requires
                aa == g * ka,
                g >= 1,
        ;
        assert(g * (ka * bb) == aa * bb) by (nonlinear_arith)
            requires
                aa == g * ka,
        ;
        assert(abs(a * b) == aa * bb) by (nonlinear_arith)
            requires
                aa == (if a < 0 {
                    -a
                } else {
                    a
                }),
                bb == (if b < 0 {
                    -b
                } else {
                    b
                }),
                abs(a * b) == (if a * b < 0 {
                    -(a * b)
                } else {
                    a * b
                }),
        ;
    }
}

/// The magnitude of `x`, which always fits in a `u128`.
fn magnitude(x: i128) -> (r: u128)
    ensures
        r == abs(x as int),
{
    if x >= 0 {
        x as u128
    } else {
        (-(x + 1)) as u128 + 1
    }
}

/// Euclid's algorithm on `u128`.
fn gcd_u128(a: u128, b: u128) -> (r: u128)
    ensures
        r == gcd_of(a as int, b as int),
        r <= a || r <= b,
{
    proof {
        lemma_gcd_shape(a as int, b as int);
        lemma_gcd_of(a as int, b as int);
    }
    let mut x = a;
    let mut y = b;
    while y != 0
        invariant
            euclid_gcd(x as int, y as int) == euclid_gcd(a as int, b as int),
        decreases y,
    {
        proof {
            vstd::arithmetic::div_mod::lemma_mod_pos_bound(x as int, y as int);
        }
        let t = y;
        y = x % y;
        x = t;
    }
    x
}

/// The least common multiple on `u128`, as `(a / gcd(a, b)) * b`.
fn lcm_u128(a: u128, b: u128) -> (r: u128)
    requires
        lcm_of(a as int, b as int) <= u128::MAX,
    ensures
        r == lcm_of(a as int, b as int),
{
    proof {
        lemma_lcm_of(a as int, b as int);
    }
    if a == 0 && b == 0 {
        return 0;
    }
    let g = gcd_u128(a, b);
    proof {
        lemma_gcd_of(a as int, b as int);
    }
    let q = a / g;
    proof {
        if a == 0 {
            assert(q == 0);
            assert(q * b == 0);
        } else if b == 0 {
            assert(q * b == 0);
        } else {
            assert(q * b == lcm_of(a as int, b as int));
        }
    }
    q * b
}

/// Greatest common divisor and least common multiple.
///
/// Both are the nonnegative values [`gcd_of`] and [`lcm_of`], whatever the
/// signs of the arguments. The one gcd that a type cannot hold, `2^(n-1)` on
/// a signed type of `n` bits, comes back as the type's least value.
pub trait GCD: Sized {
    /// The mathematical value of `self`.
    spec fn int_value(self) -> int;

    /// The least value of the type.
    spec fn min_int() -> int;

    /// The greatest value of the type.
    spec fn max_int() -> int;

    /// Calculates the Greatest Common Divisor of two numbers.
    fn gcd(self, other: Self) -> (r: Self)
        ensures
            r.int_value() == gcd_result(
                gcd_of(self.int_value(), other.int_value()),
                Self::min_int(),
                Self::max_int(),
            ),
    ;

    /// Calculates the Least Common Multiple of two numbers.
    fn lcm(self, other: Self) -> (r: Self)
        requires
            lcm_of(self.int_value(), other.int_value()) <= Self::max_int(),
        ensures
            r.int_value() == lcm_of(self.int_value(), other.int_value()),
    ;
}

impl GCD for u8 {
    open spec fn int_value(self) -> int {
        self as int
    }

    open spec fn min_int() -> int {
        0
    }

    open spec fn max_int() -> int {
        u8::MAX as int
    }

    fn gcd(self, other: u8) -> (r: u8) {
        gcd_u128(self as u128, other as u128) as u8
    }

    fn lcm(self, other: u8) -> (r: u8) {
        lcm_u128(self as u128, other as u128) as u8
    }
}

impl GCD for u16 {
    open spec fn int_value(self) -> int {
        self as int
    }

    open spec fn min_int() -> int {
        0
    }

    open spec fn max_int() -> int {
        u16::MAX as int
    }

    fn gcd(self, other: u16) -> (r: u16) {
        gcd_u128(self as u128, other as u128) as u16
    }

    fn lcm(self, other: u16) -> (r: u16) {
        lcm_u128(self as u128, other as u128) as u16
    }
}

impl GCD for u32 {
    open spec fn int_value(self) -> int {
        self as int
    }

    open spec fn min_int() -> int {
        0
    }

    open spec fn max_int() -> int {
        u32::MAX as int
    }

    fn gcd(self, other: u32) -> (r: u32) {
        gcd_u128(self as u128, other as u128) as u32
    }

    fn lcm(self, other: u32) -> (r: u32) {
        lcm_u128(self as u128, other as u128) as u32
    }
}

impl GCD for u64 {
    open spec fn int_value(self) -> int {
        self as int
    }

    open spec fn min_int() -> int {
        0
    }

    open spec fn max_int() -> int {
        u64::MAX as int
    }

    fn gcd(self, other: u64) -> (r: u64) {
        gcd_u128(self as u128, other as u128) as u64
    }

    fn lcm(self, other: u64) -> (r: u64) {
        lcm_u128(self as u128, other as u128) as u64
    }
}

impl GCD for usize {
    open spec fn int_value(self) -> int {
        self as int
    }

    open spec fn min_int() -> int {
        0
    }

    open spec fn max_int() -> int {
        usize::MAX as int
    }

    fn gcd(self, other: usize) -> (r: usize) {
        gcd_u128(self as u128, other as u128) as usize
    }

    fn lcm(self, other: usize) -> (r: usize) {
        lcm_u128(self as u128, other as u128) as usize
    }
}

impl GCD for u128 {
    open spec fn int_value(self) -> int {
        self as int
    }

    open spec fn min_int() -> int {
        0
    }

    open spec fn max_int() -> int {
        u128::MAX as int
    }

    fn gcd(self, other: u128) -> (r: u128) {
        gcd_u128(self, other)
    }

    fn lcm(self, other: u128) -> (r: u128) {
        lcm_u128(self, other)
    }
}

impl GCD for i8 {
    open spec fn int_value(self) -> int {
        self as int
    }

    open spec fn min_int() -> int {
        i8::MIN as int
    }

    open spec fn max_int() -> int {
        i8::MAX as int
    }

    fn gcd(self, other: i8) -> (r: i8) {
        proof {
            lemma_gcd_abs(self as int, other as int);
        }
        let g = gcd_u128(magnitude(self as i128), magnitude(other as i128));
        if g <= i8::MAX as u128 {
            g as i8
        } else {
            i8::MIN
        }
    }

    fn lcm(self, other: i8) -> (r: i8) {
        proof {
            lemma_lcm_abs(self as int, other as int);
        }
        lcm_u128(magnitude(self as i128), magnitude(other as i128)) as i8
    }
}

impl GCD for i16 {
    open spec fn int_value(self) -> int {
        self as int
    }

    open spec fn min_int() -> int {
        i16::MIN as int
    }

    open spec fn max_int() -> int {
        i16::MAX as int
    }

    fn gcd(self, other: i16) -> (r: i16) {
        proof {
            lemma_gcd_abs(self as int, other as int);
        }
        let g = gcd_u128(magnitude(self as i128), magnitude(other as i128));
        if g <= i16::MAX as u128 {
            g as i16
        } else {
            i16::MIN
        }
    }

    fn lcm(self, other: i16) -> (r: i16) {
        proof {
            lemma_lcm_abs(self as int, other as int);
        }
        lcm_u128(magnitude(self as i128), magnitude(other as i128)) as i16
    }
}

impl GCD for i32 {
    open spec fn int_value(self) -> int {
        self as int
    }

    open spec fn min_int() -> int {
        i32::MIN as int
    }

    open spec fn max_int() -> int {
        i32::MAX as int
    }

    fn gcd(self, other: i32) -> (r: i32) {
        proof {
            lemma_gcd_abs(self as int, other as int);
        }
        let g = gcd_u128(magnitude(self as i128), magnitude(other as i128));
        if g <= i32::MAX as u128 {
            g as i32
        } else {
            i32::MIN
        }
    }

    fn lcm(self, other: i32) -> (r: i32) {
        proof {
            lemma_lcm_abs(self as int, other as int);
        }
        lcm_u128(magnitude(self as i128), magnitude(other as i128)) as i32
    }
}

impl GCD for i64 {
    open spec fn int_value(self) -> int {
        self as int
    }

    open spec fn min_int() -> int {
        i64::MIN as int
    }

    open spec fn max_int() -> int {
        i64::MAX as int
    }

    fn gcd(self, other: i64) -> (r: i64) {
        proof {
            lemma_gcd_abs(self as int, other as int);
        }
        let g = gcd_u128(magnitude(self as i128), magnitude(other as i128));
        if g <= i64::MAX as u128 {
            g as i64
        } else {
            i64::MIN
        }
    }

    fn lcm(self, other: i64) -> (r: i64) {
        proof {
            lemma_lcm_abs(self as int, other as int);
        }
        lcm_u128(magnitude(self as i128), magnitude(other as i128)) as i64
    }
}

impl GCD for isize {
    open spec fn int_value(self) -> int {
        self as int
    }

    open spec fn min_int() -> int {
        isize::MIN as int
    }

    open spec fn max_int() -> int {
        isize::MAX as int
    }

    fn gcd(self, other: isize) -> (r: isize) {
        proof {
            lemma_gcd_abs(self as int, other as int);
        }
        let g = gcd_u128(magnitude(self as i128), magnitude(other as i128));
        if g <= isize::MAX as u128 {
            g as isize
        } else {
            isize::MIN
        }
    }

    fn lcm(self, other: isize) -> (r: isize) {
        proof {
            lemma_lcm_abs(self as int, other as int);
        }
        lcm_u128(magnitude(self as i128), magnitude(other as i128)) as isize
    }
}

impl GCD for i128 {
    open spec fn int_value(self) -> int {
        self as int
    }

    open spec fn min_int() -> int {
        i128::MIN as int
    }

    open spec fn max_int() -> int {
        i128::MAX as int
    }

    fn gcd(self, other: i128) -> (r: i128) {
        proof {
            lemma_gcd_abs(self as int, other as int);
        }
        let g = gcd_u128(magnitude(self), magnitude(other));
        if g <= i128::MAX as u128 {
            g as i128
        } else {
            i128::MIN
        }
    }

    fn lcm(self, other: i128) -> (r: i128) {
        proof {
            lemma_lcm_abs(self as int, other as int);
        }
        lcm_u128(magnitude(self), magnitude(other)) as i128
    }
}

/// Calculates the Greatest Common Divisor of two numbers.
pub fn gcd<T: GCD>(a: T, b: T) -> (r: T)
    ensures
        r.int_value() == gcd_result(gcd_of(a.int_value(), b.int_value()), T::min_int(), T::max_int()),
{
    a.gcd(b)
}

/// Calculates the Least Common Multiple of two numbers.
pub fn lcm<T: GCD>(a: T, b: T) -> (r: T)
    requires
        lcm_of(a.int_value(), b.int_value()) <= T::max_int(),
    ensures
        r.int_value() == lcm_of(a.int_value(), b.int_value()),
{
    a.lcm(b)
}

} // verus!
