//! Union-find over `0..n` where every element carries a weight relative to
//! the root of its set.
use vstd::prelude::*;
use vstd::set_lib::*;

verus! {

/// The weights a [`WeightedDsu`] works with: an abelian group whose
/// operations the implementation computes exactly.
pub trait DsuWeight: Copy + Sized {
    spec fn zero_spec() -> Self;

    spec fn plus_spec(a: Self, b: Self) -> Self;

    spec fn negate_spec(a: Self) -> Self;

    spec fn minus_spec(a: Self, b: Self) -> Self;

    /// The abelian group laws, and subtraction as adding the inverse.
    proof fn lemma_group_laws(a: Self, b: Self, c: Self)
        ensures
            Self::plus_spec(Self::plus_spec(a, b), c) == Self::plus_spec(a, Self::plus_spec(b, c)),
            Self::plus_spec(a, b) == Self::plus_spec(b, a),
            Self::plus_spec(a, Self::zero_spec()) == a,
            Self::plus_spec(a, Self::negate_spec(a)) == Self::zero_spec(),
            Self::minus_spec(a, b) == Self::plus_spec(a, Self::negate_spec(b)),
    ;

    /// The neutral weight (what `Default` gives for the integer types).
    fn zero() -> (r: Self)
        ensures
            r == Self::zero_spec(),
    ;

    fn plus(self, other: Self) -> (r: Self)
        ensures
            r == Self::plus_spec(self, other),
    ;

    fn minus(self, other: Self) -> (r: Self)
        ensures
            r == Self::minus_spec(self, other),
    ;

    fn negate(self) -> (r: Self)
        ensures
            r == Self::negate_spec(self),
    ;
}

/// Two's complement arithmetic on `i8`: the operations wrap around.
impl DsuWeight for i8 {
    open spec fn zero_spec() -> Self {
        0
    }

    open spec fn plus_spec(a: Self, b: Self) -> Self {
        a.wrapping_add(b)
    }

    open spec fn negate_spec(a: Self) -> Self {
        0i8.wrapping_sub(a)
    }

    open spec fn minus_spec(a: Self, b: Self) -> Self {
        a.wrapping_sub(b)
    }

    proof fn lemma_group_laws(a: Self, b: Self, c: Self) {
    }

    fn zero() -> (r: Self) {
        0
    }

    fn plus(self, other: Self) -> (r: Self) {
        self.wrapping_add(other)
    }

    fn minus(self, other: Self) -> (r: Self) {
        self.wrapping_sub(other)
    }

    fn negate(self) -> (r: Self) {
        0i8.wrapping_sub(self)
    }
}

/// Two's complement arithmetic on `i16`: the operations wrap around.
impl DsuWeight for i16 {
    open spec fn zero_spec() -> Self {
        0
    }

    open spec fn plus_spec(a: Self, b: Self) -> Self {
        a.wrapping_add(b)
    }

    open spec fn negate_spec(a: Self) -> Self {
        0i16.wrapping_sub(a)
    }

    open spec fn minus_spec(a: Self, b: Self) -> Self {
        a.wrapping_sub(b)
    }

    proof fn lemma_group_laws(a: Self, b: Self, c: Self) {
    }

    fn zero() -> (r: Self) {
        0
    }

    fn plus(self, other: Self) -> (r: Self) {
        self.wrapping_add(other)
    }

    fn minus(self, other: Self) -> (r: Self) {
        self.wrapping_sub(other)
    }

    fn negate(self) -> (r: Self) {
        0i16.wrapping_sub(self)
    }
}

/// Two's complement arithmetic on `i128`: the operations wrap around.
impl DsuWeight for i128 {
    open spec fn zero_spec() -> Self {
        0
    }

    open spec fn plus_spec(a: Self, b: Self) -> Self {
        a.wrapping_add(b)
    }

    open spec fn negate_spec(a: Self) -> Self {
        0i128.wrapping_sub(a)
    }

    open spec fn minus_spec(a: Self, b: Self) -> Self {
        a.wrapping_sub(b)
    }

    proof fn lemma_group_laws(a: Self, b: Self, c: Self) {
    }

    fn zero() -> (r: Self) {
        0
    }

    fn plus(self, other: Self) -> (r: Self) {
        self.wrapping_add(other)
    }

    fn minus(self, other: Self) -> (r: Self) {
        self.wrapping_sub(other)
    }

    fn negate(self) -> (r: Self) {
        0i128.wrapping_sub(self)
    }
}

/// Two's complement arithmetic on `isize`: the operations wrap around.
impl DsuWeight for isize {
    open spec fn zero_spec() -> Self {
        0
    }

    open spec fn plus_spec(a: Self, b: Self) -> Self {
        a.wrapping_add(b)
    }

    open spec fn negate_spec(a: Self) -> Self {
        0isize.wrapping_sub(a)
    }

    open spec fn minus_spec(a: Self, b: Self) -> Self {
        a.wrapping_sub(b)
    }

    proof fn lemma_group_laws(a: Self, b: Self, c: Self) {
    }

    fn zero() -> (r: Self) {
        0
    }

    fn plus(self, other: Self) -> (r: Self) {
        self.wrapping_add(other)
    }

    fn minus(self, other: Self) -> (r: Self) {
        self.wrapping_sub(other)
    }

    fn negate(self) -> (r: Self) {
        0isize.wrapping_sub(self)
    }
}

/// Two's complement arithmetic on `i32`: the operations wrap around.
impl DsuWeight for i32 {
    open spec fn zero_spec() -> Self {
        0
    }

    open spec fn plus_spec(a: Self, b: Self) -> Self {
        a.wrapping_add(b)
    }

    open spec fn negate_spec(a: Self) -> Self {
        0i32.wrapping_sub(a)
    }

    open spec fn minus_spec(a: Self, b: Self) -> Self {
        a.wrapping_sub(b)
    }

    proof fn lemma_group_laws(a: Self, b: Self, c: Self) {
    }

    fn zero() -> (r: Self) {
        0
    }

    fn plus(self, other: Self) -> (r: Self) {
        self.wrapping_add(other)
    }

    fn minus(self, other: Self) -> (r: Self) {
        self.wrapping_sub(other)
    }

    fn negate(self) -> (r: Self) {
        0i32.wrapping_sub(self)
    }
}

/// Two's complement arithmetic on `i64`: the operations wrap around.
impl DsuWeight for i64 {
    open spec fn zero_spec() -> Self {
        0
    }

    open spec fn plus_spec(a: Self, b: Self) -> Self {
        a.wrapping_add(b)
    }

    open spec fn negate_spec(a: Self) -> Self {
        0i64.wrapping_sub(a)
    }

    open spec fn minus_spec(a: Self, b: Self) -> Self {
        a.wrapping_sub(b)
    }

    proof fn lemma_group_laws(a: Self, b: Self, c: Self) {
    }

    fn zero() -> (r: Self) {
        0
    }

    fn plus(self, other: Self) -> (r: Self) {
        self.wrapping_add(other)
    }

    fn minus(self, other: Self) -> (r: Self) {
        self.wrapping_sub(other)
    }

    fn negate(self) -> (r: Self) {
        0i64.wrapping_sub(self)
    }
}

/// Every parent link stays in range and climbs to a strictly higher level,
/// and every level is below `cap`.
spec fn links_ok(ps: Seq<i32>, level: Seq<nat>, cap: nat) -> bool {
    &&& level.len() == ps.len()
    &&& forall|x: int| 0 <= x < ps.len() ==> #[trigger] level[x] < cap
    &&& forall|x: int|
        0 <= x < ps.len() && #[trigger] ps[x] >= 0 ==> ps[x] < ps.len() && level[x] < level[ps[x] as int]
}

spec fn step_ok(ps: Seq<i32>, level: Seq<nat>, cap: nat, x: int) -> bool {
    &&& 0 <= x < ps.len()
    &&& x < level.len()
    &&& ps[x] >= 0
    &&& ps[x] < ps.len()
    &&& (ps[x] as int) < level.len()
    &&& level[x] < level[ps[x] as int]
    &&& level[ps[x] as int] < cap
}

/// The root reached from `x` by following parent links.
spec fn root_rec(ps: Seq<i32>, level: Seq<nat>, cap: nat, x: int) -> int
    decreases cap - level[x],
{
    if step_ok(ps, level, cap, x) {
        root_rec(ps, level, cap, ps[x] as int)
    } else {
        x
    }
}

/// The weight of `x` relative to its root: the sum of the link weights on
/// the way up.
spec fn pot_rec<T: DsuWeight>(ps: Seq<i32>, diff: Seq<T>, level: Seq<nat>, cap: nat, x: int) -> T
    decreases cap - level[x],
{
    if step_ok(ps, level, cap, x) {
        T::plus_spec(diff[x], pot_rec(ps, diff, level, cap, ps[x] as int))
    } else {
        T::zero_spec()
    }
}

/// The elements whose root is `r`.
spec fn class_of(ps: Seq<i32>, level: Seq<nat>, cap: nat, r: int) -> Set<int> {
    Set::new(|z: int| 0 <= z < ps.len() && root_rec(ps, level, cap, z) == r)
}

proof fn lemma_root_props(ps: Seq<i32>, level: Seq<nat>, cap: nat, x: int)
    requires
        links_ok(ps, level, cap),
        0 <= x < ps.len(),
    ensures
        0 <= root_rec(ps, level, cap, x) < ps.len(),
        ps[root_rec(ps, level, cap, x)] < 0,
        level[root_rec(ps, level, cap, x)] >= level[x],
        ps[x] >= 0 ==> level[root_rec(ps, level, cap, x)] > level[x],
        ps[x] < 0 ==> root_rec(ps, level, cap, x) == x,
        ps[x] >= 0 ==> root_rec(ps, level, cap, x) == root_rec(ps, level, cap, ps[x] as int),
    decreases cap - level[x],
{
    assert(level[x] < cap);
    if ps[x] >= 0 {
        let p = ps[x] as int;
        assert(level[p] < cap);
        assert(step_ok(ps, level, cap, x));
        lemma_root_props(ps, level, cap, p);
    }
}

proof fn lemma_class_finite(ps: Seq<i32>, level: Seq<nat>, cap: nat, r: int)
    ensures
        class_of(ps, level, cap, r).finite(),
        class_of(ps, level, cap, r).len() <= ps.len(),
{
    let c = class_of(ps, level, cap, r);
    let all = Set::<int>::range(0, ps.len() as int);
    <int as FiniteRange>::range_properties(0, ps.len() as int);
    assert(c.subset_of(all));
    lemma_len_subset(c, all);
}

/// Re-pointing a non-root `x` straight at its root, with its weight relative
/// to the root, changes no element's root or weight.
proof fn lemma_compress_frame<T: DsuWeight>(
    ps: Seq<i32>,
    diff: Seq<T>,
    level: Seq<nat>,
    cap: nat,
    x: int,
    z: int,
)
    requires
        links_ok(ps, level, cap),
        diff.len() == ps.len(),
        ps.len() <= i32::MAX,
        0 <= x < ps.len(),
        ps[x] >= 0,
        0 <= z < ps.len(),
    ensures
        links_ok(ps.update(x, root_rec(ps, level, cap, x) as i32), level, cap),
        root_rec(ps.update(x, root_rec(ps, level, cap, x) as i32), level, cap, z) == root_rec(
            ps,
            level,
            cap,
            z,
        ),
        pot_rec(
            ps.update(x, root_rec(ps, level, cap, x) as i32),
            diff.update(x, pot_rec(ps, diff, level, cap, x)),
            level,
            cap,
            z,
        ) == pot_rec(ps, diff, level, cap, z),
    decreases cap - level[z],
{
    let r = root_rec(ps, level, cap, x);
    let ps2 = ps.update(x, r as i32);
    let diff2 = diff.update(x, pot_rec(ps, diff, level, cap, x));
    lemma_root_props(ps, level, cap, x);
    assert(links_ok(ps2, level, cap)) by {
        assert forall|y: int| 0 <= y < ps2.len() && #[trigger] ps2[y] >= 0 implies ps2[y] < ps2.len()
            && level[y] < level[ps2[y] as int] by {
            if y == x {
                assert(ps2[y] as int == r);
            }
        }
    }
    lemma_root_props(ps, level, cap, z);
    lemma_root_props(ps2, level, cap, z);
    assert(level[z] < cap);
    if z == x {
        lemma_root_props(ps2, level, cap, r);
        lemma_root_props(ps, level, cap, r);
        assert(step_ok(ps2, level, cap, x));
        assert(!step_ok(ps2, level, cap, r));
        assert(!step_ok(ps, level, cap, r));
        T::lemma_group_laws(pot_rec(ps, diff, level, cap, x), T::zero_spec(), T::zero_spec());
        assert(ps2[x] as int == r);
        assert(pot_rec(ps2, diff2, level, cap, r) == T::zero_spec());
        assert(pot_rec(ps2, diff2, level, cap, x) == T::plus_spec(diff2[x], pot_rec(ps2, diff2, level, cap, r)));
    } else if ps[z] < 0 {
        assert(!step_ok(ps2, level, cap, z));
        assert(!step_ok(ps, level, cap, z));
    } else {
        let p = ps[z] as int;
        assert(step_ok(ps, level, cap, z));
        assert(step_ok(ps2, level, cap, z));
        lemma_compress_frame(ps, diff, level, cap, x, p);
    }
}


/// Hanging the root `small` below the root `big` with link weight `d` moves
/// the set of `small` into the set of `big`, shifting its weights by `d`.
proof fn lemma_link_frame<T: DsuWeight>(
    ps: Seq<i32>,
    diff: Seq<T>,
    level: Seq<nat>,
    cap: nat,
    big: int,
    small: int,
    d: T,
    z: int,
)
    requires
        links_ok(ps, level, cap),
        diff.len() == ps.len(),
        ps.len() <= i32::MAX,
        0 <= big < ps.len(),
        0 <= small < ps.len(),
        big != small,
        ps[big] < 0,
        ps[small] < 0,
        ps[big] + ps[small] >= i32::MIN,
        0 <= z < ps.len(),
    ensures
        ({
            let ps2 = ps.update(big, (ps[big] + ps[small]) as i32).update(small, big as i32);
            let diff2 = diff.update(small, d);
            let level2 = level.update(big, if level[big] > level[small] { level[big] } else { level[small] + 1 });
            let cap2 = if cap > level2[big] + 1 { cap } else { level2[big] + 1 };
            &&& links_ok(ps2, level2, cap2)
            &&& root_rec(ps2, level2, cap2, z) == (if root_rec(ps, level, cap, z) == small {
                big
            } else {
                root_rec(ps, level, cap, z)
            })
            &&& pot_rec(ps2, diff2, level2, cap2, z) == (if root_rec(ps, level, cap, z) == small {
                T::plus_spec(pot_rec(ps, diff, level, cap, z), d)
            } else {
                pot_rec(ps, diff, level, cap, z)
            })
        }),
    decreases cap - level[z],
{
    let ps2 = ps.update(big, (ps[big] + ps[small]) as i32).update(small, big as i32);
    let diff2 = diff.update(small, d);
    let level2 = level.update(big, if level[big] > level[small] { level[big] } else { level[small] + 1 });
    let cap2 = if cap > level2[big] + 1 { cap } else { level2[big] + 1 };
    assert(links_ok(ps2, level2, cap2)) by {
        assert forall|y: int| 0 <= y < ps2.len() implies #[trigger] level2[y] < cap2 by {
            assert(level[y] < cap);
        }
        assert forall|y: int| 0 <= y < ps2.len() && #[trigger] ps2[y] >= 0 implies ps2[y] < ps2.len()
            && level2[y] < level2[ps2[y] as int] by {
            if y != small {
                assert(ps2[y] == ps[y]);
            }
        }
    }
    lemma_root_props(ps, level, cap, z);
    lemma_root_props(ps2, level2, cap2, z);
    assert(level[z] < cap);
    T::lemma_group_laws(T::zero_spec(), d, T::zero_spec());
    T::lemma_group_laws(d, T::zero_spec(), T::zero_spec());
    if z == small {
        assert(ps2[small] as int == big);
        assert(step_ok(ps2, level2, cap2, small));
        assert(!step_ok(ps2, level2, cap2, big));
        assert(!step_ok(ps, level, cap, small));
        assert(root_rec(ps2, level2, cap2, big) == big);
        assert(root_rec(ps2, level2, cap2, small) == big);
        assert(pot_rec(ps2, diff2, level2, cap2, big) == T::zero_spec());
        assert(pot_rec(ps2, diff2, level2, cap2, small) == T::plus_spec(d, T::zero_spec()));
        assert(pot_rec(ps, diff, level, cap, small) == T::zero_spec());
    } else if z == big {
        assert(!step_ok(ps2, level2, cap2, big));
        assert(!step_ok(ps, level, cap, big));
    } else if ps[z] < 0 {
        assert(!step_ok(ps2, level2, cap2, z));
        assert(!step_ok(ps, level, cap, z));
    } else {
        let p = ps[z] as int;
        assert(step_ok(ps, level, cap, z));
        assert(step_ok(ps2, level2, cap2, z));
        lemma_link_frame(ps, diff, level, cap, big, small, d, p);
        T::lemma_group_laws(diff[z], pot_rec(ps, diff, level, cap, p), d);
        assert(ps2[z] == ps[z]);
        assert(diff2[z] == diff[z]);
        assert(root_rec(ps2, level2, cap2, z) == root_rec(ps2, level2, cap2, p));
        assert(pot_rec(ps2, diff2, level2, cap2, z) == T::plus_spec(diff[z], pot_rec(ps2, diff2, level2, cap2, p)));
    }
}

/// The weight algebra behind `merge`: after the link the requested
/// difference holds, whichever root ends up on top.
proof fn lemma_merge_algebra<T: DsuWeight>(w: T, wx: T, wy: T)
    ensures
        ({
            let shift = T::minus_spec(T::plus_spec(w, wx), wy);
            &&& T::minus_spec(T::plus_spec(wy, shift), wx) == w
            &&& T::minus_spec(wy, T::plus_spec(wx, T::negate_spec(shift))) == w
        }),
{
    let n = |a: T| T::negate_spec(a);
    let p = |a: T, b: T| T::plus_spec(a, b);
    let z = T::zero_spec();
    let shift = T::minus_spec(T::plus_spec(w, wx), wy);
    T::lemma_group_laws(T::plus_spec(w, wx), wy, z);
    // shift == w + wx + (-wy)
    T::lemma_group_laws(wy, shift, wx);
    T::lemma_group_laws(T::plus_spec(wy, shift), wx, z);
    T::lemma_group_laws(wy, T::plus_spec(w, wx), n(wy));
    T::lemma_group_laws(T::plus_spec(w, wx), n(wy), wy);
    T::lemma_group_laws(n(wy), wy, z);
    T::lemma_group_laws(wy, n(wy), z);
    T::lemma_group_laws(T::plus_spec(w, wx), z, z);
    T::lemma_group_laws(w, wx, n(wx));
    T::lemma_group_laws(wx, n(wx), z);
    T::lemma_group_laws(w, z, z);
    // wy + shift == w + wx
    assert(T::plus_spec(wy, shift) == T::plus_spec(w, wx)) by {
        assert(shift == p(p(w, wx), n(wy)));
        assert(p(wy, p(p(w, wx), n(wy))) == p(p(p(w, wx), n(wy)), wy));
        assert(p(p(p(w, wx), n(wy)), wy) == p(p(w, wx), p(n(wy), wy)));
        assert(p(n(wy), wy) == z);
    }
    assert(T::minus_spec(T::plus_spec(wy, shift), wx) == w) by {
        assert(T::minus_spec(p(w, wx), wx) == p(p(w, wx), n(wx)));
        assert(p(p(w, wx), n(wx)) == p(w, p(wx, n(wx))));
    }
    // the second form: wy - (wx + (-shift))
    let q = T::plus_spec(wx, n(shift));
    T::lemma_group_laws(wy, q, z);
    T::lemma_group_laws(q, shift, z);
    T::lemma_group_laws(wx, n(shift), shift);
    T::lemma_group_laws(n(shift), shift, z);
    T::lemma_group_laws(shift, n(shift), z);
    T::lemma_group_laws(wx, z, z);
    T::lemma_group_laws(wy, n(q), q);
    T::lemma_group_laws(n(q), q, z);
    T::lemma_group_laws(q, n(q), z);
    T::lemma_group_laws(wy, z, z);
    // q + shift == wx, so wy - q == wy - wx + shift == w
    assert(p(q, shift) == wx) by {
        assert(p(p(wx, n(shift)), shift) == p(wx, p(n(shift), shift)));
        assert(p(n(shift), shift) == z);
    }
    // (wy - q) + wx == (wy - q) + (q + shift) == wy + shift == w + wx
    let m = T::minus_spec(wy, q);
    T::lemma_group_laws(m, q, shift);
    T::lemma_group_laws(wy, n(q), q);
    T::lemma_group_laws(m, wx, n(wx));
    T::lemma_group_laws(p(w, wx), n(wx), z);
    assert(m == p(wy, n(q)));
    assert(p(m, q) == wy) by {
        assert(p(p(wy, n(q)), q) == p(wy, p(n(q), q)));
    }
    assert(p(m, wx) == p(w, wx)) by {
        assert(p(m, p(q, shift)) == p(p(m, q), shift));
    }
    assert(m == w) by {
        assert(p(p(m, wx), n(wx)) == p(m, p(wx, n(wx))));
        assert(p(p(w, wx), n(wx)) == p(w, p(wx, n(wx))));
    }
}

/// Swapping the arguments of `diff` negates it: `weight(x) - weight(y)` is
/// the negation of `weight(y) - weight(x)`.
pub proof fn lemma_diff_antisymmetric<T: DsuWeight>(a: T, b: T)
    ensures
        T::minus_spec(a, b) == T::negate_spec(T::minus_spec(b, a)),
{
    let z = T::zero_spec();
    let nb = T::negate_spec(b);
    let na = T::negate_spec(a);
    let x = T::plus_spec(a, nb);
    let d = T::plus_spec(b, na);
    let nd = T::negate_spec(d);
    T::lemma_group_laws(a, b, z);
    T::lemma_group_laws(b, a, z);
    T::lemma_group_laws(a, nb, b);
    T::lemma_group_laws(nb, b, z);
    T::lemma_group_laws(b, z, z);
    T::lemma_group_laws(a, z, z);
    assert(T::plus_spec(x, b) == a);
    T::lemma_group_laws(x, b, na);
    assert(T::plus_spec(x, d) == z);
    T::lemma_group_laws(x, d, nd);
    T::lemma_group_laws(d, z, z);
    T::lemma_group_laws(x, z, z);
    T::lemma_group_laws(z, nd, z);
    T::lemma_group_laws(nd, z, z);
    assert(x == nd);
}

/// Differences of weights compose along a chain: `weight(z) - weight(x)` is
/// `(weight(y) - weight(x)) + (weight(z) - weight(y))`.
pub proof fn lemma_diff_chain<T: DsuWeight>(a: T, b: T, c: T)
    ensures
        T::minus_spec(c, a) == T::plus_spec(T::minus_spec(b, a), T::minus_spec(c, b)),
{
    let z = T::zero_spec();
    let na = T::negate_spec(a);
    let nb = T::negate_spec(b);
    let u = T::plus_spec(b, na);
    let v = T::plus_spec(c, nb);
    T::lemma_group_laws(c, a, z);
    T::lemma_group_laws(b, a, z);
    T::lemma_group_laws(c, b, z);
    T::lemma_group_laws(u, v, z);
    T::lemma_group_laws(v, b, na);
    T::lemma_group_laws(c, nb, b);
    T::lemma_group_laws(nb, b, z);
    T::lemma_group_laws(b, z, z);
    T::lemma_group_laws(c, z, z);
    assert(T::plus_spec(v, b) == c);
    assert(T::plus_spec(u, v) == T::plus_spec(v, u));
}

/// On the signed integer types the weights are the integers with two's
/// complement arithmetic: `plus`, `minus` and `negate` are `+`, `-` and unary
/// `-` wrapped around at most once by the size of the type, and exact
/// whenever the true result fits.
pub proof fn lemma_integer_weights()
    ensures
        <i8 as DsuWeight>::zero_spec() == 0,
        forall|a: i8, b: i8| #[trigger] <i8 as DsuWeight>::plus_spec(a, b) == a + b || <i8 as DsuWeight>::plus_spec(a, b) == a + b - (i8::MAX as int - i8::MIN as int + 1)
            || <i8 as DsuWeight>::plus_spec(a, b) == a + b + (i8::MAX as int - i8::MIN as int + 1),
        forall|a: i8, b: i8| i8::MIN <= a + b <= i8::MAX ==> #[trigger] <i8 as DsuWeight>::plus_spec(a, b) == a + b,
        forall|a: i8, b: i8| #[trigger] <i8 as DsuWeight>::minus_spec(a, b) == a - b || <i8 as DsuWeight>::minus_spec(a, b) == a - b - (i8::MAX as int - i8::MIN as int + 1)
            || <i8 as DsuWeight>::minus_spec(a, b) == a - b + (i8::MAX as int - i8::MIN as int + 1),
        forall|a: i8, b: i8| i8::MIN <= a - b <= i8::MAX ==> #[trigger] <i8 as DsuWeight>::minus_spec(a, b) == a - b,
        forall|a: i8| #[trigger] <i8 as DsuWeight>::negate_spec(a) == -a || <i8 as DsuWeight>::negate_spec(a) == -a - (i8::MAX as int - i8::MIN as int + 1),
        forall|a: i8| a != i8::MIN ==> #[trigger] <i8 as DsuWeight>::negate_spec(a) == -a,
        <i16 as DsuWeight>::zero_spec() == 0,
        forall|a: i16, b: i16| #[trigger] <i16 as DsuWeight>::plus_spec(a, b) == a + b || <i16 as DsuWeight>::plus_spec(a, b) == a + b - (i16::MAX as int - i16::MIN as int + 1)
            || <i16 as DsuWeight>::plus_spec(a, b) == a + b + (i16::MAX as int - i16::MIN as int + 1),
        forall|a: i16, b: i16| i16::MIN <= a + b <= i16::MAX ==> #[trigger] <i16 as DsuWeight>::plus_spec(a, b) == a + b,
        forall|a: i16, b: i16| #[trigger] <i16 as DsuWeight>::minus_spec(a, b) == a - b || <i16 as DsuWeight>::minus_spec(a, b) == a - b - (i16::MAX as int - i16::MIN as int + 1)
            || <i16 as DsuWeight>::minus_spec(a, b) == a - b + (i16::MAX as int - i16::MIN as int + 1),
        forall|a: i16, b: i16| i16::MIN <= a - b <= i16::MAX ==> #[trigger] <i16 as DsuWeight>::minus_spec(a, b) == a - b,
        forall|a: i16| #[trigger] <i16 as DsuWeight>::negate_spec(a) == -a || <i16 as DsuWeight>::negate_spec(a) == -a - (i16::MAX as int - i16::MIN as int + 1),
        forall|a: i16| a != i16::MIN ==> #[trigger] <i16 as DsuWeight>::negate_spec(a) == -a,
        <i32 as DsuWeight>::zero_spec() == 0,
        forall|a: i32, b: i32| #[trigger] <i32 as DsuWeight>::plus_spec(a, b) == a + b || <i32 as DsuWeight>::plus_spec(a, b) == a + b - (i32::MAX as int - i32::MIN as int + 1)
            || <i32 as DsuWeight>::plus_spec(a, b) == a + b + (i32::MAX as int - i32::MIN as int + 1),
        forall|a: i32, b: i32| i32::MIN <= a + b <= i32::MAX ==> #[trigger] <i32 as DsuWeight>::plus_spec(a, b) == a + b,
        forall|a: i32, b: i32| #[trigger] <i32 as DsuWeight>::minus_spec(a, b) == a - b || <i32 as DsuWeight>::minus_spec(a, b) == a - b - (i32::MAX as int - i32::MIN as int + 1)
            || <i32 as DsuWeight>::minus_spec(a, b) == a - b + (i32::MAX as int - i32::MIN as int + 1),
        forall|a: i32, b: i32| i32::MIN <= a - b <= i32::MAX ==> #[trigger] <i32 as DsuWeight>::minus_spec(a, b) == a - b,
        forall|a: i32| #[trigger] <i32 as DsuWeight>::negate_spec(a) == -a || <i32 as DsuWeight>::negate_spec(a) == -a - (i32::MAX as int - i32::MIN as int + 1),
        forall|a: i32| a != i32::MIN ==> #[trigger] <i32 as DsuWeight>::negate_spec(a) == -a,
        <i64 as DsuWeight>::zero_spec() == 0,
        forall|a: i64, b: i64| #[trigger] <i64 as DsuWeight>::plus_spec(a, b) == a + b || <i64 as DsuWeight>::plus_spec(a, b) == a + b - (i64::MAX as int - i64::MIN as int + 1)
            || <i64 as DsuWeight>::plus_spec(a, b) == a + b + (i64::MAX as int - i64::MIN as int + 1),
        forall|a: i64, b: i64| i64::MIN <= a + b <= i64::MAX ==> #[trigger] <i64 as DsuWeight>::plus_spec(a, b) == a + b,
        forall|a: i64, b: i64| #[trigger] <i64 as DsuWeight>::minus_spec(a, b) == a - b || <i64 as DsuWeight>::minus_spec(a, b) == a - b - (i64::MAX as int - i64::MIN as int + 1)
            || <i64 as DsuWeight>::minus_spec(a, b) == a - b + (i64::MAX as int - i64::MIN as int + 1),
        forall|a: i64, b: i64| i64::MIN <= a - b <= i64::MAX ==> #[trigger] <i64 as DsuWeight>::minus_spec(a, b) == a - b,
        forall|a: i64| #[trigger] <i64 as DsuWeight>::negate_spec(a) == -a || <i64 as DsuWeight>::negate_spec(a) == -a - (i64::MAX as int - i64::MIN as int + 1),
        forall|a: i64| a != i64::MIN ==> #[trigger] <i64 as DsuWeight>::negate_spec(a) == -a,
        <i128 as DsuWeight>::zero_spec() == 0,
        forall|a: i128, b: i128| #[trigger] <i128 as DsuWeight>::plus_spec(a, b) == a + b || <i128 as DsuWeight>::plus_spec(a, b) == a + b - (i128::MAX as int - i128::MIN as int + 1)
            || <i128 as DsuWeight>::plus_spec(a, b) == a + b + (i128::MAX as int - i128::MIN as int + 1),
        forall|a: i128, b: i128| i128::MIN <= a + b <= i128::MAX ==> #[trigger] <i128 as DsuWeight>::plus_spec(a, b) == a + b,
        forall|a: i128, b: i128| #[trigger] <i128 as DsuWeight>::minus_spec(a, b) == a - b || <i128 as DsuWeight>::minus_spec(a, b) == a - b - (i128::MAX as int - i128::MIN as int + 1)
            || <i128 as DsuWeight>::minus_spec(a, b) == a - b + (i128::MAX as int - i128::MIN as int + 1),
        forall|a: i128, b: i128| i128::MIN <= a - b <= i128::MAX ==> #[trigger] <i128 as DsuWeight>::minus_spec(a, b) == a - b,
        forall|a: i128| #[trigger] <i128 as DsuWeight>::negate_spec(a) == -a || <i128 as DsuWeight>::negate_spec(a) == -a - (i128::MAX as int - i128::MIN as int + 1),
        forall|a: i128| a != i128::MIN ==> #[trigger] <i128 as DsuWeight>::negate_spec(a) == -a,
        <isize as DsuWeight>::zero_spec() == 0,
        forall|a: isize, b: isize| #[trigger] <isize as DsuWeight>::plus_spec(a, b) == a + b || <isize as DsuWeight>::plus_spec(a, b) == a + b - (isize::MAX as int - isize::MIN as int + 1)
            || <isize as DsuWeight>::plus_spec(a, b) == a + b + (isize::MAX as int - isize::MIN as int + 1),
        forall|a: isize, b: isize| isize::MIN <= a + b <= isize::MAX ==> #[trigger] <isize as DsuWeight>::plus_spec(a, b) == a + b,
        forall|a: isize, b: isize| #[trigger] <isize as DsuWeight>::minus_spec(a, b) == a - b || <isize as DsuWeight>::minus_spec(a, b) == a - b - (isize::MAX as int - isize::MIN as int + 1)
            || <isize as DsuWeight>::minus_spec(a, b) == a - b + (isize::MAX as int - isize::MIN as int + 1),
        forall|a: isize, b: isize| isize::MIN <= a - b <= isize::MAX ==> #[trigger] <isize as DsuWeight>::minus_spec(a, b) == a - b,
        forall|a: isize| #[trigger] <isize as DsuWeight>::negate_spec(a) == -a || <isize as DsuWeight>::negate_spec(a) == -a - (isize::MAX as int - isize::MIN as int + 1),
        forall|a: isize| a != isize::MIN ==> #[trigger] <isize as DsuWeight>::negate_spec(a) == -a,
{
}

/// A disjoint-set forest over `0..n` with weights: `merge(x, y, w)` records
/// `weight(y) = weight(x) + w`, and every element knows its weight relative
/// to the root of its set.
pub struct WeightedDsu<T> {
    parent_or_size: Vec<i32>,
    diff_weight: Vec<T>,
    level: Ghost<Seq<nat>>,
    cap: Ghost<nat>,
}

impl<T: DsuWeight> WeightedDsu<T> {
    /// The internal forest is consistent.
    pub closed spec fn wf(&self) -> bool {
        let ps = self.parent_or_size@;
        &&& links_ok(ps, self.level@, self.cap@)
        &&& self.diff_weight@.len() == ps.len()
        &&& ps.len() <= i32::MAX
        &&& forall|r: int|
            0 <= r < ps.len() && #[trigger] ps[r] < 0 ==> self.diff_weight@[r] == T::zero_spec()
                && -(ps[r] as int) == class_of(ps, self.level@, self.cap@, r).len()
    }

    /// Number of elements.
    pub closed spec fn len_spec(&self) -> nat {
        self.parent_or_size@.len()
    }

    /// The root (representative) of the set containing `x`.
    pub closed spec fn root_spec(&self, x: int) -> int {
        root_rec(self.parent_or_size@, self.level@, self.cap@, x)
    }

    /// The weight of `x` relative to the root of its set.
    pub closed spec fn weight_spec(&self, x: int) -> T {
        pot_rec(self.parent_or_size@, self.diff_weight@, self.level@, self.cap@, x)
    }

    /// The elements in the same set as `x`.
    pub closed spec fn class_spec(&self, x: int) -> Set<int> {
        class_of(self.parent_or_size@, self.level@, self.cap@, self.root_spec(x))
    }

    /// The two forests stand for the same sets and weights.
    pub open spec fn same_state(&self, other: &Self) -> bool {
        &&& self.len_spec() == other.len_spec()
        &&& forall|z: int|
            #![trigger self.root_spec(z)]
            #![trigger self.weight_spec(z)]
            #![trigger other.root_spec(z)]
            #![trigger other.weight_spec(z)]
            0 <= z < self.len_spec() ==> self.root_spec(z) == other.root_spec(z)
                && self.weight_spec(z) == other.weight_spec(z)
    }

    /// The sets partition `0..n`: the root of the set of `x` lies in it, is
    /// its own root and has weight zero, and the set of `x` is exactly the
    /// elements that share its root.
    pub proof fn lemma_class(&self, x: int)
        requires
            self.wf(),
            0 <= x < self.len_spec(),
        ensures
            0 <= self.root_spec(x) < self.len_spec(),
            self.root_spec(self.root_spec(x)) == self.root_spec(x),
            self.weight_spec(self.root_spec(x)) == T::zero_spec(),
            self.class_spec(x) == Set::new(
                |z: int| 0 <= z < self.len_spec() && self.root_spec(z) == self.root_spec(x),
            ),
            self.class_spec(x).finite(),
            self.class_spec(x).contains(x),
            1 <= self.class_spec(x).len() <= self.len_spec(),
    {
        let ps = self.parent_or_size@;
        lemma_root_props(ps, self.level@, self.cap@, x);
        let r = self.root_spec(x);
        lemma_root_props(ps, self.level@, self.cap@, r);
        assert(!step_ok(ps, self.level@, self.cap@, r));
        assert(self.class_spec(x) =~= Set::new(
            |z: int| 0 <= z < self.len_spec() && self.root_spec(z) == self.root_spec(x),
        ));
        lemma_class_finite(ps, self.level@, self.cap@, r);
        assert(self.class_spec(x).contains(x));
        vstd::set::axiom_set_contains_len(self.class_spec(x), x);
    }

    /// Two forests that stand for the same roots also have the same sets.
    pub proof fn lemma_same_state_classes(&self, other: &Self, x: int)
        requires
            self.wf(),
            other.wf(),
            self.same_state(other),
            0 <= x < self.len_spec(),
        ensures
            self.class_spec(x) == other.class_spec(x),
    {
        self.lemma_class(x);
        other.lemma_class(x);
        assert(self.root_spec(x) == other.root_spec(x));
        assert forall|z: int| #[trigger] self.class_spec(x).contains(z) <==> other.class_spec(x).contains(z) by {
            if 0 <= z < self.len_spec() {
                assert(self.root_spec(z) == other.root_spec(z));
            }
        }
        assert(self.class_spec(x) =~= other.class_spec(x));
    }

    /// Creates `size` singleton sets, every weight zero.
    pub fn new(size: usize) -> (d: Self)
        requires
            size <= i32::MAX,
        ensures
            d.wf(),
            d.len_spec() == size,
            forall|z: int| 0 <= z < size ==> #[trigger] d.root_spec(z) == z && d.weight_spec(z) == T::zero_spec(),
            forall|z: int| 0 <= z < size ==> #[trigger] d.class_spec(z) == set![z],
    {
        let parent_or_size = vec![-1i32; size];
        let mut diff_weight: Vec<T> = Vec::with_capacity(size);
        let mut i: usize = 0;
        while i < size
            invariant
                i <= size,
                diff_weight@.len() == i,
                forall|k: int| 0 <= k < i ==> diff_weight@[k] == T::zero_spec(),
            decreases size - i,
        {
            diff_weight.push(T::zero());
            i += 1;
        }
        let ghost level = Seq::new(size as nat, |i: int| 0nat);
        let d = WeightedDsu { parent_or_size, diff_weight, level: Ghost(level), cap: Ghost(1nat) };
        proof {
            let ps = d.parent_or_size@;
            assert forall|z: int| 0 <= z < size implies #[trigger] d.root_spec(z) == z && d.weight_spec(z)
                == T::zero_spec() by {
                assert(!step_ok(ps, level, 1, z));
            }
            assert forall|r: int| 0 <= r < ps.len() && #[trigger] ps[r] < 0 implies d.diff_weight@[r]
                == T::zero_spec() && -(ps[r] as int) == class_of(ps, level, 1nat, r).len() by {
                assert forall|z: int| #[trigger] class_of(ps, level, 1nat, r).contains(z) <==> z == r by {
                    if 0 <= z < ps.len() {
                        assert(!step_ok(ps, level, 1, z));
                    }
                }
                assert(class_of(ps, level, 1nat, r) =~= set![r]);
                assert(set![r].len() == 1) by {
                    assert(set![r] =~= Set::<int>::empty().insert(r));
                }
                assert(ps[r] == -1i32);
                assert(d.diff_weight@[r] == T::zero_spec());
            }
            assert forall|z: int| 0 <= z < size implies #[trigger] d.class_spec(z) == set![z] by {
                assert(!step_ok(ps, level, 1, z));
                assert forall|w: int| #[trigger] class_of(ps, level, 1nat, z).contains(w) <==> w == z by {
                    if 0 <= w < ps.len() {
                        assert(!step_ok(ps, level, 1, w));
                    }
                }
                assert(class_of(ps, level, 1nat, z) =~= set![z]);
            }
        }
        d
    }

    #[verifier::rlimit(50)]
    #[verifier::spinoff_prover]
    fn find_rec(&mut self, x: usize) -> (r: usize)
        requires
            old(self).wf(),
            x < old(self).len_spec(),
        ensures
            final(self).wf(),
            final(self).level == old(self).level,
            final(self).cap == old(self).cap,
            final(self).parent_or_size@.len() == old(self).parent_or_size@.len(),
            forall|z: int|
                0 <= z < old(self).len_spec() ==> #[trigger] final(self).root_spec(z)
                    == old(self).root_spec(z) && final(self).weight_spec(z) == old(self).weight_spec(z),
            forall|z: int|
                0 <= z < old(self).len_spec() && old(self).level@[z] < old(self).level@[x as int]
                    ==> #[trigger] final(self).parent_or_size@[z] == old(self).parent_or_size@[z]
                    && final(self).diff_weight@[z] == old(self).diff_weight@[z],
            r == old(self).root_spec(x as int),
            final(self).parent_or_size@[x as int] < 0 || (final(self).parent_or_size@[x as int] as int
                == r && final(self).diff_weight@[x as int] == old(self).weight_spec(x as int)),
        decreases old(self).cap@ - old(self).level@[x as int],
    {
        proof {
            lemma_root_props(self.parent_or_size@, self.level@, self.cap@, x as int);
        }
        if self.parent_or_size[x] < 0 {
            return x;
        }
        let p = self.parent_or_size[x] as usize;
        proof {
            assert(step_ok(self.parent_or_size@, self.level@, self.cap@, x as int));
            assert(self.level@[x as int] < self.cap@);
        }
        let ghost s0 = *self;
        assert(s0 == *old(self));
        let root = self.find_rec(p);
        let ghost s1 = *self;
        let ghost ps1 = s1.parent_or_size@;
        let ghost diff1 = s1.diff_weight@;
        proof {
            assert(ps1[x as int] == s0.parent_or_size@[x as int]);
            assert(diff1[x as int] == s0.diff_weight@[x as int]);
            lemma_root_props(ps1, self.level@, self.cap@, p as int);
            lemma_root_props(ps1, self.level@, self.cap@, x as int);
            assert(step_ok(ps1, self.level@, self.cap@, x as int));
            if ps1[p as int] < 0 {
                assert(!step_ok(ps1, self.level@, self.cap@, p as int));
                assert(diff1[p as int] == s1.weight_spec(p as int));
            }
            assert(s1.root_spec(p as int) == s0.root_spec(p as int));
            assert(s1.root_spec(x as int) == s0.root_spec(x as int));
            lemma_root_props(s0.parent_or_size@, self.level@, self.cap@, x as int);
            assert(diff1[p as int] == s1.weight_spec(p as int));
            assert(s1.weight_spec(x as int) == T::plus_spec(diff1[x as int], s1.weight_spec(p as int)));
            lemma_compress_frame(ps1, diff1, self.level@, self.cap@, x as int, 0);
        }
        let d = self.diff_weight[x].plus(self.diff_weight[p]);
        self.diff_weight.set(x, d);
        self.parent_or_size.set(x, root as i32);
        proof {
            let ps2 = self.parent_or_size@;
            let diff2 = self.diff_weight@;
            assert(ps2 == ps1.update(x as int, root_rec(ps1, self.level@, self.cap@, x as int) as i32));
            assert(diff2 == diff1.update(x as int, pot_rec(ps1, diff1, self.level@, self.cap@, x as int)));
            assert forall|z: int| 0 <= z < ps2.len() implies #[trigger] root_rec(ps2, self.level@, self.cap@, z)
                == root_rec(ps1, self.level@, self.cap@, z) && pot_rec(ps2, diff2, self.level@, self.cap@, z)
                == pot_rec(ps1, diff1, self.level@, self.cap@, z) by {
                lemma_compress_frame(ps1, diff1, self.level@, self.cap@, x as int, z);
            }
            assert forall|z: int| 0 <= z < ps2.len() implies #[trigger] self.root_spec(z) == old(self).root_spec(z)
                && self.weight_spec(z) == old(self).weight_spec(z) by {
                lemma_compress_frame(ps1, diff1, self.level@, self.cap@, x as int, z);
                assert(s1.root_spec(z) == s0.root_spec(z));
                assert(s1.weight_spec(z) == s0.weight_spec(z));
            }
            assert forall|r: int| 0 <= r < ps2.len() && #[trigger] ps2[r] < 0 implies diff2[r]
                == T::zero_spec() && -(ps2[r] as int) == class_of(ps2, self.level@, self.cap@, r).len() by {
                assert(r != x);
                assert(ps1[r] < 0);
                assert(class_of(ps2, self.level@, self.cap@, r) =~= class_of(ps1, self.level@, self.cap@, r));
            }
            assert forall|z: int| 0 <= z < ps2.len() && s0.level@[z] < s0.level@[x as int] implies #[trigger] ps2[z]
                == s0.parent_or_size@[z] && diff2[z] == s0.diff_weight@[z] by {
                assert(z != x);
                assert(s0.level@[z] < s0.level@[p as int]);
            }
        }
        root
    }

    /// Returns the root of the set containing `x`, compressing the path.
    pub fn find(&mut self, x: usize) -> (r: usize)
        requires
            old(self).wf(),
            x < old(self).len_spec(),
        ensures
            final(self).wf(),
            final(self).same_state(old(self)),
            r == old(self).root_spec(x as int),
    {
        self.find_rec(x)
    }

    /// Returns the weight of `x` relative to the root of its set.
    pub fn weight(&mut self, x: usize) -> (r: T)
        requires
            old(self).wf(),
            x < old(self).len_spec(),
        ensures
            final(self).wf(),
            final(self).same_state(old(self)),
            r == old(self).weight_spec(x as int),
    {
        let root = self.find_rec(x);
        proof {
            let ps = self.parent_or_size@;
            assert(self.root_spec(x as int) == old(self).root_spec(x as int));
            if ps[x as int] < 0 {
                lemma_root_props(ps, self.level@, self.cap@, x as int);
                assert(!step_ok(ps, self.level@, self.cap@, x as int));
            }
        }
        self.diff_weight[x]
    }

    /// Whether `x` and `y` are in the same set.
    pub fn same(&mut self, x: usize, y: usize) -> (r: bool)
        requires
            old(self).wf(),
            x < old(self).len_spec(),
            y < old(self).len_spec(),
        ensures
            final(self).wf(),
            final(self).same_state(old(self)),
            r == (old(self).root_spec(x as int) == old(self).root_spec(y as int)),
    {
        let rx = self.find(x);
        let ry = self.find(y);
        rx == ry
    }

    /// Returns `weight(y) - weight(x)` when `x` and `y` are in the same set,
    /// and `None` otherwise.
    pub fn diff(&mut self, x: usize, y: usize) -> (r: Option<T>)
        requires
            old(self).wf(),
            x < old(self).len_spec(),
            y < old(self).len_spec(),
        ensures
            final(self).wf(),
            final(self).same_state(old(self)),
            r == (if old(self).root_spec(x as int) == old(self).root_spec(y as int) {
                Some(T::minus_spec(old(self).weight_spec(y as int), old(self).weight_spec(x as int)))
            } else {
                None
            }),
    {
        if self.same(x, y) {
            let wy = self.weight(y);
            let wx = self.weight(x);
            Some(wy.minus(wx))
        } else {
            None
        }
    }

    /// Returns the number of elements in the set containing `x`.
    pub fn size(&mut self, x: usize) -> (r: usize)
        requires
            old(self).wf(),
            x < old(self).len_spec(),
        ensures
            final(self).wf(),
            final(self).same_state(old(self)),
            r == old(self).class_spec(x as int).len(),
    {
        let root = self.find(x);
        proof {
            lemma_root_props(self.parent_or_size@, self.level@, self.cap@, x as int);
            assert(self.root_spec(x as int) == root);
            assert forall|z: int| #[trigger] class_of(self.parent_or_size@, self.level@, self.cap@, root as int).contains(z)
                <==> old(self).class_spec(x as int).contains(z) by {
                if 0 <= z < self.len_spec() {
                    assert(self.root_spec(z) == old(self).root_spec(z));
                }
            }
            assert(class_of(self.parent_or_size@, self.level@, self.cap@, root as int) =~= old(self).class_spec(x as int));
            lemma_class_finite(self.parent_or_size@, self.level@, self.cap@, root as int);
            assert(self.parent_or_size@[root as int] < 0);
        }
        (-self.parent_or_size[root]) as usize
    }

    /// Merges the sets of `x` and `y` so that `weight(y) = weight(x) + w`;
    /// the smaller set is hung below the root of the larger one (the set of
    /// `x` on a tie).  Returns `false`, changing nothing, when they already
    /// share a set.
    #[verifier::rlimit(50)]
    #[verifier::spinoff_prover]
    pub fn merge(&mut self, x: usize, y: usize, w: T) -> (r: bool)
        requires
            old(self).wf(),
            x < old(self).len_spec(),
            y < old(self).len_spec(),
        ensures
            final(self).wf(),
            final(self).len_spec() == old(self).len_spec(),
            r == (old(self).root_spec(x as int) != old(self).root_spec(y as int)),
            !r ==> final(self).same_state(old(self)),
            r ==> ({
                let rx = old(self).root_spec(x as int);
                let ry = old(self).root_spec(y as int);
                let shift = T::minus_spec(
                    T::plus_spec(w, old(self).weight_spec(x as int)),
                    old(self).weight_spec(y as int),
                );
                let x_smaller = old(self).class_spec(x as int).len() < old(self).class_spec(
                    y as int,
                ).len();
                let big = if x_smaller { ry } else { rx };
                let small = if x_smaller { rx } else { ry };
                let d = if x_smaller { T::negate_spec(shift) } else { shift };
                forall|z: int|
                    #![trigger final(self).root_spec(z)]
                    #![trigger final(self).weight_spec(z)]
                    0 <= z < old(self).len_spec() ==> final(self).root_spec(z) == (if old(
                        self,
                    ).root_spec(z) == small {
                        big
                    } else {
                        old(self).root_spec(z)
                    }) && final(self).weight_spec(z) == (if old(self).root_spec(z) == small {
                        T::plus_spec(old(self).weight_spec(z), d)
                    } else {
                        old(self).weight_spec(z)
                    })
            }),
            r ==> final(self).root_spec(x as int) == final(self).root_spec(y as int)
                && T::minus_spec(final(self).weight_spec(y as int), final(self).weight_spec(x as int))
                == w,
    {
        let root_x = self.find(x);
        let root_y = self.find(y);
        if root_x == root_y {
            return false;
        }
        let wx = self.weight(x);
        let wy = self.weight(y);
        let ghost s0 = *self;
        let ghost w0 = w;
        let mut w = w.plus(wx).minus(wy);
        let mut a = root_x;
        let mut b = root_y;
        let ghost ps = self.parent_or_size@;
        proof {
            assert(self.root_spec(x as int) == old(self).root_spec(x as int));
            assert(self.root_spec(y as int) == old(self).root_spec(y as int));
            lemma_root_props(ps, self.level@, self.cap@, x as int);
            lemma_root_props(ps, self.level@, self.cap@, y as int);
            lemma_class_finite(ps, self.level@, self.cap@, root_x as int);
            lemma_class_finite(ps, self.level@, self.cap@, root_y as int);
            assert(ps[root_x as int] < 0 && ps[root_y as int] < 0);
        }
        let ghost shifted = w;
        if -self.parent_or_size[a] < -self.parent_or_size[b] {
            std::mem::swap(&mut a, &mut b);
            w = w.negate();
        }
        assert(w == (if a == root_y { T::negate_spec(shifted) } else { shifted }));
        let ghost level = self.level@;
        let ghost cap = self.cap@;
        let ghost diff = self.diff_weight@;
        let ghost cls_big = class_of(ps, level, cap, a as int);
        let ghost cls_small = class_of(ps, level, cap, b as int);
        proof {
            lemma_class_finite(ps, level, cap, a as int);
            lemma_class_finite(ps, level, cap, b as int);
            assert(cls_big.disjoint(cls_small));
            assert((cls_big + cls_small).subset_of(Set::<int>::range(0, ps.len() as int)));
            <int as FiniteRange>::range_properties(0, ps.len() as int);
            lemma_len_subset(cls_big + cls_small, Set::<int>::range(0, ps.len() as int));
            lemma_set_disjoint_lens(cls_big, cls_small);
        }
        let sx = self.parent_or_size[a];
        let sy = self.parent_or_size[b];
        self.parent_or_size.set(a, sx + sy);
        self.parent_or_size.set(b, a as i32);
        self.diff_weight.set(b, w);
        let ghost new_level = level.update(
            a as int,
            if level[a as int] > level[b as int] { level[a as int] } else { level[b as int] + 1 },
        );
        self.level = Ghost(new_level);
        self.cap = Ghost(if cap > new_level[a as int] + 1 { cap } else { new_level[a as int] + 1 });
        proof {
            let ps2 = self.parent_or_size@;
            let diff2 = self.diff_weight@;
            let level2 = self.level@;
            let cap2 = self.cap@;
            assert(ps2 == ps.update(a as int, (ps[a as int] + ps[b as int]) as i32).update(b as int, a as i32));
            assert(diff2 == diff.update(b as int, w));
            lemma_link_frame(ps, diff, level, cap, a as int, b as int, w, 0);
            assert forall|z: int| 0 <= z < ps.len() implies #[trigger] root_rec(ps2, level2, cap2, z) == (if root_rec(ps, level, cap, z) == b {
                a as int
            } else {
                root_rec(ps, level, cap, z)
            }) && pot_rec(ps2, diff2, level2, cap2, z) == (if root_rec(ps, level, cap, z) == b {
                T::plus_spec(pot_rec(ps, diff, level, cap, z), w)
            } else {
                pot_rec(ps, diff, level, cap, z)
            }) by {
                lemma_link_frame(ps, diff, level, cap, a as int, b as int, w, z);
            }
            assert forall|q: int| 0 <= q < ps2.len() && #[trigger] ps2[q] < 0 implies diff2[q]
                == T::zero_spec() && -(ps2[q] as int) == class_of(ps2, level2, cap2, q).len() by {
                assert(q != b);
                assert(ps[q] < 0) by {
                    if q != a {
                        assert(ps2[q] == ps[q]);
                    }
                }
                lemma_root_props(ps, level, cap, q);
                if q == a {
                    assert(class_of(ps2, level2, cap2, q) =~= cls_big + cls_small);
                } else {
                    assert(class_of(ps2, level2, cap2, q) =~= class_of(ps, level, cap, q));
                }
            }
            assert(self.wf());
            lemma_merge_algebra(w0, wx, wy);
            assert forall|z: int| #[trigger] class_of(ps, level, cap, root_x as int).contains(z)
                <==> old(self).class_spec(x as int).contains(z) by {
                if 0 <= z < ps.len() {
                    assert(s0.root_spec(z) == old(self).root_spec(z));
                }
            }
            assert forall|z: int| #[trigger] class_of(ps, level, cap, root_y as int).contains(z)
                <==> old(self).class_spec(y as int).contains(z) by {
                if 0 <= z < ps.len() {
                    assert(s0.root_spec(z) == old(self).root_spec(z));
                }
            }
            assert(class_of(ps, level, cap, root_x as int) =~= old(self).class_spec(x as int));
            assert(class_of(ps, level, cap, root_y as int) =~= old(self).class_spec(y as int));
            assert forall|z: int| 0 <= z < ps.len() implies #[trigger] s0.root_spec(z) == old(self).root_spec(z)
                && s0.weight_spec(z) == old(self).weight_spec(z) by {
            }
            let x_smaller = old(self).class_spec(x as int).len() < old(self).class_spec(y as int).len();
            assert(x_smaller == (a == root_y));
            let shift = T::minus_spec(T::plus_spec(w0, old(self).weight_spec(x as int)), old(self).weight_spec(y as int));
            assert(old(self).root_spec(x as int) == root_x);
            assert(old(self).root_spec(y as int) == root_y);
            assert(a as int == (if x_smaller { root_y as int } else { root_x as int }));
            assert(b as int == (if x_smaller { root_x as int } else { root_y as int }));
            assert forall|z: int| 0 <= z < old(self).len_spec() implies #[trigger] self.root_spec(z) == (if old(
                self,
            ).root_spec(z) == b as int {
                a as int
            } else {
                old(self).root_spec(z)
            }) && self.weight_spec(z) == (if old(self).root_spec(z) == b as int {
                T::plus_spec(old(self).weight_spec(z), w)
            } else {
                old(self).weight_spec(z)
            }) by {
                lemma_link_frame(ps, diff, level, cap, a as int, b as int, w, z);
                assert(s0.root_spec(z) == old(self).root_spec(z));
                assert(s0.weight_spec(z) == old(self).weight_spec(z));
            }
            let big = if x_smaller { root_y as int } else { root_x as int };
            let small = if x_smaller { root_x as int } else { root_y as int };
            let d = if x_smaller { T::negate_spec(shift) } else { shift };
            assert(shifted == shift);
            assert(d == w);
            assert(big == a as int);
            assert(small == b as int);
            assert forall|z: int|
                #![trigger self.root_spec(z)]
                #![trigger self.weight_spec(z)]
                0 <= z < old(self).len_spec() implies self.root_spec(z) == (if old(self).root_spec(z) == small {
                    big
                } else {
                    old(self).root_spec(z)
                }) && self.weight_spec(z) == (if old(self).root_spec(z) == small {
                    T::plus_spec(old(self).weight_spec(z), d)
                } else {
                    old(self).weight_spec(z)
                }) by {
                lemma_link_frame(ps, diff, level, cap, a as int, b as int, w, z);
                assert(s0.root_spec(z) == old(self).root_spec(z));
                assert(s0.weight_spec(z) == old(self).weight_spec(z));
                assert(s0.root_spec(z) == root_rec(ps, level, cap, z));
                assert(s0.weight_spec(z) == pot_rec(ps, diff, level, cap, z));
                assert(self.root_spec(z) == root_rec(self.parent_or_size@, self.level@, self.cap@, z));
            }
            assert(wx == old(self).weight_spec(x as int));
            assert(wy == old(self).weight_spec(y as int));
            assert(self.root_spec(x as int) == self.root_spec(y as int));
        }
        true
    }
}

} // verus!

