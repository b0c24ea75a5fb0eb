//! Longest strictly increasing subsequence by patience sorting.
use std::cmp::Ordering;
use vstd::laws_cmp::obeys_cmp;
use vstd::prelude::*;
use vstd::std_specs::cmp::{OrdSpec, PartialEqSpec, PartialOrdSpec};

verus! {

/// `x < y` in the order of `T`.
pub open spec fn less<T: PartialOrd>(x: T, y: T) -> bool {
    x.partial_cmp_spec(&y) == Some(Ordering::Less)
}

/// The element of `s` at the position `dp[k]`.
pub open spec fn tail<T>(s: Seq<T>, dp: Seq<usize>, k: int) -> T {
    s[dp[k] as int]
}

/// The position `i` as an integer.
pub open spec fn index(i: usize) -> int {
    i as int
}

/// The element of `s` at the position `i`.
pub open spec fn elem<T>(s: Seq<T>, i: usize) -> T {
    s[i as int]
}

/// `idx` lists strictly increasing positions of `s` whose elements strictly
/// increase: a strictly increasing subsequence of `s`.
pub open spec fn is_increasing_subsequence<T: PartialOrd>(s: Seq<T>, idx: Seq<int>) -> bool {
    &&& forall|k: int| 0 <= k < idx.len() ==> 0 <= #[trigger] idx[k] < s.len()
    &&& forall|a: int, b: int|
        #![trigger idx[a], idx[b]]
        0 <= a < b < idx.len() ==> idx[a] < idx[b] && less(s[idx[a]], s[idx[b]])
}

/// The laws of a total order that `Ord` promises, in terms of [`less`].
proof fn lemma_order<T: Ord>()
    requires
        obeys_cmp::<T>(),
    ensures
        T::obeys_partial_cmp_spec(),
        forall|a: T, b: T, c: T| #[trigger] less(a, b) && #[trigger] less(b, c) ==> less(a, c),
        forall|a: T, b: T| #[trigger] less(a, b) ==> !less(b, a),
        forall|a: T| !#[trigger] less(a, a),
        forall|a: T, b: T, c: T|
            !#[trigger] less(b, a) && #[trigger] less(b, c) ==> less(a, c),
        forall|a: T, b: T, c: T|
            !#[trigger] less(b, a) && !#[trigger] less(c, b) ==> !less(c, a),
{
    reveal(vstd::laws_cmp::obeys_partial_cmp_spec_properties);
    reveal(vstd::laws_cmp::obeys_cmp_partial_ord);
    reveal(vstd::laws_cmp::obeys_cmp_ord);
    reveal(vstd::laws_eq::obeys_eq_spec_properties);
    assert forall|a: T, b: T| #[trigger] less(a, b) implies !less(b, a) by {
        assert(b.partial_cmp_spec(&a) == Some(Ordering::Greater));
    }
    assert forall|a: T| !#[trigger] less(a, a) by {
        if less(a, a) {
            assert(a.partial_cmp_spec(&a) == Some(Ordering::Greater));
        }
    }
    assert forall|a: T, b: T, c: T| !#[trigger] less(b, a) && #[trigger] less(b, c) implies less(
        a,
        c,
    ) by {
        assert(a.partial_cmp_spec(&b) == Some(a.cmp_spec(&b)));
        assert(a.partial_cmp_spec(&c) == Some(a.cmp_spec(&c)));
        if a.partial_cmp_spec(&b) == Some(Ordering::Equal) {
            assert(a.eq_spec(&b));
            if a.partial_cmp_spec(&c) == Some(Ordering::Equal) {
                assert(a.eq_spec(&c));
                assert(b.eq_spec(&a));
                assert(b.eq_spec(&c));
            } else if a.partial_cmp_spec(&c) == Some(Ordering::Greater) {
                assert(c.partial_cmp_spec(&a) == Some(Ordering::Less));
                assert(less(b, a));
            }
        } else if a.partial_cmp_spec(&b) == Some(Ordering::Greater) {
            assert(b.partial_cmp_spec(&a) == Some(Ordering::Less));
        }
    }
    assert forall|a: T, b: T, c: T| !#[trigger] less(b, a) && !#[trigger] less(c, b) implies !less(
        c,
        a,
    ) by {
        if less(c, a) {
            assert(a.partial_cmp_spec(&b) == Some(a.cmp_spec(&b)));
            assert(c.partial_cmp_spec(&b) == Some(c.cmp_spec(&b)));
            if a.partial_cmp_spec(&b) == Some(Ordering::Equal) {
                assert(a.eq_spec(&b));
                if c.partial_cmp_spec(&b) == Some(Ordering::Equal) {
                    assert(c.eq_spec(&b));
                    assert(b.eq_spec(&a));
                    assert(c.eq_spec(&a));
                } else if c.partial_cmp_spec(&b) == Some(Ordering::Greater) {
                    assert(b.partial_cmp_spec(&c) == Some(Ordering::Less));
                    assert(less(b, a));
                    assert(b.partial_cmp_spec(&a) == Some(Ordering::Less));
                    assert(a.partial_cmp_spec(&b) == Some(Ordering::Greater));
                }
            } else if a.partial_cmp_spec(&b) == Some(Ordering::Greater) {
                assert(b.partial_cmp_spec(&a) == Some(Ordering::Less));
            }
        }
    }
}

/// The first position `k` of `dp` whose element is not less than `seq[i]`;
/// the elements at `dp` strictly increase, so all before it are less.
fn lower_bound<T: Ord>(seq: &[T], dp: &Vec<usize>, i: usize) -> (pos: usize)
    requires
        obeys_cmp::<T>(),
        i < seq@.len(),
        forall|k: int| 0 <= k < dp@.len() ==> #[trigger] dp@[k] < seq@.len(),
        forall|a: int, b: int|
            0 <= a < b < dp@.len() ==> less(tail(seq@, dp@, a), tail(seq@, dp@, b)),
    ensures
        pos <= dp@.len(),
        forall|k: int| 0 <= k < pos ==> less(#[trigger] tail(seq@, dp@, k), elem(seq@, i)),
        forall|k: int|
            pos <= k < dp@.len() ==> !less(#[trigger] tail(seq@, dp@, k), elem(seq@, i)),
{
    proof {
        lemma_order::<T>();
    }
    let mut lo: usize = 0;
    let mut hi: usize = dp.len();
    while lo < hi
        invariant
            obeys_cmp::<T>(),
            T::obeys_partial_cmp_spec(),
            i < seq@.len(),
            lo <= hi <= dp@.len(),
            forall|k: int| 0 <= k < dp@.len() ==> #[trigger] dp@[k] < seq@.len(),
            forall|a: int, b: int|
                0 <= a < b < dp@.len() ==> less(tail(seq@, dp@, a), tail(seq@, dp@, b)),
            forall|k: int| 0 <= k < lo ==> less(#[trigger] tail(seq@, dp@, k), elem(seq@, i)),
            forall|k: int|
                hi <= k < dp@.len() ==> !less(#[trigger] tail(seq@, dp@, k), elem(seq@, i)),
        decreases hi - lo,
    {
        let mid = lo + (hi - lo) / 2;
        proof {
            lemma_order::<T>();
        }
        if seq[dp[mid]] < seq[i] {
            proof {
                assert forall|k: int| 0 <= k <= mid implies less(
                    #[trigger] tail(seq@, dp@, k),
                    elem(seq@, i),
                ) by {
                    if k < mid {
                        assert(less(tail(seq@, dp@, k), tail(seq@, dp@, index(mid))));
                    }
                }
            }
            lo = mid + 1;
        } else {
            proof {
                assert forall|k: int| mid <= k < dp@.len() implies !less(
                    #[trigger] tail(seq@, dp@, k),
                    elem(seq@, i),
                ) by {
                    if mid < k {
                        assert(less(tail(seq@, dp@, index(mid)), tail(seq@, dp@, k)));
                    }
                }
            }
            hi = mid;
        }
    }
    lo
}

/// Returns the length of the longest strictly increasing subsequence of
/// `seq`.
///
/// `dp[k]` holds the position of the least element that ends an increasing
/// subsequence of length `k + 1` among the elements read so far.
pub fn lis<T: Ord>(seq: &[T]) -> (r: usize)
    requires
        obeys_cmp::<T>(),
    ensures
        exists|idx: Seq<int>| #[trigger] is_increasing_subsequence(seq@, idx) && idx.len() == r,
        forall|idx: Seq<int>| #[trigger] is_increasing_subsequence(seq@, idx) ==> idx.len() <= r,
{
    let ghost s = seq@;
    let mut dp: Vec<usize> = Vec::new();
    let ghost mut wit: Seq<Seq<int>> = Seq::empty();
    let mut i: usize = 0;
    while i < seq.len()
        invariant
            obeys_cmp::<T>(),
            s == seq@,
            i <= s.len(),
            dp@.len() <= i,
            forall|k: int| 0 <= k < dp@.len() ==> #[trigger] dp@[k] < i,
            forall|a: int, b: int|
                0 <= a < b < dp@.len() ==> less(tail(s, dp@, a), tail(s, dp@, b)),
            wit.len() == dp@.len(),
            forall|k: int|
                0 <= k < dp@.len() ==> {
                    &&& is_increasing_subsequence(s, #[trigger] wit[k])
                    &&& wit[k].len() == k + 1
                    &&& wit[k].last() == dp@[k]
                },
            forall|idx: Seq<int>|
                #[trigger] is_increasing_subsequence(s, idx) && idx.len() > 0 && idx.last() < i
                    ==> idx.len() <= dp@.len() && !less(
                    s[idx.last()],
                    tail(s, dp@, idx.len() - 1),
                ),
        decreases s.len() - i,
    {
        let pos = lower_bound(seq, &dp, i);
        let ghost old_dp = dp@;
        let ghost old_wit = wit;
        let ghost x = elem(s, i);
        let ghost w: Seq<int> = if pos == 0 {
            seq![index(i)]
        } else {
            old_wit[pos - 1].push(index(i))
        };
        proof {
            lemma_order::<T>();
            if pos > 0 {
                let prev = old_wit[pos - 1];
                assert forall|a: int, b: int|
                    #![trigger w[a], w[b]]
                    0 <= a < b < w.len() implies w[a] < w[b] && less(s[w[a]], s[w[b]]) by {
                    if b == w.len() - 1 {
                        if a < prev.len() - 1 {
                            assert(less(s[prev[a]], s[prev[prev.len() - 1]]));
                        }
                        assert(less(tail(s, old_dp, pos - 1), x));
                    } else {
                        assert(w[a] == prev[a] && w[b] == prev[b]);
                    }
                }
            }
            assert(is_increasing_subsequence(s, w));
        }
        if pos < dp.len() {
            dp.set(pos, i);
        } else {
            dp.push(i);
        }
        proof {
            wit = if pos < old_dp.len() {
                old_wit.update(index(pos), w)
            } else {
                old_wit.push(w)
            };
            assert(tail(s, dp@, index(pos)) == x);
            assert forall|a: int, b: int|
                0 <= a < b < dp@.len() implies less(tail(s, dp@, a), tail(s, dp@, b)) by {
                if a == pos {
                    assert(!less(tail(s, old_dp, a), x));
                    assert(less(tail(s, old_dp, a), tail(s, old_dp, b)));
                } else if b == pos {
                    assert(less(tail(s, old_dp, a), x));
                } else {
                    assert(tail(s, dp@, a) == tail(s, old_dp, a));
                    assert(tail(s, dp@, b) == tail(s, old_dp, b));
                }
            }
            assert forall|idx: Seq<int>|
                #[trigger] is_increasing_subsequence(s, idx) && idx.len() > 0 && idx.last() < i
                    + 1 implies idx.len() <= dp@.len() && !less(
                s[idx.last()],
                tail(s, dp@, idx.len() - 1),
            ) by {
                let n = idx.len() - 1;
                if idx.last() < i {
                    if n == pos {
                        assert(!less(s[idx.last()], tail(s, old_dp, n)));
                        assert(!less(tail(s, old_dp, n), x));
                    } else if n < old_dp.len() {
                        assert(tail(s, dp@, n) == tail(s, old_dp, n));
                    }
                } else if n == 0 {
                    if pos > 0 {
                        assert(less(tail(s, old_dp, 0), x));
                        assert(tail(s, dp@, 0) == tail(s, old_dp, 0));
                    }
                } else {
                    let front = idx.drop_last();
                    assert(is_increasing_subsequence(s, front)) by {
                        assert forall|a: int, b: int|
                            #![trigger front[a], front[b]]
                            0 <= a < b < front.len() implies front[a] < front[b] && less(
                            s[front[a]],
                            s[front[b]],
                        ) by {
                            assert(front[a] == idx[a] && front[b] == idx[b]);
                        }
                    }
                    assert(front.last() == idx[n - 1]);
                    assert(idx[n - 1] < idx[n]);
                    assert(less(s[idx[n - 1]], s[idx[n]]));
                    assert(!less(s[front.last()], tail(s, old_dp, n - 1)));
                    assert(less(tail(s, old_dp, n - 1), x));
                    if n - 1 >= pos {
                        assert(!less(tail(s, old_dp, n - 1), x));
                    }
                    if n < pos {
                        assert(less(tail(s, old_dp, n), x));
                        assert(tail(s, dp@, n) == tail(s, old_dp, n));
                    }
                }
            }
        }
        i += 1;
    }
    proof {
        if dp@.len() == 0 {
            let empty = Seq::<int>::empty();
            assert(is_increasing_subsequence(s, empty));
        } else {
            assert(is_increasing_subsequence(s, wit[dp@.len() - 1]));
        }
        assert forall|idx: Seq<int>| #[trigger]
            is_increasing_subsequence(seq@, idx) implies idx.len() <= dp@.len() by {
            if idx.len() > 0 {
                assert(idx.last() < s.len());
            }
        }
    }
    dp.len()
}

} // verus!
