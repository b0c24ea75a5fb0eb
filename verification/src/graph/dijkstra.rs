//! Single-source shortest paths with non-negative edge costs.
use vstd::prelude::*;
use vstd::multiset::*;

verus! {

broadcast use {vstd::seq_lib::group_to_multiset_ensures, vstd::multiset::group_multiset_properties};

/// Lexicographic order on `(distance, vertex)` pairs.
spec fn pair_le(a: (usize, usize), b: (usize, usize)) -> bool {
    a.0 < b.0 || (a.0 == b.0 && a.1 <= b.1)
}

spec fn parent(i: int) -> int {
    (i - 1) / 2
}

/// Every entry is at least its parent, except possibly the entry at `hole`,
/// whose parent is still at most `hole`'s children.
spec fn heap_except(s: Seq<(usize, usize)>, hole: int) -> bool {
    &&& forall|i: int| 0 < i < s.len() && i != hole ==> pair_le(s[parent(i)], #[trigger] s[i])
    &&& forall|i: int|
        0 < i < s.len() && parent(i) == hole && hole > 0 ==> pair_le(s[parent(hole)], #[trigger] s[i])
}

/// Every entry is at least its parent, except possibly the children of
/// `hole`, which are still at least `hole`'s parent.
spec fn heap_below(s: Seq<(usize, usize)>, hole: int) -> bool {
    &&& forall|i: int| 0 < i < s.len() && parent(i) != hole ==> pair_le(s[parent(i)], #[trigger] s[i])
    &&& forall|i: int|
        0 < i < s.len() && parent(i) == hole && hole > 0 ==> pair_le(s[parent(hole)], #[trigger] s[i])
}

spec fn is_heap(s: Seq<(usize, usize)>) -> bool {
    forall|i: int| 0 < i < s.len() ==> pair_le(s[parent(i)], #[trigger] s[i])
}

proof fn lemma_heap_root_min(s: Seq<(usize, usize)>, i: int)
    requires
        is_heap(s),
        0 <= i < s.len(),
    ensures
        pair_le(s[0], s[i]),
    decreases i,
{
    if i > 0 {
        lemma_heap_root_min(s, parent(i));
    }
}

proof fn lemma_swap_multiset(s: Seq<(usize, usize)>, i: int, j: int)
    requires
        0 <= i < s.len(),
        0 <= j < s.len(),
    ensures
        s.update(i, s[j]).update(j, s[i]).to_multiset() == s.to_multiset(),
{
    let t = s.update(i, s[j]);
    assert(t.to_multiset() == s.to_multiset().insert(s[j]).remove(s[i]));
    assert(t.update(j, s[i]).to_multiset() == t.to_multiset().insert(s[i]).remove(t[j]));
    if i == j {
        assert(t.update(j, s[i]) =~= s);
    } else {
        assert(t[j] == s[j]);
        assert(t.update(j, s[i]).to_multiset() =~= s.to_multiset());
    }
}

/// A binary min-heap of `(distance, vertex)` pairs.
struct MinHeap {
    data: Vec<(usize, usize)>,
}

impl MinHeap {
    spec fn items(&self) -> Multiset<(usize, usize)> {
        self.data@.to_multiset()
    }

    spec fn wf(&self) -> bool {
        is_heap(self.data@)
    }

    fn new() -> (h: Self)
        ensures
            h.wf(),
            h.items() =~= Multiset::empty(),
    {
        MinHeap { data: Vec::new() }
    }

    spec fn less_spec(a: (usize, usize), b: (usize, usize)) -> bool {
        !pair_le(b, a)
    }

    fn less(a: (usize, usize), b: (usize, usize)) -> (r: bool)
        ensures
            r == Self::less_spec(a, b),
    {
        a.0 < b.0 || (a.0 == b.0 && a.1 < b.1)
    }

    fn swap(data: &mut Vec<(usize, usize)>, i: usize, j: usize)
        requires
            i < old(data)@.len(),
            j < old(data)@.len(),
        ensures
            final(data)@ == old(data)@.update(i as int, old(data)@[j as int]).update(
                j as int,
                old(data)@[i as int],
            ),
            final(data)@.to_multiset() == old(data)@.to_multiset(),
    {
        proof {
            lemma_swap_multiset(data@, i as int, j as int);
        }
        let a = data[i];
        let b = data[j];
        data.set(i, b);
        data.set(j, a);
    }

    fn push(&mut self, item: (usize, usize))
        requires
            old(self).wf(),
        ensures
            final(self).wf(),
            final(self).items() == old(self).items().insert(item),
            final(self).data@.len() == old(self).data@.len() + 1,
    {
        self.data.push(item);
        let mut k = self.data.len() - 1;
        while k > 0 && Self::less(self.data[k], self.data[(k - 1) / 2])
            invariant
                0 <= k < self.data@.len(),
                heap_except(self.data@, k as int),
                self.data@.to_multiset() == old(self).items().insert(item),
                self.data@.len() == old(self).data@.len() + 1,
            decreases k,
        {
            let p = (k - 1) / 2;
            let ghost s = self.data@;
            Self::swap(&mut self.data, k, p);
            proof {
                let t = self.data@;
                assert forall|i: int| 0 < i < t.len() && i != p implies pair_le(t[parent(i)], #[trigger] t[i]) by {
                    if i == k {
                    } else if parent(i) == k {
                        assert(pair_le(s[p as int], s[i]));
                    }
                }
                assert forall|i: int| 0 < i < t.len() && parent(i) == p && p > 0 implies pair_le(t[parent(p as int)], #[trigger] t[i]) by {
                    assert(pair_le(s[parent(p as int)], s[p as int]));
                    if i != k {
                        assert(pair_le(s[p as int], s[i]));
                    }
                }
            }
            k = p;
        }
        proof {
            let s = self.data@;
            assert forall|i: int| 0 < i < s.len() implies pair_le(s[parent(i)], #[trigger] s[i]) by {
                if i == k {
                    assert(!Self::less_spec(s[k as int], s[parent(k as int)]));
                }
            }
        }
    }

    fn pop(&mut self) -> (r: Option<(usize, usize)>)
        requires
            old(self).wf(),
        ensures
            final(self).wf(),
            old(self).data@.len() == 0 ==> r is None && final(self).items() == old(self).items()
                && final(self).data@.len() == 0,
            old(self).data@.len() > 0 ==> r is Some && old(self).items().contains(r.unwrap())
                && final(self).items() == old(self).items().remove(r.unwrap())
                && final(self).data@.len() == old(self).data@.len() - 1
                && forall|y: (usize, usize)| old(self).items().contains(y) ==> pair_le(r.unwrap(), y),
    {
        let n = self.data.len();
        if n == 0 {
            return None;
        }
        let ghost s0 = self.data@;
        proof {
            assert forall|y: (usize, usize)| s0.to_multiset().contains(y) implies pair_le(s0[0], y) by {
                assert(s0.contains(y));
                let i = choose|i: int| 0 <= i < s0.len() && s0[i] == y;
                lemma_heap_root_min(s0, i);
            }
            assert(s0.to_multiset().contains(s0[0])) by {
                assert(s0.contains(s0[0]));
            }
        }
        Self::swap(&mut self.data, 0, n - 1);
        let top = self.data.pop().unwrap();
        let ghost s1 = self.data@;
        proof {
            assert(s1 =~= s0.update(0, s0[n - 1]).subrange(0, n - 1));
            assert(s1.to_multiset() == s0.to_multiset().remove(top)) by {
                let t = s0.update(0, s0[n - 1]).update(n - 1, s0[0]);
                assert(t.to_multiset() == s0.to_multiset());
                assert(t == s1.push(top));
            }
        }
        Self::sift_down(&mut self.data);
        Some(top)
    }

    /// Restores the heap order after the root was replaced.
    fn sift_down(data: &mut Vec<(usize, usize)>)
        requires
            heap_below(old(data)@, 0),
        ensures
            is_heap(final(data)@),
            final(data)@.to_multiset() == old(data)@.to_multiset(),
            final(data)@.len() == old(data)@.len(),
    {
        let len = data.len();
        let mut k: usize = 0;
        let mut done = false;
        while !done
            invariant
                len == data@.len(),
                k == 0 || k < len,
                !done ==> heap_below(data@, k as int),
                done ==> is_heap(data@),
                data@.to_multiset() == old(data)@.to_multiset(),
            decreases 2 * (len - k) + (if done { 0int } else { 1int }),
        {
            if len < 2 || k > (len - 2) / 2 {
                proof {
                    let s = data@;
                    assert forall|i: int| 0 < i < s.len() implies pair_le(s[parent(i)], #[trigger] s[i]) by {
                        assert(parent(i) != k);
                    }
                }
                done = true;
            } else {
                let l = 2 * k + 1;
                let r = l + 1;
                let m = if r < len && Self::less(data[r], data[l]) {
                    r
                } else {
                    l
                };
                if Self::less(data[m], data[k]) {
                    let ghost s = data@;
                    Self::swap(data, k, m);
                    proof {
                        let t = data@;
                        assert(parent(m as int) == k);
                        assert(parent(l as int) == k);
                        assert(parent(r as int) == k);
                        assert forall|i: int| 0 < i < t.len() && parent(i) != m implies pair_le(t[parent(i)], #[trigger] t[i]) by {
                            if i == m {
                            } else if parent(i) == k {
                                assert(i == l || i == r);
                            } else if i == k {
                                assert(pair_le(s[parent(k as int)], s[m as int]));
                            }
                        }
                        assert forall|i: int| 0 < i < t.len() && parent(i) == m && m > 0 implies pair_le(t[parent(m as int)], #[trigger] t[i]) by {
                            assert(pair_le(s[m as int], s[i]));
                        }
                    }
                    k = m;
                } else {
                    proof {
                        let s = data@;
                        assert(parent(l as int) == k);
                        assert(parent(r as int) == k);
                        assert forall|i: int| 0 < i < s.len() implies pair_le(s[parent(i)], #[trigger] s[i]) by {
                            if parent(i) == k {
                                assert(i == l || i == r);
                            }
                        }
                    }
                    done = true;
                }
            }
        }
    }

}

/// The graph as nested sequences of `(destination, cost)` pairs.
pub open spec fn graph_view(graph: &[Vec<(usize, usize)>]) -> Seq<Seq<(usize, usize)>> {
    graph@.map_values(|edges: Vec<(usize, usize)>| edges@)
}

/// Every edge destination is a vertex.
pub open spec fn destinations_in_range(g: Seq<Seq<(usize, usize)>>) -> bool {
    forall|v: int, i: int| 0 <= v < g.len() && 0 <= i < g[v].len() ==> (#[trigger] g[v][i]).0 < g.len()
}

/// Following edge number `p[k]` at the `k`-th step from `start` is possible;
/// the walk ends at `path_end` and costs `path_cost` in total.
pub open spec fn is_path(g: Seq<Seq<(usize, usize)>>, start: int, p: Seq<int>) -> bool
    decreases p.len(),
{
    if p.len() == 0 {
        0 <= start < g.len()
    } else {
        let prev = path_end(g, start, p.drop_last());
        &&& is_path(g, start, p.drop_last())
        &&& 0 <= p.last() < g[prev].len()
    }
}

pub open spec fn path_end(g: Seq<Seq<(usize, usize)>>, start: int, p: Seq<int>) -> int
    decreases p.len(),
{
    if p.len() == 0 {
        start
    } else {
        g[path_end(g, start, p.drop_last())][p.last()].0 as int
    }
}

pub open spec fn path_cost(g: Seq<Seq<(usize, usize)>>, start: int, p: Seq<int>) -> int
    decreases p.len(),
{
    if p.len() == 0 {
        0
    } else {
        path_cost(g, start, p.drop_last()) + g[path_end(g, start, p.drop_last())][p.last()].1
    }
}

/// `dist[v]` is the cost of some walk from `start` to `v` (or `usize::MAX`).
spec fn witnessed(g: Seq<Seq<(usize, usize)>>, start: int, dist: Seq<usize>) -> bool {
    forall|v: int|
        0 <= v < dist.len() && #[trigger] dist[v] < usize::MAX ==> exists|p: Seq<int>|
            is_path(g, start, p) && path_end(g, start, p) == v && path_cost(g, start, p) == dist[v]
}

/// Every edge out of `u` has been relaxed.
spec fn relaxed(g: Seq<Seq<(usize, usize)>>, dist: Seq<usize>, u: int) -> bool {
    forall|i: int|
        0 <= i < g[u].len() ==> dist[(#[trigger] g[u][i]).0 as int] <= dist[u] + g[u][i].1
}

proof fn lemma_path_end_range(g: Seq<Seq<(usize, usize)>>, start: int, p: Seq<int>)
    requires
        destinations_in_range(g),
        is_path(g, start, p),
    ensures
        0 <= path_end(g, start, p) < g.len(),
    decreases p.len(),
{
    if p.len() > 0 {
        lemma_path_end_range(g, start, p.drop_last());
    }
}

/// Once every reachable vertex is relaxed, no walk is cheaper than `dist`.
proof fn lemma_relaxed_lower_bound(
    g: Seq<Seq<(usize, usize)>>,
    start: int,
    dist: Seq<usize>,
    p: Seq<int>,
)
    requires
        destinations_in_range(g),
        dist.len() == g.len(),
        0 <= start < g.len(),
        dist[start] == 0,
        forall|u: int| 0 <= u < g.len() && #[trigger] dist[u] < usize::MAX ==> relaxed(g, dist, u),
        is_path(g, start, p),
    ensures
        dist[path_end(g, start, p)] <= path_cost(g, start, p),
    decreases p.len(),
{
    if p.len() > 0 {
        let q = p.drop_last();
        lemma_relaxed_lower_bound(g, start, dist, q);
        lemma_path_end_range(g, start, q);
        let u = path_end(g, start, q);
        if dist[u] < usize::MAX {
            assert(relaxed(g, dist, u));
            let e = g[u][p.last()];
            assert(dist[e.0 as int] <= dist[u] + e.1);
        } else {
            lemma_path_end_range(g, start, p);
        }
    }
}

proof fn lemma_extend_path(g: Seq<Seq<(usize, usize)>>, start: int, p: Seq<int>, i: int)
    requires
        is_path(g, start, p),
        0 <= i < g[path_end(g, start, p)].len(),
    ensures
        is_path(g, start, p.push(i)),
        path_end(g, start, p.push(i)) == g[path_end(g, start, p)][i].0,
        path_cost(g, start, p.push(i)) == path_cost(g, start, p) + g[path_end(g, start, p)][i].1,
{
    assert(p.push(i).drop_last() =~= p);
}

spec fn sum_of(s: Seq<usize>) -> int
    decreases s.len(),
{
    if s.len() == 0 {
        0
    } else {
        sum_of(s.drop_last()) + s.last()
    }
}

proof fn lemma_sum_update(s: Seq<usize>, i: int, x: usize)
    requires
        0 <= i < s.len(),
    ensures
        sum_of(s.update(i, x)) == sum_of(s) - s[i] + x,
        sum_of(s) >= 0,
    decreases s.len(),
{
    let t = s.update(i, x);
    if i == s.len() - 1 {
        assert(t.drop_last() =~= s.drop_last());
    } else {
        lemma_sum_update(s.drop_last(), i, x);
        assert(t.drop_last() =~= s.drop_last().update(i, x));
    }
    lemma_sum_nonneg(s);
}

proof fn lemma_sum_nonneg(s: Seq<usize>)
    ensures
        sum_of(s) >= 0,
    decreases s.len(),
{
    if s.len() > 0 {
        lemma_sum_nonneg(s.drop_last());
    }
}

/// Relaxes every edge out of `vertex`, whose distance `distance` was just
/// taken from the queue.
fn relax_edges(
    graph: &[Vec<(usize, usize)>],
    start: usize,
    vertex: usize,
    distance: usize,
    distances: &mut Vec<usize>,
    queue: &mut MinHeap,
)
    requires
        destinations_in_range(graph_view(graph)),
        vertex < graph@.len(),
        start < graph@.len(),
        old(distances)@.len() == graph@.len(),
        old(distances)@[start as int] == 0,
        old(distances)@[vertex as int] == distance,
        distance < usize::MAX,
        old(queue).wf(),
        witnessed(graph_view(graph), start as int, old(distances)@),
        forall|e: (usize, usize)| #[trigger] old(queue).items().contains(e) ==> e.1 < graph@.len() && e.0 < usize::MAX,
        forall|u: int|
            0 <= u < graph@.len() && u != vertex && #[trigger] old(distances)@[u] < usize::MAX ==> old(queue).items().contains((old(distances)@[u], u as usize)) || relaxed(graph_view(graph), old(distances)@, u),
    ensures
        final(distances)@.len() == graph@.len(),
        final(distances)@[start as int] == 0,
        final(queue).wf(),
        witnessed(graph_view(graph), start as int, final(distances)@),
        forall|e: (usize, usize)| #[trigger] final(queue).items().contains(e) ==> e.1 < graph@.len() && e.0 < usize::MAX,
        forall|u: int|
            0 <= u < graph@.len() && #[trigger] final(distances)@[u] < usize::MAX ==> final(queue).items().contains((final(distances)@[u], u as usize)) || relaxed(graph_view(graph), final(distances)@, u),
        sum_of(final(distances)@) + final(queue).data@.len() <= sum_of(old(distances)@) + old(queue).data@.len(),
{
    let ghost g = graph_view(graph);
    let n = graph.len();
    let ghost measure_before = sum_of(distances@) + queue.data@.len();
        let edges = &graph[vertex];
        let ghost d_start = distances@;
        proof {
            assert(graph@[vertex as int]@ == g[vertex as int]);
        }
        let mut j: usize = 0;
        while j < edges.len()
            invariant
                n == g.len(),
                g == graph_view(graph),
                *edges == graph@[vertex as int],
                edges@ == g[vertex as int],
                destinations_in_range(g),
                vertex < n,
                start < n,
                distances@.len() == n,
                distances@[start as int] == 0,
                distances@[vertex as int] == distance,
                distance < usize::MAX || distance == usize::MAX,
                j <= edges@.len(),
                queue.wf(),
                witnessed(g, start as int, distances@),
                forall|e: (usize, usize)| #[trigger] queue.items().contains(e) ==> e.1 < n && e.0 < usize::MAX,
                forall|k: int| 0 <= k < j ==> distances@[(#[trigger] edges@[k]).0 as int] <= distance + edges@[k].1,
                forall|u: int|
                    0 <= u < n && u != vertex && #[trigger] distances@[u] < usize::MAX ==> queue.items().contains(
                        (distances@[u], u as usize),
                    ) || relaxed(g, distances@, u),
                forall|u: int| 0 <= u < n ==> #[trigger] distances@[u] <= d_start[u],
                sum_of(distances@) + queue.data@.len() <= measure_before,
            decreases edges@.len() - j,
        {
            let (to, cost) = edges[j];
            let next_distance = distance.saturating_add(cost);
            if next_distance < distances[to] {
                let ghost before = distances@;
                let ghost old_items = queue.items();
                proof {
                    assert(distance + cost < usize::MAX);
                    let pu = choose|p: Seq<int>| is_path(g, start as int, p) && path_end(g, start as int, p)
                        == vertex as int && path_cost(g, start as int, p) == distance;
                    lemma_extend_path(g, start as int, pu, j as int);
                    lemma_sum_update(before, to as int, next_distance);
                    assert(to as int != vertex as int);
                }
                distances.set(to, next_distance);
                queue.push((next_distance, to));
                proof {
                    assert forall|e: (usize, usize)| #[trigger] queue.items().contains(e) implies e.1 < n && e.0 < usize::MAX by {
                        if e != (next_distance, to) {
                            assert(old_items.contains(e));
                        }
                    }
                    let pu = choose|p: Seq<int>| is_path(g, start as int, p) && path_end(g, start as int, p)
                        == vertex as int && path_cost(g, start as int, p) == distance;
                    lemma_extend_path(g, start as int, pu, j as int);
                    assert forall|v: int| 0 <= v < distances@.len() && #[trigger] distances@[v] < usize::MAX implies exists|p: Seq<int>|
                        is_path(g, start as int, p) && path_end(g, start as int, p) == v && path_cost(g, start as int, p)
                            == distances@[v] by {
                        if v == to as int {
                            assert(path_end(g, start as int, pu.push(j as int)) == v);
                        } else {
                            assert(before[v] == distances@[v]);
                        }
                    }
                    assert forall|u: int| 0 <= u < n && u != vertex && #[trigger] distances@[u] < usize::MAX implies queue.items().contains(
                        (distances@[u], u as usize),
                    ) || relaxed(g, distances@, u) by {
                        if u == to as int {
                            assert(queue.items().contains((next_distance, to)));
                        } else {
                            assert(distances@[u] == before[u]);
                            if !queue.items().contains((distances@[u], u as usize)) {
                                assert(relaxed(g, before, u));
                                assert forall|i: int| 0 <= i < g[u].len() implies distances@[(#[trigger] g[u][i]).0 as int] <= distances@[u] + g[u][i].1 by {
                                    assert(before[g[u][i].0 as int] <= before[u] + g[u][i].1);
                                }
                            }
                        }
                    }
                    assert forall|k: int| 0 <= k < j + 1 implies distances@[(#[trigger] edges@[k]).0 as int] <= distance + edges@[k].1 by {
                        if k < j {
                            assert(before[edges@[k].0 as int] <= distance + edges@[k].1);
                        }
                    }
                }
            } else {
                proof {
                    assert(distances@[to as int] <= distance + cost);
                }
            }
            j += 1;
        }
        proof {
            assert(relaxed(g, distances@, vertex as int));
        }
}

/// Returns shortest distances from `start` in a graph with non-negative
/// costs, where `graph[v]` holds `(destination, cost)` pairs.
///
/// A vertex that cannot be reached, or whose distance is at least
/// `usize::MAX`, gets `usize::MAX`; additions saturate instead of wrapping.
pub fn dijkstra(graph: &[Vec<(usize, usize)>], start: usize) -> (res: Vec<usize>)
    requires
        start < graph@.len(),
        destinations_in_range(graph_view(graph)),
    ensures
        res@.len() == graph@.len(),
        forall|v: int|
            0 <= v < res@.len() && #[trigger] res@[v] < usize::MAX ==> exists|p: Seq<int>|
                is_path(graph_view(graph), start as int, p) && path_end(graph_view(graph), start as int, p) == v
                    && path_cost(graph_view(graph), start as int, p) == res@[v],
        forall|p: Seq<int>|
            is_path(graph_view(graph), start as int, p) ==> #[trigger] res@[path_end(
                graph_view(graph),
                start as int,
                p,
            )] <= path_cost(graph_view(graph), start as int, p),
{
    let ghost g = graph_view(graph);
    let n = graph.len();
    let mut distances: Vec<usize> = Vec::new();
    let mut i: usize = 0;
    while i < n
        invariant
            i <= n,
            distances@.len() == i,
            forall|k: int| 0 <= k < i ==> distances@[k] == usize::MAX,
        decreases n - i,
    {
        distances.push(usize::MAX);
        i += 1;
    }
    let mut queue = MinHeap::new();
    distances.set(start, 0);
    queue.push((0, start));
    proof {
        assert(is_path(g, start as int, Seq::empty()));
        assert forall|v: int| 0 <= v < distances@.len() && #[trigger] distances@[v] < usize::MAX implies exists|p: Seq<int>|
            is_path(g, start as int, p) && path_end(g, start as int, p) == v && path_cost(g, start as int, p)
                == distances@[v] by {
            assert(v == start);
            assert(path_end(g, start as int, Seq::<int>::empty()) == v);
        }
        assert(queue.items().contains((0usize, start)));
        lemma_sum_nonneg(distances@);
    }
    loop
        invariant
            n == g.len(),
            g == graph_view(graph),
            destinations_in_range(g),
            start < n,
            distances@.len() == n,
            distances@[start as int] == 0,
            queue.wf(),
            witnessed(g, start as int, distances@),
            forall|e: (usize, usize)| #[trigger] queue.items().contains(e) ==> e.1 < n && e.0 < usize::MAX,
            forall|u: int|
                0 <= u < n && #[trigger] distances@[u] < usize::MAX ==> queue.items().contains(
                    (distances@[u], u as usize),
                ) || relaxed(g, distances@, u),
        ensures
            distances@.len() == n,
            distances@[start as int] == 0,
            witnessed(g, start as int, distances@),
            forall|u: int| 0 <= u < g.len() && #[trigger] distances@[u] < usize::MAX ==> relaxed(g, distances@, u),
        decreases sum_of(distances@) + queue.data@.len(),
    {
        let ghost items_before = queue.items();
        let ghost measure = sum_of(distances@) + queue.data@.len();
        let popped = queue.pop();
        proof {
            assert forall|e: (usize, usize)| #[trigger] queue.items().contains(e) implies e.1 < n && e.0 < usize::MAX by {
                assert(items_before.contains(e));
            }
            lemma_sum_nonneg(distances@);
            if popped is Some {
                assert(sum_of(distances@) + queue.data@.len() == measure - 1);
            }
        }
        let (distance, vertex) = match popped {
            None => {
                proof {
                    assert(queue.items() =~= Multiset::empty()) by {
                        assert(queue.data@ =~= Seq::<(usize, usize)>::empty());
                    }
                    assert forall|u: int| 0 <= u < g.len() && #[trigger] distances@[u] < usize::MAX implies relaxed(g, distances@, u) by {
                        assert(!queue.items().contains((distances@[u], u as usize)));
                    }
                }
                break;
            },
            Some(entry) => entry,
        };
        if distance != distances[vertex] {
            proof {
                assert forall|u: int| 0 <= u < n && #[trigger] distances@[u] < usize::MAX implies queue.items().contains(
                    (distances@[u], u as usize),
                ) || relaxed(g, distances@, u) by {
                    if u == vertex as int {
                    }
                }
            }
            continue;
        }
        proof {
            assert(distance < usize::MAX);
        }
        relax_edges(graph, start, vertex, distance, &mut distances, &mut queue);
        proof {
            lemma_sum_nonneg(distances@);
        }
    }
    proof {
        assert forall|p: Seq<int>| is_path(g, start as int, p) implies #[trigger] distances@[path_end(g, start as int, p)]
            <= path_cost(g, start as int, p) by {
            lemma_relaxed_lower_bound(g, start as int, distances@, p);
        }
    }
    distances
}

} // verus!
