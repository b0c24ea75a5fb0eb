//! Directed graphs in which every vertex has exactly one outgoing edge.
use vstd::prelude::*;
use vstd::set_lib::*;

verus! {

/// The vertex reached from `v` after following `k` edges.
pub open spec fn iterate(f: Seq<usize>, v: int, k: nat) -> int
    decreases k,
{
    if k == 0 {
        v
    } else {
        f[iterate(f, v, (k - 1) as nat)] as int
    }
}

/// Every edge stays inside `0..f.len()`.
pub open spec fn edges_in_range(f: Seq<usize>) -> bool {
    forall|v: int| 0 <= v < f.len() ==> #[trigger] f[v] < f.len()
}

/// `v` lies on a cycle: following edges from `v` comes back to `v`.
pub open spec fn on_cycle(f: Seq<usize>, v: int) -> bool {
    exists|k: nat| k >= 1 && #[trigger] iterate(f, v, k) == v
}

/// `c` lists one whole cycle in edge order, starting from its smallest
/// vertex and without repeating that vertex at the end.
pub open spec fn is_cycle_listing(f: Seq<usize>, c: Seq<usize>) -> bool {
    &&& c.len() >= 1
    &&& c.no_duplicates()
    &&& forall|i: int| 0 <= i < c.len() ==> #[trigger] c[i] < f.len()
    &&& forall|i: int| 0 <= i < c.len() - 1 ==> f[#[trigger] c[i] as int] == c[i + 1]
    &&& f[c.last() as int] == c[0]
    &&& forall|i: int| 0 <= i < c.len() ==> c[0] <= #[trigger] c[i]
}

/// `res` lists every cycle of `f` once, ordered by starting vertex.
pub open spec fn all_cycles(f: Seq<usize>, res: Seq<Seq<usize>>) -> bool {
    &&& forall|i: int| 0 <= i < res.len() ==> is_cycle_listing(f, #[trigger] res[i])
    &&& forall|i: int, j: int| 0 <= i < j < res.len() ==> (#[trigger] res[i])[0] < (#[trigger] res[j])[0]
    &&& forall|v: int|
        0 <= v < f.len() && on_cycle(f, v) ==> exists|i: int, j: int|
            0 <= i < res.len() && 0 <= j < res[i].len() && #[trigger] res[i][j] == v
}

pub proof fn lemma_iterate_add(f: Seq<usize>, v: int, a: nat, b: nat)
    ensures
        iterate(f, v, a + b) == iterate(f, iterate(f, v, a), b),
    decreases b,
{
    if b > 0 {
        lemma_iterate_add(f, v, a, (b - 1) as nat);
        assert((a + b - 1) as nat == a + (b - 1) as nat);
    }
}

pub proof fn lemma_iterate_range(f: Seq<usize>, v: int, k: nat)
    requires
        edges_in_range(f),
        0 <= v < f.len(),
    ensures
        0 <= iterate(f, v, k) < f.len(),
    decreases k,
{
    if k > 0 {
        lemma_iterate_range(f, v, (k - 1) as nat);
    }
}

/// Following edges from a vertex on a cycle stays on a cycle.
pub proof fn lemma_on_cycle_forward(f: Seq<usize>, c: int, i: nat)
    requires
        on_cycle(f, c),
    ensures
        on_cycle(f, iterate(f, c, i)),
{
    let k = choose|k: nat| k >= 1 && #[trigger] iterate(f, c, k) == c;
    lemma_iterate_add(f, c, i, k);
    lemma_iterate_add(f, c, k, i);
    assert(iterate(f, iterate(f, c, i), k) == iterate(f, c, i));
}


/// The vertices in `0..bound`, outside `done`, whose edge leads to `v`.
spec fn preds_outside(f: Seq<usize>, done: Set<int>, bound: int, v: int) -> Set<int> {
    Set::new(|u: int| 0 <= u < bound && !done.contains(u) && f[u] == v)
}

proof fn lemma_preds_finite(f: Seq<usize>, done: Set<int>, bound: int, v: int)
    requires
        0 <= bound,
    ensures
        preds_outside(f, done, bound, v).finite(),
        preds_outside(f, done, bound, v).len() <= bound,
{
    let s = preds_outside(f, done, bound, v);
    let all = Set::<int>::range(0, bound);
    <int as FiniteRange>::range_properties(0, bound);
    assert(s.subset_of(all));
    lemma_len_subset(s, all);
}

/// Every vertex whose edge leads into the queue at position `i` appears in
/// the queue before position `i`.
spec fn preds_earlier(f: Seq<usize>, q: Seq<usize>) -> bool {
    forall|i: int, u: int|
        0 <= i < q.len() && 0 <= u < f.len() && #[trigger] f[u] == #[trigger] q[i] ==> exists|j: int|
            0 <= j < i && #[trigger] q[j] == u
}

proof fn lemma_queue_ancestors(f: Seq<usize>, q: Seq<usize>, i: int, u: int, m: nat)
    requires
        edges_in_range(f),
        preds_earlier(f, q),
        0 <= i < q.len(),
        0 <= u < f.len(),
        m >= 1,
        iterate(f, u, m) == q[i],
    ensures
        exists|j: int| 0 <= j < i && q[j] == u,
    decreases m,
{
    let w = iterate(f, u, (m - 1) as nat);
    lemma_iterate_range(f, u, (m - 1) as nat);
    assert(f[w] == q[i]);
    let j1 = choose|j: int| 0 <= j < i && #[trigger] q[j] == w;
    if m > 1 {
        lemma_queue_ancestors(f, q, j1, u, (m - 1) as nat);
        let j = choose|j: int| 0 <= j < j1 && q[j] == u;
        assert(0 <= j < i && q[j] == u);
    }
}

/// No vertex of a queue without repetitions, in which every predecessor
/// comes earlier, lies on a cycle.
proof fn lemma_queue_off_cycle(f: Seq<usize>, q: Seq<usize>, i: int)
    requires
        edges_in_range(f),
        preds_earlier(f, q),
        q.no_duplicates(),
        0 <= i < q.len(),
        q[i] < f.len(),
    ensures
        !on_cycle(f, q[i] as int),
{
    if on_cycle(f, q[i] as int) {
        let k = choose|k: nat| k >= 1 && #[trigger] iterate(f, q[i] as int, k) == q[i] as int;
        lemma_queue_ancestors(f, q, i, q[i] as int, k);
    }
}

/// A predecessor outside `q` of `v`, when there is one.
/// Some vertex outside `q` has its edge into `w`.
spec fn has_outside_pred(f: Seq<usize>, q: Seq<usize>, w: int) -> bool {
    exists|u: int| 0 <= u < f.len() && !q.contains(u as usize) && #[trigger] f[u] == w
}

spec fn back_step(f: Seq<usize>, q: Seq<usize>, v: int) -> int {
    choose|u: int| 0 <= u < f.len() && !q.contains(u as usize) && f[u] == v
}

spec fn back(f: Seq<usize>, q: Seq<usize>, v: int, m: nat) -> int
    decreases m,
{
    if m == 0 {
        v
    } else {
        back_step(f, q, back(f, q, v, (m - 1) as nat))
    }
}

proof fn lemma_back(f: Seq<usize>, q: Seq<usize>, v: int, a: nat, m: nat)
    requires
        forall|w: int| 0 <= w < f.len() && !q.contains(w as usize) ==> #[trigger] has_outside_pred(f, q, w),
        0 <= v < f.len(),
        !q.contains(v as usize),
    ensures
        0 <= back(f, q, v, a + m) < f.len(),
        !q.contains(back(f, q, v, a + m) as usize),
        iterate(f, back(f, q, v, a + m), m) == back(f, q, v, a),
    decreases a + m, m,
{
    if m == 0 {
        if a > 0 {
            lemma_back(f, q, v, (a - 1) as nat, 0);
            let w = back(f, q, v, (a - 1) as nat);
            assert(has_outside_pred(f, q, w));
        }
    } else {
        lemma_back(f, q, v, a, (m - 1) as nat);
        lemma_back(f, q, v, (a + m - 1) as nat, 0);
        let w = back(f, q, v, (a + m - 1) as nat);
        assert(has_outside_pred(f, q, w));
        let u = back(f, q, v, a + m);
        assert(u == back_step(f, q, w));
        assert(f[u] == w);
        lemma_iterate_add(f, u, 1, (m - 1) as nat);
        assert(iterate(f, u, 0) == u);
        assert(iterate(f, u, 1) == w);
        assert(a + (m - 1) as nat == (a + m - 1) as nat);
    }
}

proof fn lemma_pigeonhole(s: Seq<int>, n: nat)
    requires
        s.len() > n,
        forall|i: int| 0 <= i < s.len() ==> 0 <= #[trigger] s[i] < n,
    ensures
        exists|i: int, j: int| 0 <= i < j < s.len() && s[i] == s[j],
{
    if s.no_duplicates() {
        s.unique_seq_to_set();
        let all = Set::<int>::range(0, n as int);
        <int as FiniteRange>::range_properties(0, n as int);
        assert(s.to_set().subset_of(all));
        lemma_len_subset(s.to_set(), all);
    } else {
        let (i, j) = choose|i: int, j: int| 0 <= i < s.len() && 0 <= j < s.len() && i != j && s[i] == s[j];
        if i < j {
            assert(s[i] == s[j]);
        } else {
            assert(s[j] == s[i]);
        }
    }
}

/// When every vertex outside `q` has a predecessor outside `q`, every vertex
/// outside `q` lies on a cycle.
proof fn lemma_outside_on_cycle(f: Seq<usize>, q: Seq<usize>, v: int)
    requires
        edges_in_range(f),
        forall|w: int| 0 <= w < f.len() && !q.contains(w as usize) ==> #[trigger] has_outside_pred(f, q, w),
        0 <= v < f.len(),
        !q.contains(v as usize),
    ensures
        on_cycle(f, v),
{
    let n = f.len();
    let s = Seq::new(n + 1, |i: int| back(f, q, v, i as nat));
    assert forall|i: int| 0 <= i < s.len() implies 0 <= #[trigger] s[i] < n by {
        lemma_back(f, q, v, i as nat, 0);
    }
    lemma_pigeonhole(s, n);
    let (i, j) = choose|i: int, j: int| 0 <= i < j < s.len() && s[i] == s[j];
    lemma_back(f, q, v, i as nat, (j - i) as nat);
    assert(i as nat + (j - i) as nat == j as nat);
    let c = back(f, q, v, j as nat);
    assert(iterate(f, c, (j - i) as nat) == c);
    assert(on_cycle(f, c));
    lemma_back(f, q, v, 0, j as nat);
    lemma_on_cycle_forward(f, c, j as nat);
}

proof fn lemma_nodup_bound(q: Seq<usize>, n: usize)
    requires
        q.no_duplicates(),
        forall|i: int| 0 <= i < q.len() ==> #[trigger] q[i] < n,
    ensures
        q.len() <= n,
{
    q.unique_seq_to_set();
    let all = Set::<usize>::range(0, n);
    <usize as FiniteRange>::range_properties(0, n);
    assert(q.to_set().subset_of(all));
    lemma_len_subset(q.to_set(), all);
}

/// The smallest positive number of steps after which `s` comes back.
proof fn lemma_min_period(f: Seq<usize>, s: int, k: nat) -> (m: nat)
    requires
        k >= 1,
        iterate(f, s, k) == s,
    ensures
        1 <= m <= k,
        iterate(f, s, m) == s,
        forall|j: nat| 1 <= j < m ==> #[trigger] iterate(f, s, j) != s,
    decreases k,
{
    if exists|j: nat| 1 <= j < k && #[trigger] iterate(f, s, j) == s {
        let j = choose|j: nat| 1 <= j < k && #[trigger] iterate(f, s, j) == s;
        lemma_min_period(f, s, j)
    } else {
        k
    }
}

/// Within one minimal period the visited vertices are distinct.
proof fn lemma_period_distinct(f: Seq<usize>, s: int, k: nat, a: nat, b: nat)
    requires
        iterate(f, s, k) == s,
        forall|j: nat| 1 <= j < k ==> #[trigger] iterate(f, s, j) != s,
        a < b < k,
    ensures
        iterate(f, s, a) != iterate(f, s, b),
{
    if iterate(f, s, a) == iterate(f, s, b) {
        let d = (k - b) as nat;
        lemma_iterate_add(f, s, a, d);
        lemma_iterate_add(f, s, b, d);
        assert(b + d == k);
        assert(iterate(f, s, (a + d) as nat) == s);
        assert(1 <= a + d < k);
    }
}

/// A cycle listing is closed under following edges.
proof fn lemma_listing_closed(f: Seq<usize>, c: Seq<usize>, i: int, m: nat)
    requires
        is_cycle_listing(f, c),
        0 <= i < c.len(),
    ensures
        exists|j: int| 0 <= j < c.len() && c[j] == iterate(f, c[i] as int, m),
    decreases m,
{
    if m == 0 {
        assert(c[i] == iterate(f, c[i] as int, 0));
    } else {
        lemma_listing_closed(f, c, i, (m - 1) as nat);
        let j = choose|j: int| 0 <= j < c.len() && c[j] == iterate(f, c[i] as int, (m - 1) as nat);
        if j < c.len() - 1 {
            assert(c[j + 1] == iterate(f, c[i] as int, m));
        } else {
            assert(c[0] == iterate(f, c[i] as int, m));
        }
    }
}

/// The vertices at the first `head` positions of the queue.
spec fn processed_set(q: Seq<usize>, head: int) -> Set<int> {
    Set::new(|x: int| exists|j: int| 0 <= j < head && q[j] as int == x)
}

/// The in-degree table value of `w` after the vertices of `c` were zeroed.
spec fn old_indeg_at(before: Seq<usize>, c: Seq<usize>, w: int) -> usize {
    if exists|j: int| 0 <= j < c.len() && c[j] == w {
        0
    } else {
        before[w]
    }
}

/// `w` occurs in one of the listed cycles.
spec fn in_some(cs: Seq<Seq<usize>>, w: int) -> bool {
    exists|i: int, j: int| 0 <= i < cs.len() && 0 <= j < cs[i].len() && cs[i][j] == w
}

/// A graph in which every vertex has exactly one outgoing edge.  Vertex
/// indices are zero-based; an empty graph is allowed.
pub struct FunctionalGraph {
    next: Vec<usize>,
}

impl View for FunctionalGraph {
    type V = Seq<usize>;

    closed spec fn view(&self) -> Seq<usize> {
        self.next@
    }
}

impl FunctionalGraph {
    /// Every stored destination is a vertex.
    pub closed spec fn wf(&self) -> bool {
        edges_in_range(self.next@)
    }

    /// Creates a graph with an edge `v -> next[v]` for each vertex.
    pub fn new(next: Vec<usize>) -> (g: Self)
        requires
            edges_in_range(next@),
        ensures
            g.wf(),
            g@ == next@,
    {
        FunctionalGraph { next }
    }

    /// Returns the number of vertices.
    pub fn len(&self) -> (r: usize)
        ensures
            r == self@.len(),
    {
        self.next.len()
    }

    /// Returns whether the graph has no vertices.
    pub fn is_empty(&self) -> (r: bool)
        ensures
            r == (self@.len() == 0),
    {
        self.next.is_empty()
    }

    /// Returns the destination of the outgoing edge from `vertex`.
    pub fn next(&self, vertex: usize) -> (r: usize)
        requires
            vertex < self@.len(),
        ensures
            r == self@[vertex as int],
    {
        self.next[vertex]
    }

    /// Returns all cycles, leaving out vertices that only lead into a cycle.
    ///
    /// Each cycle lists vertices in edge order, without repeating its first
    /// vertex at the end, and starts at its smallest vertex; cycles are
    /// ordered by those starting vertices.  A self-loop is a one-element
    /// cycle.
    pub fn cycles(&self) -> (res: Vec<Vec<usize>>)
        requires
            self.wf(),
        ensures
            all_cycles(self@, res@.map_values(|c: Vec<usize>| c@)),
    {
        let ghost f = self.next@;
        let n = self.next.len();
        // In-degrees.
        let mut indegree: Vec<usize> = Vec::new();
        let mut i: usize = 0;
        while i < n
            invariant
                i <= n,
                n == f.len(),
                indegree@.len() == i,
                forall|k: int| 0 <= k < i ==> indegree@[k] == 0,
            decreases n - i,
        {
            indegree.push(0);
            i += 1;
        }
        proof {
            assert forall|v: int| 0 <= v < n implies #[trigger] indegree@[v] == preds_outside(f, Set::empty(), 0, v).len() by {
                assert(preds_outside(f, Set::empty(), 0, v) =~= Set::<int>::empty());
            }
        }
        let mut i: usize = 0;
        while i < n
            invariant
                i <= n,
                n == f.len(),
                f == self.next@,
                edges_in_range(f),
                indegree@.len() == n,
                forall|v: int|
                    0 <= v < n ==> #[trigger] indegree@[v] == preds_outside(f, Set::empty(), i as int, v).len(),
            decreases n - i,
        {
            let to = self.next[i];
            proof {
                assert forall|v: int| 0 <= v < n implies #[trigger] preds_outside(f, Set::empty(), i + 1, v).len()
                    == preds_outside(f, Set::empty(), i as int, v).len() + (if v == to { 1int } else { 0int }) by {
                    lemma_preds_finite(f, Set::empty(), i as int, v);
                    if v == to {
                        assert(preds_outside(f, Set::empty(), i + 1, v) =~= preds_outside(f, Set::empty(), i as int, v).insert(i as int));
                    } else {
                        assert(preds_outside(f, Set::empty(), i + 1, v) =~= preds_outside(f, Set::empty(), i as int, v));
                    }
                }
                lemma_preds_finite(f, Set::empty(), i + 1, to as int);
            }
            let d = indegree[to];
            indegree.set(to, d + 1);
            i += 1;
        }
        // Peel off, repeatedly, the vertices no remaining edge leads to.
        let mut queue: Vec<usize> = Vec::new();
        let mut v: usize = 0;
        while v < n
            invariant
                v <= n,
                n == f.len(),
                indegree@.len() == n,
                forall|k: int| 0 <= k < queue@.len() ==> #[trigger] queue@[k] < v,
                forall|a: int, b: int| 0 <= a < b < queue@.len() ==> queue@[a] < queue@[b],
                forall|w: int| 0 <= w < v ==> (queue@.contains(w as usize) <==> #[trigger] indegree@[w] == 0),
                forall|w: int| 0 <= w < n ==> #[trigger] indegree@[w] == preds_outside(f, Set::empty(), n as int, w).len(),
            decreases n - v,
        {
            let ghost q_before = queue@;
            if indegree[v] == 0 {
                queue.push(v);
            }
            proof {
                assert forall|w: int| 0 <= w < v + 1 implies (queue@.contains(w as usize) <==> #[trigger] indegree@[w] == 0) by {
                    if queue@.contains(w as usize) {
                        let k = choose|k: int| 0 <= k < queue@.len() && queue@[k] == w as usize;
                        if k < q_before.len() {
                            assert(q_before[k] == w as usize);
                            assert(q_before.contains(w as usize));
                        }
                    }
                    if w < v && q_before.contains(w as usize) {
                        let k = choose|k: int| 0 <= k < q_before.len() && q_before[k] == w as usize;
                        assert(queue@[k] == w as usize);
                    }
                    if w == v && indegree@[w] == 0 {
                        assert(queue@[queue@.len() - 1] == v);
                    }
                    if w < v && !q_before.contains(w as usize) && queue@.contains(w as usize) {
                        let k = choose|k: int| 0 <= k < queue@.len() && queue@[k] == w as usize;
                        assert(k == queue@.len() - 1);
                    }
                }
            }
            v += 1;
        }
        let ghost q0 = queue@;
        proof {
            assert forall|a: int, b: int| 0 <= a < queue@.len() && 0 <= b < queue@.len() && a != b
                implies queue@[a] != queue@[b] by {
                if a < b {
                    assert(queue@[a] < queue@[b]);
                } else {
                    assert(queue@[b] < queue@[a]);
                }
            }
            lemma_nodup_bound(queue@, n);
            assert forall|w: int| 0 <= w < n implies #[trigger] preds_outside(f, Set::empty(), n as int, w)
                =~= preds_outside(f, processed_set(queue@, 0), n as int, w) by {}
            assert forall|i: int, u: int| 0 <= i < queue@.len() && 0 <= u < f.len() && #[trigger] f[u] == #[trigger] queue@[i]
                implies exists|j: int| 0 <= j < i && #[trigger] queue@[j] == u by {
                let t = queue@[i] as int;
                assert(queue@.contains(queue@[i]));
                assert(indegree@[t] == 0);
                lemma_preds_finite(f, Set::empty(), n as int, t);
                assert(preds_outside(f, Set::empty(), n as int, t).contains(u));
            }
        }
        let mut head: usize = 0;
        while head < queue.len()
            invariant
                n == f.len(),
                f == self.next@,
                edges_in_range(f),
                indegree@.len() == n,
                head <= queue@.len() <= n,
                queue@.no_duplicates(),
                forall|k: int| 0 <= k < queue@.len() ==> #[trigger] queue@[k] < n,
                preds_earlier(f, queue@),
                forall|w: int| 0 <= w < n ==> (queue@.contains(w as usize) <==> #[trigger] indegree@[w] == 0),
                forall|w: int|
                    0 <= w < n ==> #[trigger] indegree@[w] == preds_outside(f, processed_set(queue@, head as int), n as int, w).len(),
            decreases n - head,
        {
            let u = queue[head];
            let to = self.next[u];
            let ghost q_old = queue@;
            let ghost done_old = processed_set(q_old, head as int);
            let ghost done_new = processed_set(q_old, head + 1);
            proof {
                assert(done_new =~= done_old.insert(u as int)) by {
                    assert forall|x: int| #[trigger] done_new.contains(x) <==> done_old.insert(u as int).contains(x) by {
                        if done_new.contains(x) {
                            let j = choose|j: int| 0 <= j < head + 1 && q_old[j] as int == x;
                            if j < head {
                                assert(done_old.contains(x));
                            }
                        }
                        if done_old.contains(x) {
                            let j = choose|j: int| 0 <= j < head && q_old[j] as int == x;
                            assert(done_new.contains(x));
                        }
                        if x == u {
                            assert(q_old[head as int] as int == x);
                        }
                    }
                }
                assert(!done_old.contains(u as int)) by {
                    if done_old.contains(u as int) {
                        let j = choose|j: int| 0 <= j < head && q_old[j] as int == u as int;
                        assert(q_old[j] == q_old[head as int]);
                    }
                }
                assert forall|w: int| 0 <= w < n implies #[trigger] preds_outside(f, done_new, n as int, w).len()
                    == preds_outside(f, done_old, n as int, w).len() - (if w == to { 1int } else { 0int }) by {
                    lemma_preds_finite(f, done_old, n as int, w);
                    if w == to {
                        assert(preds_outside(f, done_old, n as int, w).contains(u as int));
                        assert(preds_outside(f, done_new, n as int, w) =~= preds_outside(f, done_old, n as int, w).remove(u as int));
                    } else {
                        assert(preds_outside(f, done_new, n as int, w) =~= preds_outside(f, done_old, n as int, w));
                    }
                }
                assert(indegree@[to as int] >= 1) by {
                    lemma_preds_finite(f, done_old, n as int, to as int);
                    assert(preds_outside(f, done_old, n as int, to as int).contains(u as int));
                }
            }
            head += 1;
            let d = indegree[to];
            indegree.set(to, d - 1);
            if d - 1 == 0 {
                proof {
                    assert(!q_old.contains(to));
                    lemma_nodup_bound(q_old, n);
                    assert(q_old.len() < n) by {
                        if q_old.len() == n {
                            // every vertex is already queued, `to` included
                            let all = q_old.to_set();
                            q_old.unique_seq_to_set();
                            let r = Set::<usize>::range(0, n);
                            <usize as FiniteRange>::range_properties(0, n);
                            assert(all.subset_of(r));
                            assert(all.insert(to).subset_of(r));
                            vstd::set_lib::lemma_len_subset(all.insert(to), r);
                        }
                    }
                }
                queue.push(to);
                proof {
                    let q = queue@;
                    assert(q.no_duplicates()) by {
                        assert forall|a: int, b: int| 0 <= a < q.len() && 0 <= b < q.len() && a != b implies q[a] != q[b] by {
                            if a == q.len() - 1 {
                                assert(q_old.contains(q[b]) || b == a);
                            } else if b == q.len() - 1 {
                                assert(q_old.contains(q[a]));
                            }
                        }
                    }
                    assert forall|i: int, x: int| 0 <= i < q.len() && 0 <= x < f.len() && #[trigger] f[x] == #[trigger] q[i]
                        implies exists|j: int| 0 <= j < i && #[trigger] q[j] == x by {
                        if i == q.len() - 1 {
                            lemma_preds_finite(f, done_new, n as int, to as int);
                            assert(!preds_outside(f, done_new, n as int, to as int).contains(x));
                            let j = choose|j: int| 0 <= j < head && q_old[j] as int == x;
                            assert(q[j] == x);
                        } else {
                            assert(q_old[i] == q[i]);
                            let j = choose|j: int| 0 <= j < i && #[trigger] q_old[j] == x;
                            assert(q[j] == x);
                        }
                    }
                    assert forall|x: int| #[trigger] processed_set(q, head as int).contains(x) <==> done_new.contains(x) by {
                        if processed_set(q, head as int).contains(x) {
                            let j = choose|j: int| 0 <= j < head && q[j] as int == x;
                            assert(q_old[j] as int == x);
                        }
                        if done_new.contains(x) {
                            let j = choose|j: int| 0 <= j < head && q_old[j] as int == x;
                            assert(q[j] as int == x);
                        }
                    }
                    assert(processed_set(q, head as int) =~= done_new);
                    assert forall|w: int| 0 <= w < n implies (q.contains(w as usize) <==> #[trigger] indegree@[w] == 0) by {
                        if w != to {
                            if q.contains(w as usize) {
                                let k = choose|k: int| 0 <= k < q.len() && q[k] == w as usize;
                                assert(q_old[k] == w as usize);
                            }
                            if q_old.contains(w as usize) {
                                let k = choose|k: int| 0 <= k < q_old.len() && q_old[k] == w as usize;
                                assert(q[k] == w as usize);
                            }
                        } else {
                            assert(q[q.len() - 1] == to);
                        }
                    }
                }
            } else {
                proof {
                    assert(processed_set(queue@, head as int) =~= done_new);
                    assert(!q_old.contains(to));
                }
            }
        }
        let ghost q = queue@;
        proof {
            assert forall|w: int| 0 <= w < n implies (on_cycle(f, w) <==> !q.contains(w as usize)) by {
                if q.contains(w as usize) {
                    let i = choose|i: int| 0 <= i < q.len() && q[i] == w as usize;
                    lemma_queue_off_cycle(f, q, i);
                } else {
                    assert forall|x: int| 0 <= x < f.len() && !q.contains(x as usize) implies #[trigger] has_outside_pred(f, q, x) by {
                        lemma_preds_finite(f, processed_set(q, q.len() as int), n as int, x);
                        assert(head == q.len());
                        assert(indegree@[x] != 0);
                        assert(preds_outside(f, processed_set(q, q.len() as int), n as int, x).len() > 0);
                        let u = preds_outside(f, processed_set(q, q.len() as int), n as int, x).choose();
                        assert(preds_outside(f, processed_set(q, q.len() as int), n as int, x).contains(u));
                        if q.contains(u as usize) {
                            let j = choose|j: int| 0 <= j < q.len() && q[j] == u as usize;
                            assert(processed_set(q, q.len() as int).contains(u));
                        }
                    }
                    lemma_outside_on_cycle(f, q, w);
                }
            }
        }
        // Every vertex left with a positive in-degree lies on a cycle.
        let mut cycles: Vec<Vec<usize>> = Vec::new();
        let mut start: usize = 0;
        while start < n
            invariant
                n == f.len(),
                f == self.next@,
                edges_in_range(f),
                indegree@.len() == n,
                start <= n,
                forall|w: int| 0 <= w < n ==> (on_cycle(f, w) <==> !q.contains(w as usize)),
                forall|w: int| 0 <= w < n && !on_cycle(f, w) ==> #[trigger] indegree@[w] == 0,
                forall|w: int|
                    0 <= w < n && on_cycle(f, w) ==> (#[trigger] indegree@[w] == 0 <==> in_some(
                        cycles@.map_values(|c: Vec<usize>| c@),
                        w,
                    )),
                forall|w: int| 0 <= w < start && on_cycle(f, w) ==> #[trigger] indegree@[w] == 0,
                forall|i: int|
                    0 <= i < cycles@.len() ==> is_cycle_listing(f, #[trigger] cycles@[i]@) && cycles@[i]@[0] < start,
                forall|i: int, j: int| 0 <= i < j < cycles@.len() ==> (#[trigger] cycles@[i]@)[0] < (#[trigger] cycles@[j]@)[0],
            decreases n - start,
        {
            if indegree[start] == 0 {
                start += 1;
                continue;
            }
            let ghost before = indegree@;
            let ghost outs = cycles@.map_values(|c: Vec<usize>| c@);
            proof {
                assert(on_cycle(f, start as int));
            }
            let ghost k0 = choose|k: nat| k >= 1 && #[trigger] iterate(f, start as int, k) == start as int;
            let ghost k = lemma_min_period(f, start as int, k0);
            let mut cycle: Vec<usize> = Vec::new();
            let mut vertex = start;
            loop
                invariant_except_break
                    cycle@.len() < k,
                invariant
                    n == f.len(),
                    f == self.next@,
                    edges_in_range(f),
                    indegree@.len() == n,
                    start < n,
                    1 <= k,
                    iterate(f, start as int, k) == start as int,
                    forall|j: nat| 1 <= j < k ==> #[trigger] iterate(f, start as int, j) != start as int,
                    vertex as int == iterate(f, start as int, cycle@.len() as nat),
                    vertex < n,
                    forall|j: int| 0 <= j < cycle@.len() ==> #[trigger] cycle@[j] as int == iterate(f, start as int, j as nat),
                    forall|w: int|
                        0 <= w < n ==> #[trigger] indegree@[w] == (if exists|j: int| 0 <= j < cycle@.len() && cycle@[j] == w {
                            0
                        } else {
                            before[w]
                        }),
                ensures
                    cycle@.len() == k,
                decreases k - cycle@.len(),
            {
                let ghost m = cycle@.len();
                let ghost c_old = cycle@;
                let ghost v_old = vertex;
                let ghost indeg_mid = indegree@;
                proof {
                    assert forall|w: int| 0 <= w < n implies #[trigger] indeg_mid[w] == old_indeg_at(before, c_old, w) by {}
                }
                cycle.push(vertex);
                indegree.set(vertex, 0);
                vertex = self.next[vertex];
                proof {
                    assert(vertex as int == iterate(f, start as int, (m + 1) as nat));
                    lemma_iterate_range(f, start as int, (m + 1) as nat);
                    assert forall|w: int| 0 <= w < n implies #[trigger] indegree@[w] == (if exists|j: int| 0 <= j < cycle@.len() && cycle@[j] == w {
                        0
                    } else {
                        before[w]
                    }) by {
                        assert(cycle@ == c_old.push(v_old));
                        if w == v_old as int {
                            assert(cycle@[m as int] == w);
                        } else {
                            assert(indegree@[w] == old_indeg_at(before, c_old, w)) by {
                                assert(indegree@[w] == indeg_mid[w]);
                            }
                            if exists|j: int| 0 <= j < cycle@.len() && cycle@[j] == w {
                                let j = choose|j: int| 0 <= j < cycle@.len() && cycle@[j] == w;
                                assert(j < m);
                                assert(c_old[j] == w);
                            }
                            if exists|j: int| 0 <= j < c_old.len() && c_old[j] == w {
                                let j = choose|j: int| 0 <= j < c_old.len() && c_old[j] == w;
                                assert(cycle@[j] == w);
                            }
                        }
                    }
                }
                if vertex == start {
                    proof {
                        assert(m + 1 == k) by {
                            if m + 1 < k {
                                assert(iterate(f, start as int, (m + 1) as nat) != start as int);
                            }
                        }
                    }
                    break;
                }
            }
            let ghost c = cycle@;
            proof {
                assert(c.no_duplicates()) by {
                    assert forall|a: int, b: int| 0 <= a < c.len() && 0 <= b < c.len() && a != b implies c[a] != c[b] by {
                        if a < b {
                            lemma_period_distinct(f, start as int, k, a as nat, b as nat);
                        } else {
                            lemma_period_distinct(f, start as int, k, b as nat, a as nat);
                        }
                    }
                }
                assert forall|i: int| 0 <= i < c.len() implies #[trigger] c[i] < f.len() by {
                    lemma_iterate_range(f, start as int, i as nat);
                }
                assert forall|i: int| 0 <= i < c.len() - 1 implies f[#[trigger] c[i] as int] == c[i + 1] by {
                    assert(c[i + 1] as int == iterate(f, start as int, (i + 1) as nat));
                }
                assert(f[c.last() as int] == c[0]) by {
                    assert(c.last() as int == iterate(f, start as int, (k - 1) as nat));
                    assert(c[0] as int == iterate(f, start as int, 0));
                }
                assert forall|i: int| 0 <= i < c.len() implies c[0] <= #[trigger] c[i] by {
                    let x = c[i] as int;
                    assert(c[0] == start);
                    lemma_iterate_range(f, start as int, i as nat);
                    lemma_on_cycle_forward(f, start as int, i as nat);
                    if x < start {
                        // `x` was handled earlier, so its whole cycle, which
                        // contains `start`, is already listed.
                        assert(before[x] == 0);
                        assert(in_some(outs, x));
                        let (ci, cj) = choose|ci: int, cj: int| 0 <= ci < outs.len() && 0 <= cj < outs[ci].len() && outs[ci][cj] == x;
                        assert(outs[ci] == cycles@[ci]@);
                        lemma_listing_closed(f, outs[ci], cj, (k - i) as nat);
                        lemma_iterate_add(f, start as int, i as nat, (k - i) as nat);
                        let cj2 = choose|j: int| 0 <= j < outs[ci].len() && outs[ci][j] == iterate(f, x, (k - i) as nat);
                        assert(outs[ci][cj2] == start);
                        assert(in_some(outs, start as int));
                        assert(before[start as int] == 0);
                    }
                }
                assert(is_cycle_listing(f, c));
            }
            cycles.push(cycle);
            proof {
                let outs2 = cycles@.map_values(|c: Vec<usize>| c@);
                assert(outs2 == outs.push(c));
                assert forall|w: int| 0 <= w < n && on_cycle(f, w) implies (#[trigger] indegree@[w] == 0 <==> in_some(outs2, w)) by {
                    if exists|j: int| 0 <= j < c.len() && c[j] == w {
                        let j = choose|j: int| 0 <= j < c.len() && c[j] == w;
                        assert(outs2[outs.len() as int][j] == w);
                    } else {
                        if in_some(outs2, w) {
                            let (ci, cj) = choose|ci: int, cj: int| 0 <= ci < outs2.len() && 0 <= cj < outs2[ci].len() && outs2[ci][cj] == w;
                            if ci == outs.len() {
                                assert(c[cj] == w);
                            }
                            assert(outs[ci][cj] == w);
                        }
                        if in_some(outs, w) {
                            let (ci, cj) = choose|ci: int, cj: int| 0 <= ci < outs.len() && 0 <= cj < outs[ci].len() && outs[ci][cj] == w;
                            assert(outs2[ci][cj] == w);
                        }
                    }
                }
                assert forall|w: int| 0 <= w < n && !on_cycle(f, w) implies #[trigger] indegree@[w] == 0 by {
                    if exists|j: int| 0 <= j < c.len() && c[j] == w {
                        let j = choose|j: int| 0 <= j < c.len() && c[j] == w;
                        lemma_on_cycle_forward(f, start as int, j as nat);
                    }
                }
                assert forall|w: int| 0 <= w < start + 1 && on_cycle(f, w) implies #[trigger] indegree@[w] == 0 by {
                    if w == start {
                        assert(c[0] == start);
                    } else if exists|j: int| 0 <= j < c.len() && c[j] == w {
                    }
                }
            }
            start += 1;
        }
        proof {
            let outs = cycles@.map_values(|c: Vec<usize>| c@);
            assert forall|w: int| 0 <= w < f.len() && on_cycle(f, w) implies exists|i: int, j: int|
                0 <= i < outs.len() && 0 <= j < outs[i].len() && #[trigger] outs[i][j] == w by {
                assert(indegree@[w] == 0);
                assert(in_some(outs, w));
            }
        }
        cycles
    }
}

} // verus!
