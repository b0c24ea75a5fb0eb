use vstd::prelude::*;

verus! {

type Link<T> = Option<Box<Node<T>>>;

struct Node<T> {
    value: T,
    priority: u64,
    size: usize,
    rev: bool,
    left: Link<T>,
    right: Link<T>,
}

/// The sequence a subtree stands for, with pending reversals applied.
spec fn link_elems<T>(link: Link<T>) -> Seq<T>
    decreases link,
{
    match link {
        None => Seq::empty(),
        Some(node) => node.elems(),
    }
}

spec fn link_wf<T>(link: Link<T>) -> bool
    decreases link,
{
    match link {
        None => true,
        Some(node) => node.wf(),
    }
}

/// Reversing a concatenation reverses the parts and swaps them.
proof fn lemma_reverse_concat<A>(a: Seq<A>, b: Seq<A>)
    ensures
        (a + b).reverse() == b.reverse() + a.reverse(),
{
    assert((a + b).reverse() =~= b.reverse() + a.reverse());
}

proof fn lemma_reverse_reverse<A>(a: Seq<A>)
    ensures
        a.reverse().reverse() == a,
        a.reverse().len() == a.len(),
{
    assert(a.reverse().reverse() =~= a);
}


/// `s` read forwards, or backwards when `flip` holds.
spec fn oriented<A>(s: Seq<A>, flip: bool) -> Seq<A> {
    if flip {
        s.reverse()
    } else {
        s
    }
}

proof fn lemma_oriented_split<A>(l: Seq<A>, v: A, r: Seq<A>, flip: bool)
    ensures
        oriented(l + seq![v] + r, flip) == (if flip {
            oriented(r, flip) + seq![v] + oriented(l, flip)
        } else {
            l + seq![v] + r
        }),
{
    if flip {
        lemma_reverse_concat(l + seq![v], r);
        lemma_reverse_concat(l, seq![v]);
        assert(seq![v].reverse() =~= seq![v]);
    }
}

impl<T> Node<T> {
    spec fn unreversed(self) -> Seq<T> {
        link_elems(self.left) + seq![self.value] + link_elems(self.right)
    }

    spec fn elems(self) -> Seq<T>
        decreases self,
    {
        let s = link_elems(self.left) + seq![self.value] + link_elems(self.right);
        if self.rev {
            s.reverse()
        } else {
            s
        }
    }

    spec fn wf(self) -> bool
        decreases self,
    {
        &&& link_wf(self.left)
        &&& link_wf(self.right)
        &&& self.size as int == link_elems(self.left).len() + 1 + link_elems(self.right).len()
    }

    proof fn lemma_elems_len(self)
        ensures
            self.elems().len() == link_elems(self.left).len() + 1 + link_elems(self.right).len(),
            self.elems() == (if self.rev { self.unreversed().reverse() } else { self.unreversed() }),
    {
        lemma_reverse_reverse(self.unreversed());
    }

    fn new(value: T, priority: u64) -> (node: Self)
        ensures
            node.wf(),
            node.elems() == seq![value],
    {
        let node = Node { value, priority, size: 1, rev: false, left: None, right: None };
        assert(node.elems() =~= seq![value]);
        node
    }

    fn size(node: &Link<T>) -> (r: usize)
        requires
            link_wf(*node),
        ensures
            r == link_elems(*node).len(),
    {
        match node {
            Some(n) => {
                proof {
                    n.lemma_elems_len();
                }
                n.size
            },
            None => 0,
        }
    }

    fn update(node: &mut Box<Self>)
        requires
            link_wf(old(node).left),
            link_wf(old(node).right),
            link_elems(old(node).left).len() + 1 + link_elems(old(node).right).len() <= usize::MAX,
        ensures
            final(node).wf(),
            final(node).elems() == old(node).elems(),
            final(node).value == old(node).value,
            final(node).left == old(node).left,
            final(node).right == old(node).right,
            final(node).rev == old(node).rev,
            final(node).priority == old(node).priority,
    {
        let l = Self::size(&node.left);
        let r = Self::size(&node.right);
        node.size = 1 + l + r;
    }

    fn toggle(node: &mut Link<T>)
        requires
            link_wf(*old(node)),
        ensures
            link_wf(*final(node)),
            link_elems(*final(node)) == link_elems(*old(node)).reverse(),
    {
        if let Some(n) = node {
            proof {
                n.lemma_elems_len();
            }
            n.rev = !n.rev;
            proof {
                n.lemma_elems_len();
                lemma_reverse_reverse(n.unreversed());
            }
        }
    }

    fn push(node: &mut Box<Self>)
        requires
            old(node).wf(),
        ensures
            final(node).wf(),
            final(node).elems() == old(node).elems(),
            !final(node).rev,
            final(node).value == old(node).value,
            final(node).priority == old(node).priority,
    {
        if !node.rev {
            return;
        }
        proof {
            node.lemma_elems_len();
        }
        let ghost l = link_elems(node.left);
        let ghost r = link_elems(node.right);
        node.rev = false;
        std::mem::swap(&mut node.left, &mut node.right);
        Self::toggle(&mut node.left);
        Self::toggle(&mut node.right);
        proof {
            lemma_reverse_concat(l + seq![node.value], r);
            lemma_reverse_concat(l, seq![node.value]);
            assert(seq![node.value].reverse() =~= seq![node.value]);
            node.lemma_elems_len();
        }
    }

    fn merge(left: Link<T>, right: Link<T>) -> (res: Link<T>)
        requires
            link_wf(left),
            link_wf(right),
            link_elems(left).len() + link_elems(right).len() <= usize::MAX,
        ensures
            link_wf(res),
            link_elems(res) == link_elems(left) + link_elems(right),
        decreases link_elems(left).len() + link_elems(right).len(),
    {
        match (left, right) {
            (None, right) => {
                assert(link_elems::<T>(None) + link_elems(right) =~= link_elems(right));
                right
            },
            (left, None) => {
                assert(link_elems(left) + link_elems::<T>(None) =~= link_elems(left));
                left
            },
            (Some(mut l), Some(mut r)) => {
                if l.priority > r.priority {
                    Self::push(&mut l);
                    proof {
                        l.lemma_elems_len();
                    }
                    let lr = l.right.take();
                    let merged = Self::merge(lr, Some(r));
                    l.right = merged;
                    Self::update(&mut l);
                    proof {
                        l.lemma_elems_len();
                        assert(l.elems() =~= link_elems(l.left) + seq![l.value] + link_elems(lr)
                            + r.elems());
                    }
                    Some(l)
                } else {
                    Self::push(&mut r);
                    proof {
                        r.lemma_elems_len();
                    }
                    let rl = r.left.take();
                    let merged = Self::merge(Some(l), rl);
                    r.left = merged;
                    Self::update(&mut r);
                    proof {
                        r.lemma_elems_len();
                        assert(r.elems() =~= l.elems() + link_elems(rl) + seq![r.value]
                            + link_elems(r.right));
                    }
                    Some(r)
                }
            },
        }
    }

    /// Splits the tree into the first `left_size` elements and the rest.
    fn split(root: Link<T>, left_size: usize) -> (res: (Link<T>, Link<T>))
        requires
            link_wf(root),
        ensures
            link_wf(res.0),
            link_wf(res.1),
            link_elems(res.0) + link_elems(res.1) == link_elems(root),
            link_elems(res.0).len() == (if left_size <= link_elems(root).len() {
                left_size as int
            } else {
                link_elems(root).len() as int
            }),
        decreases link_elems(root).len(),
    {
        match root {
            None => {
                assert(link_elems::<T>(None) + link_elems::<T>(None) =~= link_elems::<T>(None));
                (None, None)
            },
            Some(mut node) => {
                Self::push(&mut node);
                proof {
                    node.lemma_elems_len();
                }
                let current_left_size = Self::size(&node.left);
                if left_size <= current_left_size {
                    let nl = node.left.take();
                    let (l, r) = Self::split(nl, left_size);
                    node.left = r;
                    Self::update(&mut node);
                    proof {
                        node.lemma_elems_len();
                        assert(link_elems(l) + node.elems() =~= link_elems(nl) + seq![node.value]
                            + link_elems(node.right));
                    }
                    (l, Some(node))
                } else {
                    let nr = node.right.take();
                    let (l, r) = Self::split(nr, left_size - current_left_size - 1);
                    node.right = l;
                    Self::update(&mut node);
                    proof {
                        node.lemma_elems_len();
                        assert(node.elems() + link_elems(r) =~= link_elems(node.left) + seq![
                            node.value,
                        ] + link_elems(nr));
                    }
                    (Some(node), r)
                }
            },
        }
    }

    /// Reads the element at `index` of the subtree's sequence.
    fn get(node: &Link<T>, index: usize) -> (r: Option<&T>)
        requires
            link_wf(*node),
        ensures
            index < link_elems(*node).len() ==> r == Some(&link_elems(*node)[index as int]),
            index >= link_elems(*node).len() ==> r is None,
        decreases link_elems(*node).len(),
    {
        match node {
            None => None,
            Some(n) => {
                proof {
                    n.lemma_elems_len();
                }
                let len = n.size;
                if index >= len {
                    return None;
                }
                let i = if n.rev {
                    len - 1 - index
                } else {
                    index
                };
                let left_size = Self::size(&n.left);
                if i < left_size {
                    Self::get(&n.left, i)
                } else if i == left_size {
                    Some(&n.value)
                } else {
                    Self::get(&n.right, i - left_size - 1)
                }
            },
        }
    }


    /// A mutable reference to the element at `index` of the subtree.
    fn get_mut(node: &mut Link<T>, index: usize) -> (r: Option<&mut T>)
        requires
            link_wf(*old(node)),
        ensures
            index < link_elems(*old(node)).len() ==> {
                &&& r is Some
                &&& *r.unwrap() == link_elems(*old(node))[index as int]
                &&& link_wf(*final(node))
                &&& link_elems(*final(node)) == link_elems(*old(node)).update(
                    index as int,
                    *final(r.unwrap()),
                )
            },
            index >= link_elems(*old(node)).len() ==> r is None && *final(node) == *old(node),
        decreases link_elems(*old(node)).len(),
    {
        match node {
            None => None,
            Some(n) => {
                proof {
                    n.lemma_elems_len();
                }
                let len = n.size;
                if index >= len {
                    return None;
                }
                let i = if n.rev {
                    len - 1 - index
                } else {
                    index
                };
                let left_size = Self::size(&n.left);
                if i < left_size {
                    Self::get_mut(&mut n.left, i)
                } else if i == left_size {
                    Some(&mut n.value)
                } else {
                    Self::get_mut(&mut n.right, i - left_size - 1)
                }
            },
        }
    }

    /// Appends clones of the subtree's elements to `out`; `flip` says whether
    /// the subtree is seen through an odd number of pending reversals.
    fn collect(node: &Link<T>, flip: bool, out: &mut Vec<T>)
        where
            T: Clone,
        requires
            link_wf(*node),
        ensures
            final(out)@.len() == old(out)@.len() + link_elems(*node).len(),
            final(out)@.take(old(out)@.len() as int) == old(out)@,
            forall|k: int|
                0 <= k < link_elems(*node).len() ==> cloned(
                    oriented(link_elems(*node), flip)[k],
                    #[trigger] final(out)@[old(out)@.len() + k],
                ),
        decreases link_elems(*node).len(),
    {
        match node {
            None => {
                assert(out@.take(out@.len() as int) =~= out@);
            },
            Some(n) => {
                proof {
                    n.lemma_elems_len();
                }
                let ghost start = out@;
                let f = flip != n.rev;
                let ghost target = oriented(n.unreversed(), f);
                proof {
                    lemma_reverse_reverse(n.unreversed());
                    assert(oriented(n.elems(), flip) == target);
                    lemma_oriented_split(link_elems(n.left), n.value, link_elems(n.right), f);
                }
                let (first, second) = if f {
                    (&n.right, &n.left)
                } else {
                    (&n.left, &n.right)
                };
                Self::collect(first, f, out);
                let ghost mid1 = out@;
                let v = n.value.clone();
                out.push(v);
                let ghost mid2 = out@;
                Self::collect(second, f, out);
                proof {
                    let a = oriented(link_elems(*first), f);
                    let b = oriented(link_elems(*second), f);
                    assert(target =~= a + seq![n.value] + b);
                    assert(out@.take(start.len() as int) =~= start) by {
                        assert(mid1.take(start.len() as int) =~= start);
                        assert forall|k: int| 0 <= k < start.len() implies out@[k] == start[k] by {
                            assert(out@.take(mid2.len() as int)[k] == mid2[k]);
                            assert(mid1[k] == mid1.take(start.len() as int)[k]);
                        }
                    }
                    assert forall|k: int| 0 <= k < target.len() implies cloned(
                        target[k],
                        #[trigger] out@[start.len() + k],
                    ) by {
                        if k < a.len() {
                            assert(out@[start.len() + k] == out@.take(mid2.len() as int)[start.len() + k]);
                            assert(mid2[start.len() + k] == mid1[start.len() + k]);
                        } else if k == a.len() {
                            assert(out@[start.len() + k] == out@.take(mid2.len() as int)[start.len() + k]);
                        } else {
                            let j = k - a.len() - 1;
                            assert(out@[mid2.len() + j] == out@[start.len() + k]);
                        }
                    }
                }
            },
        }
    }

    /// Moves the subtree's elements onto the end of `out`.
    fn collect_into(node: Box<Self>, flip: bool, out: &mut Vec<T>)
        requires
            node.wf(),
        ensures
            final(out)@ == old(out)@ + oriented(node.elems(), flip),
        decreases node.elems().len(),
    {
        proof {
            node.lemma_elems_len();
            lemma_reverse_reverse(node.unreversed());
            lemma_oriented_split(link_elems(node.left), node.value, link_elems(node.right), flip != node.rev);
        }
        let ghost full = oriented(node.elems(), flip);
        let f = flip != node.rev;
        let Node { value, left, right, .. } = *node;
        let ghost start = out@;
        let (first, second) = if f {
            (right, left)
        } else {
            (left, right)
        };
        if let Some(child) = first {
            Self::collect_into(child, f, out);
        }
        out.push(value);
        if let Some(child) = second {
            Self::collect_into(child, f, out);
        }
        proof {
            assert(out@ =~= start + full);
        }
    }
}

/// The mixing step of the SplitMix64 generator.
pub open spec fn splitmix_mix(state: u64) -> u64 {
    let v1 = (state ^ (state >> 30u64)).wrapping_mul(0xbf58_476d_1ce4_e5b9u64);
    let v2 = (v1 ^ (v1 >> 27u64)).wrapping_mul(0x94d0_49bb_1331_11ebu64);
    v2 ^ (v2 >> 31u64)
}

/// The increment by which the SplitMix64 state advances.
pub const SPLITMIX_GAMMA: u64 = 0x9e37_79b9_7f4a_7c15;

/// A sequence stored in a treap keyed by position, supporting insertion,
/// removal and lazy reversal of half-open ranges `[l, r)`.
pub struct ImplicitTreap<T> {
    root: Link<T>,
    seed: u64,
}

impl<T> View for ImplicitTreap<T> {
    type V = Seq<T>;

    closed spec fn view(&self) -> Seq<T> {
        link_elems(self.root)
    }
}

impl<T> ImplicitTreap<T> {
    const DEFAULT_SEED: u64 = 0x9e37_79b9_7f4a_7c15;

    /// The internal tree is consistent (every stored size is right).
    pub closed spec fn wf(&self) -> bool {
        link_wf(self.root)
    }

    /// The state of the priority generator.
    pub closed spec fn seed_state(&self) -> u64 {
        self.seed
    }

    /// Creates an empty sequence with the default seed.
    pub fn new() -> (t: Self)
        ensures
            t.wf(),
            t@ == Seq::<T>::empty(),
            t.seed_state() == 0x9e37_79b9_7f4a_7c15u64,
    {
        Self::with_seed(Self::DEFAULT_SEED)
    }

    /// Creates an empty sequence whose priority generator starts from `seed`.
    pub fn with_seed(seed: u64) -> (t: Self)
        ensures
            t.wf(),
            t@ == Seq::<T>::empty(),
            t.seed_state() == seed,
    {
        ImplicitTreap { root: None, seed }
    }

    /// Builds a sequence holding `values` in order.
    pub fn from_vec(values: Vec<T>) -> (t: Self)
        ensures
            t.wf(),
            t@ == values@,
    {
        let mut treap = Self::new();
        let mut values = values;
        let ghost all = values@;
        let total = values.len();
        let mut rest: Vec<T> = Vec::new();
        // Take the values from the back so that each move is constant time.
        while values.len() > 0
            invariant
                treap.wf(),
                treap@ == Seq::<T>::empty(),
                all == values@ + rest@.reverse(),
                all.len() == total,
            decreases values.len(),
        {
            let v = values.pop().unwrap();
            let ghost before = rest@;
            rest.push(v);
            proof {
                assert(rest@.reverse() =~= seq![v] + before.reverse());
            }
        }
        let mut k = rest.len();
        while k > 0
            invariant
                treap.wf(),
                k == rest.len(),
                all == treap@ + rest@.reverse(),
                all.len() == total,
            decreases k,
        {
            let v = rest.pop().unwrap();
            let ghost before = treap@;
            let ghost rest_before = rest@;
            treap.push_back(v);
            proof {
                assert((rest_before.push(v)).reverse() =~= seq![v] + rest_before.reverse());
                assert(all =~= treap@ + rest@.reverse());
            }
            k -= 1;
        }
        proof {
            assert(rest@.reverse() =~= Seq::<T>::empty());
            assert(all =~= treap@);
        }
        treap
    }

    /// Number of elements.
    pub fn len(&self) -> (r: usize)
        requires
            self.wf(),
        ensures
            r == self@.len(),
    {
        Node::size(&self.root)
    }

    /// Whether the sequence has no elements.
    pub fn is_empty(&self) -> (r: bool)
        requires
            self.wf(),
        ensures
            r == (self@.len() == 0),
    {
        proof {
            if self.root is Some {
                self.root.unwrap().lemma_elems_len();
            }
        }
        self.root.is_none()
    }

    /// Inserts `value` at the front.
    pub fn push_front(&mut self, value: T)
        requires
            old(self).wf(),
            old(self)@.len() < usize::MAX,
        ensures
            final(self).wf(),
            final(self)@ == seq![value] + old(self)@,
    {
        self.insert(0, value);
        proof {
            assert(old(self)@.insert(0, value) =~= seq![value] + old(self)@);
        }
    }

    /// Inserts `value` at the back.
    pub fn push_back(&mut self, value: T)
        requires
            old(self).wf(),
            old(self)@.len() < usize::MAX,
        ensures
            final(self).wf(),
            final(self)@ == old(self)@.push(value),
    {
        let n = self.len();
        self.insert(n, value);
        proof {
            assert(old(self)@.insert(n as int, value) =~= old(self)@.push(value));
        }
    }

    /// Inserts `value` so that it ends up at position `index`.
    pub fn insert(&mut self, index: usize, value: T)
        requires
            old(self).wf(),
            index <= old(self)@.len(),
            old(self)@.len() < usize::MAX,
        ensures
            final(self).wf(),
            final(self)@ == old(self)@.insert(index as int, value),
            final(self).seed_state() == old(self).seed_state().wrapping_add(SPLITMIX_GAMMA),
    {
        let priority = self.next_priority();
        let node = Some(Box::new(Node::new(value, priority)));
        let (left, right) = Node::split(self.root.take(), index);
        let lm = Node::merge(left, node);
        self.root = Node::merge(lm, right);
        proof {
            assert(self@ =~= old(self)@.insert(index as int, value));
        }
    }

    /// Removes and returns the element at `index`, or returns `None` (and
    /// changes nothing) when `index` is out of range.
    pub fn remove(&mut self, index: usize) -> (r: Option<T>)
        requires
            old(self).wf(),
        ensures
            final(self).wf(),
            index < old(self)@.len() ==> r == Some(old(self)@[index as int]) && final(self)@
                == old(self)@.remove(index as int),
            index >= old(self)@.len() ==> r is None && final(self)@ == old(self)@,
            final(self).seed_state() == old(self).seed_state(),
    {
        if index >= self.len() {
            return None;
        }
        let (left, rest) = Node::split(self.root.take(), index);
        let (middle, right) = Node::split(rest, 1);
        self.root = Node::merge(left, right);
        proof {
            assert(old(self)@ =~= link_elems(left) + link_elems(middle) + link_elems(right));
            assert(self@ =~= old(self)@.remove(index as int));
        }
        match middle {
            Some(node) => {
                proof {
                    node.lemma_elems_len();
                    assert(link_elems(left).len() == index);
                    assert(node.elems()[0] == old(self)@[index as int]);
                    assert(link_elems(node.left).len() == 0);
                    assert(node.unreversed() =~= seq![node.value]);
                    assert(node.elems()[0] == node.value);
                }
                let Node { value, .. } = *node;
                Some(value)
            },
            None => None,
        }
    }

    /// Returns the element at `index`, or `None` when `index` is out of range.
    pub fn get(&mut self, index: usize) -> (r: Option<&T>)
        requires
            old(self).wf(),
        ensures
            final(self).wf(),
            final(self)@ == old(self)@,
            final(self).seed_state() == old(self).seed_state(),
            index < old(self)@.len() ==> r == Some(&old(self)@[index as int]),
            index >= old(self)@.len() ==> r is None,
    {
        if index >= self.len() {
            return None;
        }
        Node::get(&self.root, index)
    }

    /// Returns a mutable reference to the element at `index`, or `None` when
    /// `index` is out of range.
    pub fn get_mut(&mut self, index: usize) -> (r: Option<&mut T>)
        requires
            old(self).wf(),
        ensures
            final(self).seed_state() == old(self).seed_state(),
            index < old(self)@.len() ==> {
                &&& r is Some
                &&& *r.unwrap() == old(self)@[index as int]
                &&& final(self).wf()
                &&& final(self)@ == old(self)@.update(index as int, *final(r.unwrap()))
            },
            index >= old(self)@.len() ==> r is None && final(self).wf() && final(self)@ == old(
                self,
            )@,
    {
        if index >= self.len() {
            return None;
        }
        Node::get_mut(&mut self.root, index)
    }

    /// Replaces the element at `index` and returns `true`, or returns `false`
    /// (changing nothing) when `index` is out of range.
    pub fn set(&mut self, index: usize, value: T) -> (r: bool)
        requires
            old(self).wf(),
        ensures
            final(self).wf(),
            r == (index < old(self)@.len()),
            r ==> final(self)@ == old(self)@.update(index as int, value),
            !r ==> final(self)@ == old(self)@,
            final(self).seed_state() == old(self).seed_state(),
    {
        if let Some(current) = self.get_mut(index) {
            *current = value;
            true
        } else {
            false
        }
    }

    /// Reverses the half-open range `[left, right)`.
    #[verifier::rlimit(30)]
    pub fn reverse(&mut self, left: usize, right: usize)
        requires
            old(self).wf(),
            left <= right <= old(self)@.len(),
        ensures
            final(self).wf(),
            final(self)@ == reverse_range(old(self)@, left as int, right as int),
            final(self).seed_state() == old(self).seed_state(),
    {
        if left == right {
            proof {
                assert(reverse_range(old(self)@, left as int, right as int) =~= old(self)@);
            }
            return;
        }
        let (prefix, rest) = Node::split(self.root.take(), left);
        let (mut middle, suffix) = Node::split(rest, right - left);
        let ghost p = link_elems(prefix);
        let ghost m = link_elems(middle);
        let ghost q = link_elems(suffix);
        proof {
            assert(old(self)@ =~= p + m + q);
            assert(p =~= old(self)@.take(left as int));
            assert(m =~= old(self)@.subrange(left as int, right as int));
            assert(q =~= old(self)@.skip(right as int));
        }
        Node::toggle(&mut middle);
        let tail = Node::merge(middle, suffix);
        self.root = Node::merge(prefix, tail);
        proof {
            assert(link_elems(tail) == m.reverse() + q);
            assert(self@ == p + (m.reverse() + q));
            assert(self@ =~= reverse_range(old(self)@, left as int, right as int));
        }
    }

    /// Removes every element.
    pub fn clear(&mut self)
        ensures
            final(self).wf(),
            final(self)@ == Seq::<T>::empty(),
            final(self).seed_state() == old(self).seed_state(),
    {
        self.root = None;
    }

    /// Returns clones of the elements, in order.
    pub fn to_vec(&mut self) -> (r: Vec<T>)
        where
            T: Clone,
        requires
            old(self).wf(),
        ensures
            final(self).wf(),
            final(self)@ == old(self)@,
            final(self).seed_state() == old(self).seed_state(),
            r@.len() == old(self)@.len(),
            forall|k: int| 0 <= k < r@.len() ==> cloned(old(self)@[k], #[trigger] r@[k]),
    {
        let mut values = Vec::with_capacity(self.len());
        Node::collect(&self.root, false, &mut values);
        proof {
            assert forall|k: int| 0 <= k < values@.len() implies cloned(
                old(self)@[k],
                #[trigger] values@[k],
            ) by {
                assert(values@[0 + k] == values@[k]);
            }
        }
        values
    }

    /// Consumes the treap and returns its elements in order.
    pub fn into_vec(self) -> (r: Vec<T>)
        requires
            self.wf(),
        ensures
            r@ == self@,
    {
        let mut values = Vec::with_capacity(Node::size(&self.root));
        let ghost start = values@;
        if let Some(root) = self.root {
            Node::collect_into(root, false, &mut values);
        }
        proof {
            assert(values@ =~= self@);
        }
        values
    }

    fn next_priority(&mut self) -> (r: u64)
        ensures
            final(self).seed == old(self).seed.wrapping_add(SPLITMIX_GAMMA),
            r == splitmix_mix(final(self).seed),
            final(self).root == old(self).root,
    {
        self.seed = self.seed.wrapping_add(SPLITMIX_GAMMA);
        let mut value = self.seed;
        value = (value ^ (value >> 30)).wrapping_mul(0xbf58_476d_1ce4_e5b9);
        value = (value ^ (value >> 27)).wrapping_mul(0x94d0_49bb_1331_11eb);
        value ^ (value >> 31)
    }
}

/// Builds a sequence holding `values` in order; see [`ImplicitTreap::from_vec`].
impl<T> From<Vec<T>> for ImplicitTreap<T> {
    fn from(values: Vec<T>) -> (t: Self)
        ensures
            t.wf(),
            t@ == values@,
    {
        Self::from_vec(values)
    }
}

/// The treap's shape depends on its random priorities, so no spec value
/// stands for the result of `from`; what it holds is stated on `from` itself.
impl<T> vstd::std_specs::convert::FromSpecImpl<Vec<T>> for ImplicitTreap<T> {
    open spec fn obeys_from_spec() -> bool {
        false
    }

    open spec fn from_spec(v: Vec<T>) -> Self {
        vstd::pervasive::arbitrary()
    }
}

impl<T> Default for ImplicitTreap<T> {
    fn default() -> (t: Self)
        ensures
            t.wf(),
            t@ == Seq::<T>::empty(),
    {
        Self::new()
    }
}

/// Reversing the same range twice gives back the sequence.
pub proof fn lemma_reverse_range_twice<A>(s: Seq<A>, l: int, r: int)
    requires
        0 <= l <= r <= s.len(),
    ensures
        reverse_range(reverse_range(s, l, r), l, r) == s,
{
    let once = reverse_range(s, l, r);
    assert(once.subrange(l, r) =~= s.subrange(l, r).reverse());
    lemma_reverse_reverse(s.subrange(l, r));
    assert(reverse_range(once, l, r) =~= s);
}

/// Removing an element right after inserting it at the same index gives back
/// the same sequence.
pub proof fn lemma_insert_then_remove<A>(s: Seq<A>, index: int, value: A)
    requires
        0 <= index <= s.len(),
    ensures
        s.insert(index, value).remove(index) == s,
        s.insert(index, value)[index] == value,
{
    assert(s.insert(index, value).remove(index) =~= s);
}

/// `s` with its half-open range `[l, r)` reversed.
pub open spec fn reverse_range<A>(s: Seq<A>, l: int, r: int) -> Seq<A> {
    s.take(l) + s.subrange(l, r).reverse() + s.skip(r)
}

} // verus!
