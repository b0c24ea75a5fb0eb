//! A randomized balanced sequence supporting lazy range updates and reversal.
use crate::data_structure::implicit_treap::reverse_range;
use vstd::prelude::*;

verus! {

/// Algebraic operations used by [`LazyReversibleRbst`].
///
/// `Value` forms a monoid under `identity` and `combine`, and `Action` acts
/// on values and on products of `len` values through `apply`.  The proof
/// functions are the laws an implementation has to establish.
pub trait LazyReversibleRbstSpec {
    type Value: Clone;

    type Action: Clone;

    /// The identity element of the value monoid.
    spec fn identity_spec() -> Self::Value;

    /// The product of two adjacent products, left to right.
    spec fn combine_spec(left: Self::Value, right: Self::Value) -> Self::Value;

    /// `action` applied to a product standing for `len` elements.
    spec fn apply_spec(action: Self::Action, value: Self::Value, len: nat) -> Self::Value;

    /// The action "`old`, then `new`".
    spec fn compose_spec(new: Self::Action, old: Self::Action) -> Self::Action;

    /// `combine` is associative.
    proof fn lemma_combine_associative(a: Self::Value, b: Self::Value, c: Self::Value)
        ensures
            Self::combine_spec(Self::combine_spec(a, b), c) == Self::combine_spec(
                a,
                Self::combine_spec(b, c),
            ),
    ;

    /// `identity` is a left and right identity of `combine`.
    proof fn lemma_identity(a: Self::Value)
        ensures
            Self::combine_spec(Self::identity_spec(), a) == a,
            Self::combine_spec(a, Self::identity_spec()) == a,
    ;

    /// Applying an action to a product equals combining the applied parts.
    proof fn lemma_apply_distributes(
        action: Self::Action,
        x: Self::Value,
        y: Self::Value,
        x_len: nat,
        y_len: nat,
    )
        ensures
            Self::apply_spec(action, Self::combine_spec(x, y), x_len + y_len)
                == Self::combine_spec(
                Self::apply_spec(action, x, x_len),
                Self::apply_spec(action, y, y_len),
            ),
    ;

    /// Applying a composed action equals applying `old` and then `new`.
    proof fn lemma_apply_compose(new: Self::Action, old: Self::Action, x: Self::Value, len: nat)
        ensures
            Self::apply_spec(Self::compose_spec(new, old), x, len) == Self::apply_spec(
                new,
                Self::apply_spec(old, x, len),
                len,
            ),
    ;

    /// Cloning a value yields the same value.
    proof fn lemma_value_clone(a: Self::Value, b: Self::Value)
        requires
            call_ensures(Self::Value::clone, (&a,), b),
        ensures
            a == b,
    ;

    /// Cloning an action yields the same action.
    proof fn lemma_action_clone(a: Self::Action, b: Self::Action)
        requires
            call_ensures(Self::Action::clone, (&a,), b),
        ensures
            a == b,
    ;

    /// Returns the identity element of the value monoid.
    fn identity() -> (r: Self::Value)
        ensures
            r == Self::identity_spec(),
    ;

    /// Combines two adjacent products in left-to-right order.
    fn combine(left: &Self::Value, right: &Self::Value) -> (r: Self::Value)
        ensures
            r == Self::combine_spec(*left, *right),
    ;

    /// Applies `action` to a product representing `len` elements.
    fn apply(action: &Self::Action, value: &Self::Value, len: usize) -> (r: Self::Value)
        ensures
            r == Self::apply_spec(*action, *value, len as nat),
    ;

    /// Composes actions in chronological order: `new` after `old`.
    fn compose(new: &Self::Action, old: &Self::Action) -> (r: Self::Action)
        ensures
            r == Self::compose_spec(*new, *old),
    ;
}

/// The product of a sequence, folded from the left starting at the identity.
pub open spec fn product_of<S: LazyReversibleRbstSpec>(s: Seq<S::Value>) -> S::Value
    decreases s.len(),
{
    if s.len() == 0 {
        S::identity_spec()
    } else {
        S::combine_spec(product_of::<S>(s.drop_last()), s.last())
    }
}

/// Every element of `s` with `action` applied to it.
pub open spec fn act_each<S: LazyReversibleRbstSpec>(action: S::Action, s: Seq<S::Value>) -> Seq<
    S::Value,
> {
    s.map_values(|v: S::Value| S::apply_spec(action, v, 1))
}

/// `s` with its half-open range `[l, r)` acted on by `action`.
pub open spec fn act_range<S: LazyReversibleRbstSpec>(
    s: Seq<S::Value>,
    l: int,
    r: int,
    action: S::Action,
) -> Seq<S::Value> {
    s.take(l) + act_each::<S>(action, s.subrange(l, r)) + s.skip(r)
}

/// Splitting a sequence at `index` and appending the two parts gives it
/// back: `split_off` followed by `append` restores the sequence.
pub proof fn lemma_split_then_append<A>(s: Seq<A>, index: int)
    requires
        0 <= index <= s.len(),
    ensures
        s.take(index) + s.skip(index) == s,
{
    assert(s.take(index) + s.skip(index) =~= s);
}

/// The product of a concatenation is the combination of the products.
pub proof fn lemma_product_concat<S: LazyReversibleRbstSpec>(a: Seq<S::Value>, b: Seq<S::Value>)
    ensures
        product_of::<S>(a + b) == S::combine_spec(product_of::<S>(a), product_of::<S>(b)),
    decreases b.len(),
{
    if b.len() == 0 {
        assert(a + b =~= a);
        S::lemma_identity(product_of::<S>(a));
    } else {
        lemma_product_concat::<S>(a, b.drop_last());
        assert((a + b).drop_last() =~= a + b.drop_last());
        assert((a + b).last() == b.last());
        S::lemma_combine_associative(
            product_of::<S>(a),
            product_of::<S>(b.drop_last()),
            b.last(),
        );
    }
}

/// The product of a sequence of one element is that element.
pub proof fn lemma_product_single<S: LazyReversibleRbstSpec>(v: S::Value)
    ensures
        product_of::<S>(seq![v]) == v,
{
    assert(seq![v].drop_last() =~= Seq::<S::Value>::empty());
    assert(product_of::<S>(Seq::<S::Value>::empty()) == S::identity_spec());
    assert(seq![v].last() == v);
    S::lemma_identity(v);
}

/// Acting on every element of a non-empty sequence acts on its product.
pub proof fn lemma_product_act<S: LazyReversibleRbstSpec>(action: S::Action, s: Seq<S::Value>)
    requires
        s.len() > 0,
    ensures
        product_of::<S>(act_each::<S>(action, s)) == S::apply_spec(
            action,
            product_of::<S>(s),
            s.len(),
        ),
    decreases s.len(),
{
    let m = act_each::<S>(action, s);
    assert(m.drop_last() =~= act_each::<S>(action, s.drop_last()));
    if s.len() == 1 {
        assert(s.drop_last() =~= Seq::<S::Value>::empty());
        assert(m.drop_last() =~= Seq::<S::Value>::empty());
        assert(product_of::<S>(Seq::<S::Value>::empty()) == S::identity_spec());
        S::lemma_identity(s.last());
        S::lemma_identity(m.last());
        assert(m.last() == S::apply_spec(action, s.last(), 1));
    } else {
        lemma_product_act::<S>(action, s.drop_last());
        S::lemma_apply_distributes(
            action,
            product_of::<S>(s.drop_last()),
            s.last(),
            (s.len() - 1) as nat,
            1,
        );
    }
}

proof fn lemma_act_reverse<S: LazyReversibleRbstSpec>(action: S::Action, s: Seq<S::Value>)
    ensures
        act_each::<S>(action, s.reverse()) == act_each::<S>(action, s).reverse(),
{
    assert(act_each::<S>(action, s.reverse()) =~= act_each::<S>(action, s).reverse());
}

proof fn lemma_act_concat<S: LazyReversibleRbstSpec>(
    action: S::Action,
    a: Seq<S::Value>,
    b: Seq<S::Value>,
)
    ensures
        act_each::<S>(action, a + b) == act_each::<S>(action, a) + act_each::<S>(action, b),
{
    assert(act_each::<S>(action, a + b) =~= act_each::<S>(action, a) + act_each::<S>(action, b));
}

proof fn lemma_act_compose<S: LazyReversibleRbstSpec>(
    new: S::Action,
    old: S::Action,
    s: Seq<S::Value>,
)
    ensures
        act_each::<S>(S::compose_spec(new, old), s) == act_each::<S>(
            new,
            act_each::<S>(old, s),
        ),
{
    assert forall|i: int| 0 <= i < s.len() implies #[trigger] act_each::<S>(
        S::compose_spec(new, old),
        s,
    )[i] == act_each::<S>(new, act_each::<S>(old, s))[i] by {
        S::lemma_apply_compose(new, old, s[i], 1);
    }
    assert(act_each::<S>(S::compose_spec(new, old), s) =~= act_each::<S>(
        new,
        act_each::<S>(old, s),
    ));
}

proof fn lemma_reverse_concat<A>(a: Seq<A>, b: Seq<A>)
    ensures
        (a + b).reverse() == b.reverse() + a.reverse(),
{
    assert((a + b).reverse() =~= b.reverse() + a.reverse());
}

proof fn lemma_reverse_reverse<A>(a: Seq<A>)
    ensures
        a.reverse().reverse() == a,
        a.reverse().len() == a.len(),
{
    assert(a.reverse().reverse() =~= a);
}

proof fn lemma_reverse_three<A>(a: Seq<A>, v: A, b: Seq<A>)
    ensures
        (a + seq![v] + b).reverse() == b.reverse() + seq![v] + a.reverse(),
{
    lemma_reverse_concat(a + seq![v], b);
    lemma_reverse_concat(a, seq![v]);
    assert(seq![v].reverse() =~= seq![v]);
}

type Link<S> = Option<Box<Node<S>>>;

struct Node<S> where S: LazyReversibleRbstSpec {
    value: S::Value,
    product: S::Value,
    reverse_product: S::Value,
    lazy: Option<S::Action>,
    size: usize,
    reversed: bool,
    left: Link<S>,
    right: Link<S>,
}

/// The sequence a subtree stands for, with everything pending applied.
spec fn link_elems<S: LazyReversibleRbstSpec>(link: Link<S>) -> Seq<S::Value>
    decreases link,
{
    match link {
        None => Seq::empty(),
        Some(node) => node.elems(),
    }
}

spec fn link_wf<S: LazyReversibleRbstSpec>(link: Link<S>) -> bool
    decreases link,
{
    match link {
        None => true,
        Some(node) => node.wf(),
    }
}

/// `s` read forwards, or backwards when `flip` holds.
spec fn oriented<A>(s: Seq<A>, flip: bool) -> Seq<A> {
    if flip {
        s.reverse()
    } else {
        s
    }
}

/// `s` acted on by `lazy` when there is a pending action.
spec fn act_lazy<S: LazyReversibleRbstSpec>(lazy: Option<S::Action>, s: Seq<S::Value>) -> Seq<
    S::Value,
> {
    match lazy {
        None => s,
        Some(a) => act_each::<S>(a, s),
    }
}

proof fn lemma_act_lazy_reverse<S: LazyReversibleRbstSpec>(
    lazy: Option<S::Action>,
    s: Seq<S::Value>,
)
    ensures
        act_lazy::<S>(lazy, s.reverse()) == act_lazy::<S>(lazy, s).reverse(),
        act_lazy::<S>(lazy, s).len() == s.len(),
{
    if let Some(a) = lazy {
        lemma_act_reverse::<S>(a, s);
    }
}

impl<S> Node<S> where S: LazyReversibleRbstSpec {
    /// What a child contributes to this node's sequence.
    spec fn pending(self, child: Link<S>) -> Seq<S::Value> {
        act_lazy::<S>(self.lazy, oriented(link_elems(child), self.reversed))
    }

    spec fn elems(self) -> Seq<S::Value>
        decreases self,
    {
        act_lazy::<S>(self.lazy, oriented(link_elems(self.left), self.reversed)) + seq![self.value]
            + act_lazy::<S>(self.lazy, oriented(link_elems(self.right), self.reversed))
    }

    spec fn wf(self) -> bool
        decreases self,
    {
        &&& link_wf(self.left)
        &&& link_wf(self.right)
        &&& self.size as int == link_elems(self.left).len() + 1 + link_elems(self.right).len()
        &&& self.product == product_of::<S>(self.elems())
        &&& self.reverse_product == product_of::<S>(self.elems().reverse())
    }

    proof fn lemma_elems(self)
        ensures
            self.elems() == self.pending(self.left) + seq![self.value] + self.pending(self.right),
            self.pending(self.left).len() == link_elems(self.left).len(),
            self.pending(self.right).len() == link_elems(self.right).len(),
            self.elems().len() == link_elems(self.left).len() + 1 + link_elems(self.right).len(),
    {
        lemma_reverse_reverse(link_elems(self.left));
        lemma_reverse_reverse(link_elems(self.right));
        lemma_act_lazy_reverse::<S>(self.lazy, link_elems(self.left));
        lemma_act_lazy_reverse::<S>(self.lazy, link_elems(self.right));
    }

    fn new(value: S::Value) -> (node: Self)
        ensures
            node.wf(),
            node.elems() == seq![value],
            node.lazy is None,
            !node.reversed,
    {
        let product = S::combine(&S::identity(), &value);
        let reverse_product = S::combine(&S::identity(), &value);
        let node = Node {
            value,
            product,
            reverse_product,
            lazy: None,
            size: 1,
            reversed: false,
            left: None,
            right: None,
        };
        proof {
            assert(node.elems() =~= seq![value]);
            assert(seq![value].reverse() =~= seq![value]);
            assert(seq![value].drop_last() =~= Seq::<S::Value>::empty());
            assert(product_of::<S>(Seq::<S::Value>::empty()) == S::identity_spec());
        }
        node
    }

    fn size(node: &Link<S>) -> (r: usize)
        requires
            link_wf(*node),
        ensures
            r == link_elems(*node).len(),
    {
        match node {
            Some(n) => {
                proof {
                    n.lemma_elems();
                }
                n.size
            },
            None => 0,
        }
    }

    fn product(node: &Link<S>) -> (r: S::Value)
        requires
            link_wf(*node),
        ensures
            r == product_of::<S>(link_elems(*node)),
    {
        match node {
            Some(n) => {
                let r = S::combine(&n.product, &S::identity());
                proof {
                    S::lemma_identity(n.product);
                }
                r
            },
            None => S::identity(),
        }
    }

    fn reverse_product(node: &Link<S>) -> (r: S::Value)
        requires
            link_wf(*node),
        ensures
            r == product_of::<S>(link_elems(*node).reverse()),
    {
        match node {
            Some(n) => {
                let r = S::combine(&n.reverse_product, &S::identity());
                proof {
                    S::lemma_identity(n.reverse_product);
                }
                r
            },
            None => {
                assert(Seq::<S::Value>::empty().reverse() =~= Seq::<S::Value>::empty());
                S::identity()
            },
        }
    }

    /// Recomputes the size and products of a node whose pending work has
    /// been pushed to its children.
    fn update(node: &mut Box<Self>)
        requires
            link_wf(old(node).left),
            link_wf(old(node).right),
            old(node).lazy is None,
            !old(node).reversed,
            link_elems(old(node).left).len() + 1 + link_elems(old(node).right).len() <= usize::MAX,
        ensures
            final(node).wf(),
            final(node).elems() == old(node).elems(),
            final(node).value == old(node).value,
            final(node).left == old(node).left,
            final(node).right == old(node).right,
            final(node).lazy is None,
            !final(node).reversed,
    {
        let l = Self::size(&node.left);
        let r = Self::size(&node.right);
        node.size = 1 + l + r;
        let left_product = Self::product(&node.left);
        let right_product = Self::product(&node.right);
        node.product = S::combine(&S::combine(&left_product, &node.value), &right_product);
        let right_reverse_product = Self::reverse_product(&node.right);
        let left_reverse_product = Self::reverse_product(&node.left);
        node.reverse_product = S::combine(
            &S::combine(&right_reverse_product, &node.value),
            &left_reverse_product,
        );
        proof {
            let le = link_elems(node.left);
            let re = link_elems(node.right);
            let v = node.value;
            assert(node.elems() =~= le + seq![v] + re);
            lemma_product_concat::<S>(le + seq![v], re);
            lemma_product_concat::<S>(le, seq![v]);
            lemma_product_single::<S>(v);
            lemma_reverse_three(le, v, re);
            lemma_product_concat::<S>(re.reverse() + seq![v], le.reverse());
            lemma_product_concat::<S>(re.reverse(), seq![v]);
        }
    }

    fn apply_action(node: &mut Link<S>, action: &S::Action)
        requires
            link_wf(*old(node)),
        ensures
            link_wf(*final(node)),
            link_elems(*final(node)) == act_each::<S>(*action, link_elems(*old(node))),
    {
        match node {
            None => {
                assert(act_each::<S>(*action, Seq::<S::Value>::empty()) =~= Seq::<
                    S::Value,
                >::empty());
            },
            Some(n) => {
                proof {
                    n.lemma_elems();
                }
                let ghost old_n = **n;
                let ghost pl = old_n.pending(old_n.left);
                let ghost pr = old_n.pending(old_n.right);
                n.value = S::apply(action, &n.value, 1);
                n.product = S::apply(action, &n.product, n.size);
                n.reverse_product = S::apply(action, &n.reverse_product, n.size);
                let old_lazy = n.lazy.take();
                let ghost old_lazy_g = old_lazy;
                let new_lazy = match old_lazy {
                    Some(old) => S::compose(action, &old),
                    None => {
                        let c = action.clone();
                        proof {
                            S::lemma_action_clone(*action, c);
                        }
                        c
                    },
                };
                n.lazy = Some(new_lazy);
                proof {
                    n.lemma_elems();
                    let a = *action;
                    let v = old_n.value;
                    match old_lazy_g {
                        Some(old) => {
                            lemma_act_compose::<S>(a, old, oriented(link_elems(old_n.left), old_n.reversed));
                            lemma_act_compose::<S>(a, old, oriented(link_elems(old_n.right), old_n.reversed));
                        },
                        None => {},
                    }
                    assert(n.pending(n.left) == act_each::<S>(a, pl));
                    assert(n.pending(n.right) == act_each::<S>(a, pr));
                    lemma_act_concat::<S>(a, pl + seq![v], pr);
                    lemma_act_concat::<S>(a, pl, seq![v]);
                    assert(act_each::<S>(a, seq![v]) =~= seq![S::apply_spec(a, v, 1)]);
                    assert(n.elems() == act_each::<S>(a, old_n.elems()));
                    lemma_product_act::<S>(a, old_n.elems());
                    lemma_reverse_reverse(old_n.elems());
                    lemma_product_act::<S>(a, old_n.elems().reverse());
                    lemma_act_reverse::<S>(a, old_n.elems());
                }
            },
        }
    }

    fn toggle(node: &mut Link<S>)
        requires
            link_wf(*old(node)),
        ensures
            link_wf(*final(node)),
            link_elems(*final(node)) == link_elems(*old(node)).reverse(),
    {
        match node {
            None => {
                assert(Seq::<S::Value>::empty().reverse() =~= Seq::<S::Value>::empty());
            },
            Some(n) => {
                proof {
                    n.lemma_elems();
                }
                let ghost old_n = **n;
                std::mem::swap(&mut n.left, &mut n.right);
                std::mem::swap(&mut n.product, &mut n.reverse_product);
                n.reversed = !n.reversed;
                proof {
                    n.lemma_elems();
                    lemma_reverse_reverse(link_elems(old_n.left));
                    lemma_reverse_reverse(link_elems(old_n.right));
                    lemma_act_lazy_reverse::<S>(old_n.lazy, oriented(link_elems(old_n.left), old_n.reversed));
                    lemma_act_lazy_reverse::<S>(old_n.lazy, oriented(link_elems(old_n.right), old_n.reversed));
                    assert(oriented(link_elems(old_n.left), n.reversed) == oriented(link_elems(old_n.left), old_n.reversed).reverse());
                    assert(oriented(link_elems(old_n.right), n.reversed) == oriented(link_elems(old_n.right), old_n.reversed).reverse());
                    lemma_reverse_three(old_n.pending(old_n.left), old_n.value, old_n.pending(old_n.right));
                    lemma_reverse_reverse(old_n.elems());
                }
            },
        }
    }

    /// Hands the pending reversal and action of a node down to its children.
    fn push(node: &mut Box<Self>)
        requires
            old(node).wf(),
        ensures
            final(node).wf(),
            final(node).elems() == old(node).elems(),
            final(node).lazy is None,
            !final(node).reversed,
            final(node).value == old(node).value,
            final(node).size == old(node).size,
    {
        proof {
            node.lemma_elems();
        }
        let ghost old_n = **node;
        if node.reversed {
            Self::toggle(&mut node.left);
            Self::toggle(&mut node.right);
            node.reversed = false;
        }
        let ghost mid = **node;
        proof {
            mid.lemma_elems();
            assert(mid.pending(mid.left) == old_n.pending(old_n.left));
            assert(mid.pending(mid.right) == old_n.pending(old_n.right));
        }
        if let Some(action) = node.lazy.take() {
            Self::apply_action(&mut node.left, &action);
            Self::apply_action(&mut node.right, &action);
        }
        proof {
            node.lemma_elems();
            assert(node.elems() == old_n.elems());
        }
    }

    #[verifier::rlimit(40)]
    fn merge(left: Link<S>, right: Link<S>, random: &mut Random) -> (res: Link<S>)
        requires
            link_wf(left),
            link_wf(right),
            link_elems(left).len() + link_elems(right).len() <= usize::MAX,
        ensures
            link_wf(res),
            link_elems(res) == link_elems(left) + link_elems(right),
        decreases link_elems(left).len() + link_elems(right).len(),
    {
        match (left, right) {
            (None, right) => {
                assert(link_elems::<S>(None) + link_elems(right) =~= link_elems(right));
                right
            },
            (left, None) => {
                assert(link_elems(left) + link_elems::<S>(None) =~= link_elems(left));
                left
            },
            (Some(mut l), Some(mut r)) => {
                proof {
                    l.lemma_elems();
                    r.lemma_elems();
                }
                let left_size = l.size;
                let total_size = left_size + r.size;
                if random.index(total_size) < left_size {
                    Self::push(&mut l);
                    proof {
                        l.lemma_elems();
                    }
                    let lr = l.right.take();
                    let merged = Self::merge(lr, Some(r), random);
                    l.right = merged;
                    Self::update(&mut l);
                    proof {
                        l.lemma_elems();
                        assert(l.elems() =~= link_elems(l.left) + seq![l.value] + link_elems(lr)
                            + r.elems());
                    }
                    Some(l)
                } else {
                    Self::push(&mut r);
                    proof {
                        r.lemma_elems();
                    }
                    let rl = r.left.take();
                    let merged = Self::merge(Some(l), rl, random);
                    r.left = merged;
                    Self::update(&mut r);
                    proof {
                        r.lemma_elems();
                        assert(r.elems() =~= l.elems() + link_elems(rl) + seq![r.value]
                            + link_elems(r.right));
                    }
                    Some(r)
                }
            },
        }
    }

    /// Splits the tree into the first `left_size` elements and the rest.
    fn split(root: Link<S>, left_size: usize) -> (res: (Link<S>, Link<S>))
        requires
            link_wf(root),
        ensures
            link_wf(res.0),
            link_wf(res.1),
            link_elems(res.0) + link_elems(res.1) == link_elems(root),
            link_elems(res.0).len() == (if left_size <= link_elems(root).len() {
                left_size as int
            } else {
                link_elems(root).len() as int
            }),
        decreases link_elems(root).len(),
    {
        match root {
            None => {
                assert(link_elems::<S>(None) + link_elems::<S>(None) =~= link_elems::<S>(None));
                (None, None)
            },
            Some(mut node) => {
                Self::push(&mut node);
                proof {
                    node.lemma_elems();
                }
                let current_left_size = Self::size(&node.left);
                if left_size <= current_left_size {
                    let nl = node.left.take();
                    let (l, r) = Self::split(nl, left_size);
                    node.left = r;
                    Self::update(&mut node);
                    proof {
                        node.lemma_elems();
                        assert(link_elems(l) + node.elems() =~= link_elems(nl) + seq![node.value]
                            + link_elems(node.right));
                    }
                    (l, Some(node))
                } else {
                    let nr = node.right.take();
                    let (l, r) = Self::split(nr, left_size - current_left_size - 1);
                    node.right = l;
                    Self::update(&mut node);
                    proof {
                        node.lemma_elems();
                        assert(node.elems() + link_elems(r) =~= link_elems(node.left) + seq![
                            node.value,
                        ] + link_elems(nr));
                    }
                    (Some(node), r)
                }
            },
        }
    }

    /// Builds a tree holding the values of the slots, in order, with a
    /// uniformly chosen root at every level.
    fn build(values: &mut [Option<S::Value>], random: &mut Random) -> (res: Link<S>)
        requires
            forall|i: int| 0 <= i < old(values)@.len() ==> (#[trigger] old(values)@[i]) is Some,
        ensures
            link_wf(res),
            link_elems(res) == old(values)@.map_values(|o: Option<S::Value>| o.unwrap()),
        decreases old(values)@.len(),
    {
        let len = values.len();
        if len == 0 {
            assert(old(values)@.map_values(|o: Option<S::Value>| o.unwrap()) =~= Seq::<
                S::Value,
            >::empty());
            return None;
        }
        let ghost all = values@;
        let root_index = random.index(len);
        let (left_slots, rest) = values.split_at_mut(root_index);
        let (middle, right_slots) = rest.split_at_mut(1);
        let slot = middle.first_mut().unwrap();
        let value = slot.take().unwrap();
        let mut root = Box::new(Self::new(value));
        let left = Self::build(left_slots, random);
        let right = Self::build(right_slots, random);
        root.left = left;
        root.right = right;
        proof {
            assert(link_elems(left) =~= all.subrange(0, root_index as int).map_values(
                |o: Option<S::Value>| o.unwrap(),
            ));
        }
        Self::update(&mut root);
        proof {
            root.lemma_elems();
            assert(root.elems() =~= all.map_values(|o: Option<S::Value>| o.unwrap()));
        }
        Some(root)
    }

    /// Reads the element at `index`, pushing pending work on the way down.
    fn get(node: &mut Link<S>, index: usize) -> (r: Option<&S::Value>)
        requires
            link_wf(*old(node)),
        ensures
            link_wf(*final(node)),
            link_elems(*final(node)) == link_elems(*old(node)),
            index < link_elems(*old(node)).len() ==> r == Some(
                &link_elems(*old(node))[index as int],
            ),
            index >= link_elems(*old(node)).len() ==> r is None,
        decreases link_elems(*old(node)).len(),
    {
        match node {
            None => None,
            Some(n) => {
                Self::push(n);
                proof {
                    n.lemma_elems();
                }
                let left_size = Self::size(&n.left);
                if index < left_size {
                    Self::get(&mut n.left, index)
                } else if index == left_size {
                    Some(&n.value)
                } else {
                    Self::get(&mut n.right, index - left_size - 1)
                }
            },
        }
    }

    /// Replaces the element at `index`, which must exist.
    fn set(node: &mut Box<Self>, index: usize, value: S::Value)
        requires
            old(node).wf(),
            index < old(node).elems().len(),
        ensures
            final(node).wf(),
            final(node).elems() == old(node).elems().update(index as int, value),
        decreases old(node).elems().len(),
    {
        Self::push(node);
        proof {
            node.lemma_elems();
        }
        let ghost pushed = **node;
        let left_size = Self::size(&node.left);
        if index < left_size {
            match &mut node.left {
                Some(child) => {
                    Self::set(child, index, value);
                },
                None => {},
            }
        } else if index == left_size {
            node.value = value;
        } else {
            match &mut node.right {
                Some(child) => {
                    Self::set(child, index - left_size - 1, value);
                },
                None => {},
            }
        }
        Self::update(node);
        proof {
            node.lemma_elems();
            assert(node.elems() =~= pushed.elems().update(index as int, value));
        }
    }

    /// Pushes pending work down and appends clones of the elements to `out`.
    #[verifier::spinoff_prover]
    fn collect(node: &mut Link<S>, out: &mut Vec<S::Value>)
        requires
            link_wf(*old(node)),
        ensures
            link_wf(*final(node)),
            link_elems(*final(node)) == link_elems(*old(node)),
            final(out)@ == old(out)@ + link_elems(*old(node)),
        decreases link_elems(*old(node)).len(),
    {
        match node {
            None => {
                assert(out@ =~= out@ + Seq::<S::Value>::empty());
            },
            Some(n) => {
                Self::push(n);
                proof {
                    n.lemma_elems();
                }
                let ghost start = out@;
                let ghost e = n.elems();
                Self::collect(&mut n.left, out);
                let v = n.value.clone();
                proof {
                    S::lemma_value_clone(n.value, v);
                }
                out.push(v);
                Self::collect(&mut n.right, out);
                proof {
                    assert(out@ =~= start + e);
                }
            },
        }
    }

    /// An exact copy of a subtree.
    fn clone_link(link: &Link<S>) -> (r: Link<S>)
        ensures
            r == *link,
        decreases *link,
    {
        match link {
            None => None,
            Some(n) => {
                let value = n.value.clone();
                let product = n.product.clone();
                let reverse_product = n.reverse_product.clone();
                proof {
                    S::lemma_value_clone(n.value, value);
                    S::lemma_value_clone(n.product, product);
                    S::lemma_value_clone(n.reverse_product, reverse_product);
                }
                let lazy = match &n.lazy {
                    None => None,
                    Some(a) => {
                        let c = a.clone();
                        proof {
                            S::lemma_action_clone(*a, c);
                        }
                        Some(c)
                    },
                };
                let left = Self::clone_link(&n.left);
                let right = Self::clone_link(&n.right);
                Some(
                    Box::new(
                        Node {
                            value,
                            product,
                            reverse_product,
                            lazy,
                            size: n.size,
                            reversed: n.reversed,
                            left,
                            right,
                        },
                    ),
                )
            },
        }
    }

    /// Pushes pending work down and moves the elements onto the end of `out`.
    fn collect_into(node: Box<Self>, out: &mut Vec<S::Value>)
        requires
            node.wf(),
        ensures
            final(out)@ == old(out)@ + node.elems(),
        decreases node.elems().len(),
    {
        let mut node = node;
        Self::push(&mut node);
        proof {
            node.lemma_elems();
        }
        let ghost e = node.elems();
        let Node { value, left, right, .. } = *node;
        let ghost start = out@;
        if let Some(child) = left {
            Self::collect_into(child, out);
        }
        out.push(value);
        if let Some(child) = right {
            Self::collect_into(child, out);
        }
        proof {
            assert(out@ =~= start + e);
        }
    }
}

proof fn lemma_sample_product(sample: u64, bound: u64)
    requires
        bound > 0,
    ensures
        (sample as int) * (bound as int) < 0x1_0000_0000_0000_0000 * (bound as int),
        (sample as int) * (bound as int) <= u128::MAX,
{
    assert((sample as int) * (bound as int) < 0x1_0000_0000_0000_0000 * (bound as int)) by (nonlinear_arith)
        requires
            bound > 0,
            sample < 0x1_0000_0000_0000_0000int,
    ;
    assert((sample as int) * (bound as int) <= 0xffff_ffff_ffff_ffff * 0xffff_ffff_ffff_ffff) by (nonlinear_arith)
        requires
            sample <= 0xffff_ffff_ffff_ffffint,
            bound <= 0xffff_ffff_ffff_ffffint,
            sample >= 0,
            bound >= 0,
    ;
}

proof fn lemma_high_part(product: int, bound: int)
    requires
        0 <= product < 0x1_0000_0000_0000_0000 * bound,
    ensures
        product / 0x1_0000_0000_0000_0000 < bound,
{
    assert(product / 0x1_0000_0000_0000_0000 < bound) by (nonlinear_arith)
        requires
            0 <= product < 0x1_0000_0000_0000_0000 * bound,
    ;
}

/// A SplitMix64 pseudorandom generator.
struct Random {
    state: u64,
}

/// The mixing step of the SplitMix64 generator.
pub open spec fn splitmix_mix(state: u64) -> u64 {
    let v1 = (state ^ (state >> 30u64)).wrapping_mul(0xbf58_476d_1ce4_e5b9u64);
    let v2 = (v1 ^ (v1 >> 27u64)).wrapping_mul(0x94d0_49bb_1331_11ebu64);
    v2 ^ (v2 >> 31u64)
}

impl Random {
    fn new(seed: u64) -> (r: Self)
        ensures
            r.state == seed,
    {
        Random { state: seed }
    }

    fn next(&mut self) -> (r: u64)
        ensures
            final(self).state == old(self).state.wrapping_add(0x9e37_79b9_7f4a_7c15u64),
            r == splitmix_mix(final(self).state),
    {
        self.state = self.state.wrapping_add(0x9e37_79b9_7f4a_7c15);
        let mut value = self.state;
        value = (value ^ (value >> 30)).wrapping_mul(0xbf58_476d_1ce4_e5b9);
        value = (value ^ (value >> 27)).wrapping_mul(0x94d0_49bb_1331_11eb);
        value ^ (value >> 31)
    }

    /// A pseudorandom index below `upper_bound`, drawn by multiplying a
    /// 64-bit sample by the bound and rejecting the incomplete low bucket to
    /// avoid modulo bias.  After `u64::MAX` consecutive rejections, which a
    /// SplitMix64 stream never produces, the last candidate is kept.
    ///
    /// The result is the high half of `sample * bound` for the first of the
    /// successive samples whose low half reaches the rejection threshold;
    /// the generator advances by the number of samples drawn.
    fn index(&mut self, upper_bound: usize) -> (r: usize)
        requires
            upper_bound > 0,
        ensures
            r < upper_bound,
            exists|k: nat|
                #![trigger advance(old(self).state, k)]
                {
                    &&& 1 <= k <= 0x1_0000_0000_0000_0000
                    &&& final(self).state == advance(old(self).state, k)
                    &&& r == draw_high(splitmix_mix(advance(old(self).state, k)), upper_bound as int)
                    &&& forall|j: nat|
                        1 <= j < k ==> draw_low(
                            splitmix_mix(#[trigger] advance(old(self).state, j)),
                            upper_bound as int,
                        ) < rejection_threshold(upper_bound as int)
                    &&& (draw_low(splitmix_mix(advance(old(self).state, k)), upper_bound as int)
                        >= rejection_threshold(upper_bound as int) || k
                        == 0x1_0000_0000_0000_0000)
                },
    {
        let bound = upper_bound as u64;
        let threshold = 0u64.wrapping_sub(bound) % bound;
        let mut rounds: u64 = u64::MAX;
        let ghost start = self.state;
        let ghost mut drawn: nat = 0;
        assert(advance(start, 0) == start);
        loop
            invariant
                bound > 0,
                bound as int == upper_bound as int,
                start == old(self).state,
                threshold as int == rejection_threshold(upper_bound as int),
                rounds as int + drawn == u64::MAX as int,
                self.state == advance(start, drawn),
                forall|j: nat|
                    1 <= j <= drawn ==> draw_low(
                        splitmix_mix(#[trigger] advance(start, j)),
                        upper_bound as int,
                    ) < rejection_threshold(upper_bound as int),
            decreases rounds,
        {
            let sample = self.next();
            proof {
                drawn = drawn + 1;
                assert(self.state == advance(start, drawn));
                lemma_sample_product(sample, bound);
            }
            let product = sample as u128 * bound as u128;
            let high = product >> 64u32;
            proof {
                assert(product >> 64u32 == product / 0x1_0000_0000_0000_0000u128) by (bit_vector);
                lemma_high_part(product as int, bound as int);
            }
            let low = #[verifier::truncate] (product as u64);
            proof {
                assert(low as int == product as int % 0x1_0000_0000_0000_0000) by {
                    assert((product as u64) as u128 == product % 0x1_0000_0000_0000_0000u128)
                        by (bit_vector);
                }
            }
            if low >= threshold || rounds == 0 {
                proof {
                    let k = drawn;
                    assert(sample == splitmix_mix(advance(start, k)));
                    assert(high as int == draw_high(sample, upper_bound as int));
                    assert(1 <= k <= 0x1_0000_0000_0000_0000);
                    assert(forall|j: nat|
                        1 <= j < k ==> draw_low(
                            splitmix_mix(#[trigger] advance(start, j)),
                            upper_bound as int,
                        ) < rejection_threshold(upper_bound as int));
                    assert(draw_low(splitmix_mix(advance(start, k)), upper_bound as int)
                        >= rejection_threshold(upper_bound as int) || k
                        == 0x1_0000_0000_0000_0000);
                }
                return high as usize;
            }
            rounds = rounds - 1;
        }
    }
}

/// The state of a SplitMix64 generator after `k` steps from `state`.
pub open spec fn advance(state: u64, k: nat) -> u64
    decreases k,
{
    if k == 0 {
        state
    } else {
        advance(state, (k - 1) as nat).wrapping_add(0x9e37_79b9_7f4a_7c15u64)
    }
}

/// The high half of the 128-bit product of a sample and a bound: an index
/// below the bound.
pub open spec fn draw_high(sample: u64, bound: int) -> int {
    (sample as int * bound) / 0x1_0000_0000_0000_0000
}

/// The low half of the 128-bit product of a sample and a bound.
pub open spec fn draw_low(sample: u64, bound: int) -> int {
    (sample as int * bound) % 0x1_0000_0000_0000_0000
}

/// Low halves below this value fall in the incomplete bucket and are
/// rejected: `2^64 mod bound`.
pub open spec fn rejection_threshold(bound: int) -> int {
    (0x1_0000_0000_0000_0000 - bound) % bound
}

/// A randomized balanced sequence with lazy range actions and reversals.
///
/// The tree keeps both forward and backward products, so `Value` may use a
/// non-commutative monoid.  All ranges are half-open `[left, right)` ranges.
pub struct LazyReversibleRbst<S> where S: LazyReversibleRbstSpec {
    root: Link<S>,
    random: Random,
}

impl<S> View for LazyReversibleRbst<S> where S: LazyReversibleRbstSpec {
    type V = Seq<S::Value>;

    closed spec fn view(&self) -> Seq<S::Value> {
        link_elems(self.root)
    }
}

impl<S> LazyReversibleRbst<S> where S: LazyReversibleRbstSpec {
    const DEFAULT_SEED: u64 = 0x243f_6a88_85a3_08d3;

    /// The internal tree is consistent: sizes and stored products are right.
    pub closed spec fn wf(&self) -> bool {
        link_wf(self.root)
    }

    /// The state of the pseudorandom generator that balances the tree.
    pub closed spec fn seed_state(&self) -> u64 {
        self.random.state
    }

    /// Creates an empty tree using a fixed, deterministic default seed.
    pub fn new() -> (t: Self)
        ensures
            t.wf(),
            t@ == Seq::<S::Value>::empty(),
            t.seed_state() == 0x243f_6a88_85a3_08d3u64,
    {
        Self::with_seed(Self::DEFAULT_SEED)
    }

    /// Creates an empty tree with a deterministic random seed.
    pub fn with_seed(seed: u64) -> (t: Self)
        ensures
            t.wf(),
            t@ == Seq::<S::Value>::empty(),
            t.seed_state() == seed,
    {
        LazyReversibleRbst { root: None, random: Random::new(seed) }
    }

    /// Builds a tree holding `values` in order, in linear time.
    pub fn from_iter_with_seed(values: Vec<S::Value>, seed: u64) -> (t: Self)
        ensures
            t.wf(),
            t@ == values@,
    {
        let mut slots: Vec<Option<S::Value>> = Vec::new();
        let mut values = values;
        let ghost all = values@;
        let mut rest: Vec<S::Value> = Vec::new();
        while values.len() > 0
            invariant
                all == values@ + rest@.reverse(),
            decreases values.len(),
        {
            let v = values.pop().unwrap();
            let ghost before = rest@;
            rest.push(v);
            proof {
                assert(rest@.reverse() =~= seq![v] + before.reverse());
            }
        }
        while rest.len() > 0
            invariant
                all == slots@.map_values(|o: Option<S::Value>| o.unwrap()) + rest@.reverse(),
                forall|i: int| 0 <= i < slots@.len() ==> (#[trigger] slots@[i]) is Some,
            decreases rest.len(),
        {
            let v = rest.pop().unwrap();
            let ghost rest_before = rest@;
            slots.push(Some(v));
            proof {
                assert((rest_before.push(v)).reverse() =~= seq![v] + rest_before.reverse());
                assert(slots@.map_values(|o: Option<S::Value>| o.unwrap()) =~= old_map_push(
                    slots@.drop_last(),
                    v,
                ));
            }
        }
        proof {
            assert(rest@.reverse() =~= Seq::<S::Value>::empty());
            assert(all =~= slots@.map_values(|o: Option<S::Value>| o.unwrap()));
        }
        let mut random = Random::new(seed);
        let root = Node::build(slots.as_mut_slice(), &mut random);
        LazyReversibleRbst { root, random }
    }

    /// Builds a tree holding `values` in order, using the default seed.
    pub fn from_vec(values: Vec<S::Value>) -> (t: Self)
        ensures
            t.wf(),
            t@ == values@,
    {
        Self::from_iter_with_seed(values, Self::DEFAULT_SEED)
    }

    /// Number of elements.
    pub fn len(&self) -> (r: usize)
        requires
            self.wf(),
        ensures
            r == self@.len(),
    {
        Node::size(&self.root)
    }

    /// Whether the sequence has no elements.
    pub fn is_empty(&self) -> (r: bool)
        requires
            self.wf(),
        ensures
            r == (self@.len() == 0),
    {
        proof {
            if self.root is Some {
                self.root.unwrap().lemma_elems();
            }
        }
        self.root.is_none()
    }

    /// Inserts `value` at the front.
    pub fn push_front(&mut self, value: S::Value)
        requires
            old(self).wf(),
            old(self)@.len() < usize::MAX,
        ensures
            final(self).wf(),
            final(self)@ == seq![value] + old(self)@,
    {
        self.insert(0, value);
        proof {
            assert(old(self)@.insert(0, value) =~= seq![value] + old(self)@);
        }
    }

    /// Inserts `value` at the back.
    pub fn push_back(&mut self, value: S::Value)
        requires
            old(self).wf(),
            old(self)@.len() < usize::MAX,
        ensures
            final(self).wf(),
            final(self)@ == old(self)@.push(value),
    {
        let n = self.len();
        self.insert(n, value);
        proof {
            assert(old(self)@.insert(n as int, value) =~= old(self)@.push(value));
        }
    }

    /// Inserts `value` so that it ends up at position `index`.
    pub fn insert(&mut self, index: usize, value: S::Value)
        requires
            old(self).wf(),
            index <= old(self)@.len(),
            old(self)@.len() < usize::MAX,
        ensures
            final(self).wf(),
            final(self)@ == old(self)@.insert(index as int, value),
    {
        let (left, right) = Node::split(self.root.take(), index);
        let middle = Some(Box::new(Node::new(value)));
        let left = Node::merge(left, middle, &mut self.random);
        self.root = Node::merge(left, right, &mut self.random);
        proof {
            assert(self@ =~= old(self)@.insert(index as int, value));
        }
    }

    /// Removes and returns the value at `index`, or returns `None` (changing
    /// nothing) when `index` is out of range.
    pub fn remove(&mut self, index: usize) -> (r: Option<S::Value>)
        requires
            old(self).wf(),
        ensures
            final(self).wf(),
            index < old(self)@.len() ==> r == Some(old(self)@[index as int]) && final(self)@
                == old(self)@.remove(index as int),
            index >= old(self)@.len() ==> r is None && final(self)@ == old(self)@,
    {
        if index >= self.len() {
            return None;
        }
        let (left, rest) = Node::split(self.root.take(), index);
        let (middle, right) = Node::split(rest, 1);
        self.root = Node::merge(left, right, &mut self.random);
        proof {
            assert(old(self)@ =~= link_elems(left) + link_elems(middle) + link_elems(right));
            assert(self@ =~= old(self)@.remove(index as int));
        }
        match middle {
            Some(node) => {
                let mut node = node;
                Node::push(&mut node);
                proof {
                    node.lemma_elems();
                    assert(link_elems(node.left).len() == 0);
                    assert(node.elems()[0] == node.value);
                }
                let Node { value, .. } = *node;
                Some(value)
            },
            None => None,
        }
    }

    /// Returns the value at `index`, or `None` when it is out of range.
    pub fn get(&mut self, index: usize) -> (r: Option<&S::Value>)
        requires
            old(self).wf(),
        ensures
            final(self).wf(),
            final(self)@ == old(self)@,
            index < old(self)@.len() ==> r == Some(&old(self)@[index as int]),
            index >= old(self)@.len() ==> r is None,
    {
        if index >= self.len() {
            return None;
        }
        Node::get(&mut self.root, index)
    }

    /// Replaces the value at `index` and reports whether the index existed;
    /// nothing changes when it did not.
    pub fn set(&mut self, index: usize, value: S::Value) -> (r: bool)
        requires
            old(self).wf(),
        ensures
            final(self).wf(),
            r == (index < old(self)@.len()),
            r ==> final(self)@ == old(self)@.update(index as int, value),
            !r ==> final(self)@ == old(self)@,
    {
        if index >= self.len() {
            return false;
        }
        match &mut self.root {
            Some(node) => {
                Node::set(node, index, value);
                true
            },
            None => false,
        }
    }

    /// Returns the product of the half-open range `[left, right)`; an empty
    /// range gives the identity.
    #[verifier::rlimit(60)]
    #[verifier::spinoff_prover]
    pub fn fold(&mut self, left: usize, right: usize) -> (r: S::Value)
        requires
            old(self).wf(),
            left <= right <= old(self)@.len(),
        ensures
            final(self).wf(),
            final(self)@ == old(self)@,
            r == product_of::<S>(old(self)@.subrange(left as int, right as int)),
    {
        if left == right {
            proof {
                assert(old(self)@.subrange(left as int, right as int) =~= Seq::<S::Value>::empty());
            }
            return S::identity();
        }
        let (prefix, rest) = Node::split(self.root.take(), left);
        let (middle, suffix) = Node::split(rest, right - left);
        let result = Node::product(&middle);
        let rest = Node::merge(middle, suffix, &mut self.random);
        self.root = Node::merge(prefix, rest, &mut self.random);
        proof {
            assert(old(self)@ =~= link_elems(prefix) + link_elems(middle) + link_elems(suffix));
            assert(link_elems(middle) =~= old(self)@.subrange(left as int, right as int));
            assert(self@ =~= old(self)@);
        }
        result
    }

    /// Same as [`fold`](Self::fold).
    pub fn prod(&mut self, left: usize, right: usize) -> (r: S::Value)
        requires
            old(self).wf(),
            left <= right <= old(self)@.len(),
        ensures
            final(self).wf(),
            final(self)@ == old(self)@,
            r == product_of::<S>(old(self)@.subrange(left as int, right as int)),
    {
        self.fold(left, right)
    }

    /// Returns the product of the entire sequence.
    pub fn all_prod(&self) -> (r: S::Value)
        requires
            self.wf(),
        ensures
            r == product_of::<S>(self@),
    {
        Node::product(&self.root)
    }

    /// Applies `action` to every element in `[left, right)`.
    #[verifier::rlimit(60)]
    #[verifier::spinoff_prover]
    pub fn apply(&mut self, left: usize, right: usize, action: S::Action)
        requires
            old(self).wf(),
            left <= right <= old(self)@.len(),
        ensures
            final(self).wf(),
            final(self)@ == act_range::<S>(old(self)@, left as int, right as int, action),
    {
        if left == right {
            proof {
                assert(act_range::<S>(old(self)@, left as int, right as int, action) =~= old(
                    self,
                )@);
            }
            return;
        }
        let (prefix, rest) = Node::split(self.root.take(), left);
        let (mut middle, suffix) = Node::split(rest, right - left);
        let ghost p = link_elems(prefix);
        let ghost m = link_elems(middle);
        let ghost q = link_elems(suffix);
        proof {
            assert(old(self)@ =~= p + m + q);
            assert(p =~= old(self)@.take(left as int));
            assert(m =~= old(self)@.subrange(left as int, right as int));
            assert(q =~= old(self)@.skip(right as int));
        }
        Node::apply_action(&mut middle, &action);
        let tail = Node::merge(middle, suffix, &mut self.random);
        self.root = Node::merge(prefix, tail, &mut self.random);
        proof {
            assert(link_elems(tail) == act_each::<S>(action, m) + q);
            assert(self@ == p + (act_each::<S>(action, m) + q));
            assert(self@ =~= act_range::<S>(old(self)@, left as int, right as int, action));
        }
    }

    /// Reverses the half-open range `[left, right)`.
    #[verifier::rlimit(60)]
    #[verifier::spinoff_prover]
    pub fn reverse(&mut self, left: usize, right: usize)
        requires
            old(self).wf(),
            left <= right <= old(self)@.len(),
        ensures
            final(self).wf(),
            final(self)@ == reverse_range(old(self)@, left as int, right as int),
    {
        if left == right {
            proof {
                assert(reverse_range(old(self)@, left as int, right as int) =~= old(self)@);
            }
            return;
        }
        let (prefix, rest) = Node::split(self.root.take(), left);
        let (mut middle, suffix) = Node::split(rest, right - left);
        let ghost p = link_elems(prefix);
        let ghost m = link_elems(middle);
        let ghost q = link_elems(suffix);
        proof {
            assert(old(self)@ =~= p + m + q);
            assert(p =~= old(self)@.take(left as int));
            assert(m =~= old(self)@.subrange(left as int, right as int));
            assert(q =~= old(self)@.skip(right as int));
        }
        Node::toggle(&mut middle);
        let tail = Node::merge(middle, suffix, &mut self.random);
        self.root = Node::merge(prefix, tail, &mut self.random);
        proof {
            assert(link_elems(tail) == m.reverse() + q);
            assert(self@ == p + (m.reverse() + q));
            assert(self@ =~= reverse_range(old(self)@, left as int, right as int));
        }
    }

    /// Reverses the entire sequence in constant time.
    pub fn reverse_all(&mut self)
        requires
            old(self).wf(),
        ensures
            final(self).wf(),
            final(self)@ == old(self)@.reverse(),
    {
        Node::toggle(&mut self.root);
    }

    /// Splits off the suffix `[index, len)` and returns it as a new tree;
    /// the prefix stays.
    pub fn split_off(&mut self, index: usize) -> (suffix: Self)
        requires
            old(self).wf(),
            index <= old(self)@.len(),
        ensures
            final(self).wf(),
            suffix.wf(),
            final(self)@ == old(self)@.take(index as int),
            suffix@ == old(self)@.skip(index as int),
    {
        let (left, right) = Node::split(self.root.take(), index);
        self.root = left;
        proof {
            assert(old(self)@.take(index as int) =~= link_elems(left));
            assert(old(self)@.skip(index as int) =~= link_elems(right));
        }
        let seed = self.random.next();
        LazyReversibleRbst { root: right, random: Random::new(seed) }
    }

    /// Moves all elements of `other` to the end of `self`, leaving `other`
    /// empty.
    pub fn append(&mut self, other: &mut Self)
        requires
            old(self).wf(),
            old(other).wf(),
            old(self)@.len() + old(other)@.len() <= usize::MAX,
        ensures
            final(self).wf(),
            final(other).wf(),
            final(self)@ == old(self)@ + old(other)@,
            final(other)@ == Seq::<S::Value>::empty(),
    {
        let mine = self.root.take();
        let theirs = other.root.take();
        self.root = Node::merge(mine, theirs, &mut self.random);
    }

    /// Removes every element.
    pub fn clear(&mut self)
        ensures
            final(self).wf(),
            final(self)@ == Seq::<S::Value>::empty(),
    {
        self.root = None;
    }

    /// Returns clones of the elements, in order.
    pub fn to_vec(&mut self) -> (r: Vec<S::Value>)
        requires
            old(self).wf(),
        ensures
            final(self).wf(),
            final(self)@ == old(self)@,
            r@ == old(self)@,
    {
        let mut values = Vec::with_capacity(self.len());
        Node::collect(&mut self.root, &mut values);
        proof {
            assert(values@ =~= old(self)@);
        }
        values
    }

    /// Consumes the tree and returns its sequence.
    pub fn into_vec(self) -> (r: Vec<S::Value>)
        requires
            self.wf(),
        ensures
            r@ == self@,
    {
        let mut values = Vec::with_capacity(Node::size(&self.root));
        if let Some(root) = self.root {
            Node::collect_into(root, &mut values);
        }
        proof {
            assert(values@ =~= self@);
        }
        values
    }
}

impl<S> Clone for LazyReversibleRbst<S> where S: LazyReversibleRbstSpec {
    fn clone(&self) -> (r: Self)
        ensures
            r@ == self@,
            r.wf() == self.wf(),
    {
        LazyReversibleRbst { root: Node::clone_link(&self.root), random: Random::new(self.random.state) }
    }
}

impl<S> Default for LazyReversibleRbst<S> where S: LazyReversibleRbstSpec {
    fn default() -> (t: Self)
        ensures
            t.wf(),
            t@ == Seq::<S::Value>::empty(),
    {
        Self::new()
    }
}

/// Builds a tree holding `values` in order; see [`LazyReversibleRbst::from_vec`].
impl<S> From<Vec<S::Value>> for LazyReversibleRbst<S> where S: LazyReversibleRbstSpec {
    fn from(values: Vec<S::Value>) -> (t: Self)
        ensures
            t.wf(),
            t@ == values@,
    {
        Self::from_vec(values)
    }
}

/// The tree's shape depends on its random priorities, so no spec value stands
/// for the result of `from`; what it holds is stated on `from` itself.
impl<S> vstd::std_specs::convert::FromSpecImpl<Vec<S::Value>> for LazyReversibleRbst<S> where S: LazyReversibleRbstSpec {
    open spec fn obeys_from_spec() -> bool {
        false
    }

    open spec fn from_spec(v: Vec<S::Value>) -> Self {
        vstd::pervasive::arbitrary()
    }
}

spec fn old_map_push<V>(slots: Seq<Option<V>>, v: V) -> Seq<V> {
    slots.map_values(|o: Option<V>| o.unwrap()).push(v)
}

} // verus!