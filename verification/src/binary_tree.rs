use core::cmp::Ordering;
use vstd::prelude::*;
use vstd::std_specs::cmp::OrdSpec;
use vstd::std_specs::cmp::PartialOrdSpec;

verus! {

/// One cell of the tree: a value and up to two exclusively owned children.
/// A node with both children absent is a leaf.
#[derive(Debug, PartialEq, Eq, Hash, Default)]
pub struct Node<T> {
    pub value: T,
    pub left: Option<Box<Node<T>>>,
    pub right: Option<Box<Node<T>>>,
}

/// An unbalanced binary search tree: an optional root cell plus a cached
/// element count. Distinct values only; insertion order decides the shape.
#[derive(Debug, PartialEq, Eq, Hash, Default)]
pub struct BinaryTree<T> {
    pub root: Option<Box<Node<T>>>,
    pub count: usize,
}

/// The comparison on `T` behaves as a total order that decides equality:
/// `cmp` agrees with its specification, comparing equal means being equal,
/// and the order is transitive. Inserting into or searching a tree whose
/// element type breaks these laws is a usage error, so the tree operations
/// that compare values require this of their callers.
pub open spec fn lawful_cmp<T: Ord>() -> bool {
    &&& vstd::laws_cmp::obeys_cmp::<T>()
    &&& vstd::laws_eq::obeys_concrete_eq::<T>()
}

/// `a` comes strictly before `b` under `T`'s comparison.
pub open spec fn lt<T: Ord>(a: T, b: T) -> bool {
    a.cmp_spec(&b) == Ordering::Less
}

/// The facts about three-way comparison that the search-tree proofs lean on:
/// on a lawful `Ord` type, `cmp_spec` decides equality and is a strict total
/// order.
pub proof fn lemma_cmp_properties<T: Ord>()
    requires
        lawful_cmp::<T>(),
    ensures
        T::obeys_cmp_spec(),
        forall|x: T, y: T| #[trigger] x.cmp_spec(&y) == Ordering::Equal <==> x == y,
        forall|x: T, y: T| #[trigger] x.cmp_spec(&y) == Ordering::Less <==> y.cmp_spec(&x)
            == Ordering::Greater,
        forall|x: T, y: T, z: T| #![trigger lt(x, y), lt(y, z)] lt(x, y) && lt(y, z) ==> lt(x, z),
{
    reveal(vstd::laws_eq::obeys_concrete_eq);
    reveal(vstd::laws_eq::obeys_eq_spec_properties);
    reveal(vstd::laws_cmp::obeys_cmp_partial_ord);
    reveal(vstd::laws_cmp::obeys_cmp_ord);
    reveal(vstd::laws_cmp::obeys_partial_cmp_spec_properties);
    assert forall|x: T, y: T| #[trigger] x.cmp_spec(&y) == Ordering::Equal <==> x == y by {
        assert(x.partial_cmp_spec(&y) == Some(x.cmp_spec(&y)));
    }
    assert forall|x: T, y: T| #[trigger] x.cmp_spec(&y) == Ordering::Less <==> y.cmp_spec(&x)
        == Ordering::Greater by {
        assert(x.partial_cmp_spec(&y) == Some(x.cmp_spec(&y)));
        assert(y.partial_cmp_spec(&x) == Some(y.cmp_spec(&x)));
    }
    assert forall|x: T, y: T, z: T| #![trigger lt(x, y), lt(y, z)] lt(x, y) && lt(y, z) implies lt(
        x,
        z,
    ) by {
        assert(x.partial_cmp_spec(&y) == Some(x.cmp_spec(&y)));
        assert(y.partial_cmp_spec(&z) == Some(y.cmp_spec(&z)));
        assert(x.partial_cmp_spec(&z) == Some(x.cmp_spec(&z)));
    }
}

/// Number of nodes hanging from an optional subtree root.
pub open spec fn opt_size<T>(o: Option<Box<Node<T>>>) -> nat
    decreases o,
{
    match o {
        None => 0,
        Some(n) => n.size(),
    }
}

/// Number of nodes on the longest path from an optional subtree root down to
/// a leaf; an absent subtree has height 0.
pub open spec fn opt_height<T>(o: Option<Box<Node<T>>>) -> nat
    decreases o,
{
    match o {
        None => 0,
        Some(n) => n.height(),
    }
}

/// The values stored in an optional subtree, as a set.
pub open spec fn opt_values<T>(o: Option<Box<Node<T>>>) -> Set<T>
    decreases o,
{
    match o {
        None => Set::empty(),
        Some(n) => n.values(),
    }
}

/// The values stored in an optional subtree, in preorder: a node's own value,
/// then its whole left subtree, then its whole right subtree.
pub open spec fn opt_preorder<T>(o: Option<Box<Node<T>>>) -> Seq<T>
    decreases o,
{
    match o {
        None => Seq::empty(),
        Some(n) => n.preorder(),
    }
}

impl<T> Node<T> {
    /// Number of nodes in the subtree rooted at this node.
    pub open spec fn size(self) -> nat
        decreases self,
    {
        1 + opt_size(self.left) + opt_size(self.right)
    }

    /// Number of nodes on the longest path from this node down to a leaf.
    pub open spec fn height(self) -> nat
        decreases self,
    {
        1 + vstd::math::max(opt_height(self.left) as int, opt_height(self.right) as int) as nat
    }

    /// The values stored in the subtree rooted at this node.
    pub open spec fn values(self) -> Set<T>
        decreases self,
    {
        opt_values(self.left).union(opt_values(self.right)).insert(self.value)
    }

    /// The preorder traversal sequence of the subtree rooted at this node.
    pub open spec fn preorder(self) -> Seq<T>
        decreases self,
    {
        seq![self.value] + opt_preorder(self.left) + opt_preorder(self.right)
    }

    /// The value reached by descending into left children for as long as one
    /// exists: on an ordered subtree, its least value.
    pub open spec fn leftmost(self) -> T
        decreases self,
    {
        match self.left {
            None => self.value,
            Some(l) => l.leftmost(),
        }
    }

    /// The value reached by descending into right children for as long as one
    /// exists: on an ordered subtree, its greatest value.
    pub open spec fn rightmost(self) -> T
        decreases self,
    {
        match self.right {
            None => self.value,
            Some(r) => r.rightmost(),
        }
    }
}

/// The search-tree ordering property of an optional subtree.
pub open spec fn opt_ordered<T: Ord>(o: Option<Box<Node<T>>>) -> bool
    decreases o,
{
    match o {
        None => true,
        Some(n) => n.ordered(),
    }
}

/// What insertion leaves behind an optional subtree root: a new leaf where
/// the search path ran out, the subtree untouched where it met the value.
pub open spec fn opt_insert<T: Ord>(o: Option<Box<Node<T>>>, value: T) -> Option<Box<Node<T>>>
    decreases o,
{
    match o {
        None => Some(Box::new(Node { value, left: None, right: None })),
        Some(n) => Some(Box::new(n.with_inserted(value))),
    }
}

impl<T: Ord> Node<T> {
    /// The search-tree ordering property: everything to the left is strictly
    /// below this node's value, everything to the right strictly above, and
    /// the same holds in both subtrees.
    pub open spec fn ordered(self) -> bool
        decreases self,
    {
        &&& forall|v: T| #[trigger] opt_values(self.left).contains(v) ==> lt(v, self.value)
        &&& forall|v: T| #[trigger] opt_values(self.right).contains(v) ==> lt(self.value, v)
        &&& opt_ordered(self.left)
        &&& opt_ordered(self.right)
    }

    /// This subtree after inserting `value` along the search path: unchanged
    /// if the value is met on the way, otherwise one new leaf.
    pub open spec fn with_inserted(self, value: T) -> Node<T>
        decreases self,
    {
        if value == self.value {
            self
        } else if lt(value, self.value) {
            Node { left: opt_insert(self.left, value), ..self }
        } else {
            Node { right: opt_insert(self.right, value), ..self }
        }
    }
}

/// What inserting a whole sequence of values, in order, leaves behind an
/// optional subtree root.
pub open spec fn opt_insert_seq<T: Ord>(o: Option<Box<Node<T>>>, s: Seq<T>) -> Option<
    Box<Node<T>>,
>
    decreases s.len(),
{
    if s.len() == 0 {
        o
    } else {
        opt_insert(opt_insert_seq(o, s.drop_last()), s.last())
    }
}

/// `b` is a clone of node `a`: same shape, and each value of `b` is a
/// possible result of calling `T::clone` on the matching value of `a`.
pub open spec fn node_cloned<T: Clone>(a: Node<T>, b: Node<T>) -> bool
    decreases a,
{
    &&& vstd::pervasive::cloned::<T>(a.value, b.value)
    &&& opt_cloned(a.left, b.left)
    &&& opt_cloned(a.right, b.right)
}

/// `b` is a clone of the optional subtree `a`.
pub open spec fn opt_cloned<T: Clone>(a: Option<Box<Node<T>>>, b: Option<Box<Node<T>>>) -> bool
    decreases a,
{
    match (a, b) {
        (None, None) => true,
        (Some(x), Some(y)) => node_cloned(*x, *y),
        _ => false,
    }
}

/// Where `T::clone` promises an exact copy, a cloned subtree is the
/// original, shape and values alike.
pub proof fn lemma_exact_clone<T: Clone>(a: Option<Box<Node<T>>>, b: Option<Box<Node<T>>>)
    requires
        opt_cloned(a, b),
        forall|x: T, y: T| vstd::pervasive::cloned::<T>(x, y) ==> x == y,
    ensures
        a == b,
    decreases a,
{
    match (a, b) {
        (Some(x), Some(y)) => {
            lemma_exact_clone(x.left, y.left);
            lemma_exact_clone(x.right, y.right);
            assert(vstd::pervasive::cloned::<T>(x.value, y.value));
        },
        _ => {},
    }
}

impl<T: Clone> Clone for Node<T> {
    /// Deep copy: the copy has the same shape, each value obtained by
    /// cloning the original's value at the same place.
    fn clone(&self) -> (res: Self)
        ensures
            node_cloned(*self, res),
        decreases self,
    {
        Node {
            value: self.value.clone(),
            left: match &self.left {
                Some(node) => Some(Box::new((&**node).clone())),
                None => None,
            },
            right: match &self.right {
                Some(node) => Some(Box::new((&**node).clone())),
                None => None,
            },
        }
    }
}

impl<T: Clone> Clone for BinaryTree<T> {
    /// Deep copy: the copy has the original's shape and count, each value
    /// obtained by cloning the original's value at the same place.
    fn clone(&self) -> (res: Self)
        ensures
            opt_cloned(self.root, res.root),
            res.count == self.count,
    {
        BinaryTree {
            root: match &self.root {
                Some(node) => Some(Box::new((&**node).clone())),
                None => None,
            },
            count: self.count,
        }
    }
}

/// Every subtree stores finitely many values.
pub proof fn lemma_values_finite<T>(o: Option<Box<Node<T>>>)
    ensures
        opt_values(o).finite(),
    decreases o,
{
    match o {
        None => {},
        Some(n) => {
            lemma_values_finite(n.left);
            lemma_values_finite(n.right);
        },
    }
}

/// Invariant preservation, one step at a time: inserting into an ordered
/// subtree keeps it ordered, adds exactly the inserted value to the stored
/// set, and grows the node count by one exactly when the value was new.
pub proof fn lemma_insert_preserves_invariant<T: Ord>(o: Option<Box<Node<T>>>, value: T)
    requires
        lawful_cmp::<T>(),
        opt_ordered(o),
    ensures
        opt_ordered(opt_insert(o, value)),
        opt_values(opt_insert(o, value)) == opt_values(o).insert(value),
        opt_size(opt_insert(o, value)) == opt_size(o) + (if opt_values(o).contains(value) {
            0int
        } else {
            1int
        }),
    decreases o,
{
    lemma_cmp_properties::<T>();
    match o {
        None => {
            assert(opt_values(opt_insert(o, value)) =~= opt_values(o).insert(value));
        },
        Some(n) => {
            lemma_values_finite(n.left);
            lemma_values_finite(n.right);
            if value == n.value {
                assert(opt_values(o).contains(value));
                assert(opt_values(o).insert(value) =~= opt_values(o));
            } else if lt(value, n.value) {
                if opt_values(n.right).contains(value) {
                    assert(lt(value, value));
                    assert(false);
                }
                lemma_insert_preserves_invariant(n.left, value);
                let m = n.with_inserted(value);
                assert(opt_values(m.left).contains(value));
                assert forall|v: T| #[trigger] opt_values(m.left).contains(v) implies lt(
                    v,
                    m.value,
                ) by {
                    if v != value {
                        assert(opt_values(n.left).contains(v));
                    }
                }
                assert(m.ordered());
                assert(opt_values(opt_insert(o, value)) =~= opt_values(o).insert(value));
            } else {
                assert(lt(n.value, value));
                if opt_values(n.left).contains(value) {
                    assert(lt(value, value));
                    assert(false);
                }
                lemma_insert_preserves_invariant(n.right, value);
                let m = n.with_inserted(value);
                assert(opt_values(m.right).contains(value));
                assert forall|v: T| #[trigger] opt_values(m.right).contains(v) implies lt(
                    m.value,
                    v,
                ) by {
                    if v != value {
                        assert(opt_values(n.right).contains(v));
                    }
                }
                assert(m.ordered());
                assert(opt_values(opt_insert(o, value)) =~= opt_values(o).insert(value));
            }
        },
    }
}

/// Duplicate rejection: inserting a value an ordered subtree already stores
/// leaves the subtree exactly as it was, shape included.
pub proof fn lemma_insert_duplicate<T: Ord>(o: Option<Box<Node<T>>>, value: T)
    requires
        lawful_cmp::<T>(),
        opt_ordered(o),
        opt_values(o).contains(value),
    ensures
        opt_insert(o, value) == o,
    decreases o,
{
    lemma_cmp_properties::<T>();
    match o {
        None => {},
        Some(n) => {
            if value == n.value {
            } else if lt(value, n.value) {
                if opt_values(n.right).contains(value) {
                    assert(lt(value, value));
                    assert(false);
                }
                assert(opt_values(n.left).contains(value));
                lemma_insert_duplicate(n.left, value);
            } else {
                assert(lt(n.value, value));
                if opt_values(n.left).contains(value) {
                    assert(lt(value, value));
                    assert(false);
                }
                assert(opt_values(n.right).contains(value));
                lemma_insert_duplicate(n.right, value);
            }
        },
    }
}

/// Invariant preservation over a whole sequence of insertions: however many
/// values are inserted, in whatever order, the subtree stays ordered and
/// stores exactly the old values plus the inserted ones. Applied to a prefix
/// of a sequence, this gives the invariant at every intermediate point.
pub proof fn lemma_insert_seq_invariant<T: Ord>(o: Option<Box<Node<T>>>, s: Seq<T>)
    requires
        lawful_cmp::<T>(),
        opt_ordered(o),
    ensures
        opt_ordered(opt_insert_seq(o, s)),
        opt_values(opt_insert_seq(o, s)) == opt_values(o).union(s.to_set()),
    decreases s.len(),
{
    if s.len() == 0 {
        assert(opt_values(o).union(s.to_set()) =~= opt_values(o));
    } else {
        lemma_insert_seq_invariant(o, s.drop_last());
        lemma_insert_preserves_invariant(opt_insert_seq(o, s.drop_last()), s.last());
        s.drop_last().lemma_push_to_set_commute(s.last());
        assert(s =~= s.drop_last().push(s.last()));
        assert(opt_values(opt_insert_seq(o, s)) =~= opt_values(o).union(s.to_set()));
    }
}

/// Building a tree from scratch by repeated insertion yields an ordered tree
/// whose stored values are exactly the distinct values of the sequence, and
/// whose node count is the number of those distinct values.
pub proof fn lemma_build_from_seq<T: Ord>(s: Seq<T>)
    requires
        lawful_cmp::<T>(),
    ensures
        opt_ordered(opt_insert_seq(None, s)),
        opt_values(opt_insert_seq(None, s)) == s.to_set(),
        opt_size(opt_insert_seq(None, s)) == s.to_set().len(),
    decreases s.len(),
{
    broadcast use vstd::seq_lib::seq_to_set_is_finite;
    broadcast use vstd::set::axiom_set_insert_len;

    if s.len() == 0 {
        assert(s.to_set() =~= Set::<T>::empty());
        assert(Set::<T>::empty().len() == 0);
    } else {
        lemma_build_from_seq(s.drop_last());
        lemma_insert_preserves_invariant(opt_insert_seq(None, s.drop_last()), s.last());
        s.drop_last().lemma_push_to_set_commute(s.last());
        assert(s =~= s.drop_last().push(s.last()));
        assert(opt_values(opt_insert_seq(None, s)) =~= s.to_set());
    }
}

/// Inserting a value twice is the same as inserting it once: the second
/// insertion finds the value already present and changes nothing.
pub proof fn lemma_insert_twice<T: Ord>(o: Option<Box<Node<T>>>, value: T)
    requires
        lawful_cmp::<T>(),
        opt_ordered(o),
    ensures
        opt_insert(opt_insert(o, value), value) == opt_insert(o, value),
{
    lemma_insert_preserves_invariant(o, value);
    lemma_insert_duplicate(opt_insert(o, value), value);
}

/// Content does not depend on insertion order: two sequences holding the
/// same collection of values build trees that store exactly the same value
/// set, so every membership query answers alike — even though the two shapes
/// may differ.
pub proof fn lemma_content_ignores_order<T: Ord>(s1: Seq<T>, s2: Seq<T>)
    requires
        lawful_cmp::<T>(),
        s1.to_set() == s2.to_set(),
    ensures
        opt_values(opt_insert_seq(None, s1)) == opt_values(opt_insert_seq(None, s2)),
{
    lemma_build_from_seq(s1);
    lemma_build_from_seq(s2);
}

/// The preorder walk is as long as the subtree has nodes.
pub proof fn lemma_preorder_len<T>(o: Option<Box<Node<T>>>)
    ensures
        opt_preorder(o).len() == opt_size(o),
    decreases o,
{
    match o {
        None => {},
        Some(n) => {
            lemma_preorder_len(n.left);
            lemma_preorder_len(n.right);
        },
    }
}

/// Traversal determinism and completeness: the preorder walk of an ordered
/// subtree yields every stored value exactly once.
pub proof fn lemma_preorder_yields_each_value_once<T: Ord>(o: Option<Box<Node<T>>>)
    requires
        lawful_cmp::<T>(),
        opt_ordered(o),
    ensures
        opt_preorder(o).no_duplicates(),
        opt_preorder(o).to_set() == opt_values(o),
        opt_preorder(o).len() == opt_size(o),
    decreases o,
{
    broadcast use vstd::seq_lib::group_seq_properties;

    lemma_preorder_len(o);
    lemma_cmp_properties::<T>();
    match o {
        None => {
            assert(opt_preorder(o).to_set() =~= opt_values(o));
        },
        Some(n) => {
            lemma_preorder_yields_each_value_once(n.left);
            lemma_preorder_yields_each_value_once(n.right);
            let l = opt_preorder(n.left);
            let r = opt_preorder(n.right);
            assert forall|i: int, j: int| 0 <= i < l.len() && 0 <= j < r.len() implies l[i]
                != r[j] by {
                assert(l.to_set().contains(l[i]));
                assert(r.to_set().contains(r[j]));
                assert(lt(l[i], n.value) && lt(n.value, r[j]));
                if l[i] == r[j] {
                    assert(lt(l[i], l[i]));
                }
            }
            vstd::seq_lib::lemma_no_dup_in_concat(l, r);
            assert forall|j: int| 0 <= j < (l + r).len() implies seq![n.value][0] != (l
                + r)[j] by {
                if j < l.len() {
                    assert(l.to_set().contains(l[j]));
                    if n.value == l[j] {
                        assert(lt(n.value, n.value));
                    }
                } else {
                    assert(r.to_set().contains(r[j - l.len()]));
                    if n.value == r[j - l.len()] {
                        assert(lt(n.value, n.value));
                    }
                }
            }
            vstd::seq_lib::lemma_no_dup_in_concat(seq![n.value], l + r);
            assert(n.preorder() =~= seq![n.value] + (l + r));
            vstd::seq_lib::seq_to_set_distributes_over_add(seq![n.value], l + r);
            vstd::seq_lib::seq_to_set_distributes_over_add(l, r);
            assert(seq![n.value].to_set() =~= Set::<T>::empty().insert(n.value));
            assert(opt_preorder(o).to_set() =~= opt_values(o));
        },
    }
}

/// On an ordered subtree, size and number of distinct stored values agree.
pub proof fn lemma_size_counts_values<T: Ord>(o: Option<Box<Node<T>>>)
    requires
        lawful_cmp::<T>(),
        opt_ordered(o),
    ensures
        opt_size(o) == opt_values(o).len(),
{
    lemma_preorder_yields_each_value_once(o);
    opt_preorder(o).unique_seq_to_set();
}

/// Min correctness: the value reached by always descending left in an
/// ordered subtree is stored in it and is strictly below every other stored
/// value.
pub proof fn lemma_leftmost_is_least<T: Ord>(n: Node<T>)
    requires
        lawful_cmp::<T>(),
        n.ordered(),
    ensures
        n.values().contains(n.leftmost()),
        forall|v: T| #[trigger] n.values().contains(v) && v != n.leftmost() ==> lt(n.leftmost(), v),
    decreases n,
{
    lemma_cmp_properties::<T>();
    match n.left {
        None => {
            assert forall|v: T| #[trigger] n.values().contains(v) && v != n.leftmost() implies lt(
                n.leftmost(),
                v,
            ) by {
                assert(opt_values(n.right).contains(v));
            }
        },
        Some(l) => {
            lemma_leftmost_is_least(*l);
            let m = n.leftmost();
            assert(opt_values(n.left).contains(m));
            assert forall|v: T| #[trigger] n.values().contains(v) && v != m implies lt(m, v) by {
                if opt_values(n.left).contains(v) {
                } else if v == n.value {
                    assert(lt(m, n.value));
                } else {
                    assert(opt_values(n.right).contains(v));
                    assert(lt(m, n.value) && lt(n.value, v));
                }
            }
        },
    }
}

/// Max correctness: the value reached by always descending right in an
/// ordered subtree is stored in it and is strictly above every other stored
/// value.
pub proof fn lemma_rightmost_is_greatest<T: Ord>(n: Node<T>)
    requires
        lawful_cmp::<T>(),
        n.ordered(),
    ensures
        n.values().contains(n.rightmost()),
        forall|v: T| #[trigger] n.values().contains(v) && v != n.rightmost() ==> lt(
            v,
            n.rightmost(),
        ),
    decreases n,
{
    lemma_cmp_properties::<T>();
    match n.right {
        None => {
            assert forall|v: T| #[trigger] n.values().contains(v) && v != n.rightmost() implies lt(
                v,
                n.rightmost(),
            ) by {
                assert(opt_values(n.left).contains(v));
            }
        },
        Some(x) => {
            lemma_rightmost_is_greatest(*x);
            let m = n.rightmost();
            assert(opt_values(n.right).contains(m));
            assert forall|v: T| #[trigger] n.values().contains(v) && v != m implies lt(v, m) by {
                if opt_values(n.right).contains(v) {
                } else if v == n.value {
                    assert(lt(n.value, m));
                } else {
                    assert(opt_values(n.left).contains(v));
                    assert(lt(v, n.value) && lt(n.value, m));
                }
            }
        },
    }
}

/// A tree is never taller than it has nodes, so the height of a well-formed
/// tree always fits beside its count.
pub proof fn lemma_height_le_size<T>(o: Option<Box<Node<T>>>)
    ensures
        opt_height(o) <= opt_size(o),
    decreases o,
{
    match o {
        None => {},
        Some(n) => {
            lemma_height_le_size(n.left);
            lemma_height_le_size(n.right);
        },
    }
}

impl<T> BinaryTree<T> {
    /// Number of nodes actually reachable from the root (the cached `count`
    /// field agrees with this on every well-formed tree).
    pub open spec fn size(self) -> nat {
        opt_size(self.root)
    }

    /// Height of the whole tree; 0 iff the tree is empty.
    pub open spec fn spec_height(self) -> nat {
        opt_height(self.root)
    }

    /// The set of values currently stored.
    pub open spec fn values(self) -> Set<T> {
        opt_values(self.root)
    }

    /// The sequence both traversal modes yield: the preorder walk of the tree.
    pub open spec fn preorder(self) -> Seq<T> {
        opt_preorder(self.root)
    }
}

impl<T: Ord> BinaryTree<T> {
    /// The search-tree ordering property of the whole tree.
    pub open spec fn ordered(self) -> bool {
        opt_ordered(self.root)
    }

    /// The tree's invariant: search-tree ordering holds everywhere and the
    /// cached `count` equals the number of reachable nodes. Every operation
    /// of the container preserves this.
    pub open spec fn well_formed(self) -> bool {
        &&& self.ordered()
        &&& self.count == self.size()
    }

    /// Constructs a new empty `BinaryTree<T>`.
    pub fn new() -> (tree: Self)
        ensures
            tree.root is None,
            tree.count == 0,
    {
        BinaryTree { root: None, count: 0 }
    }

    /// Returns `true` if the binary tree contains no elements.
    pub fn is_empty(&self) -> (r: bool)
        ensures
            r <==> self.root is None,
    {
        self.root.is_none()
    }

    /// Clears the binary tree of all elements, resetting it to the empty state.
    pub fn clear(&mut self)
        ensures
            final(self).root is None,
            final(self).count == 0,
    {
        self.root = None;
        self.count = 0;
    }

    /// Returns the number of elements in the binary tree.
    pub fn count(&self) -> (r: usize)
        ensures
            r == self.count,
    {
        self.count
    }

    /// Traverses and returns the height of the binary tree: the number of
    /// nodes on the longest root-to-leaf path. An empty tree has height 0.
    pub fn height(&self) -> (h: usize)
        requires
            self.spec_height() <= usize::MAX,
        ensures
            h == self.spec_height(),
    {
        height_below(&self.root)
    }

    /// Returns the smallest element in the `BinaryTree`: the value reached by
    /// following left children from the root. Absent on an empty tree.
    pub fn min(&self) -> (r: Option<&T>)
        ensures
            match self.root {
                Some(n) => r matches Some(v) && *v == n.leftmost(),
                None => r is None,
            },
    {
        match &self.root {
            Some(n) => Some(leftmost_in(&**n)),
            None => None,
        }
    }

    /// Returns the largest element in the `BinaryTree`: the value reached by
    /// following right children from the root. Absent on an empty tree.
    pub fn max(&self) -> (r: Option<&T>)
        ensures
            match self.root {
                Some(n) => r matches Some(v) && *v == n.rightmost(),
                None => r is None,
            },
    {
        match &self.root {
            Some(n) => Some(rightmost_in(&**n)),
            None => None,
        }
    }

    /// Returns the value contained within the root element.
    pub fn root(&self) -> (r: Option<&T>)
        ensures
            match self.root {
                Some(n) => r matches Some(v) && *v == n.value,
                None => r is None,
            },
    {
        match &self.root {
            Some(n) => Some(&n.value),
            None => None,
        }
    }
}

/// Walks the search path below `node` and attaches `value` as a new leaf at
/// its end, unless the path meets an equal value. Returns whether a node was
/// added.
fn insert_into<T: Ord>(node: &mut Option<Box<Node<T>>>, value: T) -> (added: bool)
    requires
        lawful_cmp::<T>(),
        opt_ordered(*old(node)),
    ensures
        *final(node) == opt_insert(*old(node), value),
        added == !opt_values(*old(node)).contains(value),
    decreases *old(node),
{
    proof {
        lemma_cmp_properties::<T>();
    }
    match node.take() {
        None => {
            *node = Some(Box::new(Node::new(value)));
            true
        },
        Some(mut boxed) => {
            let added = match value.cmp(&boxed.value) {
                Ordering::Equal => false,
                Ordering::Less => {
                    proof {
                        if opt_values(boxed.right).contains(value) {
                            assert(lt(value, value));
                            assert(false);
                        }
                    }
                    insert_into(&mut boxed.left, value)
                },
                Ordering::Greater => {
                    proof {
                        assert(lt(boxed.value, value));
                        if opt_values(boxed.left).contains(value) {
                            assert(lt(value, value));
                            assert(false);
                        }
                    }
                    insert_into(&mut boxed.right, value)
                },
            };
            *node = Some(boxed);
            added
        },
    }
}

impl<T: Ord> BinaryTree<T> {
    /// Inserts the provided value into the `BinaryTree`, preserving the
    /// search-tree invariant. A value the tree already stores is rejected:
    /// the tree keeps its shape and its count.
    pub fn insert(&mut self, value: T)
        requires
            lawful_cmp::<T>(),
            old(self).well_formed(),
            old(self).count < usize::MAX,
        ensures
            final(self).root == opt_insert(old(self).root, value),
            final(self).well_formed(),
            final(self).values() == old(self).values().insert(value),
            old(self).values().contains(value) ==> *final(self) == *old(self),
            !old(self).values().contains(value) ==> final(self).count == old(self).count + 1,
    {
        proof {
            lemma_insert_preserves_invariant(self.root, value);
            if opt_values(self.root).contains(value) {
                lemma_insert_duplicate(self.root, value);
            }
        }
        let added = insert_into(&mut self.root, value);
        if added {
            self.count = self.count + 1;
        }
    }

    /// Returns `true` if the `BinaryTree` contains an element with the given
    /// value.
    pub fn contains(&self, target: &T) -> (r: bool)
        requires
            lawful_cmp::<T>(),
            self.ordered(),
        ensures
            r == self.values().contains(*target),
    {
        search_in(&self.root, target)
    }

    /// Extends the `BinaryTree` with the provided values, inserting them one
    /// by one in sequence order.
    pub fn extend(&mut self, values: Vec<T>)
        requires
            lawful_cmp::<T>(),
            old(self).well_formed(),
            old(self).count + values@.len() <= usize::MAX,
        ensures
            final(self).root == opt_insert_seq(old(self).root, values@),
            final(self).well_formed(),
            final(self).values() == old(self).values().union(values@.to_set()),
    {
        let ghost all = values@;
        let ghost mut j: int = 0;
        let mut vals = values;
        while vals.len() > 0
            invariant
                lawful_cmp::<T>(),
                0 <= j <= all.len(),
                vals@ == all.skip(j),
                self.well_formed(),
                self.root == opt_insert_seq(old(self).root, all.take(j)),
                self.values() == opt_values(old(self).root).union(all.take(j).to_set()),
                self.count <= old(self).count + j,
                old(self).count + all.len() <= usize::MAX,
            decreases vals@.len(),
        {
            let v = vals.remove(0);
            proof {
                assert(all.skip(j)[0] == all[j]);
                assert(vals@ =~= all.skip(j + 1));
            }
            self.insert(v);
            proof {
                lemma_values_finite(self.root);
                j = j + 1;
                assert(all.take(j).drop_last() =~= all.take(j - 1));
                assert(all.take(j).last() == all[j - 1]);
                all.take(j - 1).lemma_push_to_set_commute(all[j - 1]);
                assert(all.take(j) =~= all.take(j - 1).push(all[j - 1]));
                assert(self.values() =~= opt_values(old(self).root).union(
                    all.take(j).to_set(),
                ));
            }
        }
        proof {
            assert(all.take(all.len() as int) =~= all);
        }
    }

    /// Creates a `BinaryTree<T>` from a `Vec<T>`, inserting the values in
    /// order.
    pub fn from(values: Vec<T>) -> (tree: Self)
        requires
            lawful_cmp::<T>(),
        ensures
            tree.root == opt_insert_seq(None, values@),
            tree.well_formed(),
            tree.values() == values@.to_set(),
            tree.count == values@.to_set().len(),
    {
        let ghost s = values@;
        // An exec length is a usize, which pins the sequence's length below
        // the bound that `extend` asks of its caller.
        let n = values.len();
        proof {
            assert(s.len() == n);
        }
        let mut tree = BinaryTree::new();
        tree.extend(values);
        proof {
            lemma_build_from_seq::<T>(s);
            assert(Set::<T>::empty().union(s.to_set()) =~= s.to_set());
        }
        tree
    }

    /// Constructs a `BinaryTree<T>` from a sequence of values, inserting them
    /// in order.
    pub fn from_iter(values: Vec<T>) -> (tree: Self)
        requires
            lawful_cmp::<T>(),
        ensures
            tree.root == opt_insert_seq(None, values@),
            tree.well_formed(),
            tree.values() == values@.to_set(),
            tree.count == values@.to_set().len(),
    {
        Self::from(values)
    }
}

/// Classic search along the comparison path below `node`.
fn search_in<T: Ord>(node: &Option<Box<Node<T>>>, target: &T) -> (r: bool)
    requires
        lawful_cmp::<T>(),
        opt_ordered(*node),
    ensures
        r == opt_values(*node).contains(*target),
    decreases *node,
{
    proof {
        lemma_cmp_properties::<T>();
    }
    match node {
        None => false,
        Some(n) => match target.cmp(&n.value) {
            Ordering::Equal => true,
            Ordering::Less => {
                proof {
                    if opt_values(n.right).contains(*target) {
                        assert(lt(*target, *target));
                        assert(false);
                    }
                }
                search_in(&n.left, target)
            },
            Ordering::Greater => {
                proof {
                    assert(lt(n.value, *target));
                    if opt_values(n.left).contains(*target) {
                        assert(lt(*target, *target));
                        assert(false);
                    }
                }
                search_in(&n.right, target)
            },
        },
    }
}

/// The value of the leftmost node below `node`.
fn leftmost_in<T>(node: &Node<T>) -> (r: &T)
    ensures
        *r == node.leftmost(),
    decreases *node,
{
    match &node.left {
        Some(l) => leftmost_in(&**l),
        None => &node.value,
    }
}

/// The value of the rightmost node below `node`.
fn rightmost_in<T>(node: &Node<T>) -> (r: &T)
    ensures
        *r == node.rightmost(),
    decreases *node,
{
    match &node.right {
        Some(x) => rightmost_in(&**x),
        None => &node.value,
    }
}

/// The height of the subtree hanging from `node`.
fn height_below<T>(node: &Option<Box<Node<T>>>) -> (h: usize)
    requires
        opt_height(*node) <= usize::MAX,
    ensures
        h == opt_height(*node),
    decreases *node,
{
    match node {
        None => 0,
        Some(n) => {
            let hl = height_below(&n.left);
            let hr = height_below(&n.right);
            if hl < hr {
                1 + hr
            } else {
                1 + hl
            }
        },
    }
}

/// A borrowed sequence of values, read back as the values themselves.
pub open spec fn deref_all<T>(s: Seq<&T>) -> Seq<T> {
    s.map_values(|r: &T| *r)
}

/// An iterator that moves out of the `BinaryTree`, yielding its values in
/// preorder. It is not restartable: once exhausted it stays exhausted.
pub struct IntoIter<T> {
    items: Vec<T>,
}

impl<T> IntoIter<T> {
    /// The values this iterator has yet to yield, in order.
    pub closed spec fn remaining(self) -> Seq<T> {
        self.items@
    }

    /// Yields the next value in preorder, or signals exhaustion.
    pub fn next(&mut self) -> (r: Option<T>)
        ensures
            old(self).remaining().len() == 0 ==> r is None && *final(self) == *old(self),
            old(self).remaining().len() > 0 ==> r == Some(old(self).remaining()[0])
                && final(self).remaining() == old(self).remaining().skip(1),
    {
        if self.items.len() > 0 {
            let v = self.items.remove(0);
            proof {
                assert(self.items@ =~= old(self).remaining().skip(1));
            }
            Some(v)
        } else {
            None
        }
    }
}

/// An iterator that borrows from the `BinaryTree`, yielding references to
/// its values in preorder. It is not restartable.
pub struct Iter<'a, T> {
    items: Vec<&'a T>,
    index: usize,
}

impl<'a, T> Iter<'a, T> {
    /// The values this iterator has yet to yield, in order.
    pub closed spec fn remaining(self) -> Seq<T> {
        deref_all(
            self.items@.skip(vstd::math::min(self.index as int, self.items@.len() as int)),
        )
    }

    /// Yields a reference to the next value in preorder, or signals
    /// exhaustion.
    pub fn next(&mut self) -> (r: Option<&'a T>)
        ensures
            old(self).remaining().len() == 0 ==> r is None && *final(self) == *old(self),
            old(self).remaining().len() > 0 ==> (r matches Some(v) && *v == old(self).remaining()[0])
                && final(self).remaining() == old(self).remaining().skip(1),
    {
        if self.index < self.items.len() {
            let v = self.items[self.index];
            self.index = self.index + 1;
            proof {
                assert(self.items@.skip(old(self).index as int)[0] == self.items@[old(
                    self,
                ).index as int]);
                assert(old(self).remaining()[0] == *self.items@[old(self).index as int]);
                assert(deref_all(self.items@.skip(self.index as int)) =~= deref_all(
                    self.items@.skip(old(self).index as int),
                ).skip(1));
            }
            Some(v)
        } else {
            proof {
                assert(self.items@.skip(self.items@.len() as int) =~= Seq::<&T>::empty());
            }
            None
        }
    }
}

/// Moves every value below `node` onto the end of `out`, in preorder.
fn push_preorder<T>(node: Option<Box<Node<T>>>, out: &mut Vec<T>)
    ensures
        final(out)@ == old(out)@ + opt_preorder(node),
    decreases node,
{
    match node {
        None => {
            proof {
                assert(old(out)@ + opt_preorder::<T>(None) =~= old(out)@);
            }
        },
        Some(b) => {
            let n = *b;
            let ghost whole = n.preorder();
            let Node { value, left, right } = n;
            out.push(value);
            push_preorder(left, out);
            push_preorder(right, out);
            proof {
                assert(out@ =~= old(out)@ + whole);
            }
        },
    }
}

/// Pushes a reference to every value below `node` onto the end of `out`, in
/// preorder.
fn push_preorder_refs<'a, T>(node: &'a Option<Box<Node<T>>>, out: &mut Vec<&'a T>)
    ensures
        deref_all(final(out)@) == deref_all(old(out)@) + opt_preorder(*node),
    decreases *node,
{
    match node {
        None => {
            proof {
                assert(deref_all(old(out)@) + opt_preorder::<T>(None) =~= deref_all(old(out)@));
            }
        },
        Some(b) => {
            out.push(&b.value);
            proof {
                assert(deref_all(out@) =~= deref_all(old(out)@).push(b.value));
            }
            push_preorder_refs(&b.left, out);
            push_preorder_refs(&b.right, out);
            proof {
                assert(deref_all(out@) =~= deref_all(old(out)@) + opt_preorder(*node));
            }
        },
    }
}

impl<T> BinaryTree<T> {
    /// Returns a non-consuming iterator over the `BinaryTree`, yielding
    /// references to all values in preorder.
    pub fn iter(&self) -> (it: Iter<'_, T>)
        ensures
            it.remaining() == self.preorder(),
    {
        let mut items: Vec<&T> = Vec::new();
        push_preorder_refs(&self.root, &mut items);
        proof {
            assert(items@.skip(0) =~= items@);
            assert(deref_all(items@) =~= Seq::<T>::empty() + self.preorder());
        }
        Iter { items, index: 0 }
    }

    /// Returns a consuming iterator over the `BinaryTree`, yielding all
    /// values in preorder.
    pub fn into_iter(self) -> (it: IntoIter<T>)
        ensures
            it.remaining() == self.preorder(),
    {
        let ghost pre = self.preorder();
        let mut items: Vec<T> = Vec::new();
        push_preorder(self.root, &mut items);
        proof {
            assert(items@ =~= Seq::<T>::empty() + pre);
        }
        IntoIter { items }
    }
}

impl<T> Node<T> {
    /// Constructs a new `Node<T>` with no left or right child.
    pub fn new(value: T) -> (node: Self)
        ensures
            node == (Node { value, left: None, right: None }),
    {
        Node { value, left: None, right: None }
    }

    /// Returns a reference to the value of the node.
    pub fn value(&self) -> (r: &T)
        ensures
            *r == self.value,
    {
        &self.value
    }

    /// Returns an `Option` containing a reference to the left child of the node.
    pub fn left(&self) -> (r: Option<&Self>)
        ensures
            match self.left {
                Some(l) => r matches Some(x) && *x == *l,
                None => r is None,
            },
    {
        match &self.left {
            Some(l) => Some(&**l),
            None => None,
        }
    }

    /// Returns an `Option` containing a reference to the right child of the node.
    pub fn right(&self) -> (r: Option<&Self>)
        ensures
            match self.right {
                Some(x) => r matches Some(y) && *y == *x,
                None => r is None,
            },
    {
        match &self.right {
            Some(x) => Some(&**x),
            None => None,
        }
    }

    /// Returns an `Option` containing a mutable reference to the left child
    /// of the node.
    pub fn left_mut(&mut self) -> (r: Option<&mut Self>)
        ensures
            match old(self).left {
                Some(l) => r is Some && *r.unwrap() == *l && *final(self) == (Node {
                    left: Some(Box::new(*final(r.unwrap()))),
                    ..*old(self)
                }),
                None => r is None && *final(self) == *old(self),
            },
    {
        match &mut self.left {
            Some(l) => Some(&mut **l),
            None => None,
        }
    }

    /// Returns an `Option` containing a mutable reference to the right child
    /// of the node.
    pub fn right_mut(&mut self) -> (r: Option<&mut Self>)
        ensures
            match old(self).right {
                Some(x) => r is Some && *r.unwrap() == *x && *final(self) == (Node {
                    right: Some(Box::new(*final(r.unwrap()))),
                    ..*old(self)
                }),
                None => r is None && *final(self) == *old(self),
            },
    {
        match &mut self.right {
            Some(x) => Some(&mut **x),
            None => None,
        }
    }

    /// Creates a new `Node` from the provided value, and sets it as the left
    /// child of `self`, overwriting any child already there.
    pub fn set_left(&mut self, value: T)
        ensures
            *final(self) == (Node {
                left: Some(Box::new(Node { value, left: None, right: None })),
                ..*old(self)
            }),
    {
        self.left = Some(Box::new(Node::new(value)));
    }

    /// Creates a new `Node` from the provided value, and sets it as the right
    /// child of `self`, overwriting any child already there.
    pub fn set_right(&mut self, value: T)
        ensures
            *final(self) == (Node {
                right: Some(Box::new(Node { value, left: None, right: None })),
                ..*old(self)
            }),
    {
        self.right = Some(Box::new(Node::new(value)));
    }
}

} // verus!
