//! Level node of a tree: either contains other levels or leaves.
//!
//! The spec model of a node is the multiset of leaves reachable from it
//! (`leaf_ms`), its height, and its well-formedness: bounded fan-out on
//! every level, all leaves at the same depth, and on every node a minimum
//! bounding rectangle that is exactly the fold of its children's envelopes.

use vstd::prelude::*;
use vstd::multiset::Multiset;
use vstd::multiset::group_multiset_axioms;
use vstd::seq_lib::group_to_multiset_ensures;
use crate::geometry::{env_inverted, env_union, Env, Rect};
use crate::tree::mbr::leaf::MbrLeaf;
use crate::tree::mbr::leafgeometry::MbrLeafGeometry;

verus! {

broadcast use group_to_multiset_ensures, group_multiset_axioms;

/// The fold of the envelopes of `s`, starting from the inverted rect.
pub open spec fn fold_env<const DIM: usize, V: MbrLeafGeometry<DIM>>(s: Seq<V>) -> Env
    decreases s.len(),
{
    if s.len() == 0 {
        env_inverted(DIM as nat)
    } else {
        env_union(fold_env::<DIM, V>(s.drop_last()), s.last().envelope())
    }
}

/// `env_union` may reorder its second arguments: folding `b` then `c`
/// into `a` equals folding `c` then `b`.
pub proof fn lemma_env_union_swap(a: Env, b: Env, c: Env)
    ensures
        env_union(env_union(a, b), c) == env_union(env_union(a, c), b),
{
    assert(env_union(env_union(a, b), c) =~= env_union(env_union(a, c), b));
}

/// Folding boxes into a bound is associative.
pub proof fn lemma_env_union_assoc(a: Env, b: Env, c: Env)
    requires
        a.len() == b.len(),
    ensures
        env_union(env_union(a, b), c) == env_union(a, env_union(b, c)),
{
    assert(env_union(env_union(a, b), c) =~= env_union(a, env_union(b, c)));
}

/// The fold over a concatenation is the union of the two folds.
pub proof fn lemma_fold_env_concat<const DIM: usize, V: MbrLeafGeometry<DIM>>(a: Seq<V>, b: Seq<V>)
    ensures
        fold_env::<DIM, V>(a + b) == env_union(fold_env::<DIM, V>(a), fold_env::<DIM, V>(b)),
    decreases b.len(),
{
    if b.len() == 0 {
        assert(a + b =~= a);
        lemma_fold_env_len::<DIM, V>(a);
        assert(env_union(fold_env::<DIM, V>(a), env_inverted(DIM as nat)) =~= fold_env::<DIM, V>(
            a,
        ));
    } else {
        lemma_fold_env_concat::<DIM, V>(a, b.drop_last());
        assert((a + b).drop_last() =~= a + b.drop_last());
        assert((a + b).last() == b.last());
        lemma_fold_env_len::<DIM, V>(a);
        lemma_fold_env_len::<DIM, V>(b.drop_last());
        lemma_env_union_assoc(
            fold_env::<DIM, V>(a),
            fold_env::<DIM, V>(b.drop_last()),
            b.last().envelope(),
        );
    }
}

/// Two sequences with the same envelopes, element for element, fold to
/// the same bound.
pub proof fn lemma_fold_env_pointwise<
    const DIM: usize,
    V1: MbrLeafGeometry<DIM>,
    V2: MbrLeafGeometry<DIM>,
>(s1: Seq<V1>, s2: Seq<V2>)
    requires
        s1.len() == s2.len(),
        forall|i: int| 0 <= i < s1.len() ==> (#[trigger] s1[i]).envelope() == s2[i].envelope(),
    ensures
        fold_env::<DIM, V1>(s1) == fold_env::<DIM, V2>(s2),
    decreases s1.len(),
{
    if s1.len() > 0 {
        lemma_fold_env_pointwise::<DIM, V1, V2>(s1.drop_last(), s2.drop_last());
    }
}

/// The fold of envelopes always has one entry per axis.
pub proof fn lemma_fold_env_len<const DIM: usize, V: MbrLeafGeometry<DIM>>(s: Seq<V>)
    ensures
        fold_env::<DIM, V>(s).len() == DIM,
    decreases s.len(),
{
    if s.len() > 0 {
        lemma_fold_env_len::<DIM, V>(s.drop_last());
    }
}

/// Appending an element folds its envelope into the bound.
pub proof fn lemma_fold_env_push<const DIM: usize, V: MbrLeafGeometry<DIM>>(s: Seq<V>, v: V)
    ensures
        fold_env::<DIM, V>(s.push(v)) == env_union(fold_env::<DIM, V>(s), v.envelope()),
{
    assert(s.push(v).drop_last() =~= s);
    assert(s.push(v).last() == v);
}

/// Removing one element: its envelope can be split off the fold.
pub proof fn lemma_fold_env_remove<const DIM: usize, V: MbrLeafGeometry<DIM>>(s: Seq<V>, i: int)
    requires
        0 <= i < s.len(),
    ensures
        fold_env::<DIM, V>(s) == env_union(fold_env::<DIM, V>(s.remove(i)), s[i].envelope()),
    decreases s.len(),
{
    if i == s.len() - 1 {
        assert(s.remove(i) =~= s.drop_last());
    } else {
        let t = s.drop_last();
        lemma_fold_env_remove::<DIM, V>(t, i);
        assert(s.remove(i).drop_last() =~= t.remove(i));
        assert(s.remove(i).last() == s.last());
        lemma_env_union_swap(fold_env::<DIM, V>(t.remove(i)), s[i].envelope(), s.last().envelope());
    }
}

/// The fold of envelopes does not depend on the order of the elements.
pub proof fn lemma_fold_env_perm<const DIM: usize, V: MbrLeafGeometry<DIM>>(s1: Seq<V>, s2: Seq<V>)
    requires
        s1.to_multiset() == s2.to_multiset(),
    ensures
        fold_env::<DIM, V>(s1) == fold_env::<DIM, V>(s2),
    decreases s1.len(),
{
    s1.to_multiset_ensures();
    s2.to_multiset_ensures();
    if s1.len() == 0 {
        assert(s2.len() == 0);
    } else {
        let x = s1.last();
        assert(s1.to_multiset().contains(x));
        assert(s2.contains(x));
        let j = choose|j: int| 0 <= j < s2.len() && s2[j] == x;
        lemma_fold_env_remove::<DIM, V>(s2, j);
        assert(s1.drop_last() =~= s1.remove(s1.len() - 1));
        assert(s1.drop_last().to_multiset() == s2.remove(j).to_multiset()) by {
            assert(s1.remove(s1.len() - 1).to_multiset() == s1.to_multiset().remove(x));
            assert(s2.remove(j).to_multiset() == s2.to_multiset().remove(x));
        };
        lemma_fold_env_perm::<DIM, V>(s1.drop_last(), s2.remove(j));
    }
}

/// Every element's envelope lies inside the fold of the whole sequence.
pub proof fn lemma_fold_env_covers<const DIM: usize, V: MbrLeafGeometry<DIM>>(s: Seq<V>, i: int)
    requires
        0 <= i < s.len(),
    ensures
        crate::geometry::env_contained(s[i].envelope(), fold_env::<DIM, V>(s), DIM as nat),
    decreases s.len(),
{
    lemma_fold_env_len::<DIM, V>(s);
    if i == s.len() - 1 {
        assert(s.drop_last().len() < s.len());
        lemma_env_union_grows(fold_env::<DIM, V>(s.drop_last()), s[i].envelope(), DIM as nat);
        assert(fold_env::<DIM, V>(s.drop_last()).len() == DIM) by {
            lemma_fold_env_len::<DIM, V>(s.drop_last());
        };
    } else {
        lemma_fold_env_covers::<DIM, V>(s.drop_last(), i);
        lemma_fold_env_len::<DIM, V>(s.drop_last());
        lemma_env_union_grows(fold_env::<DIM, V>(s.drop_last()), s.last().envelope(), DIM as nat);
        lemma_env_contained_trans(
            s[i].envelope(),
            fold_env::<DIM, V>(s.drop_last()),
            fold_env::<DIM, V>(s),
            DIM as nat,
        );
    }
}

/// A box folded into a bound still contains everything it contained, and
/// the bound contains the box.
pub proof fn lemma_env_union_grows(a: Env, b: Env, dim: nat)
    requires
        dim <= a.len(),
    ensures
        crate::geometry::env_contained(a, env_union(a, b), dim),
        crate::geometry::env_contained(b, env_union(a, b), dim),
{
    let u = env_union(a, b);
    assert forall|d: int| #![trigger a[d], u[d]] 0 <= d < dim implies u[d].0 <= a[d].0 && a[d].1
        <= u[d].1 by {
        assert(u[d] == env_union(a, b)[d]);
    };
    assert forall|d: int| #![trigger b[d], u[d]] 0 <= d < dim implies u[d].0 <= b[d].0 && b[d].1
        <= u[d].1 by {
        assert(u[d] == env_union(a, b)[d]);
    };
}

/// Containment of envelopes is transitive.
pub proof fn lemma_env_contained_trans(a: Env, b: Env, c: Env, dim: nat)
    requires
        crate::geometry::env_contained(a, b, dim),
        crate::geometry::env_contained(b, c, dim),
    ensures
        crate::geometry::env_contained(a, c, dim),
{
    assert forall|d: int| #![trigger a[d], c[d]] 0 <= d < dim implies c[d].0 <= a[d].0 && a[d].1
        <= c[d].1 by {
        assert(b[d].0 <= a[d].0 && a[d].1 <= b[d].1);
        assert(c[d].0 <= b[d].0 && b[d].1 <= c[d].1);
    };
}

/// Level node of a tree. Either contains other levels or leaves.
#[derive(Debug)]
pub enum RTreeNode<const DIM: usize, LG, T> {
    /// Contains only other levels
    Level { mbr: Rect<DIM>, children: Vec<RTreeNode<DIM, LG, T>> },
    /// Contains only leaves
    Leaves { mbr: Rect<DIM>, children: Vec<MbrLeaf<DIM, LG, T>> },
}

/// The multiset of all leaves reachable from the nodes of `s`.
pub open spec fn nodes_leaf_ms<const DIM: usize, LG, T>(s: Seq<RTreeNode<DIM, LG, T>>) -> Multiset<
    MbrLeaf<DIM, LG, T>,
>
    decreases s,
{
    if s.len() == 0 {
        Multiset::empty()
    } else {
        nodes_leaf_ms(s.drop_last()).add(s.last().leaf_ms())
    }
}

impl<const DIM: usize, LG, T> RTreeNode<DIM, LG, T> {
    /// The multiset of all leaves reachable from this node.
    pub open spec fn leaf_ms(self) -> Multiset<MbrLeaf<DIM, LG, T>>
        decreases self,
    {
        match self {
            RTreeNode::Leaves { children, .. } => children@.to_multiset(),
            RTreeNode::Level { children, .. } => nodes_leaf_ms(children@),
        }
    }

    /// Does the node point to leaves?
    pub open spec fn is_leaves(self) -> bool {
        match self {
            RTreeNode::Leaves { .. } => true,
            RTreeNode::Level { .. } => false,
        }
    }

    /// The number of direct children.
    pub open spec fn spec_len(self) -> int {
        match self {
            RTreeNode::Leaves { children, .. } => children@.len() as int,
            RTreeNode::Level { children, .. } => children@.len() as int,
        }
    }

    /// The node's bounding rectangle, as an envelope.
    pub open spec fn env(self) -> Env {
        match self {
            RTreeNode::Leaves { mbr, .. } => mbr.edges@,
            RTreeNode::Level { mbr, .. } => mbr.edges@,
        }
    }

    /// Distance from this node down to its leaf level.
    pub open spec fn height(self) -> nat
        decreases self,
    {
        match self {
            RTreeNode::Leaves { .. } => 1,
            RTreeNode::Level { children, .. } => 1 + if children@.len() == 0 {
                0nat
            } else {
                children@[0].height()
            },
        }
    }

    /// The leaves reachable from this node, in traversal order.
    pub open spec fn leaf_seq(self) -> Seq<MbrLeaf<DIM, LG, T>>
        decreases self,
    {
        match self {
            RTreeNode::Leaves { children, .. } => children@,
            RTreeNode::Level { children, .. } => nodes_leaf_seq(children@),
        }
    }

    /// The sequence of reachable leaves holds exactly the leaf multiset.
    pub proof fn lemma_leaf_seq_ms(self)
        ensures
            self.leaf_seq().to_multiset() == self.leaf_ms(),
        decreases self,
    {
        match self {
            RTreeNode::Leaves { children, .. } => {},
            RTreeNode::Level { children, .. } => {
                lemma_nodes_leaf_seq_ms(children@);
            },
        }
    }

}

/// Appending a node adds its leaves to the reachable multiset.
pub proof fn lemma_nodes_leaf_ms_push<const DIM: usize, LG, T>(
    s: Seq<RTreeNode<DIM, LG, T>>,
    n: RTreeNode<DIM, LG, T>,
)
    ensures
        nodes_leaf_ms(s.push(n)) == nodes_leaf_ms(s).add(n.leaf_ms()),
{
    assert(s.push(n).drop_last() =~= s);
    assert(s.push(n).last() == n);
}

/// Removing one node: its leaves can be split off the reachable multiset.
pub proof fn lemma_nodes_leaf_ms_remove<const DIM: usize, LG, T>(
    s: Seq<RTreeNode<DIM, LG, T>>,
    i: int,
)
    requires
        0 <= i < s.len(),
    ensures
        nodes_leaf_ms(s) == nodes_leaf_ms(s.remove(i)).add(s[i].leaf_ms()),
    decreases s.len(),
{
    if i == s.len() - 1 {
        assert(s.remove(i) =~= s.drop_last());
    } else {
        let t = s.drop_last();
        lemma_nodes_leaf_ms_remove(t, i);
        assert(s.remove(i).drop_last() =~= t.remove(i));
        assert(s.remove(i).last() == s.last());
        assert(nodes_leaf_ms(t.remove(i)).add(s.last().leaf_ms()).add(s[i].leaf_ms())
            =~= nodes_leaf_ms(t.remove(i)).add(s[i].leaf_ms()).add(s.last().leaf_ms()));
    }
}

/// The reachable leaf multiset does not depend on the order of the nodes.
pub proof fn lemma_nodes_leaf_ms_perm<const DIM: usize, LG, T>(
    s1: Seq<RTreeNode<DIM, LG, T>>,
    s2: Seq<RTreeNode<DIM, LG, T>>,
)
    requires
        s1.to_multiset() == s2.to_multiset(),
    ensures
        nodes_leaf_ms(s1) == nodes_leaf_ms(s2),
    decreases s1.len(),
{
    s1.to_multiset_ensures();
    s2.to_multiset_ensures();
    if s1.len() == 0 {
        assert(s2.len() == 0);
    } else {
        let x = s1.last();
        assert(s1.to_multiset().contains(x));
        assert(s2.contains(x));
        let j = choose|j: int| 0 <= j < s2.len() && s2[j] == x;
        lemma_nodes_leaf_ms_remove(s2, j);
        assert(s1.drop_last() =~= s1.remove(s1.len() - 1));
        assert(s1.drop_last().to_multiset() == s2.remove(j).to_multiset()) by {
            assert(s1.remove(s1.len() - 1).to_multiset() == s1.to_multiset().remove(x));
            assert(s2.remove(j).to_multiset() == s2.to_multiset().remove(x));
        };
        lemma_nodes_leaf_ms_perm(s1.drop_last(), s2.remove(j));
    }
}

/// The leaves reachable from a concatenation are the leaves reachable
/// from the two parts.
pub proof fn lemma_nodes_leaf_ms_concat<const DIM: usize, LG, T>(
    a: Seq<RTreeNode<DIM, LG, T>>,
    b: Seq<RTreeNode<DIM, LG, T>>,
)
    ensures
        nodes_leaf_ms(a + b) == nodes_leaf_ms(a).add(nodes_leaf_ms(b)),
    decreases b.len(),
{
    if b.len() == 0 {
        assert(a + b =~= a);
        assert(nodes_leaf_ms(a).add(nodes_leaf_ms(b)) =~= nodes_leaf_ms(a));
    } else {
        lemma_nodes_leaf_ms_concat(a, b.drop_last());
        assert((a + b).drop_last() =~= a + b.drop_last());
        assert((a + b).last() == b.last());
        assert(nodes_leaf_ms(a).add(nodes_leaf_ms(b.drop_last())).add(b.last().leaf_ms())
            =~= nodes_leaf_ms(a).add(nodes_leaf_ms(b)));
    }
}

/// Two node sequences whose members hold equally many leaves, member for
/// member, hold equally many leaves in all.
pub proof fn lemma_nodes_leaf_ms_len_pointwise<const DIM: usize, LG, T>(
    s1: Seq<RTreeNode<DIM, LG, T>>,
    s2: Seq<RTreeNode<DIM, LG, T>>,
)
    requires
        s1.len() == s2.len(),
        forall|i: int|
            0 <= i < s1.len() ==> (#[trigger] s1[i]).leaf_ms().len() == s2[i].leaf_ms().len(),
    ensures
        nodes_leaf_ms(s1).len() == nodes_leaf_ms(s2).len(),
    decreases s1.len(),
{
    if s1.len() > 0 {
        lemma_nodes_leaf_ms_len_pointwise(s1.drop_last(), s2.drop_last());
    }
}

/// A leaf reachable from one of the nodes of `s` is reachable from one of
/// them in particular.
pub proof fn lemma_nodes_leaf_ms_member<const DIM: usize, LG, T>(
    s: Seq<RTreeNode<DIM, LG, T>>,
    l: MbrLeaf<DIM, LG, T>,
)
    requires
        nodes_leaf_ms(s).contains(l),
    ensures
        exists|i: int| 0 <= i < s.len() && (#[trigger] s[i]).leaf_ms().contains(l),
    decreases s.len(),
{
    if s.len() > 0 {
        if s.last().leaf_ms().contains(l) {
            assert(0 <= s.len() - 1 < s.len() && s[s.len() - 1].leaf_ms().contains(l));
        } else {
            lemma_nodes_leaf_ms_member(s.drop_last(), l);
            let i = choose|i: int|
                0 <= i < s.drop_last().len() && (#[trigger] s.drop_last()[i]).leaf_ms().contains(l);
            assert(0 <= i < s.len() && s[i].leaf_ms().contains(l));
        }
    }
}

/// The leaves reachable from the nodes of `s`, in traversal order.
pub open spec fn nodes_leaf_seq<const DIM: usize, LG, T>(s: Seq<RTreeNode<DIM, LG, T>>) -> Seq<
    MbrLeaf<DIM, LG, T>,
>
    decreases s,
{
    if s.len() == 0 {
        Seq::empty()
    } else {
        nodes_leaf_seq(s.drop_last()) + s.last().leaf_seq()
    }
}

/// The sequence form of the reachable leaves holds exactly the leaves.
pub proof fn lemma_nodes_leaf_seq_ms<const DIM: usize, LG, T>(s: Seq<RTreeNode<DIM, LG, T>>)
    ensures
        nodes_leaf_seq(s).to_multiset() == nodes_leaf_ms(s),
    decreases s,
{
    broadcast use vstd::seq_lib::lemma_multiset_commutative;

    if s.len() == 0 {
        assert(nodes_leaf_seq(s).to_multiset() =~= nodes_leaf_ms(s));
    } else {
        lemma_nodes_leaf_seq_ms(s.drop_last());
        s.last().lemma_leaf_seq_ms();
    }
}

impl<const DIM: usize, LG: MbrLeafGeometry<DIM>, T> RTreeNode<DIM, LG, T> {
    /// Structural soundness of the subtree under this node: the node's own
    /// fan-out lies in `[lo, max]`, every descendant node's fan-out lies in
    /// `[min, max]`, all leaf geometries are well formed, all leaves sit at
    /// the same depth, and every bounding rectangle is exactly the fold of
    /// its children's envelopes.
    pub open spec fn wf_node(self, lo: int, min: int, max: int) -> bool
        decreases self, 1int,
    {
        lo <= self.spec_len() <= max && self.wf_children(min, max)
    }

    /// `wf_node` without the bounds on this node's own fan-out: the state
    /// of a node that has just overflowed.
    pub open spec fn wf_children(self, min: int, max: int) -> bool
        decreases self, 0int,
    {
        match self {
            RTreeNode::Leaves { mbr, children } => {
                &&& forall|i: int|
                    0 <= i < children@.len() ==> (#[trigger] children@[i]).geom_wf()
                &&& mbr.edges@ == fold_env(children@)
            },
            RTreeNode::Level { mbr, children } => {
                &&& children@.len() >= 1
                &&& forall|i: int|
                    0 <= i < children@.len() ==> (#[trigger] children@[i]).wf_node(min, min, max)
                &&& forall|i: int|
                    0 <= i < children@.len() ==> (#[trigger] children@[i]).height()
                        == children@[0].height()
                &&& mbr.edges@ == fold_env(children@)
            },
        }
    }

    /// Well-formedness at the root: the same as `wf_node`, except that a
    /// leaf-bearing root may hold any number of leaves up to `max`, and an
    /// interior root at least one child.
    pub open spec fn root_wf(self, min: int, max: int) -> bool {
        if self.is_leaves() {
            self.wf_node(0, min, max)
        } else {
            self.wf_node(1, min, max)
        }
    }

    /// Every leaf reachable from a well-formed node has well-formed
    /// geometry and lies inside the node's bounding rectangle.
    pub proof fn lemma_wf_covers(self, lo: int, min: int, max: int)
        requires
            self.wf_node(lo, min, max),
        ensures
            self.env().len() == DIM,
            forall|l: MbrLeaf<DIM, LG, T>|
                #[trigger] self.leaf_ms().contains(l) ==> l.geom_wf() && crate::geometry::env_contained(
                    l.envelope(),
                    self.env(),
                    DIM as nat,
                ),
        decreases self,
    {
        match self {
            RTreeNode::Leaves { mbr, children } => {
                lemma_fold_env_len::<DIM, MbrLeaf<DIM, LG, T>>(children@);
                children@.to_multiset_ensures();
                assert forall|l: MbrLeaf<DIM, LG, T>| #[trigger]
                    self.leaf_ms().contains(l) implies l.geom_wf()
                    && crate::geometry::env_contained(l.envelope(), self.env(), DIM as nat) by {
                    assert(children@.contains(l));
                    let i = choose|i: int| 0 <= i < children@.len() && children@[i] == l;
                    lemma_fold_env_covers::<DIM, MbrLeaf<DIM, LG, T>>(children@, i);
                };
            },
            RTreeNode::Level { mbr, children } => {
                lemma_fold_env_len::<DIM, RTreeNode<DIM, LG, T>>(children@);
                assert forall|l: MbrLeaf<DIM, LG, T>| #[trigger]
                    self.leaf_ms().contains(l) implies l.geom_wf()
                    && crate::geometry::env_contained(l.envelope(), self.env(), DIM as nat) by {
                    lemma_nodes_leaf_ms_member(children@, l);
                    let i = choose|i: int|
                        0 <= i < children@.len() && (#[trigger] children@[i]).leaf_ms().contains(l);
                    children@[i].lemma_wf_covers(min, min, max);
                    lemma_fold_env_covers::<DIM, RTreeNode<DIM, LG, T>>(children@, i);
                    lemma_env_contained_trans(
                        l.envelope(),
                        children@[i].env(),
                        self.env(),
                        DIM as nat,
                    );
                };
            },
        }
    }

    /// Create an empty leaf level.
    pub fn new_leaves() -> (r: RTreeNode<DIM, LG, T>)
        ensures
            r.is_leaves(),
            r.spec_len() == 0,
            r.env() == env_inverted(DIM as nat),
            r.leaf_ms() == Multiset::<MbrLeaf<DIM, LG, T>>::empty(),
            r.height() == 1,
            forall|min: int, max: int| max >= 0 ==> #[trigger] r.wf_node(0, min, max),
    {
        let r = RTreeNode::Leaves { mbr: Rect::max_inverted(), children: Vec::new() };
        proof {
            assert(r.leaf_ms() =~= Multiset::<MbrLeaf<DIM, LG, T>>::empty());
        }
        r
    }

    /// Create an empty leaf level, used only for passing ownership of the
    /// root into the index functions.
    pub fn new_no_alloc() -> (r: RTreeNode<DIM, LG, T>)
        ensures
            r.is_leaves(),
            r.spec_len() == 0,
            r.env() == env_inverted(DIM as nat),
            r.leaf_ms() == Multiset::<MbrLeaf<DIM, LG, T>>::empty(),
            r.height() == 1,
            forall|min: int, max: int| max >= 0 ==> #[trigger] r.wf_node(0, min, max),
    {
        let r = RTreeNode::Leaves { mbr: Rect::max_inverted(), children: Vec::with_capacity(0) };
        proof {
            assert(r.leaf_ms() =~= Multiset::<MbrLeaf<DIM, LG, T>>::empty());
        }
        r
    }

    /// Does the level point to leaves?
    pub fn has_leaves(&self) -> (r: bool)
        ensures
            r == self.is_leaves(),
    {
        match *self {
            RTreeNode::Level { .. } => false,
            RTreeNode::Leaves { .. } => true,
        }
    }

    /// Does the level point to other levels?
    pub fn has_levels(&self) -> (r: bool)
        ensures
            r == !self.is_leaves(),
    {
        !self.has_leaves()
    }

    /// Borrow the level's minimum bounding rectangle.
    pub fn mbr(&self) -> (r: &Rect<DIM>)
        ensures
            r.edges@ == self.env(),
    {
        match *self {
            RTreeNode::Level { ref mbr, .. } => mbr,
            RTreeNode::Leaves { ref mbr, .. } => mbr,
        }
    }

    /// Number of the level's children.
    pub fn len(&self) -> (r: usize)
        ensures
            r as int == self.spec_len(),
    {
        match *self {
            RTreeNode::Level { ref children, .. } => children.len(),
            RTreeNode::Leaves { ref children, .. } => children.len(),
        }
    }

    /// Does the level have no children?
    pub fn is_empty(&self) -> (r: bool)
        ensures
            r == (self.spec_len() == 0),
    {
        self.len() == 0
    }
}

impl<const DIM: usize, LG: MbrLeafGeometry<DIM>, T> MbrLeafGeometry<DIM> for RTreeNode<
    DIM,
    LG,
    T,
> {
    open spec fn geom_wf(&self) -> bool {
        self.env().len() == DIM
    }

    open spec fn envelope(&self) -> Env {
        self.env()
    }

    open spec fn center2(&self) -> Seq<int> {
        Seq::new(DIM as nat, |d: int| crate::arith::clamp64(self.env()[d].0 + self.env()[d].1))
    }

    open spec fn spec_area(&self) -> int {
        crate::geometry::area_fold(self.env())
    }

    open spec fn spec_overlapped(&self, q: Env) -> bool {
        crate::geometry::env_overlaps(self.env(), q, DIM as nat)
    }

    open spec fn spec_overlap_area(&self, q: Env) -> int {
        crate::geometry::overlap_area_fold(self.env(), q)
    }

    proof fn envelope_props(&self) {
    }

    fn dim(&self) -> (r: usize) {
        DIM
    }

    fn area(&self) -> (r: i64) {
        MbrLeafGeometry::<DIM>::area(self.mbr())
    }

    fn min_for_axis(&self, d: usize) -> (r: i64) {
        MbrLeafGeometry::<DIM>::min_for_axis(self.mbr(), d)
    }

    fn max_for_axis(&self, d: usize) -> (r: i64) {
        MbrLeafGeometry::<DIM>::max_for_axis(self.mbr(), d)
    }

    fn expand_mbr_to_fit(&self, mbr: &mut Rect<DIM>) {
        MbrLeafGeometry::<DIM>::expand_mbr_to_fit(self.mbr(), mbr)
    }

    fn distance_from_mbr_center(&self, mbr: &Rect<DIM>) -> (r: i64) {
        MbrLeafGeometry::<DIM>::distance_from_mbr_center(self.mbr(), mbr)
    }

    fn contained_by_mbr(&self, mbr: &Rect<DIM>) -> (r: bool) {
        MbrLeafGeometry::<DIM>::contained_by_mbr(self.mbr(), mbr)
    }

    fn overlapped_by_mbr(&self, mbr: &Rect<DIM>) -> (r: bool) {
        MbrLeafGeometry::<DIM>::overlapped_by_mbr(self.mbr(), mbr)
    }

    fn area_overlapped_with_mbr(&self, mbr: &Rect<DIM>) -> (r: i64) {
        MbrLeafGeometry::<DIM>::area_overlapped_with_mbr(self.mbr(), mbr)
    }
}

} // verus!
