//! The generic container interface for spatial maps.
//!
//! The map owns the root node and a length counter; its contracts are
//! stated over the multiset of leaves reachable from the root.

use vstd::prelude::*;
use vstd::multiset::Multiset;
use vstd::seq_lib::group_to_multiset_ensures;
use crate::geometry::{env_overlaps, env_universe, Rect};
use crate::tree::mbr::index::{kept_exact, kept_ok, must_false, IndexInsert, IndexRemove};
use crate::tree::mbr::leaf::MbrLeaf;
use crate::tree::mbr::leafgeometry::MbrLeafGeometry;
use crate::tree::mbr::node::{nodes_leaf_ms, RTreeNode};
use crate::tree::mbr::query::{MbrQuery, MbrRectQuery};

verus! {

broadcast use group_to_multiset_ensures, vstd::multiset::group_multiset_axioms;

/// The leaves named by a sequence of extracted `(geometry, item)` pairs.
pub open spec fn pair_ms<const DIM: usize, LG, T>(s: Seq<(LG, T)>) -> Multiset<
    MbrLeaf<DIM, LG, T>,
> {
    s.map_values(|p: (LG, T)| (MbrLeaf { geometry: p.0, item: p.1 })).to_multiset()
}

/// The leaves named by a sequence of borrowed `(geometry, item)` pairs.
pub open spec fn ref_pair_ms<const DIM: usize, LG, T>(s: Seq<(&LG, &T)>) -> Multiset<
    MbrLeaf<DIM, LG, T>,
> {
    s.map_values(|p: (&LG, &T)| (MbrLeaf { geometry: *p.0, item: *p.1 })).to_multiset()
}

/// The generic container interface for spatial maps.
pub struct MbrMap<const DIM: usize, LG, T, I, R> {
    insert_index: I,
    remove_index: R,
    root: RTreeNode<DIM, LG, T>,
    len: usize,
}

impl<
    const DIM: usize,
    LG: MbrLeafGeometry<DIM>,
    T,
    I: IndexInsert<DIM, LG, T>,
    R: IndexRemove<DIM, LG, T, I>,
> MbrMap<DIM, LG, T, I, R> {
    /// The map's well-formedness: consistent strategies, a well-formed
    /// tree, and a length that counts the reachable leaves.
    pub closed spec fn inv(&self) -> bool {
        &&& self.insert_index.inv()
        &&& self.remove_index.inv()
        &&& self.remove_index.spec_min() == self.insert_index.spec_min()
        &&& self.root.root_wf(self.insert_index.spec_min(), self.insert_index.spec_max())
        &&& self.len as int == self.root.leaf_ms().len()
    }

    /// The multiset of leaves stored in the map.
    pub closed spec fn leaves(&self) -> Multiset<MbrLeaf<DIM, LG, T>> {
        self.root.leaf_ms()
    }

    /// The root node, for stating the structural invariants.
    pub closed spec fn spec_root(&self) -> RTreeNode<DIM, LG, T> {
        self.root
    }

    /// The stored length.
    pub closed spec fn spec_len(&self) -> int {
        self.len as int
    }

    /// The fan-out floor of the map's strategies.
    pub closed spec fn spec_min(&self) -> int {
        self.insert_index.spec_min()
    }

    /// The fan-out ceiling of the map's strategies.
    pub closed spec fn spec_max(&self) -> int {
        self.insert_index.spec_max()
    }

    /// Every map invariant, spelled out over the root: every node's
    /// bounding rectangle is the tight fold of its children's envelopes,
    /// all leaves sit at the same depth, every non-root node keeps its
    /// fan-out between the strategy floor and ceiling, and the length
    /// counts the reachable leaves.
    pub proof fn lemma_invariants(&self)
        requires
            self.inv(),
        ensures
            self.spec_root().root_wf(self.spec_min(), self.spec_max()),
            self.leaves() == self.spec_root().leaf_ms(),
            self.spec_len() == self.leaves().len(),
    {
    }

    /// Create a new MbrMap with the given insert and remove indexes.
    pub fn new(insert_index: I, remove_index: R) -> (r: MbrMap<DIM, LG, T, I, R>)
        requires
            insert_index.inv(),
            remove_index.inv(),
            remove_index.spec_min() == insert_index.spec_min(),
        ensures
            r.inv(),
            r.leaves() == Multiset::<MbrLeaf<DIM, LG, T>>::empty(),
            r.spec_len() == 0,
    {
        let new_root = insert_index.new_leaves();
        MbrMap { insert_index, remove_index, root: new_root, len: 0 }
    }

    /// Insert an item: the map then holds the same leaves plus exactly
    /// the one inserted.
    pub fn insert(&mut self, geometry: LG, item: T)
        requires
            old(self).inv(),
            geometry.geom_wf(),
            old(self).spec_len() < usize::MAX,
        ensures
            final(self).inv(),
            final(self).leaves() == old(self).leaves().insert(
                (MbrLeaf { geometry, item }),
            ),
            final(self).spec_len() == old(self).spec_len() + 1,
    {
        let mut tmp = self.insert_index.new_no_alloc_leaves();
        core::mem::swap(&mut self.root, &mut tmp);
        let leaf = MbrLeaf::new(geometry, item);
        self.root = self.insert_index.insert_into_root(tmp, leaf);
        self.len = self.len + 1;
    }

    /// Remove all items whose shapes are accepted by the query. Returns
    /// the removed entries; no robustly accepted leaf stays behind.
    pub fn remove<Q: MbrQuery<DIM, LG, T>>(&mut self, query: Q) -> (r: Vec<(LG, T)>)
        requires
            old(self).inv(),
            query.q_wf(),
        ensures
            final(self).inv(),
            final(self).leaves().add(pair_ms(r@)) == old(self).leaves(),
            final(self).spec_len() == old(self).spec_len() - r@.len(),
            forall|i: int|
                0 <= i < r@.len() ==> query.spec_accept_leaf(
                    (MbrLeaf { geometry: #[trigger] r@[i].0, item: r@[i].1 }),
                ),
            forall|l: MbrLeaf<DIM, LG, T>|
                #[trigger] final(self).leaves().contains(l) ==> !query.spec_surely(l),
    {
        let drop_all = |_x: &T| -> (keep: bool)
            ensures
                keep == false,
            { false };
        let r = self.retain(query, drop_all);
        proof {
            assert forall|l: MbrLeaf<DIM, LG, T>| #[trigger]
                self.leaves().contains(l) implies !query.spec_surely(l) by {
                assert(must_false(drop_all, l.item));
            };
        }
        r
    }

    /// Remove all items whose shapes are accepted by the query and where
    /// `f(&item)` returns false. Returns the removed entries.
    #[verifier::loop_isolation(false)]
    pub fn retain<Q: MbrQuery<DIM, LG, T>, F: Fn(&T) -> bool>(&mut self, query: Q, f: F) -> (r:
        Vec<(LG, T)>)
        requires
            old(self).inv(),
            query.q_wf(),
            forall|t: &T| #[trigger] call_requires(f, (t,)),
        ensures
            final(self).inv(),
            final(self).leaves().add(pair_ms(r@)) == old(self).leaves(),
            final(self).spec_len() == old(self).spec_len() - r@.len(),
            forall|i: int|
                0 <= i < r@.len() ==> query.spec_accept_leaf(
                    (MbrLeaf { geometry: #[trigger] r@[i].0, item: r@[i].1 }),
                ) && call_ensures(f, (&r@[i].1,), false),
            kept_exact(query, f, final(self).leaves()),
            kept_ok(query, f, final(self).leaves()),
    {
        let ghost before = self.root.leaf_ms();
        let mut tmp = self.insert_index.new_no_alloc_leaves();
        core::mem::swap(&mut self.root, &mut tmp);
        let (new_root, removed) = self.remove_index.remove_from_root(
            tmp,
            &self.insert_index,
            query,
            f,
        );
        self.root = new_root;
        proof {
            assert(removed@.to_multiset().len() <= before.len());
        }
        self.len = self.len - removed.len();
        let ghost rem_seq = removed@;
        let mut removed_extract: Vec<(LG, T)> = Vec::new();
        let mut rest = removed;
        while rest.len() > 0
            invariant
                rest@ == rem_seq.subrange(0, rest@.len() as int),
                rest@.len() <= rem_seq.len(),
                removed_extract@.len() + rest@.len() == rem_seq.len(),
                pair_ms::<DIM, LG, T>(removed_extract@).add(rest@.to_multiset())
                    == rem_seq.to_multiset(),
                forall|i: int|
                    0 <= i < removed_extract@.len()
                        ==> query.spec_accept_leaf(
                        (MbrLeaf {
                            geometry: #[trigger] removed_extract@[i].0,
                            item: removed_extract@[i].1,
                        }),
                    ) && call_ensures(f, (&removed_extract@[i].1,), false),
            decreases rest@.len(),
        {
            let ghost prev = rest@;
            let ghost eprev = removed_extract@;
            let leaf = rest.pop().unwrap();
            proof {
                assert(prev.drop_last() =~= prev.remove(prev.len() - 1));
                assert(rest@ =~= rem_seq.subrange(0, rest@.len() as int));
                assert(leaf == rem_seq[rest@.len() as int]);
            }
            let pair = leaf.extract();
            removed_extract.push(pair);
            proof {
                let m = |p: (LG, T)| (MbrLeaf::<DIM, LG, T> { geometry: p.0, item: p.1 });
                assert(removed_extract@.map_values(m) =~= eprev.map_values(m).push(
                    (MbrLeaf::<DIM, LG, T> { geometry: pair.0, item: pair.1 }),
                ));
                assert((MbrLeaf::<DIM, LG, T> { geometry: pair.0, item: pair.1 }) == leaf);
                assert(pair_ms::<DIM, LG, T>(removed_extract@).add(rest@.to_multiset())
                    =~= rem_seq.to_multiset());
                assert forall|i: int|
                    0 <= i < removed_extract@.len() implies query.spec_accept_leaf(
                    (MbrLeaf::<DIM, LG, T> {
                        geometry: #[trigger] removed_extract@[i].0,
                        item: removed_extract@[i].1,
                    }),
                ) && call_ensures(f, (&removed_extract@[i].1,), false) by {
                    if i < eprev.len() {
                        assert(removed_extract@[i] == eprev[i]);
                    } else {
                        assert(removed_extract@[i] == pair);
                        assert(query.spec_accept_leaf(rem_seq[rest@.len() as int]));
                        assert(call_ensures(f, (&rem_seq[rest@.len() as int].item,), false));
                        assert(rem_seq[rest@.len() as int].item == pair.1);
                    }
                };
            }
        }
        proof {
            assert(pair_ms::<DIM, LG, T>(removed_extract@).add(
                Seq::<MbrLeaf<DIM, LG, T>>::empty().to_multiset(),
            ) == pair_ms::<DIM, LG, T>(removed_extract@).add(rest@.to_multiset()));
            assert(rest@.to_multiset() =~= Multiset::<MbrLeaf<DIM, LG, T>>::empty());
            assert(pair_ms::<DIM, LG, T>(removed_extract@) =~= rem_seq.to_multiset());
            assert(rem_seq.to_multiset().len() == rem_seq.len());
        }
        removed_extract
    }

    /// Whether the map is empty.
    pub fn is_empty(&self) -> (r: bool)
        ensures
            r == (self.spec_len() == 0),
    {
        self.len == 0
    }

    /// Length of the map.
    pub fn len(&self) -> (r: usize)
        ensures
            r as int == self.spec_len(),
    {
        self.len
    }

    /// Clear the map.
    pub fn clear(&mut self)
        requires
            old(self).inv(),
        ensures
            final(self).inv(),
            final(self).leaves() == Multiset::<MbrLeaf<DIM, LG, T>>::empty(),
            final(self).spec_len() == 0,
    {
        self.root = self.insert_index.new_leaves();
        self.len = 0;
    }
}

/// Collect references to every leaf under `node` that the query accepts,
/// pruning rejected levels.
#[verifier::loop_isolation(false)]
fn collect_matching<'t, const DIM: usize, LG: MbrLeafGeometry<DIM>, T, Q: MbrQuery<DIM, LG, T>>(
    query: &Q,
    node: &'t RTreeNode<DIM, LG, T>,
    out: &mut Vec<(&'t LG, &'t T)>,
    Ghost(min): Ghost<int>,
    Ghost(maxg): Ghost<int>,
)
    requires
        query.q_wf(),
        node.wf_node(0, min, maxg),
    ensures
        old(out)@.is_prefix_of(final(out)@),
        forall|i: int|
            old(out)@.len() <= i < final(out)@.len() ==> query.spec_accept_leaf(
                (MbrLeaf { geometry: *(#[trigger] final(out)@[i]).0, item: *final(out)@[i].1 }),
            ),
        forall|l: MbrLeaf<DIM, LG, T>|
            #[trigger] ref_pair_ms(final(out)@).count(l) <= ref_pair_ms(old(out)@).count(l)
                + node.leaf_ms().count(l),
        forall|l: MbrLeaf<DIM, LG, T>|
            query.spec_surely(l) ==> #[trigger] ref_pair_ms(final(out)@).count(l) == ref_pair_ms(
                old(out)@,
            ).count(l) + node.leaf_ms().count(l),
    decreases node.height(),
{
    let ghost o0 = out@;
    let ghost nd = *node;
    proof {
        nd.lemma_wf_covers(0, min, maxg);
    }
    if !query.accept_level(node) {
        proof {
            assert forall|l: MbrLeaf<DIM, LG, T>| query.spec_surely(l) implies #[trigger]
                ref_pair_ms(out@).count(l) == ref_pair_ms(o0).count(l) + nd.leaf_ms().count(
                l,
            ) by {
                if nd.leaf_ms().count(l) > 0 {
                    assert(nd.leaf_ms().contains(l));
                    query.lemma_surely(l, nd.env());
                }
            };
        }
        return;
    }
    match node {
        RTreeNode::Leaves { children, .. } => {
            let ghost ch = children@;
            let mut i: usize = 0;
            while i < children.len()
                invariant
                    0 <= i <= ch.len(),
                    o0.is_prefix_of(out@),
                    forall|j: int|
                        o0.len() <= j < out@.len() ==> query.spec_accept_leaf(
                            (MbrLeaf {
                                geometry: *(#[trigger] out@[j]).0,
                                item: *out@[j].1,
                            }),
                        ),
                    forall|l: MbrLeaf<DIM, LG, T>|
                        #[trigger] ref_pair_ms(out@).count(l) <= ref_pair_ms(o0).count(l)
                            + ch.subrange(0, i as int).to_multiset().count(l),
                    forall|l: MbrLeaf<DIM, LG, T>|
                        query.spec_surely(l) ==> #[trigger] ref_pair_ms(out@).count(l)
                            == ref_pair_ms(o0).count(l) + ch.subrange(0, i as int).to_multiset().count(
                            l,
                        ),
                decreases ch.len() - i,
            {
                let leaf = &children[i];
                let ghost oprev = out@;
                let ghost pre = ch.subrange(0, i as int);
                let ghost post = ch.subrange(0, i as int + 1);
                proof {
                    assert(post.drop_last() =~= pre);
                    assert(post.last() == ch[i as int]);
                    assert(post =~= pre.push(ch[i as int]));
                    assert(post.to_multiset() == pre.to_multiset().insert(ch[i as int]));
                }
                if query.accept_leaf(leaf) {
                    out.push((&leaf.geometry, &leaf.item));
                    proof {
                        let m = |p: (&LG, &T)| (MbrLeaf::<DIM, LG, T> {
                            geometry: *p.0,
                            item: *p.1,
                        });
                        assert(out@.map_values(m) =~= oprev.map_values(m).push(ch[i as int]));
                        assert(ref_pair_ms::<DIM, LG, T>(out@) == ref_pair_ms::<DIM, LG, T>(
                            oprev,
                        ).insert(ch[i as int]));
                    }
                } else {
                    proof {
                        if query.spec_surely(ch[i as int]) {
                            assert(crate::geometry::env_contained(
                                ch[i as int].envelope(),
                                ch[i as int].envelope(),
                                DIM as nat,
                            ));
                            query.lemma_surely(ch[i as int], ch[i as int].envelope());
                        }
                        assert forall|l: MbrLeaf<DIM, LG, T>|
                            query.spec_surely(l) implies #[trigger] ref_pair_ms(out@).count(l)
                            == ref_pair_ms(o0).count(l) + post.to_multiset().count(l) by {
                            if l == ch[i as int] {
                                assert(!query.spec_surely(ch[i as int]));
                            }
                        };
                    }
                }
                i += 1;
            }
            proof {
                assert(ch.subrange(0, ch.len() as int) =~= ch);
                assert(nd.leaf_ms() == ch.to_multiset());
            }
        },
        RTreeNode::Level { children, .. } => {
            let ghost ch = children@;
            let ghost h = nd.height();
            proof {
                assert(h == 1 + ch[0].height());
            }
            let mut i: usize = 0;
            while i < children.len()
                invariant
                    0 <= i <= ch.len(),
                    o0.is_prefix_of(out@),
                    forall|j: int|
                        o0.len() <= j < out@.len() ==> query.spec_accept_leaf(
                            (MbrLeaf {
                                geometry: *(#[trigger] out@[j]).0,
                                item: *out@[j].1,
                            }),
                        ),
                    forall|l: MbrLeaf<DIM, LG, T>|
                        #[trigger] ref_pair_ms(out@).count(l) <= ref_pair_ms(o0).count(l)
                            + nodes_leaf_ms(ch.subrange(0, i as int)).count(l),
                    forall|l: MbrLeaf<DIM, LG, T>|
                        query.spec_surely(l) ==> #[trigger] ref_pair_ms(out@).count(l)
                            == ref_pair_ms(o0).count(l) + nodes_leaf_ms(
                            ch.subrange(0, i as int),
                        ).count(l),
                decreases ch.len() - i,
            {
                let child = &children[i];
                let ghost oprev = out@;
                let ghost pre = ch.subrange(0, i as int);
                let ghost post = ch.subrange(0, i as int + 1);
                proof {
                    assert(post.drop_last() =~= pre);
                    assert(post.last() == ch[i as int]);
                    assert(nodes_leaf_ms(post) == nodes_leaf_ms(pre).add(ch[i as int].leaf_ms()));
                    assert(ch[i as int].wf_node(min, min, maxg));
                    assert(ch[i as int].wf_node(0, min, maxg));
                    assert(ch[i as int].height() < nd.height());
                }
                collect_matching(query, child, out, Ghost(min), Ghost(maxg));
                proof {
                    assert forall|j: int|
                        o0.len() <= j < out@.len() implies query.spec_accept_leaf(
                        (MbrLeaf { geometry: *(#[trigger] out@[j]).0, item: *out@[j].1 }),
                    ) by {
                        if j < oprev.len() {
                            assert(out@[j] == oprev[j]);
                        }
                    };
                }
                i += 1;
            }
            proof {
                assert(ch.subrange(0, ch.len() as int) =~= ch);
                assert(nd.leaf_ms() == nodes_leaf_ms(ch));
            }
        },
    }
}

impl<
    const DIM: usize,
    LG: MbrLeafGeometry<DIM>,
    T,
    I: IndexInsert<DIM, LG, T>,
    R: IndexRemove<DIM, LG, T, I>,
> MbrMap<DIM, LG, T, I, R> {
    /// All matching leaves for the query, as borrowed `(geometry, item)`
    /// pairs: each returned pair is accepted, nothing is returned twice,
    /// and every robustly accepted leaf is returned, copy for copy.
    pub fn iter_query<'t, Q: MbrQuery<DIM, LG, T>>(&'t self, query: Q) -> (r: Vec<(&'t LG, &'t T)>)
        requires
            self.inv(),
            query.q_wf(),
        ensures
            forall|l: MbrLeaf<DIM, LG, T>|
                #[trigger] ref_pair_ms(r@).count(l) <= self.leaves().count(l),
            forall|i: int|
                0 <= i < r@.len() ==> query.spec_accept_leaf(
                    (MbrLeaf { geometry: *(#[trigger] r@[i]).0, item: *r@[i].1 }),
                ),
            forall|l: MbrLeaf<DIM, LG, T>|
                query.spec_surely(l) ==> #[trigger] ref_pair_ms(r@).count(l)
                    == self.leaves().count(l),
    {
        let mut out: Vec<(&'t LG, &'t T)> = Vec::new();
        let ghost o0 = out@;
        proof {
            assert(self.root.wf_node(0, self.insert_index.spec_min(), self.insert_index.spec_max()));
            assert(o0.map_values(
                |p: (&LG, &T)| (MbrLeaf::<DIM, LG, T> { geometry: *p.0, item: *p.1 }),
            ) =~= Seq::<MbrLeaf<DIM, LG, T>>::empty());
            assert(ref_pair_ms::<DIM, LG, T>(o0) =~= Multiset::<MbrLeaf<DIM, LG, T>>::empty());
        }
        collect_matching(
            &query,
            &self.root,
            &mut out,
            Ghost(self.insert_index.spec_min()),
            Ghost(self.insert_index.spec_max()),
        );
        out
    }

    /// All leaves, as borrowed `(geometry, item)` pairs: every leaf whose
    /// envelope lies strictly inside the coordinate space is returned,
    /// copy for copy, and nothing else than stored leaves is returned.
    pub fn iter<'t>(&'t self) -> (r: Vec<(&'t LG, &'t T)>)
        requires
            self.inv(),
        ensures
            forall|l: MbrLeaf<DIM, LG, T>|
                #[trigger] ref_pair_ms(r@).count(l) <= self.leaves().count(l),
            forall|l: MbrLeaf<DIM, LG, T>|
                l.spec_overlapped(env_universe(DIM as nat)) && env_overlaps(
                    l.envelope(),
                    env_universe(DIM as nat),
                    DIM as nat,
                ) ==> #[trigger] ref_pair_ms(r@).count(l) == self.leaves().count(l),
    {
        let query: MbrRectQuery<DIM> = MbrRectQuery::Overlaps(Rect::max());
        let ghost q = query;
        proof {
            assert(MbrQuery::<DIM, LG, T>::q_wf(&q));
            assert forall|l: MbrLeaf<DIM, LG, T>|
                l.spec_overlapped(env_universe(DIM as nat)) && env_overlaps(
                    l.envelope(),
                    env_universe(DIM as nat),
                    DIM as nat,
                ) implies #[trigger] MbrQuery::<DIM, LG, T>::spec_surely(&q, l) by {};
        }
        self.iter_query(query)
    }
}

/// The leaf multiset after inserting the leaves of `s`, one at a time.
pub open spec fn ms_after_inserts<const DIM: usize, LG, T>(
    base: Multiset<MbrLeaf<DIM, LG, T>>,
    s: Seq<MbrLeaf<DIM, LG, T>>,
) -> Multiset<MbrLeaf<DIM, LG, T>>
    decreases s.len(),
{
    if s.len() == 0 {
        base
    } else {
        ms_after_inserts(base, s.drop_last()).insert(s.last())
    }
}

/// A sequence of insertions adds exactly the leaves of the sequence.
pub proof fn lemma_inserts_add<const DIM: usize, LG, T>(
    base: Multiset<MbrLeaf<DIM, LG, T>>,
    s: Seq<MbrLeaf<DIM, LG, T>>,
)
    ensures
        ms_after_inserts(base, s) == base.add(s.to_multiset()),
    decreases s.len(),
{
    s.to_multiset_ensures();
    if s.len() == 0 {
        assert(base.add(s.to_multiset()) =~= base);
    } else {
        lemma_inserts_add(base, s.drop_last());
        assert(s.drop_last().push(s.last()) =~= s);
        assert(s.drop_last().push(s.last()).to_multiset() == s.drop_last().to_multiset().insert(
            s.last(),
        ));
        assert(base.add(s.drop_last().to_multiset()).insert(s.last()) =~= base.add(
            s.to_multiset(),
        ));
    }
}

/// The tree is permutation-insensitive for membership: inserting the
/// same multiset of leaves in any two orders yields the same leaves.
pub proof fn lemma_insert_order_insensitive<const DIM: usize, LG, T>(
    base: Multiset<MbrLeaf<DIM, LG, T>>,
    s1: Seq<MbrLeaf<DIM, LG, T>>,
    s2: Seq<MbrLeaf<DIM, LG, T>>,
)
    requires
        s1.to_multiset() == s2.to_multiset(),
    ensures
        ms_after_inserts(base, s1) == ms_after_inserts(base, s2),
{
    lemma_inserts_add(base, s1);
    lemma_inserts_add(base, s2);
}

/// An inserted leaf is present afterwards, and the leaf count has grown
/// by exactly one.
pub proof fn lemma_insert_visible<const DIM: usize, LG, T>(
    before: Multiset<MbrLeaf<DIM, LG, T>>,
    after: Multiset<MbrLeaf<DIM, LG, T>>,
    l: MbrLeaf<DIM, LG, T>,
)
    requires
        after == before.insert(l),
    ensures
        after.contains(l),
        after.count(l) == before.count(l) + 1,
        after.len() == before.len() + 1,
{
}

/// A retain whose predicate keeps every item removes nothing and leaves
/// the map unchanged.
pub proof fn lemma_retain_keep_all<const DIM: usize, LG, T, F: Fn(&T) -> bool>(
    f: F,
    before: Multiset<MbrLeaf<DIM, LG, T>>,
    after: Multiset<MbrLeaf<DIM, LG, T>>,
    removed: Seq<(LG, T)>,
)
    requires
        forall|t: &T, b: bool| #[trigger] call_ensures(f, (t,), b) ==> b,
        after.add(pair_ms(removed)) == before,
        forall|i: int| 0 <= i < removed.len() ==> call_ensures(f, (&(#[trigger] removed[i]).1,), false),
    ensures
        removed.len() == 0,
        after == before,
{
    if removed.len() > 0 {
        assert(call_ensures(f, (&removed[0].1,), false));
    }
    assert(removed.map_values(|p: (LG, T)| (MbrLeaf::<DIM, LG, T> { geometry: p.0, item: p.1 }))
        =~= Seq::<MbrLeaf<DIM, LG, T>>::empty());
    assert(pair_ms::<DIM, LG, T>(removed) =~= Multiset::<MbrLeaf<DIM, LG, T>>::empty());
    assert(after =~= before);
}

/// A retain whose predicate drops every item behaves as a removal: no
/// robustly accepted leaf stays behind.
pub proof fn lemma_retain_drop_all_is_remove<
    const DIM: usize,
    LG: MbrLeafGeometry<DIM>,
    T,
    Q: MbrQuery<DIM, LG, T>,
    F: Fn(&T) -> bool,
>(query: Q, f: F, after: Multiset<MbrLeaf<DIM, LG, T>>)
    requires
        forall|t: &T, b: bool| #[trigger] call_ensures(f, (t,), b) ==> !b,
        kept_ok(query, f, after),
    ensures
        forall|l: MbrLeaf<DIM, LG, T>| #[trigger] after.contains(l) ==> !query.spec_surely(l),
{
    assert forall|l: MbrLeaf<DIM, LG, T>| #[trigger]
        after.contains(l) implies !query.spec_surely(l) by {
        assert(must_false(f, l.item));
    };
}

/// Inserting a robustly accepted leaf into a map none of whose leaves
/// the query accepts, then removing by that query, removes exactly the
/// inserted leaf and restores the map.
pub proof fn lemma_insert_remove_roundtrip<
    const DIM: usize,
    LG: MbrLeafGeometry<DIM>,
    T,
    Q: MbrQuery<DIM, LG, T>,
>(
    query: Q,
    leaves0: Multiset<MbrLeaf<DIM, LG, T>>,
    leaves2: Multiset<MbrLeaf<DIM, LG, T>>,
    removed: Seq<(LG, T)>,
    nl: MbrLeaf<DIM, LG, T>,
)
    requires
        query.q_wf(),
        nl.geom_wf(),
        query.spec_surely(nl),
        forall|l: MbrLeaf<DIM, LG, T>|
            #[trigger] leaves0.contains(l) ==> !query.spec_accept_leaf(l),
        leaves2.add(pair_ms(removed)) == leaves0.insert(nl),
        forall|i: int|
            0 <= i < removed.len() ==> query.spec_accept_leaf(
                (MbrLeaf { geometry: (#[trigger] removed[i]).0, item: removed[i].1 }),
            ),
        forall|l: MbrLeaf<DIM, LG, T>| #[trigger] leaves2.contains(l) ==> !query.spec_surely(l),
    ensures
        leaves2 == leaves0,
        removed.len() == 1,
{
    let leaves1 = leaves0.insert(nl);
    let rm = pair_ms::<DIM, LG, T>(removed);
    let mapped = removed.map_values(
        |p: (LG, T)| (MbrLeaf::<DIM, LG, T> { geometry: p.0, item: p.1 }),
    );
    mapped.to_multiset_ensures();
    assert(crate::geometry::env_contained(nl.envelope(), nl.envelope(), DIM as nat));
    query.lemma_surely(nl, nl.envelope());
    assert(leaves0.count(nl) == 0) by {
        if leaves0.count(nl) > 0 {
            assert(leaves0.contains(nl));
        }
    };
    assert(leaves2.count(nl) == 0) by {
        if leaves2.count(nl) > 0 {
            assert(leaves2.contains(nl));
        }
    };
    assert(leaves2.add(rm).count(nl) == leaves0.insert(nl).count(nl));
    assert(rm.count(nl) == 1);
    assert forall|l: MbrLeaf<DIM, LG, T>| l != nl implies #[trigger] rm.count(l) == 0 by {
        assert(leaves2.add(rm).count(l) == leaves0.insert(nl).count(l));
        if rm.count(l) > 0 {
            assert(mapped.contains(l));
            let i = choose|i: int| 0 <= i < mapped.len() && mapped[i] == l;
            assert(query.spec_accept_leaf(l));
            assert(leaves2.count(l) + rm.count(l) == leaves1.count(l));
            assert(leaves0.count(l) >= rm.count(l));
            assert(leaves0.contains(l));
        }
    };
    assert forall|x: MbrLeaf<DIM, LG, T>| #[trigger] leaves2.count(x) == leaves0.count(x) by {
        assert(leaves2.add(rm).count(x) == leaves0.insert(nl).count(x));
        if x != nl {
            assert(rm.count(x) == 0);
        }
    };
    assert(leaves2 =~= leaves0);
    assert(rm =~= Multiset::<MbrLeaf<DIM, LG, T>>::empty().insert(nl));
    assert(rm.len() == 1);
    assert(mapped.len() == removed.len());
}

/// A traversal that returns every stored leaf, copy for copy, returns
/// exactly the stored leaves; in particular it returns as many entries
/// as the map holds.
pub proof fn lemma_iter_counts_all<const DIM: usize, LG: MbrLeafGeometry<DIM>, T>(
    leaves: Multiset<MbrLeaf<DIM, LG, T>>,
    r: Seq<(&LG, &T)>,
)
    requires
        forall|l: MbrLeaf<DIM, LG, T>| #[trigger] ref_pair_ms(r).count(l) <= leaves.count(l),
        forall|l: MbrLeaf<DIM, LG, T>|
            #[trigger] leaves.contains(l) ==> ref_pair_ms(r).count(l) == leaves.count(l),
    ensures
        ref_pair_ms::<DIM, LG, T>(r) == leaves,
        r.len() == leaves.len(),
{
    let mapped = r.map_values(|p: (&LG, &T)| (MbrLeaf::<DIM, LG, T> { geometry: *p.0, item: *p.1 }));
    mapped.to_multiset_ensures();
    assert forall|l: MbrLeaf<DIM, LG, T>| #[trigger]
        ref_pair_ms::<DIM, LG, T>(r).count(l) == leaves.count(l) by {
        if !leaves.contains(l) {
            assert(leaves.count(l) == 0);
        }
    };
    assert(ref_pair_ms::<DIM, LG, T>(r) =~= leaves);
    assert(mapped.len() == r.len());
}

/// A position-by-position pairing of the leaves before and after an
/// in-place update: geometries are kept; a robustly accepted leaf's item
/// is replaced by a value the update function can return for it; any
/// other leaf is either updated the same way (it was accepted) or left
/// unchanged.
pub open spec fn update_pairing<
    const DIM: usize,
    LG: MbrLeafGeometry<DIM>,
    T,
    Q: MbrQuery<DIM, LG, T>,
    F: Fn(&LG, &T) -> T,
>(query: Q, f: F, before: Seq<MbrLeaf<DIM, LG, T>>, after: Seq<MbrLeaf<DIM, LG, T>>) -> bool {
    &&& before.len() == after.len()
    &&& forall|i: int|
        0 <= i < before.len() ==> {
            &&& (#[trigger] after[i]).geometry == before[i].geometry
            &&& if query.spec_surely(before[i]) {
                query.spec_accept_leaf(before[i]) && call_ensures(
                    f,
                    (&before[i].geometry, &before[i].item),
                    after[i].item,
                )
            } else {
                after[i] == before[i] || (query.spec_accept_leaf(before[i]) && call_ensures(
                    f,
                    (&before[i].geometry, &before[i].item),
                    after[i].item,
                ))
            }
        }
}

/// Every leaf after an in-place update stands for a stored leaf: the
/// same geometry, and either the same item, or — for an accepted leaf —
/// an item the update function can return for that leaf.
pub open spec fn updated_ok<
    const DIM: usize,
    LG: MbrLeafGeometry<DIM>,
    T,
    Q: MbrQuery<DIM, LG, T>,
    F: Fn(&LG, &T) -> T,
>(
    query: Q,
    f: F,
    before: Multiset<MbrLeaf<DIM, LG, T>>,
    after: Multiset<MbrLeaf<DIM, LG, T>>,
) -> bool {
    forall|l2: MbrLeaf<DIM, LG, T>|
        #[trigger] after.contains(l2) ==> exists|l1: MbrLeaf<DIM, LG, T>|
            (#[trigger] before.contains(l1)) && l1.geometry == l2.geometry && (l2 == l1 || (
            query.spec_accept_leaf(l1) && call_ensures(f, (&l1.geometry, &l1.item), l2.item)))
}

/// Replace, in place, the item of every leaf the query accepts by what
/// the update function returns for it, pruning rejected levels.
#[verifier::loop_isolation(false)]
fn update_node<
    const DIM: usize,
    LG: MbrLeafGeometry<DIM>,
    T,
    Q: MbrQuery<DIM, LG, T>,
    F: Fn(&LG, &T) -> T,
>(
    query: &Q,
    node: RTreeNode<DIM, LG, T>,
    f: &F,
    Ghost(lo): Ghost<int>,
    Ghost(min): Ghost<int>,
    Ghost(maxg): Ghost<int>,
) -> (r: RTreeNode<DIM, LG, T>)
    requires
        query.q_wf(),
        node.wf_node(lo, min, maxg),
        forall|g: &LG, t: &T| #[trigger] call_requires(*f, (g, t)),
    ensures
        r.wf_node(lo, min, maxg),
        r.is_leaves() == node.is_leaves(),
        r.height() == node.height(),
        r.env() == node.env(),
        r.leaf_ms().len() == node.leaf_ms().len(),
        updated_ok(*query, *f, node.leaf_ms(), r.leaf_ms()),
        exists|bs: Seq<MbrLeaf<DIM, LG, T>>, nw: Seq<MbrLeaf<DIM, LG, T>>|
            {
                &&& bs.to_multiset() == node.leaf_ms()
                &&& nw.to_multiset() == r.leaf_ms()
                &&& #[trigger] update_pairing(*query, *f, bs, nw)
            },
    decreases node.height(),
{
    let ghost nd = node;
    proof {
        nd.lemma_wf_covers(lo, min, maxg);
    }
    if !query.accept_level(&node) {
        proof {
            assert forall|l2: MbrLeaf<DIM, LG, T>| #[trigger]
                nd.leaf_ms().contains(l2) implies exists|l1: MbrLeaf<DIM, LG, T>|
                (#[trigger] nd.leaf_ms().contains(l1)) && l1.geometry == l2.geometry && (l2 == l1
                || (query.spec_accept_leaf(l1) && call_ensures(
                *f,
                (&l1.geometry, &l1.item),
                l2.item,
            ))) by {
                assert(nd.leaf_ms().contains(l2) && l2.geometry == l2.geometry && l2 == l2);
            };
            nd.lemma_leaf_seq_ms();
            let bs = nd.leaf_seq();
            assert(update_pairing(*query, *f, bs, bs)) by {
                assert forall|i: int|
                    0 <= i < bs.len() implies (#[trigger] bs[i]).geometry == bs[i].geometry
                    && !query.spec_surely(bs[i]) by {
                    bs.to_multiset_ensures();
                    assert(bs.contains(bs[i]));
                    assert(bs.to_multiset().contains(bs[i]));
                    assert(nd.leaf_ms().contains(bs[i]));
                    if query.spec_surely(bs[i]) {
                        query.lemma_surely(bs[i], nd.env());
                    }
                };
            };
        }
        return node;
    }
    match node {
        RTreeNode::Leaves { mbr, children } => {
            let ghost c0 = children@;
            let mut src = children;
            let mut tmp: Vec<MbrLeaf<DIM, LG, T>> = Vec::new();
            while src.len() > 0
                invariant
                    src@ == c0.subrange(0, src@.len() as int),
                    tmp@.len() + src@.len() == c0.len(),
                    forall|j: int|
                        0 <= j < tmp@.len() ==> #[trigger] tmp@[j] == c0[c0.len() - 1 - j],
                decreases src@.len(),
            {
                let ghost prev = src@;
                let x = src.pop().unwrap();
                proof {
                    assert(prev.drop_last() =~= prev.remove(prev.len() - 1));
                    assert(src@ =~= c0.subrange(0, src@.len() as int));
                    assert(x == c0[src@.len() as int]);
                }
                tmp.push(x);
            }
            let mut out: Vec<MbrLeaf<DIM, LG, T>> = Vec::new();
            while tmp.len() > 0
                invariant
                    out@.len() + tmp@.len() == c0.len(),
                    forall|j: int|
                        0 <= j < tmp@.len() ==> #[trigger] tmp@[j] == c0[c0.len() - 1 - j],
                    forall|j: int|
                        0 <= j < out@.len() ==> (#[trigger] out@[j]).geometry == c0[j].geometry && (
                        if query.spec_accept_leaf(c0[j]) {
                            call_ensures(*f, (&c0[j].geometry, &c0[j].item), out@[j].item)
                        } else {
                            out@[j] == c0[j]
                        }),
                decreases tmp@.len(),
            {
                let ghost prev = tmp@;
                let x = tmp.pop().unwrap();
                proof {
                    assert(prev.drop_last() =~= prev.remove(prev.len() - 1));
                    assert(x == c0[out@.len() as int]);
                }
                if query.accept_leaf(&x) {
                    let item2 = (*f)(&x.geometry, &x.item);
                    let upd = MbrLeaf { geometry: x.geometry, item: item2 };
                    out.push(upd);
                } else {
                    out.push(x);
                }
            }
            proof {
                assert forall|i: int|
                    0 <= i < c0.len() implies (#[trigger] c0[i]).envelope() == out@[i].envelope()
                    && out@[i].geom_wf() by {
                    assert(out@[i].geometry == c0[i].geometry);
                };
                crate::tree::mbr::node::lemma_fold_env_pointwise::<
                    DIM,
                    MbrLeaf<DIM, LG, T>,
                    MbrLeaf<DIM, LG, T>,
                >(c0, out@);
                c0.to_multiset_ensures();
                out@.to_multiset_ensures();
                assert forall|l2: MbrLeaf<DIM, LG, T>| #[trigger]
                    out@.to_multiset().contains(l2) implies exists|l1: MbrLeaf<DIM, LG, T>|
                    (#[trigger] c0.to_multiset().contains(l1)) && l1.geometry == l2.geometry && (l2
                    == l1 || (query.spec_accept_leaf(l1) && call_ensures(
                    *f,
                    (&l1.geometry, &l1.item),
                    l2.item,
                ))) by {
                    assert(out@.contains(l2));
                    let j = choose|j: int| 0 <= j < out@.len() && out@[j] == l2;
                    assert(c0.contains(c0[j]));
                    assert(c0.to_multiset().contains(c0[j]));
                };
                assert(update_pairing(*query, *f, c0, out@)) by {
                    assert forall|i: int|
                        0 <= i < c0.len() implies (#[trigger] out@[i]).geometry == c0[i].geometry
                        && (if query.spec_surely(c0[i]) {
                        query.spec_accept_leaf(c0[i]) && call_ensures(
                            *f,
                            (&c0[i].geometry, &c0[i].item),
                            out@[i].item,
                        )
                    } else {
                        out@[i] == c0[i] || (query.spec_accept_leaf(c0[i]) && call_ensures(
                            *f,
                            (&c0[i].geometry, &c0[i].item),
                            out@[i].item,
                        ))
                    }) by {
                        if query.spec_surely(c0[i]) {
                            assert(crate::geometry::env_contained(
                                c0[i].envelope(),
                                c0[i].envelope(),
                                DIM as nat,
                            ));
                            query.lemma_surely(c0[i], c0[i].envelope());
                        }
                    };
                };
            }
            RTreeNode::Leaves { mbr, children: out }
        },
        RTreeNode::Level { mbr, children } => {
            let ghost c0 = children@;
            let ghost h = nd.height();
            proof {
                assert(h == 1 + c0[0].height());
            }
            let mut src = children;
            let mut tmp: Vec<RTreeNode<DIM, LG, T>> = Vec::new();
            while src.len() > 0
                invariant
                    src@ == c0.subrange(0, src@.len() as int),
                    tmp@.len() + src@.len() == c0.len(),
                    forall|j: int|
                        0 <= j < tmp@.len() ==> #[trigger] tmp@[j] == c0[c0.len() - 1 - j],
                decreases src@.len(),
            {
                let ghost prev = src@;
                let x = src.pop().unwrap();
                proof {
                    assert(prev.drop_last() =~= prev.remove(prev.len() - 1));
                    assert(src@ =~= c0.subrange(0, src@.len() as int));
                    assert(x == c0[src@.len() as int]);
                }
                tmp.push(x);
            }
            let mut out: Vec<RTreeNode<DIM, LG, T>> = Vec::new();
            let ghost mut bs_acc: Seq<MbrLeaf<DIM, LG, T>> = Seq::empty();
            let ghost mut nw_acc: Seq<MbrLeaf<DIM, LG, T>> = Seq::empty();
            proof {
                assert(bs_acc.to_multiset() =~= nodes_leaf_ms(c0.subrange(0, 0)));
                assert(nw_acc.to_multiset() =~= nodes_leaf_ms(out@));
            }
            while tmp.len() > 0
                invariant
                    out@.len() + tmp@.len() == c0.len(),
                    forall|j: int|
                        0 <= j < tmp@.len() ==> #[trigger] tmp@[j] == c0[c0.len() - 1 - j],
                    forall|j: int|
                        0 <= j < out@.len() ==> (#[trigger] out@[j]).wf_node(min, min, maxg) && (
                        out@[j]).env() == c0[j].env() && out@[j].height() == c0[j].height() && out@[
                            j
                        ].leaf_ms().len() == c0[j].leaf_ms().len() && updated_ok(
                            *query,
                            *f,
                            c0[j].leaf_ms(),
                            out@[j].leaf_ms(),
                        ),
                    bs_acc.to_multiset() == nodes_leaf_ms(c0.subrange(0, out@.len() as int)),
                    nw_acc.to_multiset() == nodes_leaf_ms(out@),
                    update_pairing(*query, *f, bs_acc, nw_acc),
                decreases tmp@.len(),
            {
                let ghost prev = tmp@;
                let ghost out_prev = out@;
                let x = tmp.pop().unwrap();
                proof {
                    assert(prev.drop_last() =~= prev.remove(prev.len() - 1));
                    assert(x == c0[out@.len() as int]);
                    assert(x.wf_node(min, min, maxg));
                    assert(x.height() < nd.height());
                }
                let x2 = update_node(query, x, f, Ghost(min), Ghost(min), Ghost(maxg));
                let ghost x2g = x2;
                out.push(x2);
                proof {
                    let (bsx, nwx) = choose|bsx: Seq<MbrLeaf<DIM, LG, T>>, nwx: Seq<
                        MbrLeaf<DIM, LG, T>,
                    >|
                        bsx.to_multiset() == x.leaf_ms() && nwx.to_multiset() == x2g.leaf_ms()
                            && #[trigger] update_pairing(*query, *f, bsx, nwx);
                    vstd::seq_lib::lemma_multiset_commutative(bs_acc, bsx);
                    vstd::seq_lib::lemma_multiset_commutative(nw_acc, nwx);
                    assert(update_pairing(*query, *f, bs_acc + bsx, nw_acc + nwx)) by {
                        assert forall|i: int|
                            0 <= i < (bs_acc + bsx).len() implies ((bs_acc + bsx)[i]).geometry
                            == ((nw_acc + nwx)[i]).geometry by {
                            if i < bs_acc.len() {
                                assert((bs_acc + bsx)[i] == bs_acc[i]);
                                assert((nw_acc + nwx)[i] == nw_acc[i]);
                            } else {
                                assert((bs_acc + bsx)[i] == bsx[i - bs_acc.len()]);
                                assert((nw_acc + nwx)[i] == nwx[i - nw_acc.len()]);
                            }
                        };
                        assert forall|i: int|
                            #![trigger (bs_acc + bsx)[i]]
                            0 <= i < (bs_acc + bsx).len() implies {
                            let b = (bs_acc + bsx)[i];
                            let n = (nw_acc + nwx)[i];
                            if query.spec_surely(b) {
                                query.spec_accept_leaf(b) && call_ensures(
                                    *f,
                                    (&b.geometry, &b.item),
                                    n.item,
                                )
                            } else {
                                n == b || (query.spec_accept_leaf(b) && call_ensures(
                                    *f,
                                    (&b.geometry, &b.item),
                                    n.item,
                                ))
                            }
                        } by {
                            if i < bs_acc.len() {
                                assert((bs_acc + bsx)[i] == bs_acc[i]);
                                assert((nw_acc + nwx)[i] == nw_acc[i]);
                            } else {
                                assert((bs_acc + bsx)[i] == bsx[i - bs_acc.len()]);
                                assert((nw_acc + nwx)[i] == nwx[i - nw_acc.len()]);
                            }
                        };
                    };
                    let pre = c0.subrange(0, out_prev.len() as int);
                    let now = c0.subrange(0, out@.len() as int);
                    assert(now.drop_last() =~= pre);
                    assert(now.last() == c0[out_prev.len() as int]);
                    crate::tree::mbr::node::lemma_nodes_leaf_ms_push(out_prev, x2g);
                    bs_acc = bs_acc + bsx;
                    nw_acc = nw_acc + nwx;
                    assert(bs_acc.to_multiset() =~= nodes_leaf_ms(
                        c0.subrange(0, out@.len() as int),
                    ));
                    assert(nw_acc.to_multiset() =~= nodes_leaf_ms(out@));
                }
            }
            proof {
                assert forall|i: int|
                    0 <= i < c0.len() implies (#[trigger] c0[i]).envelope() == out@[i].envelope() by {};
                crate::tree::mbr::node::lemma_fold_env_pointwise::<
                    DIM,
                    RTreeNode<DIM, LG, T>,
                    RTreeNode<DIM, LG, T>,
                >(c0, out@);
                crate::tree::mbr::node::lemma_nodes_leaf_ms_len_pointwise(c0, out@);
                assert forall|i: int|
                    0 <= i < out@.len() implies (#[trigger] out@[i]).height() == out@[0].height() by {
                    assert(c0[i].height() == c0[0].height());
                };
                assert forall|l2: MbrLeaf<DIM, LG, T>| #[trigger]
                    nodes_leaf_ms(out@).contains(l2) implies exists|l1: MbrLeaf<DIM, LG, T>|
                    (#[trigger] nodes_leaf_ms(c0).contains(l1)) && l1.geometry == l2.geometry && (
                l2 == l1 || (query.spec_accept_leaf(l1) && call_ensures(
                    *f,
                    (&l1.geometry, &l1.item),
                    l2.item,
                ))) by {
                    crate::tree::mbr::node::lemma_nodes_leaf_ms_member(out@, l2);
                    let j = choose|j: int|
                        0 <= j < out@.len() && (#[trigger] out@[j]).leaf_ms().contains(l2);
                    assert(updated_ok(*query, *f, c0[j].leaf_ms(), out@[j].leaf_ms()));
                    let l1 = choose|l1: MbrLeaf<DIM, LG, T>|
                        (#[trigger] c0[j].leaf_ms().contains(l1)) && l1.geometry == l2.geometry
                            && (l2 == l1 || (query.spec_accept_leaf(l1) && call_ensures(
                            *f,
                            (&l1.geometry, &l1.item),
                            l2.item,
                        )));
                    crate::tree::mbr::node::lemma_nodes_leaf_ms_remove(c0, j);
                    assert(nodes_leaf_ms(c0).count(l1) >= c0[j].leaf_ms().count(l1));
                    assert(nodes_leaf_ms(c0).contains(l1));
                };
                assert(c0.subrange(0, c0.len() as int) =~= c0);
                assert(bs_acc.to_multiset() == nd.leaf_ms());
                assert(update_pairing(*query, *f, bs_acc, nw_acc));
            }
            RTreeNode::Level { mbr, children: out }
        },
    }
}

impl<
    const DIM: usize,
    LG: MbrLeafGeometry<DIM>,
    T,
    I: IndexInsert<DIM, LG, T>,
    R: IndexRemove<DIM, LG, T, I>,
> MbrMap<DIM, LG, T, I, R> {
    /// Replace, in place, the item of every leaf the query accepts by
    /// what `f` returns for that leaf's geometry and item; every other
    /// leaf stays as it is.  The leaf count never changes.
    pub fn update_query<Q: MbrQuery<DIM, LG, T>, F: Fn(&LG, &T) -> T>(&mut self, query: Q, f: F)
        requires
            old(self).inv(),
            query.q_wf(),
            forall|g: &LG, t: &T| #[trigger] call_requires(f, (g, t)),
        ensures
            final(self).inv(),
            final(self).spec_len() == old(self).spec_len(),
            updated_ok(query, f, old(self).leaves(), final(self).leaves()),
            exists|bs: Seq<MbrLeaf<DIM, LG, T>>, nw: Seq<MbrLeaf<DIM, LG, T>>|
                {
                    &&& bs.to_multiset() == old(self).leaves()
                    &&& nw.to_multiset() == final(self).leaves()
                    &&& #[trigger] update_pairing(query, f, bs, nw)
                },
    {
        let mut tmp = self.insert_index.new_no_alloc_leaves();
        core::mem::swap(&mut self.root, &mut tmp);
        let ghost lo: int = if tmp.is_leaves() {
            0
        } else {
            1
        };
        self.root = update_node(
            &query,
            tmp,
            &f,
            Ghost(lo),
            Ghost(self.insert_index.spec_min()),
            Ghost(self.insert_index.spec_max()),
        );
    }
}

/// A level the query rejects holds no robustly accepted leaf: pruning a
/// rejected level cannot lose one.
pub proof fn lemma_pruning_sound<
    const DIM: usize,
    LG: MbrLeafGeometry<DIM>,
    T,
    Q: MbrQuery<DIM, LG, T>,
>(query: Q, node: RTreeNode<DIM, LG, T>, lo: int, min: int, maxg: int)
    requires
        query.q_wf(),
        node.wf_node(lo, min, maxg),
        !query.spec_accept_env(node.env()),
    ensures
        forall|l: MbrLeaf<DIM, LG, T>|
            #[trigger] node.leaf_ms().contains(l) ==> !query.spec_surely(l),
{
    node.lemma_wf_covers(lo, min, maxg);
    assert forall|l: MbrLeaf<DIM, LG, T>| #[trigger]
        node.leaf_ms().contains(l) implies !query.spec_surely(l) by {
        if query.spec_surely(l) {
            query.lemma_surely(l, node.env());
        }
    };
}

} // verus!
