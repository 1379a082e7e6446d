//! A dynamic R-tree: leaves are inserted one at a time, the tree rebalances
//! online by splitting overflowing nodes bottom-up, and overlap queries
//! collect every stored payload whose box intersects the query box.
//!
//! The node types and their well-formedness predicates are public so that
//! the invariants the tree maintains — every node's box is exactly the
//! merge of its children's boxes, and every node holds between 1 and
//! [`NODE_MAX_CHILDREN`] children — can be read and used by clients.

use vstd::prelude::*;

use crate::aabb::AABB;
use crate::aabb::Leaf;
use crate::aabb::leaf_aabbs;
use crate::aabb::lemma_covers_prunes;
use crate::aabb::lemma_join_assoc;
use crate::aabb::lemma_join_covers;
use crate::aabb::lemma_merge_seq_concat;
use crate::aabb::lemma_merge_seq_covers;
use crate::aabb::lemma_merge_seq_perm;
use crate::aabb::lemma_merge_seq_push;
use crate::aabb::lemma_merge_seq_wf;
use crate::aabb::lemma_merge_seq_remove;
use crate::aabb::lemma_merge_seq_singleton;
use crate::aabb::lemma_covers_trans;

verus! {

/// Most children an internal node or leaf list may hold; one more triggers
/// an immediate split.
pub const NODE_MAX_CHILDREN: usize = 6;

/// The dynamic index: an optional root node plus the tree height.
pub struct RTree<T> {
    pub height: usize,
    pub root: Option<Node<T>>,
}

/// A tree node: its bounding box and its homogeneous children.
pub struct Node<T> {
    pub aabb: AABB,
    pub entry: Entry<T>,
}

/// Children of a node are either all internal nodes or all leaves.
pub enum Entry<T> {
    Nodes(Vec<Node<T>>),
    Leaves(Vec<Leaf<T>>),
}

/// Result of inserting into a subtree: either the subtree absorbed the new
/// leaf, or it split and hands a new sibling up to its parent.
pub enum InsertResult<T> {
    Split(Node<T>),
    NoSplit,
}

/// The bounding boxes of a sequence of nodes, in order.
pub open spec fn node_aabbs<T>(s: Seq<Node<T>>) -> Seq<AABB> {
    s.map_values(|n: Node<T>| n.aabb)
}

impl<T> Node<T> {
    /// Every leaf stored under this node, in depth-first order.
    pub open spec fn leaves_of(self) -> Seq<Leaf<T>>
        decreases self,
    {
        match self.entry {
            Entry::Leaves(ls) => ls@,
            Entry::Nodes(ns) => leaves_of_children(ns@),
        }
    }

    /// Structural height: a node holding leaves has height 1.
    pub open spec fn height_of(self) -> nat
        decreases self,
    {
        match self.entry {
            Entry::Leaves(ls) => 1,
            Entry::Nodes(ns) => 1 + (if ns@.len() > 0 {
                ns@[0].height_of()
            } else {
                0
            }),
        }
    }

    /// Well-formed subtree: child counts within bounds, children
    /// homogeneous in height, and the node's box is exactly the merge of
    /// its children's boxes.
    pub open spec fn wf(self) -> bool
        decreases self,
    {
        match self.entry {
            Entry::Leaves(ls) => {
                &&& 1 <= ls@.len() <= NODE_MAX_CHILDREN
                &&& forall|i: int| 0 <= i < ls@.len() ==> (#[trigger] ls@[i]).aabb.wf()
                &&& self.aabb == AABB::merge_seq(leaf_aabbs(ls@))
            },
            Entry::Nodes(ns) => {
                &&& 1 <= ns@.len() <= NODE_MAX_CHILDREN
                &&& forall|i: int| 0 <= i < ns@.len() ==> (#[trigger] ns@[i]).wf()
                &&& forall|i: int|
                    0 <= i < ns@.len() ==> (#[trigger] ns@[i]).height_of() == ns@[0].height_of()
                &&& self.aabb == AABB::merge_seq(node_aabbs(ns@))
            },
        }
    }
}

/// The leaves under a sequence of nodes, concatenated in order.
pub open spec fn leaves_of_children<T>(s: Seq<Node<T>>) -> Seq<Leaf<T>>
    decreases s,
{
    if s.len() == 0 {
        Seq::empty()
    } else {
        leaves_of_children(s.drop_last()) + s.last().leaves_of()
    }
}

/// A well-formed node has a well-formed bounding box.
pub proof fn lemma_wf_aabb<T>(n: Node<T>)
    requires
        n.wf(),
    ensures
        n.aabb.wf(),
    decreases n.height_of(),
{
    match n.entry {
        Entry::Leaves(ls) => {
            assert forall|i: int| 0 <= i < leaf_aabbs(ls@).len() implies (#[trigger] leaf_aabbs(
                ls@,
            )[i]).wf() by {
                assert(leaf_aabbs(ls@)[i] == ls@[i].aabb);
            }
            lemma_merge_seq_wf(leaf_aabbs(ls@));
        },
        Entry::Nodes(ns) => {
            assert forall|i: int| 0 <= i < node_aabbs(ns@).len() implies (#[trigger] node_aabbs(
                ns@,
            )[i]).wf() by {
                assert(node_aabbs(ns@)[i] == ns@[i].aabb);
                lemma_wf_aabb(ns@[i]);
            }
            lemma_merge_seq_wf(node_aabbs(ns@));
        },
    }
}

/// Concatenating node sequences concatenates their leaf sequences.
pub proof fn lemma_leaves_children_concat<T>(a: Seq<Node<T>>, b: Seq<Node<T>>)
    ensures
        leaves_of_children(a + b) =~= leaves_of_children(a) + leaves_of_children(b),
    decreases b.len(),
{
    if b.len() == 0 {
        assert(a + b =~= a);
        assert(leaves_of_children(b) =~= Seq::empty());
    } else {
        lemma_leaves_children_concat(a, b.drop_last());
        assert((a + b).drop_last() =~= a + b.drop_last());
        assert((a + b).last() == b.last());
    }
}

/// A one-node sequence contributes exactly that node's leaves.
pub proof fn lemma_leaves_children_singleton<T>(n: Node<T>)
    ensures
        leaves_of_children(seq![n]) =~= n.leaves_of(),
{
    assert(seq![n].drop_last() =~= Seq::<Node<T>>::empty());
    assert(leaves_of_children(Seq::<Node<T>>::empty()) =~= Seq::empty());
    assert(seq![n].last() == n);
    assert(Seq::empty() + n.leaves_of() =~= n.leaves_of());
}

/// Removing one node removes exactly its leaves (as a multiset).
pub proof fn lemma_leaves_children_remove<T>(s: Seq<Node<T>>, i: int)
    requires
        0 <= i < s.len(),
    ensures
        leaves_of_children(s).to_multiset() == leaves_of_children(s.remove(i)).to_multiset().add(
            s[i].leaves_of().to_multiset(),
        ),
{
    let front = s.subrange(0, i);
    let back = s.subrange(i + 1, s.len() as int);
    assert(s =~= front + seq![s[i]] + back);
    assert(s.remove(i) =~= front + back);
    lemma_leaves_children_concat(front + seq![s[i]], back);
    lemma_leaves_children_concat(front, seq![s[i]]);
    lemma_leaves_children_concat(front, back);
    lemma_leaves_children_singleton(s[i]);
    let lf = leaves_of_children(front);
    let lm = s[i].leaves_of();
    let lb = leaves_of_children(back);
    vstd::seq_lib::lemma_multiset_commutative(lf + lm, lb);
    vstd::seq_lib::lemma_multiset_commutative(lf, lm);
    vstd::seq_lib::lemma_multiset_commutative(lf, lb);
    assert(leaves_of_children(s).to_multiset() == lf.to_multiset().add(lm.to_multiset()).add(
        lb.to_multiset(),
    ));
    assert(leaves_of_children(s.remove(i)).to_multiset() == lf.to_multiset().add(lb.to_multiset()));
    assert(lf.to_multiset().add(lm.to_multiset()).add(lb.to_multiset()) =~= lf.to_multiset().add(
        lb.to_multiset(),
    ).add(lm.to_multiset()));
}

/// The flattened leaf multiset depends only on the multiset of nodes.
pub proof fn lemma_leaves_children_perm<T>(s1: Seq<Node<T>>, s2: Seq<Node<T>>)
    requires
        s1.to_multiset() == s2.to_multiset(),
    ensures
        leaves_of_children(s1).to_multiset() == leaves_of_children(s2).to_multiset(),
    decreases s1.len(),
{
    s1.to_multiset_ensures();
    s2.to_multiset_ensures();
    if s1.len() == 0 {
        assert(s2.len() == 0);
        assert(leaves_of_children(s1) =~= leaves_of_children(s2));
    } else {
        let x = s1.last();
        let d1 = s1.drop_last();
        assert(s1 =~= d1.push(x));
        assert(s1.to_multiset().count(x) > 0);
        assert(s2.to_multiset().count(x) > 0);
        assert(s2.contains(x));
        let j = choose|j: int| 0 <= j < s2.len() && s2[j] == x;
        let d2 = s2.remove(j);
        d1.to_multiset_ensures();
        assert(s1.to_multiset() == d1.to_multiset().insert(x));
        vstd::seq_lib::to_multiset_remove(s2, j);
        assert(d2.to_multiset() =~= s2.to_multiset().remove(x));
        assert(d1.to_multiset() =~= d2.to_multiset());
        lemma_leaves_children_perm(d1, d2);
        lemma_leaves_children_remove(s2, j);
        assert(leaves_of_children(s1).to_multiset() == leaves_of_children(d1).to_multiset().add(
            x.leaves_of().to_multiset(),
        )) by {
            vstd::seq_lib::lemma_multiset_commutative(leaves_of_children(d1), x.leaves_of());
        }
    }
}

/// A leaf found among the concatenated leaves of some nodes lies under one
/// of those nodes.
pub proof fn lemma_leaves_children_member<T>(s: Seq<Node<T>>, l: Leaf<T>)
    requires
        leaves_of_children(s).contains(l),
    ensures
        exists|i: int| 0 <= i < s.len() && (#[trigger] s[i]).leaves_of().contains(l),
    decreases s.len(),
{
    assert(s.len() > 0);
    let d = s.drop_last();
    if s.last().leaves_of().contains(l) {
        assert(s[s.len() - 1].leaves_of().contains(l));
    } else {
        let k = choose|k: int| 0 <= k < leaves_of_children(s).len() && leaves_of_children(s)[k] == l;
        assert(leaves_of_children(s) == leaves_of_children(d) + s.last().leaves_of());
        if k < leaves_of_children(d).len() {
            assert(leaves_of_children(d)[k] == l);
            assert(leaves_of_children(d).contains(l));
        } else {
            assert(s.last().leaves_of()[k - leaves_of_children(d).len()] == l);
            assert(s.last().leaves_of().contains(l));
        }
        lemma_leaves_children_member(d, l);
        let i = choose|i: int| 0 <= i < d.len() && (#[trigger] d[i]).leaves_of().contains(l);
        assert(s[i].leaves_of().contains(l));
    }
}

/// A well-formed node's box covers the box of every leaf stored under it.
pub proof fn lemma_node_covers_leaves<T>(n: Node<T>, l: Leaf<T>)
    requires
        n.wf(),
        n.leaves_of().contains(l),
    ensures
        n.aabb.covers(l.aabb),
    decreases n.height_of(),
{
    match n.entry {
        Entry::Leaves(ls) => {
            let k = choose|k: int| 0 <= k < ls@.len() && ls@[k] == l;
            lemma_merge_seq_covers(leaf_aabbs(ls@));
            assert(leaf_aabbs(ls@)[k] == l.aabb);
        },
        Entry::Nodes(ns) => {
            lemma_leaves_children_member(ns@, l);
            let i = choose|i: int| 0 <= i < ns@.len() && (#[trigger] ns@[i]).leaves_of().contains(
                l,
            );
            assert(ns@[i].wf());
            assert(ns@[i].height_of() < n.height_of());
            lemma_node_covers_leaves(ns@[i], l);
            lemma_merge_seq_covers(node_aabbs(ns@));
            assert(node_aabbs(ns@)[i] == ns@[i].aabb);
            lemma_covers_trans(n.aabb, ns@[i].aabb, l.aabb);
        },
    }
}

/// Anything that exposes a bounding box; lets one split routine serve both
/// node lists and leaf lists.
pub trait HasAABB: Sized {
    /// The item's bounding box, for specification purposes.
    spec fn spec_aabb(self) -> AABB;

    /// The item's bounding box.
    fn get_aabb(&self) -> (r: AABB)
        ensures
            r == self.spec_aabb(),
    ;
}

impl<T> HasAABB for Node<T> {
    open spec fn spec_aabb(self) -> AABB {
        self.aabb
    }

    fn get_aabb(&self) -> (r: AABB) {
        self.aabb
    }
}

impl<T> HasAABB for Leaf<T> {
    open spec fn spec_aabb(self) -> AABB {
        self.aabb
    }

    fn get_aabb(&self) -> (r: AABB) {
        self.aabb
    }
}

/// The bounding boxes of a sequence of items, in order.
pub open spec fn boxes_of<X: HasAABB>(s: Seq<X>) -> Seq<AABB> {
    s.map_values(|x: X| x.spec_aabb())
}

/// Item sequences with equal multisets have box sequences with equal
/// multisets.
pub proof fn lemma_boxes_of_perm<X: HasAABB>(s1: Seq<X>, s2: Seq<X>)
    requires
        s1.to_multiset() == s2.to_multiset(),
    ensures
        boxes_of(s1).to_multiset() == boxes_of(s2).to_multiset(),
    decreases s1.len(),
{
    s1.to_multiset_ensures();
    s2.to_multiset_ensures();
    if s1.len() == 0 {
        assert(s2.len() == 0);
        assert(boxes_of(s1) =~= boxes_of(s2));
    } else {
        let x = s1.last();
        let d1 = s1.drop_last();
        assert(s1 =~= d1.push(x));
        assert(s1.to_multiset().count(x) > 0);
        assert(s2.contains(x));
        let j = choose|j: int| 0 <= j < s2.len() && s2[j] == x;
        let d2 = s2.remove(j);
        d1.to_multiset_ensures();
        vstd::seq_lib::to_multiset_remove(s2, j);
        assert(d1.to_multiset() =~= d2.to_multiset());
        lemma_boxes_of_perm(d1, d2);
        boxes_of(d1).to_multiset_ensures();
        boxes_of(d2).to_multiset_ensures();
        assert(boxes_of(s1) =~= boxes_of(d1).push(x.spec_aabb()));
        assert(boxes_of(s2).remove(j) =~= boxes_of(d2));
        vstd::seq_lib::to_multiset_remove(boxes_of(s2), j);
        boxes_of(s2).to_multiset_ensures();
        assert(boxes_of(s2)[j] == x.spec_aabb());
        assert(boxes_of(s1).to_multiset() =~= boxes_of(s2).to_multiset());
    }
}

/// Wasted volume when a pair of boxes shares one node: the merged
/// volume less the two volumes.
pub open spec fn spec_waste(a: AABB, b: AABB) -> int {
    a.spec_join(b).spec_volume() - a.spec_volume() - b.spec_volume()
}

/// Volume of the merge of a pair of boxes.
pub open spec fn spec_pair_volume(a: AABB, b: AABB) -> int {
    a.spec_join(b).spec_volume()
}

/// How strongly the two groups disagree about an item: the absolute
/// difference of the enlargements it would cost them.
pub open spec fn pick_score(a1: AABB, a2: AABB, b: AABB) -> int {
    let d = enlargement(a1, b) - enlargement(a2, b);
    if d >= 0 {
        d
    } else {
        -d
    }
}

/// Index of the item *PickNext* selects from the remainder: the first
/// item with the largest enlargement difference between the two groups.
pub open spec fn spec_pick_next<X: HasAABB>(a1: AABB, a2: AABB, rest: Seq<X>) -> int
    decreases rest.len(),
{
    if rest.len() <= 1 {
        0
    } else {
        let b = spec_pick_next(a1, a2, rest.drop_last());
        if pick_score(a1, a2, rest.last().spec_aabb()) > pick_score(a1, a2, rest[b].spec_aabb()) {
            rest.len() - 1
        } else {
            b
        }
    }
}

/// The *PickNext* choice is always in range.
pub proof fn lemma_pick_next_in_range<X: HasAABB>(a1: AABB, a2: AABB, rest: Seq<X>)
    requires
        rest.len() >= 1,
    ensures
        0 <= spec_pick_next(a1, a2, rest) < rest.len(),
    decreases rest.len(),
{
    if rest.len() > 1 {
        lemma_pick_next_in_range(a1, a2, rest.drop_last());
    }
}

/// The greedy distribution phase of a split: repeatedly take one
/// remaining item (the *PickNext* choice when `pick_next` is set, else
/// the first in stored order) and hand it to the group it enlarges
/// least, growing that group's box, until none remain.
pub open spec fn greedy_distribute<X: HasAABB>(
    pick_next: bool,
    a1: AABB,
    g1: Seq<X>,
    a2: AABB,
    g2: Seq<X>,
    rest: Seq<X>,
) -> (AABB, Seq<X>, AABB, Seq<X>)
    decreases rest.len(),
    via greedy_distribute_decreases::<X>
{
    if rest.len() == 0 {
        (a1, g1, a2, g2)
    } else {
        let p = if pick_next {
            spec_pick_next(a1, a2, rest)
        } else {
            0
        };
        let x = rest[p];
        if enlargement(a1, x.spec_aabb()) < enlargement(a2, x.spec_aabb()) {
            greedy_distribute(
                pick_next,
                a1.spec_join(x.spec_aabb()),
                g1.push(x),
                a2,
                g2,
                rest.remove(p),
            )
        } else {
            greedy_distribute(
                pick_next,
                a1,
                g1,
                a2.spec_join(x.spec_aabb()),
                g2.push(x),
                rest.remove(p),
            )
        }
    }
}

#[via_fn]
proof fn greedy_distribute_decreases<X: HasAABB>(
    pick_next: bool,
    a1: AABB,
    g1: Seq<X>,
    a2: AABB,
    g2: Seq<X>,
    rest: Seq<X>,
) {
    if rest.len() > 0 && pick_next {
        lemma_pick_next_in_range(a1, a2, rest);
    }
}

/// Wasted volume when a pair of boxes shares one node: the merged volume
/// less the two volumes. The worst pair makes the best split seeds.
fn waste_of(a: &AABB, b: &AABB) -> (w: i128)
    requires
        a.wf(),
        b.wf(),
    ensures
        w == spec_waste(*a, *b),
{
    proof {
        crate::aabb::lemma_join_wf(*a, *b);
    }
    let m = a.merge_with(b);
    m.volume() - a.volume() - b.volume()
}

/// Quadratic split, as in the classic R-tree: *PickSeeds* chooses the pair
/// wasting the most volume if kept together; *PickNext* repeatedly assigns
/// the remaining item with the largest enlargement difference to the group
/// it enlarges least. Returns both groups, each with its exact bounding
/// box; the groups partition the input and merge back to its bound.
pub fn quadratic_split<X: HasAABB>(items: Vec<X>) -> (r: ((AABB, Vec<X>), (AABB, Vec<X>)))
    requires
        items@.len() >= 2,
        forall|i: int| 0 <= i < items@.len() ==> (#[trigger] items@[i]).spec_aabb().wf(),
    ensures
        r.0.1@.len() >= 1,
        r.1.1@.len() >= 1,
        r.0.1@.len() + r.1.1@.len() == items@.len(),
        r.0.1@.to_multiset().add(r.1.1@.to_multiset()) == items@.to_multiset(),
        r.0.0 == AABB::merge_seq(boxes_of(r.0.1@)),
        r.1.0 == AABB::merge_seq(boxes_of(r.1.1@)),
        r.0.0.spec_join(r.1.0) == AABB::merge_seq(boxes_of(items@)),
        r.0.0.wf(),
        r.1.0.wf(),
        // the seeds: the first item of each group is one of the pair
        // wasting the most volume if kept together; the rest are dealt out
        // greedily, each (picked by largest enlargement difference) to the
        // group it enlarges least
        exists|s1: int, s2: int|
            #![trigger items@[s1], items@[s2]]
            0 <= s1 < s2 < items@.len() && r.0.1@[0] == items@[s1] && r.1.1@[0] == items@[s2]
                && (forall|a: int, b: int|
                #![trigger items@[a], items@[b]]
                0 <= a < b < items@.len() ==> spec_waste(
                    items@[a].spec_aabb(),
                    items@[b].spec_aabb(),
                ) <= spec_waste(items@[s1].spec_aabb(), items@[s2].spec_aabb())) && (
            r.0.0,
            r.0.1@,
            r.1.0,
            r.1.1@,
            ) == greedy_distribute(
                true,
                items@[s1].spec_aabb(),
                seq![items@[s1]],
                items@[s2].spec_aabb(),
                seq![items@[s2]],
                items@.remove(s2).remove(s1),
            ),
{
    broadcast use vstd::multiset::group_multiset_axioms;

    let ghost orig = items@;
    let mut rest = items;
    // PickSeeds: the pair maximizing wasted volume.
    let mut s1: usize = 0;
    let mut s2: usize = 1;
    let mut best: i128 = waste_of(&rest[0].get_aabb(), &rest[1].get_aabb());
    let mut i: usize = 0;
    while i < rest.len()
        invariant
            rest@ == orig,
            orig.len() >= 2,
            forall|k: int| 0 <= k < orig.len() ==> (#[trigger] orig[k]).spec_aabb().wf(),
            s1 < s2 < orig.len(),
            best == spec_waste(orig[s1 as int].spec_aabb(), orig[s2 as int].spec_aabb()),
            forall|a: int, b: int|
                #![trigger orig[a], orig[b]]
                0 <= a < b < orig.len() && a < i ==> spec_waste(
                    orig[a].spec_aabb(),
                    orig[b].spec_aabb(),
                ) <= best,
        decreases orig.len() - i,
    {
        let mut j: usize = i + 1;
        while j < rest.len()
            invariant
                rest@ == orig,
                orig.len() >= 2,
                forall|k: int| 0 <= k < orig.len() ==> (#[trigger] orig[k]).spec_aabb().wf(),
                s1 < s2 < orig.len(),
                i < orig.len(),
                j > i,
                best == spec_waste(orig[s1 as int].spec_aabb(), orig[s2 as int].spec_aabb()),
                forall|a: int, b: int|
                    #![trigger orig[a], orig[b]]
                    0 <= a < b < orig.len() && a < i ==> spec_waste(
                        orig[a].spec_aabb(),
                        orig[b].spec_aabb(),
                    ) <= best,
                forall|b: int|
                    #![trigger orig[b]]
                    i < b < j ==> spec_waste(orig[i as int].spec_aabb(), orig[b].spec_aabb())
                        <= best,
            decreases orig.len() - j,
        {
            let w = waste_of(&rest[i].get_aabb(), &rest[j].get_aabb());
            if w > best {
                best = w;
                s1 = i;
                s2 = j;
            }
            j = j + 1;
        }
        i = i + 1;
    }
    let ghost gs1 = s1 as int;
    let ghost gs2 = s2 as int;
    let r = distribute(rest, s1, s2, true);
    proof {
        assert(0 <= gs1 < gs2 < items@.len() && r.0.1@[0] == items@[gs1] && r.1.1@[0]
            == items@[gs2] && (forall|a: int, b: int|
            #![trigger items@[a], items@[b]]
            0 <= a < b < items@.len() ==> spec_waste(items@[a].spec_aabb(), items@[b].spec_aabb())
                <= spec_waste(items@[gs1].spec_aabb(), items@[gs2].spec_aabb())) && (
        r.0.0,
        r.0.1@,
        r.1.0,
        r.1.1@,
        ) == greedy_distribute(
            true,
            items@[gs1].spec_aabb(),
            seq![items@[gs1]],
            items@[gs2].spec_aabb(),
            seq![items@[gs2]],
            items@.remove(gs2).remove(gs1),
        ));
    }
    r
}

/// The simpler split heuristic kept for comparison: seeds are the pair
/// whose merged box has the largest volume; the rest are assigned in their
/// stored order to whichever group they enlarge least.
pub fn split<X: HasAABB>(items: Vec<X>) -> (r: ((AABB, Vec<X>), (AABB, Vec<X>)))
    requires
        items@.len() >= 2,
        forall|i: int| 0 <= i < items@.len() ==> (#[trigger] items@[i]).spec_aabb().wf(),
    ensures
        r.0.1@.len() >= 1,
        r.1.1@.len() >= 1,
        r.0.1@.len() + r.1.1@.len() == items@.len(),
        r.0.1@.to_multiset().add(r.1.1@.to_multiset()) == items@.to_multiset(),
        r.0.0 == AABB::merge_seq(boxes_of(r.0.1@)),
        r.1.0 == AABB::merge_seq(boxes_of(r.1.1@)),
        r.0.0.spec_join(r.1.0) == AABB::merge_seq(boxes_of(items@)),
        r.0.0.wf(),
        r.1.0.wf(),
        // the seeds: the first item of each group is one of the pair
        // whose merged box has the largest volume; the rest are dealt out
        // in stored order, each to the group it enlarges least
        exists|s1: int, s2: int|
            #![trigger items@[s1], items@[s2]]
            0 <= s1 < s2 < items@.len() && r.0.1@[0] == items@[s1] && r.1.1@[0] == items@[s2]
                && (forall|a: int, b: int|
                #![trigger items@[a], items@[b]]
                0 <= a < b < items@.len() ==> spec_pair_volume(
                    items@[a].spec_aabb(),
                    items@[b].spec_aabb(),
                ) <= spec_pair_volume(items@[s1].spec_aabb(), items@[s2].spec_aabb())) && (
            r.0.0,
            r.0.1@,
            r.1.0,
            r.1.1@,
            ) == greedy_distribute(
                false,
                items@[s1].spec_aabb(),
                seq![items@[s1]],
                items@[s2].spec_aabb(),
                seq![items@[s2]],
                items@.remove(s2).remove(s1),
            ),
{
    let ghost orig = items@;
    let mut rest = items;
    let mut s1: usize = 0;
    let mut s2: usize = 1;
    let mut best: i128 = {
        proof {
            crate::aabb::lemma_join_wf(orig[0].spec_aabb(), orig[1].spec_aabb());
        }
        rest[0].get_aabb().merge_with(&rest[1].get_aabb()).volume()
    };
    let mut i: usize = 0;
    while i < rest.len()
        invariant
            rest@ == orig,
            orig.len() >= 2,
            forall|k: int| 0 <= k < orig.len() ==> (#[trigger] orig[k]).spec_aabb().wf(),
            s1 < s2 < orig.len(),
            best == spec_pair_volume(orig[s1 as int].spec_aabb(), orig[s2 as int].spec_aabb()),
            forall|a: int, b: int|
                #![trigger orig[a], orig[b]]
                0 <= a < b < orig.len() && a < i ==> spec_pair_volume(
                    orig[a].spec_aabb(),
                    orig[b].spec_aabb(),
                ) <= best,
        decreases orig.len() - i,
    {
        let mut j: usize = i + 1;
        while j < rest.len()
            invariant
                rest@ == orig,
                orig.len() >= 2,
                forall|k: int| 0 <= k < orig.len() ==> (#[trigger] orig[k]).spec_aabb().wf(),
                s1 < s2 < orig.len(),
                i < orig.len(),
                j > i,
                best == spec_pair_volume(
                    orig[s1 as int].spec_aabb(),
                    orig[s2 as int].spec_aabb(),
                ),
                forall|a: int, b: int|
                    #![trigger orig[a], orig[b]]
                    0 <= a < b < orig.len() && a < i ==> spec_pair_volume(
                        orig[a].spec_aabb(),
                        orig[b].spec_aabb(),
                    ) <= best,
                forall|b: int|
                    #![trigger orig[b]]
                    i < b < j ==> spec_pair_volume(
                        orig[i as int].spec_aabb(),
                        orig[b].spec_aabb(),
                    ) <= best,
            decreases orig.len() - j,
        {
            let ba = rest[i].get_aabb();
            let bb = rest[j].get_aabb();
            proof {
                crate::aabb::lemma_join_wf(ba, bb);
            }
            let w = ba.merge_with(&bb).volume();
            if w > best {
                best = w;
                s1 = i;
                s2 = j;
            }
            j = j + 1;
        }
        i = i + 1;
    }
    let ghost gs1 = s1 as int;
    let ghost gs2 = s2 as int;
    let r = distribute(rest, s1, s2, false);
    proof {
        assert(0 <= gs1 < gs2 < items@.len() && r.0.1@[0] == items@[gs1] && r.1.1@[0]
            == items@[gs2] && (forall|a: int, b: int|
            #![trigger items@[a], items@[b]]
            0 <= a < b < items@.len() ==> spec_pair_volume(
                items@[a].spec_aabb(),
                items@[b].spec_aabb(),
            ) <= spec_pair_volume(items@[gs1].spec_aabb(), items@[gs2].spec_aabb())) && (
        r.0.0,
        r.0.1@,
        r.1.0,
        r.1.1@,
        ) == greedy_distribute(
            false,
            items@[gs1].spec_aabb(),
            seq![items@[gs1]],
            items@[gs2].spec_aabb(),
            seq![items@[gs2]],
            items@.remove(gs2).remove(gs1),
        ));
    }
    r
}

/// Shared distribution phase of the two split heuristics: seed the groups
/// with the chosen pair, then hand out the remaining items, each to the
/// group it enlarges least. With `pick_next` set, the item with the
/// largest enlargement difference goes first; otherwise items go in their
/// stored order.
fn distribute<X: HasAABB>(items: Vec<X>, s1: usize, s2: usize, pick_next: bool) -> (r: ((
    AABB,
    Vec<X>,
), (AABB, Vec<X>)))
    requires
        items@.len() >= 2,
        s1 < s2 < items@.len(),
        forall|i: int| 0 <= i < items@.len() ==> (#[trigger] items@[i]).spec_aabb().wf(),
    ensures
        r.0.1@.len() >= 1,
        r.1.1@.len() >= 1,
        r.0.1@.len() + r.1.1@.len() == items@.len(),
        r.0.1@.to_multiset().add(r.1.1@.to_multiset()) == items@.to_multiset(),
        r.0.0 == AABB::merge_seq(boxes_of(r.0.1@)),
        r.1.0 == AABB::merge_seq(boxes_of(r.1.1@)),
        r.0.0.spec_join(r.1.0) == AABB::merge_seq(boxes_of(items@)),
        r.0.0.wf(),
        r.1.0.wf(),
        r.0.1@[0] == items@[s1 as int],
        r.1.1@[0] == items@[s2 as int],
        // the result is exactly the greedy distribution, seeded with the
        // chosen pair, over the remaining items
        (r.0.0, r.0.1@, r.1.0, r.1.1@) == greedy_distribute(
            pick_next,
            items@[s1 as int].spec_aabb(),
            seq![items@[s1 as int]],
            items@[s2 as int].spec_aabb(),
            seq![items@[s2 as int]],
            items@.remove(s2 as int).remove(s1 as int),
        ),
{
    broadcast use vstd::multiset::group_multiset_axioms;

    let ghost orig = items@;
    let mut rest = items;
    let second = rest.remove(s2);
    let first = rest.remove(s1);
    let b1 = first.get_aabb();
    let b2 = second.get_aabb();
    let mut g1: Vec<X> = Vec::new();
    let mut g2: Vec<X> = Vec::new();
    g1.push(first);
    g2.push(second);
    let mut aabb1 = b1;
    let mut aabb2 = b2;
    proof {
        orig.to_multiset_ensures();
        vstd::seq_lib::to_multiset_remove(orig, s2 as int);
        vstd::seq_lib::to_multiset_remove(orig.remove(s2 as int), s1 as int);
        assert(orig.remove(s2 as int)[s1 as int] == orig[s1 as int]);
        assert(orig.contains(orig[s2 as int]));
        assert(orig.remove(s2 as int).contains(orig[s1 as int])) by {
            assert(orig.remove(s2 as int)[s1 as int] == orig[s1 as int]);
        }
        orig.remove(s2 as int).to_multiset_ensures();
        assert(g1@ =~= seq![first]);
        assert(g2@ =~= seq![second]);
        assert(boxes_of(g1@) =~= seq![b1]);
        assert(boxes_of(g2@) =~= seq![b2]);
        lemma_merge_seq_singleton(boxes_of(g1@));
        lemma_merge_seq_singleton(boxes_of(g2@));
        seq![first].to_multiset_ensures();
        seq![second].to_multiset_ensures();
        Seq::<X>::empty().to_multiset_ensures();
        assert(seq![first] =~= Seq::<X>::empty().push(first));
        assert(seq![second] =~= Seq::<X>::empty().push(second));
        assert(g1@.to_multiset().add(g2@.to_multiset()).add(rest@.to_multiset())
            =~= orig.to_multiset());
        assert(first == orig[s1 as int]);
        assert(g1@ =~= seq![orig[s1 as int]]);
        assert(g2@ =~= seq![orig[s2 as int]]);
        assert(rest@ =~= orig.remove(s2 as int).remove(s1 as int));
    }
    while rest.len() > 0
        invariant
            g1@.len() >= 1,
            g2@.len() >= 1,
            g1@[0] == orig[s1 as int],
            g2@[0] == orig[s2 as int],
            g1@.len() + g2@.len() + rest@.len() == orig.len(),
            g1@.to_multiset().add(g2@.to_multiset()).add(rest@.to_multiset())
                == orig.to_multiset(),
            aabb1 == AABB::merge_seq(boxes_of(g1@)),
            aabb2 == AABB::merge_seq(boxes_of(g2@)),
            aabb1.wf(),
            aabb2.wf(),
            forall|k: int| 0 <= k < rest@.len() ==> (#[trigger] rest@[k]).spec_aabb().wf(),
            greedy_distribute(pick_next, aabb1, g1@, aabb2, g2@, rest@) == greedy_distribute(
                pick_next,
                orig[s1 as int].spec_aabb(),
                seq![orig[s1 as int]],
                orig[s2 as int].spec_aabb(),
                seq![orig[s2 as int]],
                orig.remove(s2 as int).remove(s1 as int),
            ),
        decreases rest@.len(),
    {
        let mut pick: usize = 0;
        if pick_next {
            // PickNext: the remaining item with the largest enlargement
            // difference between the two groups.
            let mut best_score: i128 = -1;
            let mut j: usize = 0;
            while j < rest.len()
                invariant
                    rest@.len() > 0,
                    pick < rest@.len(),
                    j <= rest@.len(),
                    aabb1.wf(),
                    aabb2.wf(),
                    forall|k: int| 0 <= k < rest@.len() ==> (#[trigger] rest@[k]).spec_aabb().wf(),
                    j == 0 ==> pick == 0 && best_score == -1,
                    j >= 1 ==> pick < j,
                    j >= 1 ==> pick as int == spec_pick_next(aabb1, aabb2, rest@.take(j as int)),
                    j >= 1 ==> best_score == pick_score(
                        aabb1,
                        aabb2,
                        rest@[pick as int].spec_aabb(),
                    ),
                decreases rest@.len() - j,
            {
                let b = rest[j].get_aabb();
                proof {
                    crate::aabb::lemma_join_wf(aabb1, b);
                    crate::aabb::lemma_join_wf(aabb2, b);
                    assert(rest@.take(j + 1).drop_last() =~= rest@.take(j as int));
                    assert(rest@.take(j + 1).last() == rest@[j as int]);
                    if j >= 1 {
                        lemma_pick_next_in_range(aabb1, aabb2, rest@.take(j as int));
                        assert(rest@.take(j as int)[pick as int] == rest@[pick as int]);
                    }
                }
                let d1 = aabb1.merge_with(&b).volume() - aabb1.volume();
                let d2 = aabb2.merge_with(&b).volume() - aabb2.volume();
                let diff = d1 - d2;
                let score = if diff < 0 {
                    -diff
                } else {
                    diff
                };
                proof {
                    assert(score == pick_score(aabb1, aabb2, rest@[j as int].spec_aabb()));
                }
                if score > best_score {
                    best_score = score;
                    pick = j;
                }
                j = j + 1;
            }
            proof {
                assert(rest@.take(rest@.len() as int) =~= rest@);
                assert(pick as int == spec_pick_next(aabb1, aabb2, rest@));
            }
        }
        let ghost rest0 = rest@;
        let ghost g10 = g1@;
        let ghost g20 = g2@;
        let ghost a1_pre = aabb1;
        let ghost a2_pre = aabb2;
        proof {
            if pick_next {
                lemma_pick_next_in_range(a1_pre, a2_pre, rest0);
            }
            assert(pick as int == (if pick_next {
                spec_pick_next(a1_pre, a2_pre, rest0)
            } else {
                0int
            }));
        }
        let item = rest.remove(pick);
        let b = item.get_aabb();
        proof {
            vstd::seq_lib::to_multiset_remove(rest0, pick as int);
            rest0.to_multiset_ensures();
            assert(rest0.contains(rest0[pick as int]));
            crate::aabb::lemma_join_wf(aabb1, b);
            crate::aabb::lemma_join_wf(aabb2, b);
        }
        let m1 = aabb1.merge_with(&b);
        let m2 = aabb2.merge_with(&b);
        let d1 = m1.volume() - aabb1.volume();
        let d2 = m2.volume() - aabb2.volume();
        if d1 < d2 {
            g1.push(item);
            aabb1 = m1;
            proof {
                assert(boxes_of(g1@) =~= boxes_of(g10).push(b));
                lemma_merge_seq_push(boxes_of(g10), b);
                g10.to_multiset_ensures();
                assert(g1@ =~= g10.push(item));
                assert(g1@.to_multiset().add(g2@.to_multiset()).add(rest@.to_multiset())
                    =~= orig.to_multiset());
                assert(greedy_distribute(pick_next, a1_pre, g10, a2_pre, g20, rest0)
                    == greedy_distribute(pick_next, aabb1, g1@, aabb2, g2@, rest@));
            }
        } else {
            g2.push(item);
            aabb2 = m2;
            proof {
                assert(boxes_of(g2@) =~= boxes_of(g20).push(b));
                lemma_merge_seq_push(boxes_of(g20), b);
                g20.to_multiset_ensures();
                assert(g2@ =~= g20.push(item));
                assert(g1@.to_multiset().add(g2@.to_multiset()).add(rest@.to_multiset())
                    =~= orig.to_multiset());
                assert(greedy_distribute(pick_next, a1_pre, g10, a2_pre, g20, rest0)
                    == greedy_distribute(pick_next, aabb1, g1@, aabb2, g2@, rest@));
            }
        }
    }
    proof {
        assert(rest@ =~= Seq::<X>::empty());
        assert(greedy_distribute(pick_next, aabb1, g1@, aabb2, g2@, rest@) == (
            aabb1,
            g1@,
            aabb2,
            g2@,
        ));
        Seq::<X>::empty().to_multiset_ensures();
        assert(g1@.to_multiset().add(g2@.to_multiset()) =~= orig.to_multiset());
        vstd::seq_lib::lemma_multiset_commutative(g1@, g2@);
        lemma_boxes_of_perm(g1@ + g2@, orig);
        assert(boxes_of(g1@ + g2@) =~= boxes_of(g1@) + boxes_of(g2@));
        lemma_merge_seq_concat(boxes_of(g1@), boxes_of(g2@));
        lemma_merge_seq_perm(boxes_of(g1@ + g2@), boxes_of(orig));
    }
    ((aabb1, g1), (aabb2, g2))
}

/// How much `b` must grow (in volume) to accommodate `x`.
pub open spec fn enlargement(b: AABB, x: AABB) -> int {
    b.spec_join(x).spec_volume() - b.spec_volume()
}

/// Index of the child whose box needs the least volume enlargement to
/// accommodate `x`; ties go to the first minimal child.
pub open spec fn spec_best_child<T>(s: Seq<Node<T>>, x: AABB) -> int
    decreases s.len(),
{
    if s.len() <= 1 {
        0
    } else {
        let b = spec_best_child(s.drop_last(), x);
        if enlargement(s.last().aabb, x) < enlargement(s[b].aabb, x) {
            s.len() - 1
        } else {
            b
        }
    }
}

/// The chosen child index is always in range.
pub proof fn lemma_best_child_in_range<T>(s: Seq<Node<T>>, x: AABB)
    requires
        s.len() >= 1,
    ensures
        0 <= spec_best_child(s, x) < s.len(),
    decreases s.len(),
{
    if s.len() > 1 {
        lemma_best_child_in_range(s.drop_last(), x);
    }
}

/// Whether inserting a box will split the subtree: true iff the node is
/// already full and, for an internal node, the chosen descent child (the
/// one enlarged least) splits in turn.
pub open spec fn insert_splits<T>(node: Node<T>, x: AABB) -> bool
    decreases node,
    via insert_splits_decreases::<T>
{
    match node.entry {
        Entry::Leaves(ls) => ls@.len() >= NODE_MAX_CHILDREN,
        Entry::Nodes(ns) => ns@.len() > 0 && insert_splits(ns@[spec_best_child(ns@, x)], x)
            && ns@.len() >= NODE_MAX_CHILDREN,
    }
}

#[via_fn]
proof fn insert_splits_decreases<T>(node: Node<T>, x: AABB) {
    match node.entry {
        Entry::Leaves(ls) => {},
        Entry::Nodes(ns) => {
            if ns@.len() > 0 {
                lemma_best_child_in_range(ns@, x);
            }
        },
    }
}

/// The child whose box needs the least volume enlargement to accommodate
/// the new box; ties go to the first minimal child in iteration order.
fn find_best_match<T>(nodes: &Vec<Node<T>>, aabb: &AABB) -> (best: usize)
    requires
        nodes@.len() >= 1,
        aabb.wf(),
        forall|i: int| 0 <= i < nodes@.len() ==> (#[trigger] nodes@[i]).aabb.wf(),
    ensures
        best < nodes@.len(),
        forall|i: int|
            0 <= i < nodes@.len() ==> enlargement(nodes@[best as int].aabb, *aabb) <= enlargement(
                (#[trigger] nodes@[i]).aabb,
                *aabb,
            ),
        best as int == spec_best_child(nodes@, *aabb),
{
    let mut best: usize = 0;
    proof {
        crate::aabb::lemma_join_wf(nodes@[0].aabb, *aabb);
    }
    let b0 = nodes[0].get_aabb();
    let mut best_d: i128 = b0.merge_with(aabb).volume() - b0.volume();
    let mut i: usize = 1;
    while i < nodes.len()
        invariant
            nodes@.len() >= 1,
            aabb.wf(),
            forall|k: int| 0 <= k < nodes@.len() ==> (#[trigger] nodes@[k]).aabb.wf(),
            best < nodes@.len(),
            1 <= i <= nodes@.len(),
            best_d == enlargement(nodes@[best as int].aabb, *aabb),
            forall|k: int|
                0 <= k < i ==> best_d <= enlargement((#[trigger] nodes@[k]).aabb, *aabb),
            best as int == spec_best_child(nodes@.take(i as int), *aabb),
        decreases nodes@.len() - i,
    {
        proof {
            crate::aabb::lemma_join_wf(nodes@[i as int].aabb, *aabb);
            assert(nodes@.take(i + 1).drop_last() =~= nodes@.take(i as int));
            assert(nodes@.take(i + 1).last() == nodes@[i as int]);
            lemma_best_child_in_range(nodes@.take(i as int), *aabb);
            assert(nodes@.take(i as int)[best as int] == nodes@[best as int]);
        }
        let b = nodes[i].get_aabb();
        let d = b.merge_with(aabb).volume() - b.volume();
        if d < best_d {
            best = i;
            best_d = d;
        }
        i = i + 1;
    }
    proof {
        assert(nodes@.take(nodes@.len() as int) =~= nodes@);
    }
    best
}

/// Wrap a full-or-overflowing leaf list: split it into two leaf nodes if
/// it exceeds the fanout bound, else into the single node with the given
/// exact bounding box.
fn finish_leaves<T>(merged: AABB, ls: Vec<Leaf<T>>) -> (r: (Node<T>, InsertResult<T>))
    requires
        1 <= ls@.len() <= NODE_MAX_CHILDREN + 1,
        forall|i: int| 0 <= i < ls@.len() ==> (#[trigger] ls@[i]).aabb.wf(),
        merged == AABB::merge_seq(leaf_aabbs(ls@)),
    ensures
        r.1 is Split <==> ls@.len() > NODE_MAX_CHILDREN,
        r.0.wf(),
        r.0.height_of() == 1,
        match r.1 {
            InsertResult::Split(n2) => {
                &&& n2.wf()
                &&& n2.height_of() == 1
                &&& r.0.aabb.spec_join(n2.aabb) == merged
                &&& r.0.leaves_of().to_multiset().add(n2.leaves_of().to_multiset())
                    == ls@.to_multiset()
            },
            InsertResult::NoSplit => {
                &&& r.0.aabb == merged
                &&& r.0.leaves_of().to_multiset() == ls@.to_multiset()
            },
        },
{
    if ls.len() > NODE_MAX_CHILDREN {
        let ghost ls0 = ls@;
        let ((aabb1, ls1), (aabb2, ls2)) = split(ls);
        proof {
            assert(boxes_of(ls1@) =~= leaf_aabbs(ls1@));
            assert(boxes_of(ls2@) =~= leaf_aabbs(ls2@));
            assert(boxes_of(ls0) =~= leaf_aabbs(ls0));
            ls1@.to_multiset_ensures();
            ls2@.to_multiset_ensures();
            ls0.to_multiset_ensures();
            assert forall|k: int| 0 <= k < ls1@.len() implies (#[trigger] ls1@[k]).aabb.wf() by {
                assert(ls1@.contains(ls1@[k]));
                assert(ls1@.to_multiset().count(ls1@[k]) > 0);
                assert(ls0.to_multiset().count(ls1@[k]) > 0);
                assert(ls0.contains(ls1@[k]));
            }
            assert forall|k: int| 0 <= k < ls2@.len() implies (#[trigger] ls2@[k]).aabb.wf() by {
                assert(ls2@.contains(ls2@[k]));
                assert(ls2@.to_multiset().count(ls2@[k]) > 0);
                assert(ls0.to_multiset().count(ls2@[k]) > 0);
                assert(ls0.contains(ls2@[k]));
            }
        }
        let n1 = Node { aabb: aabb1, entry: Entry::Leaves(ls1) };
        let n2 = Node { aabb: aabb2, entry: Entry::Leaves(ls2) };
        (n1, InsertResult::Split(n2))
    } else {
        (Node { aabb: merged, entry: Entry::Leaves(ls) }, InsertResult::NoSplit)
    }
}

/// Wrap a full-or-overflowing child list: split it into two internal
/// nodes if it exceeds the fanout bound, else into the single node with
/// the given exact bounding box.
fn finish_nodes<T>(merged: AABB, ns: Vec<Node<T>>) -> (r: (Node<T>, InsertResult<T>))
    requires
        1 <= ns@.len() <= NODE_MAX_CHILDREN + 1,
        forall|i: int| 0 <= i < ns@.len() ==> (#[trigger] ns@[i]).wf(),
        forall|i: int| 0 <= i < ns@.len() ==> (#[trigger] ns@[i]).height_of() == ns@[0].height_of(),
        merged == AABB::merge_seq(node_aabbs(ns@)),
    ensures
        r.1 is Split <==> ns@.len() > NODE_MAX_CHILDREN,
        r.0.wf(),
        r.0.height_of() == 1 + ns@[0].height_of(),
        match r.1 {
            InsertResult::Split(n2) => {
                &&& n2.wf()
                &&& n2.height_of() == 1 + ns@[0].height_of()
                &&& r.0.aabb.spec_join(n2.aabb) == merged
                &&& r.0.leaves_of().to_multiset().add(n2.leaves_of().to_multiset())
                    == leaves_of_children(ns@).to_multiset()
            },
            InsertResult::NoSplit => {
                &&& r.0.aabb == merged
                &&& r.0.leaves_of().to_multiset() == leaves_of_children(ns@).to_multiset()
            },
        },
{
    if ns.len() > NODE_MAX_CHILDREN {
        let ghost ns0 = ns@;
        let ghost h = ns0[0].height_of();
        proof {
            assert forall|k: int| 0 <= k < ns0.len() implies (#[trigger] ns0[k]).spec_aabb().wf() by {
                lemma_wf_aabb(ns0[k]);
            }
        }
        let ((aabb1, g1), (aabb2, g2)) = quadratic_split(ns);
        proof {
            assert(boxes_of(g1@) =~= node_aabbs(g1@));
            assert(boxes_of(g2@) =~= node_aabbs(g2@));
            assert(boxes_of(ns0) =~= node_aabbs(ns0));
            g1@.to_multiset_ensures();
            g2@.to_multiset_ensures();
            ns0.to_multiset_ensures();
            assert forall|k: int|
                0 <= k < g1@.len() implies (#[trigger] g1@[k]).wf() && g1@[k].height_of() == h by {
                assert(g1@.contains(g1@[k]));
                assert(g1@.to_multiset().count(g1@[k]) > 0);
                assert(ns0.to_multiset().count(g1@[k]) > 0);
                assert(ns0.contains(g1@[k]));
            }
            assert forall|k: int|
                0 <= k < g2@.len() implies (#[trigger] g2@[k]).wf() && g2@[k].height_of() == h by {
                assert(g2@.contains(g2@[k]));
                assert(g2@.to_multiset().count(g2@[k]) > 0);
                assert(ns0.to_multiset().count(g2@[k]) > 0);
                assert(ns0.contains(g2@[k]));
            }
            // leaves of the two groups partition the leaves
            vstd::seq_lib::lemma_multiset_commutative(g1@, g2@);
            lemma_leaves_children_perm(g1@ + g2@, ns0);
            lemma_leaves_children_concat(g1@, g2@);
            vstd::seq_lib::lemma_multiset_commutative(
                leaves_of_children(g1@),
                leaves_of_children(g2@),
            );
        }
        let n1 = Node { aabb: aabb1, entry: Entry::Nodes(g1) };
        let n2 = Node { aabb: aabb2, entry: Entry::Nodes(g2) };
        (n1, InsertResult::Split(n2))
    } else {
        (Node { aabb: merged, entry: Entry::Nodes(ns) }, InsertResult::NoSplit)
    }
}

/// Insert a leaf into a subtree, by value. Returns the updated subtree
/// and, if it overflowed, a freshly split-off sibling. Either way the
/// returned boxes merge to exactly the old box grown by the new leaf's
/// box, the height is unchanged, and the stored leaves are the old ones
/// plus the new one.
#[verifier::rlimit(100)]
#[verifier::spinoff_prover]
fn insert_node<T>(node: Node<T>, aabb: AABB, data: T) -> (r: (Node<T>, InsertResult<T>))
    requires
        node.wf(),
        aabb.wf(),
    ensures
        r.1 is Split <==> insert_splits(node, aabb),
        r.0.wf(),
        r.0.height_of() == node.height_of(),
        match r.1 {
            InsertResult::Split(n2) => {
                &&& n2.wf()
                &&& n2.height_of() == node.height_of()
                &&& r.0.aabb.spec_join(n2.aabb) == node.aabb.spec_join(aabb)
                &&& r.0.leaves_of().to_multiset().add(n2.leaves_of().to_multiset())
                    == node.leaves_of().to_multiset().insert(Leaf { aabb, data })
            },
            InsertResult::NoSplit => {
                &&& r.0.aabb == node.aabb.spec_join(aabb)
                &&& r.0.leaves_of().to_multiset() == node.leaves_of().to_multiset().insert(
                    Leaf { aabb, data },
                )
            },
        },
    decreases node.height_of(),
{
    broadcast use vstd::multiset::group_multiset_axioms;

    let Node { aabb: old_box, entry } = node;
    match entry {
        Entry::Leaves(ls) => {
            let ghost ls0 = ls@;
            let mut ls = ls;
            let new_leaf = Leaf { aabb, data };
            ls.push(new_leaf);
            let merged = old_box.merge_with(&aabb);
            proof {
                assert(leaf_aabbs(ls@) =~= leaf_aabbs(ls0).push(aabb));
                lemma_merge_seq_push(leaf_aabbs(ls0), aabb);
                ls0.to_multiset_ensures();
                assert(ls@ =~= ls0.push(new_leaf));
                assert(insert_splits(node, aabb) == (ls0.len() >= NODE_MAX_CHILDREN));
            }
            finish_leaves(merged, ls)
        },
        Entry::Nodes(ns) => {
            let ghost ns0 = ns@;
            let mut ns = ns;
            proof {
                assert forall|k: int| 0 <= k < ns0.len() implies (#[trigger] ns0[k]).aabb.wf() by {
                    lemma_wf_aabb(ns0[k]);
                }
            }
            let best = find_best_match(&ns, &aabb);
            proof {
                assert(insert_splits(node, aabb) == (ns0.len() > 0 && insert_splits(
                    ns0[best as int],
                    aabb,
                ) && ns0.len() >= NODE_MAX_CHILDREN));
            }
            let child = ns.remove(best);
            let ghost h = ns0[0].height_of();
            proof {
                assert(child.height_of() == h);
                assert(node.height_of() == 1 + h);
            }
            let (child2, res) = insert_node(child, aabb, data);
            let merged = old_box.merge_with(&aabb);
            let ghost a_seq = node_aabbs(ns0);
            proof {
                lemma_merge_seq_remove(a_seq, best as int);
                assert(node_aabbs(ns0.remove(best as int)) =~= a_seq.remove(best as int));
                lemma_leaves_children_remove(ns0, best as int);
            }
            match res {
                InsertResult::NoSplit => {
                    ns.insert(best, child2);
                    proof {
                        let a_new = node_aabbs(ns@);
                        assert(a_new =~= a_seq.update(best as int, child2.aabb));
                        assert(a_new.remove(best as int) =~= a_seq.remove(best as int));
                        lemma_merge_seq_remove(a_new, best as int);
                        lemma_join_assoc(
                            AABB::merge_seq(a_seq.remove(best as int)),
                            child.aabb,
                            aabb,
                        );
                        // merged box is exact
                        assert(merged == AABB::merge_seq(a_new));
                        // heights and wf of the updated child list
                        assert forall|k: int| 0 <= k < ns@.len() implies (#[trigger] ns@[k]).wf()
                            && ns@[k].height_of() == ns@[0].height_of() by {
                            assert(ns@[0].height_of() == h);
                        }
                        // leaves accounting
                        lemma_leaves_children_remove(ns@, best as int);
                        assert(ns@.remove(best as int) =~= ns0.remove(best as int));
                        assert(ns@[best as int] == child2);
                        let rem_ms = leaves_of_children(ns0.remove(best as int)).to_multiset();
                        assert(leaves_of_children(ns@).to_multiset() == rem_ms.add(
                            child2.leaves_of().to_multiset(),
                        ));
                        assert(leaves_of_children(ns0).to_multiset() == rem_ms.add(
                            child.leaves_of().to_multiset(),
                        ));
                        assert(rem_ms.add(
                            child.leaves_of().to_multiset().insert(Leaf { aabb, data }),
                        ) =~= rem_ms.add(child.leaves_of().to_multiset()).insert(
                            Leaf { aabb, data },
                        ));
                        assert(leaves_of_children(ns@).to_multiset() == leaves_of_children(
                            ns0,
                        ).to_multiset().insert(Leaf { aabb, data }));
                    }
                    finish_nodes(merged, ns)
                },
                InsertResult::Split(sib) => {
                    ns.insert(best, child2);
                    let ghost ns_ins = ns@;
                    ns.push(sib);
                    proof {
                        let a_ins = node_aabbs(ns_ins);
                        let a_new = node_aabbs(ns@);
                        assert(ns@ =~= ns_ins.push(sib));
                        assert(a_new =~= a_ins.push(sib.aabb));
                        assert(a_ins =~= a_seq.update(best as int, child2.aabb));
                        assert(a_ins.remove(best as int) =~= a_seq.remove(best as int));
                        lemma_merge_seq_remove(a_ins, best as int);
                        lemma_merge_seq_push(a_ins, sib.aabb);
                        let mrem = AABB::merge_seq(a_seq.remove(best as int));
                        lemma_join_assoc(mrem, child2.aabb, sib.aabb);
                        lemma_join_assoc(mrem, child.aabb, aabb);
                        assert(AABB::merge_seq(a_new) == mrem.spec_join(
                            child2.aabb.spec_join(sib.aabb),
                        ));
                        assert(merged == AABB::merge_seq(a_new));
                        // heights and wf of the grown child list
                        assert forall|k: int| 0 <= k < ns@.len() implies (#[trigger] ns@[k]).wf()
                            && ns@[k].height_of() == ns@[0].height_of() by {
                            assert(ns@[0].height_of() == h);
                        }
                        // leaves accounting
                        lemma_leaves_children_remove(ns_ins, best as int);
                        assert(ns_ins.remove(best as int) =~= ns0.remove(best as int));
                        assert(ns_ins[best as int] == child2);
                        assert(leaves_of_children(ns@) == leaves_of_children(ns_ins)
                            + sib.leaves_of()) by {
                            assert(ns@.drop_last() =~= ns_ins);
                        }
                        vstd::seq_lib::lemma_multiset_commutative(
                            leaves_of_children(ns_ins),
                            sib.leaves_of(),
                        );
                        let rem_ms = leaves_of_children(ns0.remove(best as int)).to_multiset();
                        assert(leaves_of_children(ns_ins).to_multiset() == rem_ms.add(
                            child2.leaves_of().to_multiset(),
                        ));
                        assert(leaves_of_children(ns0).to_multiset() == rem_ms.add(
                            child.leaves_of().to_multiset(),
                        ));
                        assert(leaves_of_children(ns@).to_multiset() == rem_ms.add(
                            child2.leaves_of().to_multiset(),
                        ).add(sib.leaves_of().to_multiset()));
                        assert(rem_ms.add(child2.leaves_of().to_multiset()).add(
                            sib.leaves_of().to_multiset(),
                        ) =~= rem_ms.add(
                            child2.leaves_of().to_multiset().add(sib.leaves_of().to_multiset()),
                        ));
                        assert(rem_ms.add(
                            child.leaves_of().to_multiset().insert(Leaf { aabb, data }),
                        ) =~= rem_ms.add(child.leaves_of().to_multiset()).insert(
                            Leaf { aabb, data },
                        ));
                        assert(leaves_of_children(ns@).to_multiset() == leaves_of_children(
                            ns0,
                        ).to_multiset().insert(Leaf { aabb, data }));
                    }
                    finish_nodes(merged, ns)
                },
            }
        },
    }
}

/// The leaves of `s` whose boxes overlap the query box, in order.
pub open spec fn overlapping<T>(s: Seq<Leaf<T>>, q: AABB) -> Seq<Leaf<T>> {
    s.filter(|l: Leaf<T>| l.aabb.spec_overlaps(q))
}

/// The payloads of a sequence of leaves, in order.
pub open spec fn datas<T>(s: Seq<Leaf<T>>) -> Seq<T> {
    s.map_values(|l: Leaf<T>| l.data)
}

/// The pointed-to values of a sequence of references, in order.
pub open spec fn derefs<T>(s: Seq<&T>) -> Seq<T> {
    s.map_values(|p: &T| *p)
}

/// A sequence with no overlapping leaf filters to nothing.
pub proof fn lemma_overlapping_none<T>(s: Seq<Leaf<T>>, q: AABB)
    requires
        forall|i: int| 0 <= i < s.len() ==> !(#[trigger] s[i]).aabb.spec_overlaps(q),
    ensures
        overlapping(s, q) =~= Seq::<Leaf<T>>::empty(),
    decreases s.len(),
{
    reveal(Seq::filter);
    if s.len() > 0 {
        assert forall|i: int| 0 <= i < s.drop_last().len() implies !(#[trigger] s.drop_last()[i]).aabb.spec_overlaps(
            q,
        ) by {
            assert(s.drop_last()[i] == s[i]);
        }
        lemma_overlapping_none(s.drop_last(), q);
        assert(!s.last().aabb.spec_overlaps(q));
    }
}

/// Appending one leaf extends the filtered sequence iff it overlaps.
pub proof fn lemma_overlapping_push<T>(s: Seq<Leaf<T>>, l: Leaf<T>, q: AABB)
    ensures
        overlapping(s.push(l), q) == if l.aabb.spec_overlaps(q) {
            overlapping(s, q).push(l)
        } else {
            overlapping(s, q)
        },
{
    reveal(Seq::filter);
    assert(s.push(l).drop_last() =~= s);
    assert(s.push(l).last() == l);
}

/// Pruning is sound: a well-formed subtree whose box misses the query
/// holds no overlapping leaf.
pub proof fn lemma_prune<T>(n: Node<T>, q: AABB)
    requires
        n.wf(),
        !n.aabb.spec_overlaps(q),
    ensures
        overlapping(n.leaves_of(), q) =~= Seq::<Leaf<T>>::empty(),
{
    let s = n.leaves_of();
    assert forall|i: int| 0 <= i < s.len() implies !(#[trigger] s[i]).aabb.spec_overlaps(q) by {
        assert(s.contains(s[i]));
        lemma_node_covers_leaves(n, s[i]);
        lemma_covers_prunes(n.aabb, s[i].aabb, q);
    }
    lemma_overlapping_none(s, q);
}

/// Depth-first search: append a reference to the payload of every leaf
/// under `n` whose box overlaps the query box, pruning subtrees whose
/// boxes miss it.
fn search_into<'a, T>(n: &'a Node<T>, q: &AABB, out: &mut Vec<&'a T>)
    requires
        n.wf(),
    ensures
        derefs(final(out)@) == derefs(old(out)@) + datas(overlapping(n.leaves_of(), *q)),
    decreases n.height_of(),
{
    broadcast use vstd::seq_lib::group_seq_lib_default;
    broadcast use vstd::seq::Seq::lemma_filter_push;

    let ghost out0 = out@;
    match &n.entry {
        Entry::Nodes(ns) => {
            let mut i: usize = 0;
            proof {
                assert(overlapping(leaves_of_children(ns@.take(0)), *q) =~= Seq::<Leaf<T>>::empty())
                    by {
                    assert(ns@.take(0) =~= Seq::<Node<T>>::empty());
                    lemma_overlapping_none(leaves_of_children(ns@.take(0)), *q);
                }
                assert(derefs(out@) =~= derefs(out0) + datas(
                    overlapping(leaves_of_children(ns@.take(0)), *q),
                ));
            }
            while i < ns.len()
                invariant
                    n.wf(),
                    n.entry == Entry::Nodes(*ns),
                    i <= ns@.len(),
                    derefs(out@) == derefs(out0) + datas(
                        overlapping(leaves_of_children(ns@.take(i as int)), *q),
                    ),
                decreases ns@.len() - i,
            {
                let child = &ns[i];
                let ghost pre = out@;
                assert(child.wf());
                assert(child.height_of() < n.height_of());
                if child.aabb.overlaps(q) {
                    search_into(child, q, out);
                } else {
                    proof {
                        lemma_prune(*child, *q);
                    }
                }
                proof {
                    assert(ns@.take(i + 1).drop_last() =~= ns@.take(i as int));
                    assert(ns@.take(i + 1).last() == ns@[i as int]);
                    assert(leaves_of_children(ns@.take(i + 1)) == leaves_of_children(
                        ns@.take(i as int),
                    ) + child.leaves_of());
                    assert(overlapping(
                        leaves_of_children(ns@.take(i as int)) + child.leaves_of(),
                        *q,
                    ) == overlapping(leaves_of_children(ns@.take(i as int)), *q) + overlapping(
                        child.leaves_of(),
                        *q,
                    ));
                    assert(datas(
                        overlapping(leaves_of_children(ns@.take(i as int)), *q) + overlapping(
                            child.leaves_of(),
                            *q,
                        ),
                    ) =~= datas(overlapping(leaves_of_children(ns@.take(i as int)), *q)) + datas(
                        overlapping(child.leaves_of(), *q),
                    ));
                    if !child.aabb.spec_overlaps(*q) {
                        assert(datas(overlapping(child.leaves_of(), *q)) =~= Seq::<T>::empty());
                        assert(derefs(out@) =~= derefs(pre));
                    }
                    assert(derefs(out@) =~= derefs(out0) + datas(
                        overlapping(leaves_of_children(ns@.take(i + 1)), *q),
                    ));
                }
                i = i + 1;
            }
            proof {
                assert(ns@.take(ns@.len() as int) =~= ns@);
            }
        },
        Entry::Leaves(ls) => {
            let mut i: usize = 0;
            proof {
                assert(ls@.take(0) =~= Seq::<Leaf<T>>::empty());
                lemma_overlapping_none(ls@.take(0), *q);
                assert(derefs(out@) =~= derefs(out0) + datas(overlapping(ls@.take(0), *q)));
            }
            while i < ls.len()
                invariant
                    n.wf(),
                    n.entry == Entry::Leaves(*ls),
                    i <= ls@.len(),
                    derefs(out@) == derefs(out0) + datas(overlapping(ls@.take(i as int), *q)),
                decreases ls@.len() - i,
            {
                let leaf = &ls[i];
                let ghost pre = out@;
                if leaf.aabb.overlaps(q) {
                    out.push(&leaf.data);
                }
                proof {
                    assert(ls@.take(i + 1) =~= ls@.take(i as int).push(ls@[i as int]));
                    lemma_overlapping_push(ls@.take(i as int), ls@[i as int], *q);
                    if leaf.aabb.spec_overlaps(*q) {
                        assert(overlapping(ls@.take(i + 1), *q) == overlapping(
                            ls@.take(i as int),
                            *q,
                        ).push(ls@[i as int]));
                        assert(out@ =~= pre.push(&leaf.data));
                        assert(derefs(out@) =~= derefs(pre).push(leaf.data));
                        assert(datas(overlapping(ls@.take(i + 1), *q)) =~= datas(
                            overlapping(ls@.take(i as int), *q),
                        ).push(ls@[i as int].data));
                    } else {
                        assert(overlapping(ls@.take(i + 1), *q) == overlapping(
                            ls@.take(i as int),
                            *q,
                        ));
                    }
                    assert(derefs(out@) =~= derefs(out0) + datas(
                        overlapping(ls@.take(i + 1), *q),
                    ));
                }
                i = i + 1;
            }
            proof {
                assert(ls@.take(ls@.len() as int) =~= ls@);
            }
        },
    }
}

/// Depth-annotated dump of every node and leaf box under `n`, root first,
/// in depth-first order.
pub open spec fn dump_of<T>(n: Node<T>, depth: usize) -> Seq<(usize, AABB)>
    decreases n, 1int,
{
    seq![(depth, n.aabb)] + (match n.entry {
        Entry::Leaves(ls) => ls@.map_values(|l: Leaf<T>| (((depth + 1) as usize), l.aabb)),
        Entry::Nodes(ns) => dump_of_children(ns@, (depth + 1) as usize),
    })
}

/// Depth-annotated dumps of a sequence of subtrees, concatenated.
pub open spec fn dump_of_children<T>(s: Seq<Node<T>>, depth: usize) -> Seq<(usize, AABB)>
    decreases s, 0int,
{
    if s.len() == 0 {
        Seq::empty()
    } else {
        dump_of_children(s.drop_last(), depth) + dump_of(s.last(), depth)
    }
}

/// Append the depth-annotated boxes of every node and leaf under `n`.
fn aabbs_into<T>(n: &Node<T>, depth: usize, out: &mut Vec<(usize, AABB)>)
    requires
        n.wf(),
        depth + n.height_of() <= usize::MAX,
    ensures
        final(out)@ == old(out)@ + dump_of(*n, depth),
    decreases n.height_of(),
{
    let ghost out0 = out@;
    out.push((depth, n.aabb));
    match &n.entry {
        Entry::Nodes(ns) => {
            let mut i: usize = 0;
            proof {
                assert(ns@.take(0) =~= Seq::<Node<T>>::empty());
                assert(out@ =~= out0 + seq![(depth, n.aabb)] + dump_of_children(
                    ns@.take(0),
                    (depth + 1) as usize,
                ));
            }
            while i < ns.len()
                invariant
                    n.wf(),
                    n.entry == Entry::Nodes(*ns),
                    depth + n.height_of() <= usize::MAX,
                    i <= ns@.len(),
                    out@ == out0 + seq![(depth, n.aabb)] + dump_of_children(
                        ns@.take(i as int),
                        (depth + 1) as usize,
                    ),
                decreases ns@.len() - i,
            {
                let child = &ns[i];
                assert(child.wf());
                assert(child.height_of() < n.height_of());
                aabbs_into(child, depth + 1, out);
                proof {
                    assert(ns@.take(i + 1).drop_last() =~= ns@.take(i as int));
                    assert(ns@.take(i + 1).last() == ns@[i as int]);
                    assert(out@ =~= out0 + seq![(depth, n.aabb)] + dump_of_children(
                        ns@.take(i + 1),
                        (depth + 1) as usize,
                    ));
                }
                i = i + 1;
            }
            proof {
                assert(ns@.take(ns@.len() as int) =~= ns@);
                assert(out@ =~= out0 + dump_of(*n, depth));
            }
        },
        Entry::Leaves(ls) => {
            let mut i: usize = 0;
            while i < ls.len()
                invariant
                    n.wf(),
                    n.entry == Entry::Leaves(*ls),
                    depth + 1 <= usize::MAX,
                    i <= ls@.len(),
                    out@ == out0 + seq![(depth, n.aabb)] + ls@.take(i as int).map_values(
                        |l: Leaf<T>| (((depth + 1) as usize), l.aabb),
                    ),
                decreases ls@.len() - i,
            {
                let leaf = &ls[i];
                out.push((depth + 1, leaf.aabb));
                proof {
                    assert(ls@.take(i + 1) =~= ls@.take(i as int).push(ls@[i as int]));
                    assert(ls@.take(i + 1).map_values(
                        |l: Leaf<T>| (((depth + 1) as usize), l.aabb),
                    ) =~= ls@.take(i as int).map_values(
                        |l: Leaf<T>| (((depth + 1) as usize), l.aabb),
                    ).push((((depth + 1) as usize), ls@[i as int].aabb)));
                    assert(out@ =~= out0 + seq![(depth, n.aabb)] + ls@.take(i + 1).map_values(
                        |l: Leaf<T>| (((depth + 1) as usize), l.aabb),
                    ));
                }
                i = i + 1;
            }
            proof {
                assert(ls@.take(ls@.len() as int) =~= ls@);
                assert(out@ =~= out0 + dump_of(*n, depth));
            }
        },
    }
}

impl<T> RTree<T> {
    /// All leaves stored in the tree, in depth-first order.
    pub open spec fn spec_leaves(self) -> Seq<Leaf<T>> {
        match self.root {
            None => Seq::empty(),
            Some(n) => n.leaves_of(),
        }
    }

    /// The root's bounding box, if the tree is nonempty.
    pub open spec fn root_box(self) -> Option<AABB> {
        match self.root {
            None => None,
            Some(n) => Some(n.aabb),
        }
    }

    /// Tree invariant: the root subtree is well-formed and the cached
    /// height is its structural height; the empty tree has height 1.
    pub open spec fn inv(self) -> bool {
        match self.root {
            None => self.height == 1,
            Some(n) => n.wf() && self.height as nat == n.height_of(),
        }
    }

    /// An empty tree.
    pub fn new() -> (r: RTree<T>)
        ensures
            r.inv(),
            r.spec_leaves() =~= Seq::<Leaf<T>>::empty(),
            r.height == 1,
            r.root_box() is None,
    {
        RTree { height: 1, root: None }
    }

    /// Drop every stored leaf.
    pub fn clear(&mut self)
        ensures
            final(self).inv(),
            final(self).spec_leaves() =~= Seq::<Leaf<T>>::empty(),
            final(self).height == 1,
    {
        self.root = None;
        self.height = 1;
    }

    /// The height of the tree; the empty tree has height 1, and a root
    /// holding only leaves has height 1.
    pub fn height(&self) -> (r: usize)
        requires
            self.inv(),
        ensures
            r == self.height,
            self.root_box() is None ==> r == 1,
    {
        self.height
    }

    /// Insert one leaf. The stored leaves grow by exactly the new leaf,
    /// the root box afterwards covers both the new box and the old root
    /// box, and the height grows by at most one (by exactly one when the
    /// root itself had to split).
    pub fn insert(&mut self, aabb: AABB, data: T)
        requires
            old(self).inv(),
            aabb.wf(),
            old(self).height < usize::MAX,
        ensures
            final(self).inv(),
            final(self).spec_leaves().to_multiset() == old(self).spec_leaves().to_multiset().insert(
                Leaf { aabb, data },
            ),
            final(self).root_box() matches Some(b) && b.covers(aabb),
            old(self).root_box() matches Some(ob) ==> {
                &&& final(self).root_box() matches Some(b) && b.covers(ob)
            },
            // the root box afterwards is exactly the old root box grown by
            // the new box (the new box itself for a first insertion)
            final(self).root_box() == (match old(self).root_box() {
                None => Some(aabb),
                Some(ob) => Some(ob.spec_join(aabb)),
            }),
            old(self).height <= final(self).height <= old(self).height + 1,
            // the height grows by exactly one exactly when the old root
            // itself splits, and the new root then holds the two halves
            old(self).root is None ==> final(self).height == 1,
            old(self).root matches Some(n) ==> {
                &&& (insert_splits(n, aabb) <==> final(self).height as int == old(self).height
                    + 1)
                &&& (!insert_splits(n, aabb) ==> final(self).height == old(self).height)
                &&& (insert_splits(n, aabb) ==> (final(self).root matches Some(nr)
                    && nr.entry matches Entry::Nodes(kids) && kids@.len() == 2))
            },
    {
        broadcast use vstd::multiset::group_multiset_axioms;

        let ghost old_tree = *self;
        let taken = self.root.take();
        match taken {
            None => {
                let mut ls: Vec<Leaf<T>> = Vec::new();
                ls.push(Leaf { aabb, data });
                proof {
                    assert(leaf_aabbs(ls@) =~= seq![aabb]);
                    lemma_merge_seq_singleton(leaf_aabbs(ls@));
                    Seq::<Leaf<T>>::empty().to_multiset_ensures();
                    assert(ls@ =~= Seq::<Leaf<T>>::empty().push(Leaf { aabb, data }));
                }
                self.root = Some(Node { aabb, entry: Entry::Leaves(ls) });
                self.height = 1;
            },
            Some(root_node) => {
                let ghost oldn = root_node;
                let (r0, res) = insert_node(root_node, aabb, data);
                match res {
                    InsertResult::NoSplit => {
                        proof {
                            lemma_join_covers(oldn.aabb, aabb);
                        }
                        self.root = Some(r0);
                    },
                    InsertResult::Split(n2) => {
                        let b0 = r0.aabb;
                        let b2 = n2.aabb;
                        let new_box = b0.merge_with(&b2);
                        let mut kids: Vec<Node<T>> = Vec::new();
                        kids.push(r0);
                        kids.push(n2);
                        proof {
                            assert(node_aabbs(kids@) =~= seq![b0].push(b2));
                            lemma_merge_seq_singleton(seq![b0]);
                            lemma_merge_seq_push(seq![b0], b2);
                            assert(new_box == AABB::merge_seq(node_aabbs(kids@)));
                            assert(kids@.drop_last() =~= seq![kids@[0]]);
                            lemma_leaves_children_singleton(kids@[0]);
                            assert(leaves_of_children(kids@.drop_last()) =~= kids@[0].leaves_of());
                            assert(leaves_of_children(kids@) == leaves_of_children(
                                kids@.drop_last(),
                            ) + kids@[1].leaves_of());
                            vstd::seq_lib::lemma_multiset_commutative(
                                kids@[0].leaves_of(),
                                kids@[1].leaves_of(),
                            );
                            lemma_join_covers(oldn.aabb, aabb);
                            lemma_join_covers(b0, b2);
                        }
                        self.root = Some(Node { aabb: new_box, entry: Entry::Nodes(kids) });
                        self.height = self.height + 1;
                    },
                }
            },
        }
    }

    /// Collect references to the payloads of every stored leaf whose box
    /// overlaps the query box: exactly the overlapping leaves, in
    /// depth-first order.
    pub fn search(&self, aabb: &AABB) -> (r: Vec<&T>)
        requires
            self.inv(),
        ensures
            derefs(r@) == datas(overlapping(self.spec_leaves(), *aabb)),
    {
        let mut out: Vec<&T> = Vec::new();
        match &self.root {
            None => {
                proof {
                    lemma_overlapping_none(self.spec_leaves(), *aabb);
                    assert(derefs(out@) =~= datas(overlapping(self.spec_leaves(), *aabb)));
                }
            },
            Some(n) => {
                search_into(n, aabb, &mut out);
                proof {
                    assert(derefs(out@) =~= datas(overlapping(self.spec_leaves(), *aabb)));
                }
            },
        }
        out
    }

    /// Dump every node and leaf box with its depth, root first, in
    /// depth-first order; for diagnostics and visualization.
    pub fn aabbs(&self) -> (r: Vec<(usize, AABB)>)
        requires
            self.inv(),
        ensures
            r@ == match self.root {
                None => Seq::<(usize, AABB)>::empty(),
                Some(n) => dump_of(n, 0),
            },
    {
        let mut out: Vec<(usize, AABB)> = Vec::new();
        match &self.root {
            None => {},
            Some(n) => {
                proof {
                    lemma_height_le_max(*n, *self);
                }
                aabbs_into(n, 0, &mut out);
                proof {
                    assert(out@ =~= Seq::<(usize, AABB)>::empty() + dump_of(*n, 0));
                }
            },
        }
        out
    }
}

/// The cached height bounds the structural height, so depth counters
/// cannot overflow while walking the tree.
proof fn lemma_height_le_max<T>(n: Node<T>, t: RTree<T>)
    requires
        t.inv(),
        t.root == Some(n),
    ensures
        n.height_of() <= usize::MAX,
{
}

} // verus!
