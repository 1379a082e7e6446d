//! Axis-aligned bounding boxes over bounded integer coordinates, and the
//! merge / overlap algebra that both spatial indexes are specified with.

use vstd::prelude::*;

verus! {

/// Largest coordinate magnitude a well-formed box may use. The bound keeps
/// every volume (a product of three extents) well inside `i128`.
pub const COORD_LIMIT: i64 = 1_000_000_000_000;

/// An axis-aligned box, given by per-axis minima and maxima.
///
/// A well-formed box (see [`AABB::wf`]) has `min <= max` on every axis and
/// all coordinates within `[-COORD_LIMIT, COORD_LIMIT]`. The empty sentinel
/// returned by merging nothing (see [`AABB::spec_empty`]) deliberately
/// violates that: it is the identity of the merge operation and must never
/// flow into a volume computation.
#[derive(Clone, Copy, Debug, PartialEq, Eq, Structural)]
pub struct AABB {
    pub min_x: i64,
    pub min_y: i64,
    pub min_z: i64,
    pub max_x: i64,
    pub max_y: i64,
    pub max_z: i64,
}

/// A stored item: a bounding box plus an opaque payload.
#[derive(Clone, Debug)]
pub struct Leaf<T> {
    pub aabb: AABB,
    pub data: T,
}

pub open spec fn imin(a: i64, b: i64) -> i64 {
    if a <= b {
        a
    } else {
        b
    }
}

pub open spec fn imax(a: i64, b: i64) -> i64 {
    if a >= b {
        a
    } else {
        b
    }
}

impl AABB {
    /// Well-formed: ordered on every axis and bounded by `COORD_LIMIT`.
    pub open spec fn wf(self) -> bool {
        &&& -COORD_LIMIT <= self.min_x && self.min_x <= self.max_x && self.max_x <= COORD_LIMIT
        &&& -COORD_LIMIT <= self.min_y && self.min_y <= self.max_y && self.max_y <= COORD_LIMIT
        &&& -COORD_LIMIT <= self.min_z && self.min_z <= self.max_z && self.max_z <= COORD_LIMIT
    }

    /// The empty sentinel: minima at `i64::MAX`, maxima at `i64::MIN`, so it
    /// is the identity of [`AABB::spec_join`].
    pub open spec fn spec_empty() -> AABB {
        AABB {
            min_x: i64::MAX,
            min_y: i64::MAX,
            min_z: i64::MAX,
            max_x: i64::MIN,
            max_y: i64::MIN,
            max_z: i64::MIN,
        }
    }

    /// The empty sentinel, the identity element for merging.
    pub fn empty() -> (r: AABB)
        ensures
            r == AABB::spec_empty(),
    {
        AABB {
            min_x: i64::MAX,
            min_y: i64::MAX,
            min_z: i64::MAX,
            max_x: i64::MIN,
            max_y: i64::MIN,
            max_z: i64::MIN,
        }
    }

    /// The smallest box covering both arguments (per-axis min/max).
    pub open spec fn spec_join(self, o: AABB) -> AABB {
        AABB {
            min_x: imin(self.min_x, o.min_x),
            min_y: imin(self.min_y, o.min_y),
            min_z: imin(self.min_z, o.min_z),
            max_x: imax(self.max_x, o.max_x),
            max_y: imax(self.max_y, o.max_y),
            max_z: imax(self.max_z, o.max_z),
        }
    }

    /// Merge this box with another: the least box covering both.
    pub fn merge_with(&self, o: &AABB) -> (r: AABB)
        ensures
            r == self.spec_join(*o),
    {
        AABB {
            min_x: if self.min_x <= o.min_x {
                self.min_x
            } else {
                o.min_x
            },
            min_y: if self.min_y <= o.min_y {
                self.min_y
            } else {
                o.min_y
            },
            min_z: if self.min_z <= o.min_z {
                self.min_z
            } else {
                o.min_z
            },
            max_x: if self.max_x >= o.max_x {
                self.max_x
            } else {
                o.max_x
            },
            max_y: if self.max_y >= o.max_y {
                self.max_y
            } else {
                o.max_y
            },
            max_z: if self.max_z >= o.max_z {
                self.max_z
            } else {
                o.max_z
            },
        }
    }

    /// Fold of [`AABB::spec_join`] over a sequence, starting from the empty
    /// sentinel: the least box covering every element.
    pub open spec fn merge_seq(s: Seq<AABB>) -> AABB
        decreases s.len(),
    {
        if s.len() == 0 {
            AABB::spec_empty()
        } else {
            AABB::merge_seq(s.drop_last()).spec_join(s.last())
        }
    }

    /// Merge every box in a vector; merging nothing yields the empty
    /// sentinel.
    pub fn merge(aabbs: &Vec<AABB>) -> (r: AABB)
        ensures
            r == AABB::merge_seq(aabbs@),
    {
        let mut acc = AABB::empty();
        let mut i: usize = 0;
        while i < aabbs.len()
            invariant
                i <= aabbs@.len(),
                acc == AABB::merge_seq(aabbs@.subrange(0, i as int)),
            decreases aabbs@.len() - i,
        {
            proof {
                assert(aabbs@.subrange(0, i + 1).drop_last() =~= aabbs@.subrange(0, i as int));
                assert(aabbs@.subrange(0, i + 1).last() == aabbs@[i as int]);
            }
            acc = acc.merge_with(&aabbs[i]);
            i = i + 1;
        }
        proof {
            assert(aabbs@.subrange(0, aabbs@.len() as int) =~= aabbs@);
        }
        acc
    }

    /// True iff the boxes intersect on every axis; touching boundaries
    /// count as overlapping.
    pub open spec fn spec_overlaps(self, o: AABB) -> bool {
        &&& self.min_x <= o.max_x
        &&& self.min_y <= o.max_y
        &&& self.min_z <= o.max_z
        &&& o.min_x <= self.max_x
        &&& o.min_y <= self.max_y
        &&& o.min_z <= self.max_z
    }

    /// Closed-interval intersection test on all three axes.
    pub fn overlaps(&self, o: &AABB) -> (r: bool)
        ensures
            r == self.spec_overlaps(*o),
    {
        self.min_x <= o.max_x && self.min_y <= o.max_y && self.min_z <= o.max_z
            && o.min_x <= self.max_x && o.min_y <= self.max_y && o.min_z <= self.max_z
    }

    /// True iff `self` covers `o`: every point of `o` lies in `self`.
    pub open spec fn covers(self, o: AABB) -> bool {
        &&& self.min_x <= o.min_x && o.max_x <= self.max_x
        &&& self.min_y <= o.min_y && o.max_y <= self.max_y
        &&& self.min_z <= o.min_z && o.max_z <= self.max_z
    }

    /// Product of the three extents.
    pub open spec fn spec_volume(self) -> int {
        (self.max_x - self.min_x) * (self.max_y - self.min_y) * (self.max_z - self.min_z)
    }

    /// Exact volume of a well-formed box. Used as the quality score for
    /// split heuristics; the empty sentinel must not reach it.
    pub fn volume(&self) -> (v: i128)
        requires
            self.wf(),
        ensures
            v == self.spec_volume(),
            0 <= v <= 8_000_000_000_000_000_000_000_000_000_000_000_000i128,
    {
        let dx: i128 = (self.max_x as i128) - (self.min_x as i128);
        let dy: i128 = (self.max_y as i128) - (self.min_y as i128);
        let dz: i128 = (self.max_z as i128) - (self.min_z as i128);
        proof {
            lemma_extent_product_bounded(dx as int, dy as int, dz as int);
        }
        dx * dy * dz
    }

    /// Per-axis extent (size) of a well-formed box.
    pub fn size(&self) -> (r: (i64, i64, i64))
        requires
            self.wf(),
        ensures
            r.0 == self.max_x - self.min_x,
            r.1 == self.max_y - self.min_y,
            r.2 == self.max_z - self.min_z,
    {
        (self.max_x - self.min_x, self.max_y - self.min_y, self.max_z - self.min_z)
    }

    /// Per-axis midpoint (centroid) of a well-formed box, rounded toward
    /// zero. The index itself orders boxes by comparing coordinate sums,
    /// which needs no rounding; this accessor is for callers.
    pub fn pos(&self) -> (r: (i64, i64, i64))
        requires
            self.wf(),
        ensures
            r.0 == mid_toward_zero(self.min_x + self.max_x),
            r.1 == mid_toward_zero(self.min_y + self.max_y),
            r.2 == mid_toward_zero(self.min_z + self.max_z),
    {
        (half_toward_zero(self.min_x + self.max_x), half_toward_zero(
            self.min_y + self.max_y,
        ), half_toward_zero(self.min_z + self.max_z))
    }
}

/// Half of a coordinate sum, rounded toward zero.
pub open spec fn mid_toward_zero(s: int) -> int {
    if s >= 0 {
        s / 2
    } else {
        -((-s) / 2)
    }
}

/// Half of a value, rounded toward zero.
fn half_toward_zero(s: i64) -> (r: i64)
    requires
        i64::MIN < s,
    ensures
        r == mid_toward_zero(s as int),
{
    if s >= 0 {
        s / 2
    } else {
        -((-s) / 2)
    }
}

/// Bounds the product of three extents of a well-formed box.
proof fn lemma_extent_product_bounded(dx: int, dy: int, dz: int)
    requires
        0 <= dx <= 2 * COORD_LIMIT,
        0 <= dy <= 2 * COORD_LIMIT,
        0 <= dz <= 2 * COORD_LIMIT,
    ensures
        0 <= dx * dy <= 4_000_000_000_000_000_000_000_000int,
        0 <= dx * dy * dz <= 8_000_000_000_000_000_000_000_000_000_000_000_000int,
{
    assert(0 <= dx * dy <= 4_000_000_000_000_000_000_000_000int) by (nonlinear_arith)
        requires
            0 <= dx <= 2_000_000_000_000int,
            0 <= dy <= 2_000_000_000_000int,
    ;
    assert(0 <= (dx * dy) * dz <= 8_000_000_000_000_000_000_000_000_000_000_000_000int)
        by (nonlinear_arith)
        requires
            0 <= dx * dy <= 4_000_000_000_000_000_000_000_000int,
            0 <= dz <= 2_000_000_000_000int,
    ;
}

impl<T> Leaf<T> {
    /// Pair a bounding box with its payload.
    pub fn new(aabb: AABB, data: T) -> (r: Leaf<T>)
        ensures
            r.aabb == aabb,
            r.data == data,
    {
        Leaf { aabb, data }
    }
}

impl Leaf<()> {
    /// A leaf with no payload, for geometry-only indexes.
    pub fn new_empty(aabb: AABB) -> (r: Leaf<()>)
        ensures
            r.aabb == aabb,
    {
        Leaf { aabb, data: () }
    }
}

/// Overlap is symmetric.
pub proof fn lemma_overlaps_symmetric(a: AABB, b: AABB)
    ensures
        a.spec_overlaps(b) == b.spec_overlaps(a),
{
}

/// The empty sentinel is the identity of the merge operation.
pub proof fn lemma_merge_empty_identity(a: AABB)
    ensures
        AABB::spec_empty().spec_join(a) == a,
        a.spec_join(AABB::spec_empty()) == a,
{
}

/// Merging covers both arguments.
pub proof fn lemma_join_covers(a: AABB, b: AABB)
    ensures
        a.spec_join(b).covers(a),
        a.spec_join(b).covers(b),
{
}

/// Covering is transitive.
pub proof fn lemma_covers_trans(a: AABB, b: AABB, c: AABB)
    requires
        a.covers(b),
        b.covers(c),
    ensures
        a.covers(c),
{
}

/// A box covered by a non-overlapping box cannot itself overlap: pruning a
/// subtree by its bounding box loses no matches.
pub proof fn lemma_covers_prunes(outer: AABB, inner: AABB, q: AABB)
    requires
        outer.covers(inner),
        !outer.spec_overlaps(q),
    ensures
        !inner.spec_overlaps(q),
{
}

/// Merging two well-formed boxes yields a well-formed box.
pub proof fn lemma_join_wf(a: AABB, b: AABB)
    requires
        a.wf(),
        b.wf(),
    ensures
        a.spec_join(b).wf(),
{
}

/// Merging is associative.
pub proof fn lemma_join_assoc(a: AABB, b: AABB, c: AABB)
    ensures
        a.spec_join(b).spec_join(c) == a.spec_join(b.spec_join(c)),
{
}

/// The bounding boxes of a sequence of leaves, in order.
pub open spec fn leaf_aabbs<T>(s: Seq<Leaf<T>>) -> Seq<AABB> {
    s.map_values(|l: Leaf<T>| l.aabb)
}

/// Appending one box merges it into the fold.
pub proof fn lemma_merge_seq_push(s: Seq<AABB>, x: AABB)
    ensures
        AABB::merge_seq(s.push(x)) == AABB::merge_seq(s).spec_join(x),
{
    assert(s.push(x).drop_last() =~= s);
    assert(s.push(x).last() == x);
}

/// Merging a concatenation merges the two halves' merges.
pub proof fn lemma_merge_seq_concat(s1: Seq<AABB>, s2: Seq<AABB>)
    ensures
        AABB::merge_seq(s1 + s2) == AABB::merge_seq(s1).spec_join(AABB::merge_seq(s2)),
    decreases s2.len(),
{
    if s2.len() == 0 {
        assert(s1 + s2 =~= s1);
        lemma_merge_empty_identity(AABB::merge_seq(s1));
    } else {
        lemma_merge_seq_concat(s1, s2.drop_last());
        assert((s1 + s2).drop_last() =~= s1 + s2.drop_last());
        assert((s1 + s2).last() == s2.last());
        lemma_join_assoc(AABB::merge_seq(s1), AABB::merge_seq(s2.drop_last()), s2.last());
    }
}

/// The merge of a sequence covers each of its elements.
pub proof fn lemma_merge_seq_covers(s: Seq<AABB>)
    ensures
        forall|i: int| 0 <= i < s.len() ==> AABB::merge_seq(s).covers(#[trigger] s[i]),
    decreases s.len(),
{
    if s.len() > 0 {
        lemma_merge_seq_covers(s.drop_last());
        assert forall|i: int| 0 <= i < s.len() implies AABB::merge_seq(s).covers(#[trigger] s[i]) by {
            if i < s.len() - 1 {
                assert(s.drop_last()[i] == s[i]);
                assert(AABB::merge_seq(s.drop_last()).covers(s[i]));
            }
        }
    }
}

/// The merge of a nonempty sequence of well-formed boxes is well-formed.
pub proof fn lemma_merge_seq_wf(s: Seq<AABB>)
    requires
        s.len() > 0,
        forall|i: int| 0 <= i < s.len() ==> (#[trigger] s[i]).wf(),
    ensures
        AABB::merge_seq(s).wf(),
    decreases s.len(),
{
    if s.len() == 1 {
        assert(AABB::merge_seq(s.drop_last()) == AABB::spec_empty());
        lemma_merge_empty_identity(s.last());
        assert(AABB::merge_seq(s) == s[0]);
    } else {
        assert forall|i: int| 0 <= i < s.len() - 1 implies (#[trigger] s.drop_last()[i]).wf() by {
            assert(s.drop_last()[i] == s[i]);
        }
        lemma_merge_seq_wf(s.drop_last());
        assert(s[s.len() - 1].wf());
    }
}

/// On every axis, the merged bound is attained by some element.
pub proof fn lemma_merge_seq_attained(s: Seq<AABB>)
    requires
        s.len() > 0,
    ensures
        exists|i: int| 0 <= i < s.len() && AABB::merge_seq(s).min_x == (#[trigger] s[i]).min_x,
        exists|i: int| 0 <= i < s.len() && AABB::merge_seq(s).min_y == (#[trigger] s[i]).min_y,
        exists|i: int| 0 <= i < s.len() && AABB::merge_seq(s).min_z == (#[trigger] s[i]).min_z,
        exists|i: int| 0 <= i < s.len() && AABB::merge_seq(s).max_x == (#[trigger] s[i]).max_x,
        exists|i: int| 0 <= i < s.len() && AABB::merge_seq(s).max_y == (#[trigger] s[i]).max_y,
        exists|i: int| 0 <= i < s.len() && AABB::merge_seq(s).max_z == (#[trigger] s[i]).max_z,
    decreases s.len(),
{
    if s.len() == 1 {
        assert(s.drop_last().len() == 0);
        assert(AABB::merge_seq(s.drop_last()) == AABB::spec_empty());
        lemma_merge_empty_identity(s.last());
        assert(AABB::merge_seq(s) == s[0]);
    } else {
        let d = s.drop_last();
        lemma_merge_seq_attained(d);
        let m = AABB::merge_seq(s);
        let md = AABB::merge_seq(d);
        let last = s.len() - 1;
        if m.min_x == md.min_x {
            let i = choose|i: int| 0 <= i < d.len() && md.min_x == d[i].min_x;
            assert(d[i] == s[i]);
            assert(m.min_x == s[i].min_x);
        } else {
            assert(m.min_x == s[last].min_x);
        }
        if m.min_y == md.min_y {
            let i = choose|i: int| 0 <= i < d.len() && md.min_y == d[i].min_y;
            assert(d[i] == s[i]);
            assert(m.min_y == s[i].min_y);
        } else {
            assert(m.min_y == s[last].min_y);
        }
        if m.min_z == md.min_z {
            let i = choose|i: int| 0 <= i < d.len() && md.min_z == d[i].min_z;
            assert(d[i] == s[i]);
            assert(m.min_z == s[i].min_z);
        } else {
            assert(m.min_z == s[last].min_z);
        }
        if m.max_x == md.max_x {
            let i = choose|i: int| 0 <= i < d.len() && md.max_x == d[i].max_x;
            assert(d[i] == s[i]);
            assert(m.max_x == s[i].max_x);
        } else {
            assert(m.max_x == s[last].max_x);
        }
        if m.max_y == md.max_y {
            let i = choose|i: int| 0 <= i < d.len() && md.max_y == d[i].max_y;
            assert(d[i] == s[i]);
            assert(m.max_y == s[i].max_y);
        } else {
            assert(m.max_y == s[last].max_y);
        }
        if m.max_z == md.max_z {
            let i = choose|i: int| 0 <= i < d.len() && md.max_z == d[i].max_z;
            assert(d[i] == s[i]);
            assert(m.max_z == s[i].max_z);
        } else {
            assert(m.max_z == s[last].max_z);
        }
    }
}

/// The merge of a one-element sequence is that element.
pub proof fn lemma_merge_seq_singleton(s: Seq<AABB>)
    requires
        s.len() == 1,
    ensures
        AABB::merge_seq(s) == s[0],
{
    assert(AABB::merge_seq(s.drop_last()) == AABB::spec_empty());
    lemma_merge_empty_identity(s.last());
}

/// Any element can be pulled out of a merge.
pub proof fn lemma_merge_seq_remove(s: Seq<AABB>, i: int)
    requires
        0 <= i < s.len(),
    ensures
        AABB::merge_seq(s) == AABB::merge_seq(s.remove(i)).spec_join(s[i]),
{
    let r = s.remove(i).push(s[i]);
    s.to_multiset_ensures();
    s.remove(i).to_multiset_ensures();
    vstd::seq_lib::to_multiset_remove(s, i);
    assert(s.contains(s[i]));
    assert(r.to_multiset() =~= s.to_multiset());
    lemma_merge_seq_perm(s, r);
    lemma_merge_seq_push(s.remove(i), s[i]);
}

/// If every element of `a` occurs in `b`, then the merge of `b` covers the
/// merge of `a`.
pub proof fn lemma_merge_seq_contained(a: Seq<AABB>, b: Seq<AABB>)
    requires
        a.len() > 0,
        forall|x: AABB| a.contains(x) ==> b.contains(x),
    ensures
        AABB::merge_seq(b).covers(AABB::merge_seq(a)),
{
    lemma_merge_seq_attained(a);
    lemma_merge_seq_covers(a);
    lemma_merge_seq_covers(b);
    let ma = AABB::merge_seq(a);
    let mb = AABB::merge_seq(b);
    assert forall|i: int| 0 <= i < a.len() implies mb.covers(#[trigger] a[i]) by {
        assert(a.contains(a[i]));
        assert(b.contains(a[i]));
        let j = choose|j: int| 0 <= j < b.len() && b[j] == a[i];
        assert(mb.covers(b[j]));
    }
}

/// Leaf sequences with equal multisets have box sequences with equal
/// multisets.
pub proof fn lemma_leaf_aabbs_perm<T>(s1: Seq<Leaf<T>>, s2: Seq<Leaf<T>>)
    requires
        s1.to_multiset() == s2.to_multiset(),
    ensures
        leaf_aabbs(s1).to_multiset() == leaf_aabbs(s2).to_multiset(),
    decreases s1.len(),
{
    s1.to_multiset_ensures();
    s2.to_multiset_ensures();
    if s1.len() == 0 {
        assert(s2.len() == 0);
        assert(leaf_aabbs(s1) =~= leaf_aabbs(s2));
    } else {
        let x = s1.last();
        let d1 = s1.drop_last();
        assert(s1 =~= d1.push(x));
        assert(s1.to_multiset().count(x) > 0);
        assert(s2.contains(x));
        let j = choose|j: int| 0 <= j < s2.len() && s2[j] == x;
        let d2 = s2.remove(j);
        d1.to_multiset_ensures();
        vstd::seq_lib::to_multiset_remove(s2, j);
        assert(d1.to_multiset() =~= d2.to_multiset());
        lemma_leaf_aabbs_perm(d1, d2);
        leaf_aabbs(d1).to_multiset_ensures();
        leaf_aabbs(d2).to_multiset_ensures();
        assert(leaf_aabbs(s1) =~= leaf_aabbs(d1).push(x.aabb));
        assert(leaf_aabbs(s2).remove(j) =~= leaf_aabbs(d2));
        vstd::seq_lib::to_multiset_remove(leaf_aabbs(s2), j);
        leaf_aabbs(s2).to_multiset_ensures();
        assert(leaf_aabbs(s2)[j] == x.aabb);
        assert(leaf_aabbs(s1).to_multiset() =~= leaf_aabbs(s2).to_multiset());
    }
}

/// Merging is invariant under permutation: it depends only on which boxes
/// occur, not on their order.
pub proof fn lemma_merge_seq_perm(s1: Seq<AABB>, s2: Seq<AABB>)
    requires
        s1.to_multiset() == s2.to_multiset(),
    ensures
        AABB::merge_seq(s1) == AABB::merge_seq(s2),
{
    s1.to_multiset_ensures();
    s2.to_multiset_ensures();
    if s1.len() == 0 {
        assert(s2.len() == 0);
    } else {
        assert(s2.len() == s1.len());
        assert forall|x: AABB| s1.contains(x) implies s2.contains(x) by {
            assert(s1.to_multiset().count(x) > 0);
        }
        assert forall|x: AABB| s2.contains(x) implies s1.contains(x) by {
            assert(s2.to_multiset().count(x) > 0);
        }
        lemma_merge_seq_contained(s1, s2);
        lemma_merge_seq_contained(s2, s1);
    }
}

} // verus!
