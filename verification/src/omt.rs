//! The bulk-loaded spatial index: a one-shot, top-down (OMT-style) loader
//! that consumes a complete leaf set and produces a balanced, immutable
//! tree of layers, plus a lazy overlap query over it.
//!
//! The tree is an arena of layers: layer 0 is the single root; each node
//! holds a half-open `[start, end)` range into the next layer's node
//! array, or into the leaf array for the last layer. Sibling ranges are
//! consecutive and partition the parent's range, and every node's box is
//! exactly the merge of its children's boxes.

use vstd::prelude::*;

use crate::aabb::AABB;
use crate::aabb::Leaf;
use crate::aabb::leaf_aabbs;

verus! {

/// Maximum fanout of a node in the bulk-loaded tree.
pub const MAX_NODE_SIZE: usize = 6;

/// Powers of the fanout.
pub open spec fn pow6(h: nat) -> nat
    decreases h,
{
    if h == 0 {
        1
    } else {
        6 * pow6((h - 1) as nat)
    }
}

/// Height of the bulk-loaded tree over `n` leaves: the least `h >= 1`
/// with `6^h >= n`; a root holding at most six leaves has height 1.
pub open spec fn bulk_height(n: nat) -> nat
    decreases n,
{
    if n <= 6 {
        1
    } else {
        1 + bulk_height((((n - 1) / 6) + 1) as nat)
    }
}

/// Powers of the fanout grow monotonically.
pub proof fn lemma_pow6_le(a: nat, b: nat)
    requires
        a <= b,
    ensures
        pow6(a) <= pow6(b),
        pow6(a) >= 1,
    decreases b,
{
    if a < b {
        lemma_pow6_le(a, (b - 1) as nat);
    } else if b > 0 {
        lemma_pow6_le((b - 1) as nat, (b - 1) as nat);
    }
}

/// `bulk_height` is exactly the ceiling of the base-6 logarithm, clamped
/// to 1: the tree height `h` satisfies `6^h >= n`, and is the least such
/// height once `n` exceeds one node's capacity.
pub proof fn lemma_bulk_height(n: nat)
    ensures
        bulk_height(n) >= 1,
        n <= pow6(bulk_height(n)),
        n > 6 ==> pow6((bulk_height(n) - 1) as nat) < n,
    decreases n,
{
    if n <= 6 {
        assert(pow6(1) == 6 * pow6(0));
    } else {
        let m = (((n - 1) / 6) + 1) as nat;
        vstd::arithmetic::div_mod::lemma_fundamental_div_mod((n - 1) as int, 6);
        assert(m < n);
        lemma_bulk_height(m);
        let hm = bulk_height(m);
        assert(bulk_height(n) == 1 + hm);
        assert(pow6(1 + hm) == 6 * pow6(hm));
        // n <= 6 * m
        assert(n <= 6 * m);
        assert(n <= 6 * pow6(hm));
        // least: pow6(hm) < n
        if m <= 6 {
            assert(hm == 1);
            assert(pow6(1) == 6);
        } else {
            assert(pow6((hm - 1) as nat) < m);
            assert(pow6(hm) == 6 * pow6((hm - 1) as nat));
            assert(6 * pow6((hm - 1) as nat) <= 6 * (m - 1));
            assert(6 * (m - 1) < n);
        }
    }
}

/// The tree height for `n` leaves, computed exactly.
fn compute_height(n: usize) -> (h: usize)
    ensures
        h == bulk_height(n as nat),
        h >= 1,
    decreases n,
{
    if n <= 6 {
        1
    } else {
        let m = (n - 1) / 6 + 1;
        proof {
            vstd::arithmetic::div_mod::lemma_fundamental_div_mod((n - 1) as int, 6);
        }
        let sub = compute_height(m);
        proof {
            lemma_bulk_height(m as nat);
            assert(bulk_height(n as nat) == 1 + bulk_height(m as nat));
            assert(sub < usize::MAX) by {
                lemma_height_small(m as nat);
            }
        }
        1 + sub
    }
}

/// Tree heights stay tiny: the height for `n` leaves never exceeds `n`.
proof fn lemma_height_small(n: nat)
    ensures
        bulk_height(n) <= n || bulk_height(n) == 1,
    decreases n,
{
    if n > 6 {
        let m = (((n - 1) / 6) + 1) as nat;
        vstd::arithmetic::div_mod::lemma_fundamental_div_mod((n - 1) as int, 6);
        lemma_height_small(m);
    }
}

/// Sum of a sequence of sizes.
pub open spec fn sum_usize(s: Seq<usize>) -> int
    decreases s.len(),
{
    if s.len() == 0 {
        0
    } else {
        sum_usize(s.drop_last()) + s.last()
    }
}

/// Sums add over concatenation.
pub proof fn lemma_sum_concat(a: Seq<usize>, b: Seq<usize>)
    ensures
        sum_usize(a + b) == sum_usize(a) + sum_usize(b),
    decreases b.len(),
{
    if b.len() == 0 {
        assert(a + b =~= a);
    } else {
        lemma_sum_concat(a, b.drop_last());
        assert((a + b).drop_last() =~= a + b.drop_last());
        assert((a + b).last() == b.last());
    }
}

/// A sequence of nonnegative sizes has a nonnegative sum, and every
/// prefix sums to no more than the whole.
pub proof fn lemma_sum_nonneg(s: Seq<usize>)
    ensures
        sum_usize(s) >= 0,
    decreases s.len(),
{
    if s.len() > 0 {
        lemma_sum_nonneg(s.drop_last());
    }
}

/// Size of the `k`-th group when `count` items are split into `parts`
/// groups as equally as possible: the first `count % parts` groups get
/// `count / parts + 1` items (the remainder goes to the first groups),
/// the rest `count / parts`.
pub open spec fn even_size(count: int, parts: int, k: int) -> int {
    if k < count % parts {
        count / parts + 1
    } else {
        count / parts
    }
}

/// Start of the `k`-th group: the sum of the earlier groups' sizes, so
/// consecutive groups tile `[0, count)` with no gaps or overlaps.
pub open spec fn even_offset(count: int, parts: int, k: int) -> int
    decreases k,
{
    if k <= 0 {
        0
    } else {
        even_offset(count, parts, k - 1) + even_size(count, parts, k - 1)
    }
}

/// Split `count` items into `parts` groups, as equal as possible, larger
/// groups first.
fn even_partition(count: usize, parts: usize) -> (r: Vec<usize>)
    requires
        1 <= parts <= count,
    ensures
        r@.len() == parts,
        sum_usize(r@) == count,
        forall|k: int| 0 <= k < parts ==> 1 <= #[trigger] r@[k],
        forall|k: int|
            0 <= k < parts ==> #[trigger] r@[k] as int == even_size(
                count as int,
                parts as int,
                k,
            ),
{
    let small = count / parts;
    let rem = count % parts;
    proof {
        vstd::arithmetic::div_mod::lemma_fundamental_div_mod(count as int, parts as int);
        vstd::arithmetic::div_mod::lemma_mod_bound(count as int, parts as int);
        assert(small >= 1) by {
            vstd::arithmetic::div_mod::lemma_div_non_zero(count as int, parts as int);
        }
    }
    let mut v: Vec<usize> = Vec::new();
    let mut i: usize = 0;
    while i < parts
        invariant
            i <= parts,
            small == count / parts,
            rem == count % parts,
            small >= 1,
            rem < parts,
            count == parts * small + rem,
            v@.len() == i,
            forall|k: int|
                0 <= k < i ==> #[trigger] v@[k] as int == if k < rem {
                    small as int + 1
                } else {
                    small as int
                },
            sum_usize(v@) == if i <= rem {
                i * (small + 1)
            } else {
                rem * (small + 1) + (i - rem) * small
            },
        decreases parts - i,
    {
        let ghost v0 = v@;
        if i < rem {
            proof {
                assert(2 * small <= parts * small) by (nonlinear_arith)
                    requires
                        parts >= 2,
                        small >= 0,
                ;
            }
            v.push(small + 1);
            proof {
                assert(v@.drop_last() =~= v0);
                assert((i + 1) * (small + 1) == i * (small + 1) + (small + 1)) by (nonlinear_arith);
            }
        } else {
            v.push(small);
            proof {
                assert(v@.drop_last() =~= v0);
                if i == rem {
                    assert(rem * (small + 1) + 1 * small == rem * (small + 1) + small)
                        by (nonlinear_arith);
                } else {
                    assert(rem * (small + 1) + (i + 1 - rem) * small == rem * (small + 1) + (i
                        - rem) * small + small) by (nonlinear_arith);
                }
            }
        }
        i = i + 1;
    }
    proof {
        if parts <= rem {
            assert(false);
        }
        assert(rem * (small + 1) + (parts - rem) * small == parts * small + rem)
            by (nonlinear_arith);
    }
    v
}

/// Replace consecutive runs of `v` by their sums, one run per part: the
/// `g`-th output is the sum of the `g`-th run when `v`'s positions are
/// split into `parts` runs as equally as possible, so the output refines
/// `v` run by run with no gaps or overlaps.
fn group_sums(v: &Vec<usize>, parts: usize) -> (r: Vec<usize>)
    requires
        1 <= parts <= v@.len(),
        forall|k: int| 0 <= k < v@.len() ==> 1 <= #[trigger] v@[k],
        sum_usize(v@) <= usize::MAX,
    ensures
        r@.len() == parts,
        sum_usize(r@) == sum_usize(v@),
        forall|k: int| 0 <= k < parts ==> 1 <= #[trigger] r@[k],
        forall|g: int|
            0 <= g < parts ==> #[trigger] r@[g] as int == sum_usize(
                v@.subrange(
                    even_offset(v@.len() as int, parts as int, g),
                    even_offset(v@.len() as int, parts as int, g) + even_size(
                        v@.len() as int,
                        parts as int,
                        g,
                    ),
                ),
            ),
{
    let sizes = even_partition(v.len(), parts);
    let mut r: Vec<usize> = Vec::new();
    let mut pos: usize = 0;
    let mut g: usize = 0;
    proof {
        assert(v@.subrange(0, 0) =~= Seq::<usize>::empty());
        assert(sizes@.subrange(0, 0) =~= Seq::<usize>::empty());
    }
    while g < parts
        invariant
            g <= parts,
            pos <= v@.len(),
            v@.len() <= usize::MAX,
            sizes@.len() == parts,
            sum_usize(sizes@) == v@.len(),
            forall|k: int| 0 <= k < parts ==> 1 <= #[trigger] sizes@[k],
            forall|k: int| 0 <= k < v@.len() ==> 1 <= #[trigger] v@[k],
            sum_usize(v@) <= usize::MAX,
            pos == sum_usize(sizes@.subrange(0, g as int)),
            pos == even_offset(v@.len() as int, parts as int, g as int),
            forall|k: int|
                0 <= k < parts ==> #[trigger] sizes@[k] as int == even_size(
                    v@.len() as int,
                    parts as int,
                    k,
                ),
            r@.len() == g,
            forall|k: int| 0 <= k < g ==> 1 <= #[trigger] r@[k],
            sum_usize(r@) == sum_usize(v@.subrange(0, pos as int)),
            forall|gp: int|
                0 <= gp < g ==> #[trigger] r@[gp] as int == sum_usize(
                    v@.subrange(
                        even_offset(v@.len() as int, parts as int, gp),
                        even_offset(v@.len() as int, parts as int, gp) + even_size(
                            v@.len() as int,
                            parts as int,
                            gp,
                        ),
                    ),
                ),
        decreases parts - g,
    {
        let size = sizes[g];
        proof {
            // the remaining sizes cover at least this run
            assert(sizes@.subrange(0, g + 1) =~= sizes@.subrange(0, g as int).push(sizes@[g as int]));
            assert(sizes@ =~= sizes@.subrange(0, g + 1) + sizes@.subrange(g + 1, parts as int));
            lemma_sum_concat(sizes@.subrange(0, g + 1), sizes@.subrange(g + 1, parts as int));
            lemma_sum_nonneg(sizes@.subrange(g + 1, parts as int));
            assert(sizes@.subrange(0, g + 1).drop_last() =~= sizes@.subrange(0, g as int));
            assert(pos + size <= v@.len());
        }
        let mut total: usize = 0;
        let mut j: usize = 0;
        while j < size
            invariant
                pos + size <= v@.len(),
                v@.len() <= usize::MAX,
                j <= size,
                forall|k: int| 0 <= k < v@.len() ==> 1 <= #[trigger] v@[k],
                sum_usize(v@) <= usize::MAX,
                pos <= v@.len(),
                total == sum_usize(v@.subrange(pos as int, pos + j)),
                total + sum_usize(v@.subrange(0, pos as int)) == sum_usize(
                    v@.subrange(0, pos + j),
                ),
            decreases size - j,
        {
            proof {
                assert(v@.subrange(pos as int, pos + j + 1).drop_last() =~= v@.subrange(
                    pos as int,
                    pos + j,
                ));
                assert(v@.subrange(0, pos + j + 1).drop_last() =~= v@.subrange(0, pos + j));
                assert(v@.subrange(pos as int, pos + j + 1).last() == v@[pos + j]);
                assert(v@.subrange(0, pos + j + 1).last() == v@[pos + j]);
                // the growing total stays within the grand total
                assert(v@ =~= v@.subrange(0, pos + j + 1) + v@.subrange(pos + j + 1, v@.len() as int));
                lemma_sum_concat(
                    v@.subrange(0, pos + j + 1),
                    v@.subrange(pos + j + 1, v@.len() as int),
                );
                lemma_sum_nonneg(v@.subrange(pos + j + 1, v@.len() as int));
                lemma_sum_nonneg(v@.subrange(0, pos as int));
                lemma_sum_nonneg(v@.subrange(pos as int, pos + j));
            }
            total = total + v[pos + j];
            j = j + 1;
        }
        proof {
            assert(total >= 1) by {
                assert(v@.subrange(pos as int, pos + size as int).len() == size);
                lemma_sum_nonneg(v@.subrange(pos as int, pos + size as int).drop_last());
                assert(size >= 1);
            }
        }
        let ghost r0 = r@;
        r.push(total);
        proof {
            assert(r@.drop_last() =~= r0);
            assert(total as int == sum_usize(
                v@.subrange(
                    even_offset(v@.len() as int, parts as int, g as int),
                    even_offset(v@.len() as int, parts as int, g as int) + even_size(
                        v@.len() as int,
                        parts as int,
                        g as int,
                    ),
                ),
            ));
            assert(even_offset(v@.len() as int, parts as int, g + 1) == even_offset(
                v@.len() as int,
                parts as int,
                g as int,
            ) + even_size(v@.len() as int, parts as int, g as int));
        }
        pos = pos + size;
        g = g + 1;
    }
    proof {
        assert(sizes@.subrange(0, parts as int) =~= sizes@);
        assert(pos == v@.len());
        assert(v@.subrange(0, pos as int) =~= v@);
    }
    r
}

/// Rounded cube root of a fanout-bounded group count: how many chunks the
/// first (x-axis) cut should produce.
fn root3_round(nc: usize) -> (r: usize)
    requires
        1 <= nc <= 6,
    ensures
        1 <= r <= nc,
        r == if nc <= 3 {
            1int
        } else {
            2int
        },
{
    if nc <= 3 {
        1
    } else {
        2
    }
}

/// Rounded cube of the square of a fanout-bounded group count: how many
/// chunks remain after the first two cuts together.
fn root3_square_round(nc: usize) -> (r: usize)
    requires
        1 <= nc <= 6,
    ensures
        1 <= r <= nc,
        r == if nc <= 1 {
            1int
        } else if nc <= 3 {
            2int
        } else {
            3int
        },
{
    if nc <= 1 {
        1
    } else if nc <= 3 {
        2
    } else {
        3
    }
}

/// Compute the three successive 1-D partitions for one node of the bulk
/// loader: the last list cuts the node's `item_count` leaves into
/// `node_count` chunks as equal as possible (larger chunks first); the
/// first two lists coarsen it so that the x-axis cut produces about the
/// cube root of `node_count` segments and the y-axis cut the rest, each
/// list summing to `item_count` and refining the previous one run by run.
pub fn calculate_splits(node_count: usize, item_count: usize) -> (r: Vec<Vec<usize>>)
    requires
        1 <= node_count <= MAX_NODE_SIZE,
        node_count <= item_count,
    ensures
        r@.len() == 3,
        forall|d: int| 0 <= d < 3 ==> sum_usize((#[trigger] r@[d])@) == item_count,
        forall|d: int, k: int| 0 <= d < 3 && 0 <= k < r@[d]@.len() ==> 1 <= #[trigger] r@[d]@[k],
        r@[2]@.len() == node_count,
        r@[0]@.len() <= r@[1]@.len() <= r@[2]@.len(),
        // the finest list has floor/floor+1 chunk sizes, remainder first
        forall|k: int|
            0 <= k < node_count ==> #[trigger] r@[2]@[k] as int == even_size(
                item_count as int,
                node_count as int,
                k,
            ),
        // chunk counts of the coarser lists: about the cube root of the
        // group count for the x-axis cut, its square for the y-axis cut
        r@[1]@.len() as int == if node_count <= 1 {
            1int
        } else if node_count <= 3 {
            2int
        } else {
            3int
        },
        r@[0]@.len() as int == if node_count <= 3 {
            1int
        } else {
            2int
        },
        // each coarser list refines the finer one: entry `g` is the sum
        // of the `g`-th of as-equal-as-possible consecutive runs
        forall|g: int|
            0 <= g < r@[1]@.len() ==> #[trigger] r@[1]@[g] as int == sum_usize(
                r@[2]@.subrange(
                    even_offset(node_count as int, r@[1]@.len() as int, g),
                    even_offset(node_count as int, r@[1]@.len() as int, g) + even_size(
                        node_count as int,
                        r@[1]@.len() as int,
                        g,
                    ),
                ),
            ),
        forall|g: int|
            0 <= g < r@[0]@.len() ==> #[trigger] r@[0]@[g] as int == sum_usize(
                r@[1]@.subrange(
                    even_offset(r@[1]@.len() as int, r@[0]@.len() as int, g),
                    even_offset(r@[1]@.len() as int, r@[0]@.len() as int, g) + even_size(
                        r@[1]@.len() as int,
                        r@[0]@.len() as int,
                        g,
                    ),
                ),
            ),
{
    let r1 = root3_round(node_count);
    let r2 = root3_square_round(node_count);
    let finest = even_partition(item_count, node_count);
    proof {
        assert(r2 <= finest@.len());
        assert(sum_usize(finest@) <= usize::MAX);
    }
    let mid = group_sums(&finest, r2);
    proof {
        assert(r1 <= mid@.len()) by {
            assert(r1 <= r2);
        }
    }
    let coarse = group_sums(&mid, r1);
    let mut out: Vec<Vec<usize>> = Vec::new();
    out.push(coarse);
    out.push(mid);
    out.push(finest);
    out
}

/// Doubled centroid of a leaf's box along one axis; comparing these
/// orders leaves exactly by centroid, with no division.
pub open spec fn axis_key<T>(l: Leaf<T>, axis: int) -> int {
    if axis == 0 {
        l.aabb.min_x + l.aabb.max_x
    } else if axis == 1 {
        l.aabb.min_y + l.aabb.max_y
    } else {
        l.aabb.min_z + l.aabb.max_z
    }
}

/// The doubled centroid along one axis, computed exactly.
fn key_of<T>(l: &Leaf<T>, axis: usize) -> (r: i64)
    requires
        l.aabb.wf(),
    ensures
        r == axis_key(*l, axis as int),
{
    if axis == 0 {
        l.aabb.min_x + l.aabb.max_x
    } else if axis == 1 {
        l.aabb.min_y + l.aabb.max_y
    } else {
        l.aabb.min_z + l.aabb.max_z
    }
}

/// Exchange two elements of a vector.
fn swap_items<X>(v: &mut Vec<X>, a: usize, b: usize)
    requires
        a < b < old(v)@.len(),
    ensures
        final(v)@ =~= old(v)@.update(a as int, old(v)@[b as int]).update(
            b as int,
            old(v)@[a as int],
        ),
{
    let xb = v.remove(b);
    let xa = v.remove(a);
    v.insert(a, xb);
    v.insert(b, xa);
}

/// Swapping two elements preserves the multiset.
proof fn lemma_swap_multiset<X>(s: Seq<X>, a: int, b: int)
    requires
        0 <= a <= b < s.len(),
    ensures
        s.update(a, s[b]).update(b, s[a]).to_multiset() == s.to_multiset(),
{
    broadcast use vstd::seq_lib::group_to_multiset_ensures;
    broadcast use vstd::multiset::group_multiset_axioms;

    if a == b {
        assert(s.update(a, s[b]).update(b, s[a]) =~= s);
    } else {
        let s1 = s.update(a, s[b]);
        let s2 = s1.update(b, s[a]);
        assert(s1.to_multiset() =~= s.to_multiset().remove(s[a]).insert(s[b]));
        assert(s1[b] == s[b]);
        assert(s2.to_multiset() =~= s1.to_multiset().remove(s[b]).insert(s[a]));
        assert(s.contains(s[a]));
        assert(s.to_multiset().count(s[a]) > 0);
        assert(s2.to_multiset() =~= s.to_multiset());
    }
}

/// Sort `leaves[lo..hi]` in place by the doubled centroid on one axis:
/// a permutation of the range, ordered by the key, with everything
/// outside the range untouched.
fn sort_range<T>(leaves: &mut Vec<Leaf<T>>, lo: usize, hi: usize, axis: usize)
    requires
        lo <= hi <= old(leaves)@.len(),
        forall|k: int| lo <= k < hi ==> (#[trigger] old(leaves)@[k]).aabb.wf(),
    ensures
        final(leaves)@.len() == old(leaves)@.len(),
        forall|k: int|
            0 <= k < old(leaves)@.len() && !(lo <= k < hi) ==> final(leaves)@[k] == old(
                leaves,
            )@[k],
        final(leaves)@.subrange(lo as int, hi as int).to_multiset() == old(leaves)@.subrange(
            lo as int,
            hi as int,
        ).to_multiset(),
        forall|k: int| lo <= k < hi ==> (#[trigger] final(leaves)@[k]).aabb.wf(),
        forall|a: int, b: int|
            #![trigger final(leaves)@[a], final(leaves)@[b]]
            lo <= a <= b < hi ==> axis_key(final(leaves)@[a], axis as int) <= axis_key(
                final(leaves)@[b],
                axis as int,
            ),
{
    broadcast use vstd::seq_lib::group_to_multiset_ensures;
    broadcast use vstd::multiset::group_multiset_axioms;

    let ghost orig = leaves@;
    if lo == hi {
        return ;
    }
    let mut i: usize = lo + 1;
    while i < hi
        invariant
            lo < hi <= leaves@.len(),
            leaves@.len() == orig.len(),
            lo < i <= hi,
            forall|k: int| 0 <= k < orig.len() && !(lo <= k < hi) ==> leaves@[k] == orig[k],
            leaves@.subrange(lo as int, hi as int).to_multiset() == orig.subrange(
                lo as int,
                hi as int,
            ).to_multiset(),
            forall|k: int| lo <= k < hi ==> (#[trigger] leaves@[k]).aabb.wf(),
            forall|a: int, b: int|
                #![trigger leaves@[a], leaves@[b]]
                lo <= a <= b < i ==> axis_key(leaves@[a], axis as int) <= axis_key(
                    leaves@[b],
                    axis as int,
                ),
        decreases hi - i,
    {
        let mut j: usize = i;
        while j > lo && key_of(&leaves[j - 1], axis) > key_of(&leaves[j], axis)
            invariant
                lo < hi <= leaves@.len(),
                leaves@.len() == orig.len(),
                lo < i < hi,
                lo <= j <= i,
                forall|k: int| 0 <= k < orig.len() && !(lo <= k < hi) ==> leaves@[k] == orig[k],
                leaves@.subrange(lo as int, hi as int).to_multiset() == orig.subrange(
                    lo as int,
                    hi as int,
                ).to_multiset(),
                forall|k: int| lo <= k < hi ==> (#[trigger] leaves@[k]).aabb.wf(),
                forall|a: int, b: int|
                    #![trigger leaves@[a], leaves@[b]]
                    lo <= a <= b <= i && a != j && b != j ==> axis_key(leaves@[a], axis as int)
                        <= axis_key(leaves@[b], axis as int),
                forall|b: int|
                    j < b <= i ==> axis_key(leaves@[j as int], axis as int) <= axis_key(
                        #[trigger] leaves@[b],
                        axis as int,
                    ),
            decreases j,
        {
            let ghost pre = leaves@;
            swap_items(leaves, j - 1, j);
            proof {
                assert(leaves@.subrange(lo as int, hi as int) =~= pre.subrange(
                    lo as int,
                    hi as int,
                ).update(j - 1 - lo, pre.subrange(lo as int, hi as int)[j - lo]).update(
                    j - lo,
                    pre.subrange(lo as int, hi as int)[j - 1 - lo],
                ));
                lemma_swap_multiset(pre.subrange(lo as int, hi as int), j - 1 - lo, j - lo);
            }
            j = j - 1;
        }
        i = i + 1;
    }
    proof {
        assert(leaves@.subrange(lo as int, hi as int).to_multiset() == orig.subrange(
            lo as int,
            hi as int,
        ).to_multiset());
    }
}

/// A node of the bulk-loaded tree: its box and the half-open range of its
/// children in the next layer (or in the leaf array, for the last layer).
#[derive(Clone, Copy, Debug)]
pub struct Node {
    pub aabb: AABB,
    pub start: usize,
    pub end: usize,
}

/// The bulk-loaded index: layers of nodes (layer 0 is the single root)
/// over a reordered leaf array.
pub struct RTree<T> {
    pub layers: Vec<Vec<Node>>,
    pub leaves: Vec<Leaf<T>>,
}

/// The bounding boxes of a layer, in order.
pub open spec fn omt_aabbs(s: Seq<Node>) -> Seq<AABB> {
    s.map_values(|n: Node| n.aabb)
}

/// The ranges of a layer are consecutive, start at 0, and together cover
/// `[0, next_len)` exactly: no gaps, no overlaps, ascending.
pub open spec fn links_ok(layer: Seq<Node>, next_len: nat) -> bool {
    &&& layer.len() >= 1
    &&& layer[0].start == 0
    &&& layer[layer.len() - 1].end == next_len
    &&& forall|i: int| 0 <= i < layer.len() ==> (#[trigger] layer[i]).start <= layer[i].end
    &&& forall|i: int|
        #![trigger layer[i], layer[i + 1]]
        0 <= i < layer.len() - 1 ==> layer[i].end == layer[i + 1].start
}

/// Every node of `layer` has its box exactly the merge of the next
/// layer's boxes in its range.
pub open spec fn layer_exact_nodes(layer: Seq<Node>, next: Seq<Node>) -> bool {
    forall|i: int|
        0 <= i < layer.len() ==> (#[trigger] layer[i]).aabb == AABB::merge_seq(
            omt_aabbs(next).subrange(layer[i].start as int, layer[i].end as int),
        )
}

/// Every node of `layer` has its box exactly the merge of the leaf boxes
/// in its range.
pub open spec fn layer_exact_leaves<T>(layer: Seq<Node>, leaves: Seq<Leaf<T>>) -> bool {
    forall|i: int|
        0 <= i < layer.len() ==> (#[trigger] layer[i]).aabb == AABB::merge_seq(
            leaf_aabbs(leaves).subrange(layer[i].start as int, layer[i].end as int),
        )
}

/// In a linked layer, ranges are ordered: an earlier node's range ends no
/// later than a later node's begins, and all ranges stay within bounds.
pub proof fn lemma_links_mono(layer: Seq<Node>, next_len: nat, i: int, j: int)
    requires
        links_ok(layer, next_len),
        0 <= i <= j < layer.len(),
    ensures
        layer[i].end <= layer[j].start || i == j,
        layer[j].end <= next_len,
    decreases layer.len() - j,
{
    if j == layer.len() - 1 {
        if i < j {
            lemma_links_mono_up(layer, next_len, i, j);
        }
    } else {
        lemma_links_mono(layer, next_len, j, j + 1);
        if i < j {
            lemma_links_mono_up(layer, next_len, i, j);
        }
        assert(layer[j].end == layer[j + 1].start);
    }
}

/// Ranges ascend: chaining consecutive boundaries from `i` up to `j`.
proof fn lemma_links_mono_up(layer: Seq<Node>, next_len: nat, i: int, j: int)
    requires
        links_ok(layer, next_len),
        0 <= i < j < layer.len(),
    ensures
        layer[i].end <= layer[j].start,
    decreases j - i,
{
    if i + 1 == j {
        assert(layer[i].end == layer[i + 1].start);
    } else {
        lemma_links_mono_up(layer, next_len, i + 1, j);
        assert(layer[i].end == layer[i + 1].start);
    }
}

/// Merge every leaf box in `leaves[lo..hi]`.
fn merge_range<T>(leaves: &Vec<Leaf<T>>, lo: usize, hi: usize) -> (r: AABB)
    requires
        lo <= hi <= leaves@.len(),
    ensures
        r == AABB::merge_seq(leaf_aabbs(leaves@).subrange(lo as int, hi as int)),
{
    let mut acc = AABB::empty();
    let mut i: usize = lo;
    proof {
        assert(leaf_aabbs(leaves@).subrange(lo as int, lo as int) =~= Seq::<AABB>::empty());
    }
    while i < hi
        invariant
            lo <= i <= hi <= leaves@.len(),
            acc == AABB::merge_seq(leaf_aabbs(leaves@).subrange(lo as int, i as int)),
        decreases hi - i,
    {
        proof {
            assert(leaf_aabbs(leaves@).subrange(lo as int, i + 1).drop_last() =~= leaf_aabbs(
                leaves@,
            ).subrange(lo as int, i as int));
            assert(leaf_aabbs(leaves@).subrange(lo as int, i + 1).last() == leaves@[i as int].aabb);
        }
        acc = acc.merge_with(&leaves[i].aabb);
        i = i + 1;
    }
    acc
}

/// If a mutation touched only `[lo, hi)` and permuted it, then any
/// enclosing range `[start, end)` is permuted too.
proof fn lemma_range_ms<T>(s_old: Seq<Leaf<T>>, s_new: Seq<Leaf<T>>, start: int, end: int, lo: int, hi: int)
    requires
        0 <= start <= lo <= hi <= end <= s_old.len(),
        s_new.len() == s_old.len(),
        forall|k: int| 0 <= k < s_old.len() && !(lo <= k < hi) ==> s_new[k] == s_old[k],
        s_new.subrange(lo, hi).to_multiset() == s_old.subrange(lo, hi).to_multiset(),
    ensures
        s_new.subrange(start, end).to_multiset() == s_old.subrange(start, end).to_multiset(),
{
    let a_old = s_old.subrange(start, lo);
    let m_old = s_old.subrange(lo, hi);
    let b_old = s_old.subrange(hi, end);
    let a_new = s_new.subrange(start, lo);
    let m_new = s_new.subrange(lo, hi);
    let b_new = s_new.subrange(hi, end);
    assert(s_old.subrange(start, end) =~= a_old + m_old + b_old);
    assert(s_new.subrange(start, end) =~= a_new + m_new + b_new);
    assert(a_new =~= a_old);
    assert(b_new =~= b_old);
    vstd::seq_lib::lemma_multiset_commutative(a_old + m_old, b_old);
    vstd::seq_lib::lemma_multiset_commutative(a_old, m_old);
    vstd::seq_lib::lemma_multiset_commutative(a_new + m_new, b_new);
    vstd::seq_lib::lemma_multiset_commutative(a_new, m_new);
}

/// Sort each consecutive run of `leaves[start..end]` (runs given by
/// `sizes`) by the centroid on one axis: a permutation of the range that
/// leaves everything outside it untouched.
fn sort_chunks<T>(leaves: &mut Vec<Leaf<T>>, start: usize, end: usize, sizes: &Vec<usize>, axis: usize)
    requires
        start <= end <= old(leaves)@.len(),
        sum_usize(sizes@) == end - start,
        forall|k: int| 0 <= k < old(leaves)@.len() ==> (#[trigger] old(leaves)@[k]).aabb.wf(),
    ensures
        final(leaves)@.len() == old(leaves)@.len(),
        forall|k: int|
            0 <= k < old(leaves)@.len() && !(start <= k < end) ==> final(leaves)@[k] == old(
                leaves,
            )@[k],
        final(leaves)@.subrange(start as int, end as int).to_multiset() == old(leaves)@.subrange(
            start as int,
            end as int,
        ).to_multiset(),
        forall|k: int| 0 <= k < final(leaves)@.len() ==> (#[trigger] final(leaves)@[k]).aabb.wf(),
{
    let ghost orig = old(leaves)@;
    let mut pos: usize = start;
    let mut g: usize = 0;
    proof {
        assert(sizes@.subrange(0, 0) =~= Seq::<usize>::empty());
    }
    while g < sizes.len()
        invariant
            start <= pos <= end <= leaves@.len(),
            g <= sizes@.len(),
            sum_usize(sizes@) == end - start,
            pos == start + sum_usize(sizes@.subrange(0, g as int)),
            leaves@.len() == orig.len(),
            forall|k: int| 0 <= k < orig.len() && !(start <= k < end) ==> leaves@[k] == orig[k],
            leaves@.subrange(start as int, end as int).to_multiset() == orig.subrange(
                start as int,
                end as int,
            ).to_multiset(),
            forall|k: int| 0 <= k < leaves@.len() ==> (#[trigger] leaves@[k]).aabb.wf(),
        decreases sizes@.len() - g,
    {
        let size = sizes[g];
        proof {
            assert(sizes@ =~= sizes@.subrange(0, g + 1) + sizes@.subrange(
                g + 1,
                sizes@.len() as int,
            ));
            lemma_sum_concat(sizes@.subrange(0, g + 1), sizes@.subrange(g + 1, sizes@.len() as int));
            lemma_sum_nonneg(sizes@.subrange(g + 1, sizes@.len() as int));
            lemma_sum_nonneg(sizes@.subrange(0, g as int));
            assert(sizes@.subrange(0, g + 1).drop_last() =~= sizes@.subrange(0, g as int));
            assert(pos + size <= end);
        }
        let ghost pre = leaves@;
        sort_range(leaves, pos, pos + size, axis);
        proof {
            lemma_range_ms(pre, leaves@, start as int, end as int, pos as int, pos + size);
        }
        pos = pos + size;
        g = g + 1;
    }
}

/// If consecutive children tile `[start, end)` of a target sequence and
/// each child's box is exactly the merge of its tile, then the merge of
/// the children's boxes is exactly the merge of the whole range.
pub proof fn lemma_merge_partition(children: Seq<Node>, target: Seq<AABB>, start: int, end: int)
    requires
        children.len() >= 1,
        0 <= start,
        end <= target.len(),
        children[0].start == start,
        children[children.len() - 1].end == end,
        forall|k: int| 0 <= k < children.len() ==> (#[trigger] children[k]).start <= children[k].end,
        forall|k: int|
            0 <= k < children.len() - 1 ==> (#[trigger] children[k]).end == children[k + 1].start,
        forall|k: int|
            0 <= k < children.len() ==> (#[trigger] children[k]).aabb == AABB::merge_seq(
                target.subrange(children[k].start as int, children[k].end as int),
            ),
    ensures
        AABB::merge_seq(omt_aabbs(children)) == AABB::merge_seq(target.subrange(start, end)),
    decreases children.len(),
{
    if children.len() == 1 {
        crate::aabb::lemma_merge_seq_singleton(omt_aabbs(children));
        assert(omt_aabbs(children)[0] == children[0].aabb);
    } else {
        let d = children.drop_last();
        let last = children[children.len() - 1];
        let ls = last.start as int;
        assert forall|k: int| 0 <= k < d.len() implies (#[trigger] d[k]) == children[k] by {}
        assert(d[d.len() - 1].end == ls);
        lemma_merge_partition(d, target, start, ls);
        assert(omt_aabbs(children).drop_last() =~= omt_aabbs(d));
        assert(omt_aabbs(children).last() == last.aabb);
        assert(AABB::merge_seq(omt_aabbs(children)) == AABB::merge_seq(omt_aabbs(d)).spec_join(
            last.aabb,
        ));
        assert(start <= ls) by {
            assert(d[0].start == start);
            assert(d[d.len() - 1].end == ls);
            assert(d[0].start <= d[0].end);
            if d.len() > 1 {
                lemma_partition_lo(d);
            }
        }
        assert(target.subrange(start, end) =~= target.subrange(start, ls) + target.subrange(
            ls,
            end,
        ));
        crate::aabb::lemma_merge_seq_concat(target.subrange(start, ls), target.subrange(ls, end));
    }
}

/// The first boundary of a consecutive chain is no later than the last.
proof fn lemma_partition_lo(children: Seq<Node>)
    requires
        children.len() >= 1,
        forall|k: int| 0 <= k < children.len() ==> (#[trigger] children[k]).start <= children[k].end,
        forall|k: int|
            0 <= k < children.len() - 1 ==> (#[trigger] children[k]).end == children[k + 1].start,
    ensures
        children[0].start <= children[children.len() - 1].end,
    decreases children.len(),
{
    if children.len() > 1 {
        let d = children.drop_last();
        assert forall|k: int| 0 <= k < d.len() implies (#[trigger] d[k]) == children[k] by {}
        lemma_partition_lo(d);
        assert(d[d.len() - 1].end == children[children.len() - 1].start);
    }
}

/// Split one node of the previous layer: sort its leaf range along x,
/// then y within the x-segments, then z within the y-segments, and
/// append one child node per final chunk, each with its exact box.
/// Returns the node rewritten to reference its children in `new_nodes`.
#[verifier::rlimit(100)]
#[verifier::spinoff_prover]
fn omt_split<T>(node: Node, leaves: &mut Vec<Leaf<T>>, new_nodes: &mut Vec<Node>) -> (r: Node)
    requires
        node.start < node.end <= old(leaves)@.len(),
        node.aabb == AABB::merge_seq(
            leaf_aabbs(old(leaves)@).subrange(node.start as int, node.end as int),
        ),
        forall|k: int| 0 <= k < old(leaves)@.len() ==> (#[trigger] old(leaves)@[k]).aabb.wf(),
    ensures
        final(leaves)@.len() == old(leaves)@.len(),
        forall|k: int|
            0 <= k < old(leaves)@.len() && !(node.start <= k < node.end) ==> final(leaves)@[k]
                == old(leaves)@[k],
        final(leaves)@.subrange(node.start as int, node.end as int).to_multiset() == old(
            leaves,
        )@.subrange(node.start as int, node.end as int).to_multiset(),
        forall|k: int| 0 <= k < final(leaves)@.len() ==> (#[trigger] final(leaves)@[k]).aabb.wf(),
        final(new_nodes)@.len() > old(new_nodes)@.len(),
        final(new_nodes)@.len() - old(new_nodes)@.len() <= MAX_NODE_SIZE,
        forall|k: int|
            0 <= k < old(new_nodes)@.len() ==> #[trigger] final(new_nodes)@[k] == old(new_nodes)@[k],
        r.aabb == node.aabb,
        r.start == old(new_nodes)@.len(),
        r.end == final(new_nodes)@.len(),
        final(new_nodes)@[r.start as int].start == node.start,
        final(new_nodes)@[r.end - 1].end == node.end,
        forall|k: int|
            r.start <= k < r.end ==> (#[trigger] final(new_nodes)@[k]).start < final(new_nodes)@[k].end,
        forall|k: int|
            r.start <= k < r.end - 1 ==> (#[trigger] final(new_nodes)@[k]).end == final(new_nodes)@[k + 1].start,
        forall|k: int|
            r.start <= k < r.end ==> (#[trigger] final(new_nodes)@[k]).aabb == AABB::merge_seq(
                leaf_aabbs(final(leaves)@).subrange(
                    final(new_nodes)@[k].start as int,
                    final(new_nodes)@[k].end as int,
                ),
            ),
        r.aabb == AABB::merge_seq(
            omt_aabbs(final(new_nodes)@).subrange(r.start as int, r.end as int),
        ),
{
    let count = node.end - node.start;
    let lh = compute_height(count);
    proof {
        lemma_bulk_height(count as nat);
    }
    // p == 6^(lh - 1)
    let mut p: usize = 1;
    let mut k: usize = 1;
    while k < lh
        invariant
            1 <= k <= lh,
            lh == bulk_height(count as nat),
            p == pow6((k - 1) as nat),
            count <= usize::MAX,
        decreases lh - k,
    {
        proof {
            lemma_bulk_height(count as nat);
            lemma_pow6_le(k as nat, (lh - 1) as nat);
            assert(count > 6) by {
                if count <= 6 {
                    assert(lh == 1);
                }
            }
            assert(pow6(k as nat) == 6 * pow6((k - 1) as nat));
            assert(pow6(k as nat) <= pow6((lh - 1) as nat) < count);
        }
        p = p * 6;
        k = k + 1;
    }
    proof {
        assert(p == pow6((lh - 1) as nat));
        assert(count <= pow6(lh as nat));
        assert(pow6(lh as nat) == 6 * p);
    }
    let nc = (count - 1) / p + 1;
    proof {
        vstd::arithmetic::div_mod::lemma_fundamental_div_mod((count - 1) as int, p as int);
        vstd::arithmetic::div_mod::lemma_mod_bound((count - 1) as int, p as int);
        let q = (count - 1) as int / p as int;
        assert(q * p <= count - 1);
        assert(q < 6) by (nonlinear_arith)
            requires
                q * p <= count - 1,
                count <= 6 * p,
                p >= 1,
                q >= 0,
        ;
        assert(q <= count - 1) by (nonlinear_arith)
            requires
                q * p <= count - 1,
                p >= 1,
                q >= 0,
        ;
        assert(1 <= nc <= MAX_NODE_SIZE);
        assert(nc <= count);
    }
    let splits = calculate_splits(nc, count);
    let ghost orig = leaves@;
    // x-axis: sort the whole range
    sort_range(leaves, node.start, node.end, 0);
    // y-axis within x-segments, z-axis within y-segments
    let ghost after_x = leaves@;
    sort_chunks(leaves, node.start, node.end, &splits[0], 1);
    let ghost after_y = leaves@;
    sort_chunks(leaves, node.start, node.end, &splits[1], 2);
    proof {
        assert(leaves@.subrange(node.start as int, node.end as int).to_multiset() == orig.subrange(
            node.start as int,
            node.end as int,
        ).to_multiset());
    }
    // final chunks become the child nodes
    let first_child = new_nodes.len();
    let ghost nn0 = new_nodes@;
    let sizes = &splits[2];
    let mut pos: usize = node.start;
    let mut g: usize = 0;
    proof {
        assert(sizes@.subrange(0, 0) =~= Seq::<usize>::empty());
    }
    while g < sizes.len()
        invariant
            node.start <= pos <= node.end <= leaves@.len(),
            g <= sizes@.len(),
            sizes@.len() >= 1,
            sum_usize(sizes@) == node.end - node.start,
            forall|j: int| 0 <= j < sizes@.len() ==> 1 <= #[trigger] sizes@[j],
            pos == node.start + sum_usize(sizes@.subrange(0, g as int)),
            g < sizes@.len() ==> pos < node.end,
            new_nodes@.len() == nn0.len() + g,
            first_child == nn0.len(),
            forall|k: int| 0 <= k < nn0.len() ==> #[trigger] new_nodes@[k] == nn0[k],
            g >= 1 ==> new_nodes@[first_child as int].start == node.start,
            g >= 1 ==> new_nodes@[new_nodes@.len() - 1].end == pos,
            forall|k: int|
                first_child <= k < new_nodes@.len() ==> (#[trigger] new_nodes@[k]).start
                    < new_nodes@[k].end,
            forall|k: int|
                first_child <= k < new_nodes@.len() - 1 ==> (#[trigger] new_nodes@[k]).end
                    == new_nodes@[k + 1].start,
            forall|k: int|
                first_child <= k < new_nodes@.len() ==> (#[trigger] new_nodes@[k]).aabb
                    == AABB::merge_seq(
                    leaf_aabbs(leaves@).subrange(
                        new_nodes@[k].start as int,
                        new_nodes@[k].end as int,
                    ),
                ),
        decreases sizes@.len() - g,
    {
        let size = sizes[g];
        proof {
            assert(sizes@ =~= sizes@.subrange(0, g + 1) + sizes@.subrange(
                g + 1,
                sizes@.len() as int,
            ));
            lemma_sum_concat(sizes@.subrange(0, g + 1), sizes@.subrange(g + 1, sizes@.len() as int));
            lemma_sum_nonneg(sizes@.subrange(g + 1, sizes@.len() as int));
            lemma_sum_nonneg(sizes@.subrange(0, g as int));
            assert(sizes@.subrange(0, g + 1).drop_last() =~= sizes@.subrange(0, g as int));
            assert(pos + size <= node.end);
        }
        let b = merge_range(leaves, pos, pos + size);
        let ghost nn_pre = new_nodes@;
        new_nodes.push(Node { aabb: b, start: pos, end: pos + size });
        pos = pos + size;
        g = g + 1;
        proof {
            if g < sizes@.len() {
                assert(sizes@ =~= sizes@.subrange(0, g as int) + sizes@.subrange(
                    g as int,
                    sizes@.len() as int,
                ));
                lemma_sum_concat(
                    sizes@.subrange(0, g as int),
                    sizes@.subrange(g as int, sizes@.len() as int),
                );
                lemma_sum_nonneg(sizes@.subrange(g as int, sizes@.len() as int).drop_last());
                assert(sizes@.subrange(g as int, sizes@.len() as int).last() >= 1);
                assert(pos < node.end);
            }
        }
    }
    proof {
        assert(sizes@.subrange(0, sizes@.len() as int) =~= sizes@);
        assert(pos == node.end);
        // the parent's box is the merge of the children's boxes
        let appended = new_nodes@.subrange(first_child as int, new_nodes@.len() as int);
        assert(appended.len() == nc);
        assert forall|k: int| 0 <= k < appended.len() implies (#[trigger] appended[k])
            == new_nodes@[first_child + k] by {}
        lemma_merge_partition(
            appended,
            leaf_aabbs(leaves@),
            node.start as int,
            node.end as int,
        );
        assert(omt_aabbs(appended) =~= omt_aabbs(new_nodes@).subrange(
            first_child as int,
            new_nodes@.len() as int,
        ));
        // permutation kept the merge of the node's leaf range unchanged
        let old_sub = orig.subrange(node.start as int, node.end as int);
        let new_sub = leaves@.subrange(node.start as int, node.end as int);
        crate::aabb::lemma_leaf_aabbs_perm(new_sub, old_sub);
        assert(leaf_aabbs(new_sub) =~= leaf_aabbs(leaves@).subrange(
            node.start as int,
            node.end as int,
        ));
        assert(leaf_aabbs(old_sub) =~= leaf_aabbs(orig).subrange(
            node.start as int,
            node.end as int,
        ));
        crate::aabb::lemma_merge_seq_perm(leaf_aabbs(new_sub), leaf_aabbs(old_sub));
    }
    Node { aabb: node.aabb, start: first_child, end: new_nodes.len() }
}


/// New nodes appended after a prefix keep the prefix unchanged, and a
/// mutation confined to `[lo, hi)` of the leaves cannot disturb the exact
/// boxes of prefix nodes whose ranges tile `[0, lo)`.
proof fn lemma_prefix_exact_leaves<T>(
    pre_nn: Seq<Node>,
    nn: Seq<Node>,
    pre_leaves: Seq<Leaf<T>>,
    leaves: Seq<Leaf<T>>,
    lo: int,
    hi: int,
)
    requires
        pre_nn.len() <= nn.len(),
        forall|k: int| 0 <= k < pre_nn.len() ==> #[trigger] nn[k] == pre_nn[k],
        layer_exact_leaves(pre_nn, pre_leaves),
        leaves.len() == pre_leaves.len(),
        0 <= lo <= hi <= pre_leaves.len(),
        forall|k: int| 0 <= k < leaves.len() && !(lo <= k < hi) ==> leaves[k] == pre_leaves[k],
        pre_nn.len() >= 1 ==> links_ok(pre_nn, lo as nat),
    ensures
        forall|k: int|
            0 <= k < pre_nn.len() ==> (#[trigger] nn[k]).aabb == AABB::merge_seq(
                leaf_aabbs(leaves).subrange(nn[k].start as int, nn[k].end as int),
            ),
{
    assert forall|k: int| 0 <= k < pre_nn.len() implies (#[trigger] nn[k]).aabb == AABB::merge_seq(
        leaf_aabbs(leaves).subrange(nn[k].start as int, nn[k].end as int),
    ) by {
        lemma_links_mono(pre_nn, lo as nat, k, pre_nn.len() - 1);
        assert(pre_nn[k].start <= pre_nn[k].end);
        assert(pre_nn[pre_nn.len() - 1].start <= pre_nn[pre_nn.len() - 1].end);
        assert(pre_nn[pre_nn.len() - 1].end == lo);
        assert(pre_nn[k].end <= lo);
        assert(leaf_aabbs(leaves).subrange(pre_nn[k].start as int, pre_nn[k].end as int)
            =~= leaf_aabbs(pre_leaves).subrange(pre_nn[k].start as int, pre_nn[k].end as int));
    }
}

/// Nodes whose ranges tile a prefix of the next layer keep their exact
/// boxes when more nodes are appended to that layer.
proof fn lemma_prefix_exact_nodes(rw: Seq<Node>, pre_nn: Seq<Node>, nn: Seq<Node>)
    requires
        pre_nn.len() <= nn.len(),
        forall|k: int| 0 <= k < pre_nn.len() ==> #[trigger] nn[k] == pre_nn[k],
        layer_exact_nodes(rw, pre_nn),
        rw.len() >= 1 ==> links_ok(rw, pre_nn.len() as nat),
    ensures
        layer_exact_nodes(rw, nn),
{
    assert forall|i: int| 0 <= i < rw.len() implies (#[trigger] rw[i]).aabb == AABB::merge_seq(
        omt_aabbs(nn).subrange(rw[i].start as int, rw[i].end as int),
    ) by {
        lemma_links_mono(rw, pre_nn.len() as nat, i, rw.len() - 1);
        assert(rw[i].end <= pre_nn.len());
        assert(omt_aabbs(nn).subrange(rw[i].start as int, rw[i].end as int) =~= omt_aabbs(
            pre_nn,
        ).subrange(rw[i].start as int, rw[i].end as int));
    }
}

/// Split every node of the previous layer in order: the previous layer's
/// nodes are rewritten to reference their freshly appended children, and
/// the new layer's ranges tile the (permuted) leaf array exactly.
#[verifier::rlimit(100)]
#[verifier::spinoff_prover]
fn omt_new_layer<T>(old_layer: Vec<Node>, leaves: &mut Vec<Leaf<T>>) -> (r: (Vec<Node>, Vec<Node>))
    requires
        links_ok(old_layer@, old(leaves)@.len() as nat),
        layer_exact_leaves(old_layer@, old(leaves)@),
        forall|i: int|
            0 <= i < old_layer@.len() ==> (#[trigger] old_layer@[i]).start < old_layer@[i].end,
        forall|k: int| 0 <= k < old(leaves)@.len() ==> (#[trigger] old(leaves)@[k]).aabb.wf(),
    ensures
        final(leaves)@.len() == old(leaves)@.len(),
        final(leaves)@.to_multiset() == old(leaves)@.to_multiset(),
        forall|k: int| 0 <= k < final(leaves)@.len() ==> (#[trigger] final(leaves)@[k]).aabb.wf(),
        r.0@.len() == old_layer@.len(),
        forall|i: int|
            0 <= i < old_layer@.len() ==> (#[trigger] r.0@[i]).aabb == old_layer@[i].aabb,
        links_ok(r.0@, r.1@.len() as nat),
        forall|i: int| 0 <= i < r.0@.len() ==> (#[trigger] r.0@[i]).start < r.0@[i].end,
        layer_exact_nodes(r.0@, r.1@),
        links_ok(r.1@, final(leaves)@.len() as nat),
        layer_exact_leaves(r.1@, final(leaves)@),
        forall|i: int| 0 <= i < r.1@.len() ==> (#[trigger] r.1@[i]).start < r.1@[i].end,
{
    let ghost orig = old(leaves)@;
    proof {
        assert forall|i: int|
            0 <= i < old_layer@.len() - 1 implies (#[trigger] old_layer@[i]).end == old_layer@[i
            + 1].start by {
            assert(old_layer@[i + 1] == old_layer@[i + 1]);
        }
    }
    let mut rewritten: Vec<Node> = Vec::new();
    let mut new_nodes: Vec<Node> = Vec::new();
    let mut j: usize = 0;
    while j < old_layer.len()
        invariant
            j <= old_layer@.len(),
            links_ok(old_layer@, orig.len() as nat),
            forall|i: int|
                0 <= i < old_layer@.len() - 1 ==> (#[trigger] old_layer@[i]).end == old_layer@[i
                    + 1].start,
            layer_exact_leaves(old_layer@, orig),
            forall|i: int|
                0 <= i < old_layer@.len() ==> (#[trigger] old_layer@[i]).start < old_layer@[i].end,
            leaves@.len() == orig.len(),
            leaves@.to_multiset() == orig.to_multiset(),
            forall|k: int| 0 <= k < leaves@.len() ==> (#[trigger] leaves@[k]).aabb.wf(),
            j < old_layer@.len() ==> forall|k: int|
                old_layer@[j as int].start <= k < orig.len() ==> leaves@[k] == orig[k],
            rewritten@.len() == j,
            forall|i: int|
                0 <= i < j ==> (#[trigger] rewritten@[i]).aabb == old_layer@[i].aabb,
            j >= 1 ==> rewritten@[0].start == 0,
            j >= 1 ==> rewritten@[j - 1].end == new_nodes@.len(),
            forall|i: int|
                0 <= i < j ==> (#[trigger] rewritten@[i]).start < rewritten@[i].end,
            forall|i: int|
                0 <= i < j - 1 ==> (#[trigger] rewritten@[i]).end == rewritten@[i + 1].start,
            layer_exact_nodes(rewritten@, new_nodes@),
            j == 0 ==> new_nodes@.len() == 0,
            j >= 1 ==> new_nodes@.len() >= 1,
            j >= 1 ==> new_nodes@[0].start == 0,
            j >= 1 ==> new_nodes@[new_nodes@.len() - 1].end == old_layer@[j - 1].end,
            forall|k: int|
                0 <= k < new_nodes@.len() ==> (#[trigger] new_nodes@[k]).start < new_nodes@[k].end,
            forall|k: int|
                0 <= k < new_nodes@.len() - 1 ==> (#[trigger] new_nodes@[k]).end == new_nodes@[k
                    + 1].start,
            layer_exact_leaves(new_nodes@, leaves@),
        decreases old_layer@.len() - j,
    {
        let node = old_layer[j];
        let ghost s = node.start as int;
        let ghost e = node.end as int;
        let ghost pre_leaves = leaves@;
        let ghost pre_nn = new_nodes@;
        proof {
            lemma_links_mono(old_layer@, orig.len() as nat, j as int, j as int);
            // the node is still exact over the current leaf array
            assert(leaves@.subrange(s, e) =~= orig.subrange(s, e));
            assert(leaf_aabbs(leaves@).subrange(s, e) =~= leaf_aabbs(orig).subrange(s, e));
            assert(node.aabb == AABB::merge_seq(leaf_aabbs(leaves@).subrange(s, e)));
            if j >= 1 {
                assert(old_layer@[j - 1].end == old_layer@[j as int].start);
            }
        }
        let rewritten_node = omt_split(node, leaves, &mut new_nodes);
        let ghost rw0 = rewritten@;
        rewritten.push(rewritten_node);
        proof {
            assert(rewritten@ =~= rw0.push(rewritten_node));
            // prior new nodes keep their exact boxes: their leaf ranges lie
            // before the split range and are untouched
            lemma_prefix_exact_leaves(pre_nn, new_nodes@, pre_leaves, leaves@, s, e);
            // prior rewritten nodes keep their exact boxes over the grown layer
            lemma_prefix_exact_nodes(rw0, pre_nn, new_nodes@);
            assert forall|i: int| 0 <= i < rewritten@.len() implies (#[trigger] rewritten@[i]).aabb
                == AABB::merge_seq(
                omt_aabbs(new_nodes@).subrange(
                    rewritten@[i].start as int,
                    rewritten@[i].end as int,
                ),
            ) by {
                if i < rw0.len() {
                    assert(rewritten@[i] == rw0[i]);
                } else {
                    assert(rewritten@[i] == rewritten_node);
                }
            }
            // the leaf multiset is preserved
            lemma_range_ms(pre_leaves, leaves@, 0, orig.len() as int, s, e);
            assert(pre_leaves.subrange(0, orig.len() as int) =~= pre_leaves);
            assert(leaves@.subrange(0, orig.len() as int) =~= leaves@);
            // the untouched suffix for the next node
            if j + 1 < old_layer@.len() {
                assert(old_layer@[j as int].end == old_layer@[j + 1].start);
            }
        }
        j = j + 1;
    }
    proof {
        assert(rewritten@.len() == old_layer@.len());
        assert(old_layer@.len() >= 1);
        assert(rewritten@[rewritten@.len() - 1].end == new_nodes@.len());
        assert(new_nodes@[new_nodes@.len() - 1].end == old_layer@[old_layer@.len() - 1].end);
        assert(old_layer@[old_layer@.len() - 1].end == orig.len());
    }
    (rewritten, new_nodes)
}

impl<T> RTree<T> {
    /// The stored leaves, in their final (permuted) order.
    pub open spec fn spec_leaves(self) -> Seq<Leaf<T>> {
        self.leaves@
    }

    /// Well-formed bulk-loaded tree: one root; each layer's ranges tile
    /// the next layer (the leaf array for the last layer) consecutively
    /// with no gaps or overlaps, ascending; every node's box is exactly
    /// the merge of its children's boxes; and the number of layers is
    /// exactly the ceiling of the base-6 logarithm of the leaf count.
    pub open spec fn wf(self) -> bool {
        &&& self.layers@.len() >= 1
        &&& self.layers@[0]@.len() == 1
        &&& forall|l: int|
            0 <= l < self.layers@.len() - 1 ==> links_ok(
                (#[trigger] self.layers@[l])@,
                self.layers@[l + 1]@.len() as nat,
            )
        &&& links_ok(self.layers@[self.layers@.len() - 1]@, self.leaves@.len() as nat)
        &&& forall|l: int|
            0 <= l < self.layers@.len() - 1 ==> layer_exact_nodes(
                (#[trigger] self.layers@[l])@,
                self.layers@[l + 1]@,
            )
        &&& layer_exact_leaves(self.layers@[self.layers@.len() - 1]@, self.leaves@)
        &&& forall|k: int| 0 <= k < self.leaves@.len() ==> (#[trigger] self.leaves@[k]).aabb.wf()
        &&& self.layers@.len() == bulk_height(self.leaves@.len() as nat)
        &&& forall|l: int, i: int|
            0 <= l < self.layers@.len() - 1 && 0 <= i < self.layers@[l]@.len()
                ==> (#[trigger] self.layers@[l]@[i]).start < self.layers@[l]@[i].end
    }

    /// Bulk-load a tree from a complete leaf set. The leaves are permuted
    /// in place and kept as the final leaf array; the resulting tree is
    /// well-formed, with exactly `ceil(log_6(max(n, 1)))` layers (at
    /// least one).
    pub fn new(leaves: Vec<Leaf<T>>) -> (r: RTree<T>)
        requires
            forall|k: int| 0 <= k < leaves@.len() ==> (#[trigger] leaves@[k]).aabb.wf(),
        ensures
            r.wf(),
            r.spec_leaves().to_multiset() == leaves@.to_multiset(),
            r.spec_leaves().len() == leaves@.len(),
            r.layers@.len() == bulk_height(leaves@.len() as nat),
    {
        let n = leaves.len();
        let h = compute_height(n);
        let root_box = merge_range(&leaves, 0, n);
        let mut lvs = leaves;
        let ghost orig = lvs@;
        let mut root_layer: Vec<Node> = Vec::new();
        root_layer.push(Node { aabb: root_box, start: 0, end: n });
        let mut layers: Vec<Vec<Node>> = Vec::new();
        layers.push(root_layer);
        proof {
            assert(layers@[0]@ =~= seq![Node { aabb: root_box, start: 0, end: n }]);
            assert(leaf_aabbs(lvs@).subrange(0, n as int) =~= leaf_aabbs(lvs@));
            lemma_bulk_height(n as nat);
        }
        let mut round: usize = 1;
        while round < h
            invariant
                1 <= round <= h,
                h == bulk_height(orig.len() as nat),
                layers@.len() == round,
                layers@[0]@.len() == 1,
                lvs@.len() == orig.len(),
                lvs@.to_multiset() == orig.to_multiset(),
                forall|k: int| 0 <= k < lvs@.len() ==> (#[trigger] lvs@[k]).aabb.wf(),
                forall|l: int|
                    0 <= l < round - 1 ==> links_ok(
                        (#[trigger] layers@[l])@,
                        layers@[l + 1]@.len() as nat,
                    ),
                forall|l: int|
                    0 <= l < round - 1 ==> layer_exact_nodes(
                        (#[trigger] layers@[l])@,
                        layers@[l + 1]@,
                    ),
                forall|l: int, i: int|
                    0 <= l < round - 1 && 0 <= i < layers@[l]@.len() ==> (#[trigger] layers@[l]@[i]).start
                        < layers@[l]@[i].end,
                links_ok(layers@[round - 1]@, lvs@.len() as nat),
                layer_exact_leaves(layers@[round - 1]@, lvs@),
                round < h ==> forall|i: int|
                    0 <= i < layers@[round - 1]@.len() ==> (#[trigger] layers@[round
                        - 1]@[i]).start < layers@[round - 1]@[i].end,
            decreases h - round,
        {
            proof {
                if round < h {
                    assert(h >= 2);
                }
            }
            let ghost layers0 = layers@;
            let last = match layers.pop() {
                Some(l) => l,
                None => {
                    proof {
                        assert(false);
                    }
                    Vec::new()
                },
            };
            let (rew, fresh) = omt_new_layer(last, &mut lvs);
            layers.push(rew);
            layers.push(fresh);
            proof {
                assert(layers@.len() == round + 1);
                assert forall|l: int| 0 <= l < round - 1 implies (#[trigger] layers@[l])
                    == layers0[l] by {}
                assert(layers@[round - 1] == rew);
                assert(layers@[round as int] == fresh);
                // the rewritten layer has the same boxes, so the layer above
                // it (if any) keeps its exactness and links
                if round >= 2 {
                    assert(omt_aabbs(rew@) =~= omt_aabbs(last@));
                    assert(layer_exact_nodes(layers@[round - 2]@, rew@)) by {
                        assert forall|i: int|
                            0 <= i < layers@[round - 2]@.len() implies (#[trigger] layers@[round
                            - 2]@[i]).aabb == AABB::merge_seq(
                            omt_aabbs(rew@).subrange(
                                layers@[round - 2]@[i].start as int,
                                layers@[round - 2]@[i].end as int,
                            ),
                        ) by {
                            lemma_links_mono(
                                layers0[round - 2]@,
                                last@.len() as nat,
                                i,
                                layers0[round - 2]@.len() - 1,
                            );
                            assert(omt_aabbs(rew@).subrange(
                                layers@[round - 2]@[i].start as int,
                                layers@[round - 2]@[i].end as int,
                            ) =~= omt_aabbs(last@).subrange(
                                layers@[round - 2]@[i].start as int,
                                layers@[round - 2]@[i].end as int,
                            ));
                        }
                    }
                }
            }
            round = round + 1;
        }
        proof {
            assert(round == h);
        }
        RTree { layers, leaves: lvs }
    }

    /// The height of the bulk-loaded tree: the number of node layers,
    /// which is exactly `ceil(log_6(max(n, 1)))`, at least 1.
    pub fn height(&self) -> (r: usize)
        requires
            self.wf(),
        ensures
            r == self.layers@.len(),
            r == bulk_height(self.spec_leaves().len() as nat),
    {
        self.layers.len()
    }

    /// The stored leaves, in their final order.
    pub fn leaves(&self) -> (r: &Vec<Leaf<T>>)
        ensures
            r@ == self.spec_leaves(),
    {
        &self.leaves
    }
}

/// The root's box is exactly the merge of every stored leaf's box: each
/// node's box covers, and is as tight as, everything beneath it.
pub proof fn lemma_root_exact<T>(t: RTree<T>)
    requires
        t.wf(),
    ensures
        t.layers@[0]@[0].aabb == AABB::merge_seq(leaf_aabbs(t.spec_leaves())),
{
    lemma_layer_merge(t, 0);
    let root_layer = t.layers@[0]@;
    crate::aabb::lemma_merge_seq_singleton(omt_aabbs(root_layer));
    assert(omt_aabbs(root_layer)[0] == root_layer[0].aabb);
}

/// Every layer's merged boxes equal the merge of all leaf boxes.
proof fn lemma_layer_merge<T>(t: RTree<T>, l: int)
    requires
        t.wf(),
        0 <= l < t.layers@.len(),
    ensures
        AABB::merge_seq(omt_aabbs(t.layers@[l]@)) == AABB::merge_seq(leaf_aabbs(t.leaves@)),
    decreases t.layers@.len() - l,
{
    let layer = t.layers@[l]@;
    if l == t.layers@.len() - 1 {
        lemma_merge_partition(layer, leaf_aabbs(t.leaves@), 0, t.leaves@.len() as int);
        assert(leaf_aabbs(t.leaves@).subrange(0, t.leaves@.len() as int) =~= leaf_aabbs(
            t.leaves@,
        ));
    } else {
        lemma_layer_merge(t, l + 1);
        let next = t.layers@[l + 1]@;
        lemma_merge_partition(layer, omt_aabbs(next), 0, next.len() as int);
        assert(omt_aabbs(next).subrange(0, next.len() as int) =~= omt_aabbs(next));
    }
}



/// One item produced by a lazy overlap query: a box, classified as an
/// internal node at some depth or as a stored leaf.
pub struct QueryItem<'rtree, T> {
    pub aabb: AABB,
    pub data: QueryData<'rtree, T>,
}

/// Classification of a query item.
pub enum QueryData<'rtree, T> {
    Node { depth: usize },
    Leaf { data: &'rtree T },
}

impl<'rtree, T> QueryItem<'rtree, T> {
    /// Whether this item is an internal node.
    pub fn is_node(&self) -> (r: bool)
        ensures
            r == (self.data is Node),
    {
        match self.data {
            QueryData::Node { .. } => true,
            QueryData::Leaf { .. } => false,
        }
    }

    /// Whether this item is a stored leaf.
    pub fn is_leaf(&self) -> (r: bool)
        ensures
            r == (self.data is Leaf),
    {
        match self.data {
            QueryData::Node { .. } => false,
            QueryData::Leaf { .. } => true,
        }
    }
}

/// How many entries the frame at depth `d` ranges over: the next layer's
/// node count, or the leaf count for the deepest frame.
pub open spec fn frame_target_len<T>(t: RTree<T>, d: int) -> nat {
    if d + 1 < t.layers@.len() {
        t.layers@[d + 1]@.len() as nat
    } else {
        t.leaves@.len() as nat
    }
}

/// The box of the `j`-th entry the frame at depth `d` ranges over: a node
/// of the next layer, or a leaf for the deepest frame. Kept opaque so
/// that reasoning about one frame does not unfold every layer.
#[verifier::opaque]
pub open spec fn frame_entry_box<T>(t: RTree<T>, d: int, j: int) -> AABB {
    if d + 1 < t.layers@.len() {
        t.layers@[d + 1]@[j].aabb
    } else {
        t.leaves@[j].aabb
    }
}

/// One non-root pull of a query, witnessed by the frame `d0` where the
/// hit was found and the hit's index `j`: every frame above `d0` was
/// exhausted with nothing left overlapping, the entries of frame `d0`
/// before `j` do not overlap, the hit at `j` overlaps and is exactly what
/// was yielded, and the stack afterwards resumes just past the hit,
/// descending into its child range when it is a node. Every pull removes
/// the hit from the un-visited region and never revisits an entry, so an
/// iteration yields each node or leaf at most once and is finite.
pub open spec fn advanced<'a, T>(
    pre: Query<'a, T>,
    post: Query<'a, T>,
    yielded: AABB,
    d0: int,
    j: int,
) -> bool {
    &&& 0 <= d0 < pre.indices@.len()
    &&& pre.indices@[d0].0 <= j < pre.indices@[d0].1
    &&& forall|k: int|
        #![trigger frame_entry_box(*pre.tree, d0, k)]
        pre.indices@[d0].0 <= k < j ==> !frame_entry_box(*pre.tree, d0, k).spec_overlaps(pre.aabb)
    &&& forall|d: int, k: int|
        #![trigger frame_entry_box(*pre.tree, d, k)]
        d0 < d < pre.indices@.len() && pre.indices@[d].0 <= k < pre.indices@[d].1
            ==> !frame_entry_box(*pre.tree, d, k).spec_overlaps(pre.aabb)
    &&& yielded == frame_entry_box(*pre.tree, d0, j)
    &&& yielded.spec_overlaps(pre.aabb)
    &&& if d0 + 1 < pre.tree.layers@.len() {
        post.indices@ == pre.indices@.subrange(0, d0).push(
            (((j + 1) as usize), pre.indices@[d0].1),
        ).push((pre.tree.layers@[d0 + 1]@[j].start, pre.tree.layers@[d0 + 1]@[j].end))
    } else {
        post.indices@ == pre.indices@.subrange(0, d0).push(
            (((j + 1) as usize), pre.indices@[d0].1),
        )
    }
}

/// A lazy overlap query over the bulk-loaded tree: an explicit stack of
/// `(next_unvisited, end)` frames, one per open ancestor range, in place
/// of a call stack. Pull items with [`Query::next`].
pub struct Query<'rtree, T> {
    pub tree: &'rtree RTree<T>,
    pub aabb: AABB,
    pub indices: Vec<(usize, usize)>,
    pub ret_root: bool,
}

impl<'rtree, T> Query<'rtree, T> {
    /// The query is walking a well-formed tree and every stack frame
    /// ranges within its layer.
    pub open spec fn wf(self) -> bool {
        &&& self.tree.wf()
        &&& self.indices@.len() <= self.tree.layers@.len()
        &&& forall|d: int|
            0 <= d < self.indices@.len() ==> (#[trigger] self.indices@[d]).0
                <= self.indices@[d].1 <= frame_target_len(*self.tree, d)
        &&& self.ret_root ==> self.indices@.len() == 1
    }

    /// Open a query: the root is pending, and the root's child range is
    /// the first stack frame.
    pub fn new(tree: &'rtree RTree<T>, aabb: AABB) -> (r: Query<'rtree, T>)
        requires
            tree.wf(),
        ensures
            r.wf(),
            r.tree == tree,
            r.aabb == aabb,
            r.ret_root,
            r.indices@ =~= seq![
                (tree.layers@[0]@[0].start, tree.layers@[0]@[0].end),
            ],
    {
        let root = tree.layers[0][0];
        let mut indices: Vec<(usize, usize)> = Vec::new();
        indices.push((root.start, root.end));
        proof {
            let layer0 = tree.layers@[0]@;
            assert(layer0[layer0.len() - 1] == root);
            if tree.layers@.len() > 1 {
                assert(links_ok(layer0, tree.layers@[1]@.len() as nat));
            } else {
                assert(links_ok(layer0, tree.leaves@.len() as nat));
            }
        }
        Query { tree, aabb, indices, ret_root: true }
    }

    /// Produce the next item: first the root unconditionally, then, in
    /// depth-first order, every node or leaf whose box overlaps the query
    /// box; subtrees whose boxes miss the query box are skipped whole.
    /// Each non-root result is the first overlapping entry of the deepest
    /// still-open frame (see [`advanced`]): a real node of the tree at
    /// its true depth, or a stored leaf, and the stack steps past the hit
    /// deterministically, so no entry is ever yielded twice and the
    /// iteration is finite. `None` comes only once nothing any frame
    /// still ranged over overlaps the query box.
    #[verifier::rlimit(100)]
    #[verifier::spinoff_prover]
    pub fn next(&mut self) -> (r: Option<QueryItem<'rtree, T>>)
        requires
            old(self).wf(),
        ensures
            final(self).wf(),
            final(self).tree == old(self).tree,
            final(self).aabb == old(self).aabb,
            !final(self).ret_root,
            old(self).ret_root ==> (r matches Some(qi) && (qi.data matches QueryData::Node {
                depth,
            } && depth == 0) && qi.aabb == old(self).tree.layers@[0]@[0].aabb),
            old(self).ret_root ==> final(self).indices@ == old(self).indices@,
            r is None ==> final(self).indices@.len() == 0,
            r is None ==> !old(self).ret_root,
            // exhaustion is honest: `None` comes only once nothing the
            // stack still ranged over can overlap the query box
            r is None ==> forall|d: int, j: int|
                #![trigger frame_entry_box(*old(self).tree, d, j)]
                0 <= d < old(self).indices@.len() && old(self).indices@[d].0 <= j < old(
                    self,
                ).indices@[d].1 ==> !frame_entry_box(*old(self).tree, d, j).spec_overlaps(
                    old(self).aabb,
                ),
            match r {
                Some(qi) => {
                    &&& (qi.data matches QueryData::Leaf { data } ==> {
                        &&& qi.aabb.spec_overlaps(old(self).aabb)
                        &&& exists|k: int|
                            0 <= k < old(self).tree.leaves@.len() && (#[trigger] old(
                                self,
                            ).tree.leaves@[k]).aabb == qi.aabb && old(self).tree.leaves@[k].data
                                == *data
                    })
                    &&& (qi.data matches QueryData::Node { depth } ==> {
                        &&& depth < old(self).tree.layers@.len()
                        &&& (!old(self).ret_root ==> qi.aabb.spec_overlaps(old(self).aabb))
                    })
                    // every non-root yield is the first overlapping entry
                    // of some still-open frame, at its true depth, and the
                    // stack steps past it deterministically
                    &&& (!old(self).ret_root ==> exists|d0: int, j: int|
                        #![trigger frame_entry_box(*old(self).tree, d0, j)]
                        ((advanced(*old(self), *final(self), qi.aabb, d0, j)) && (
                        qi.data matches QueryData::Node { depth } ==> (depth == d0 + 1 && d0 + 1
                            < old(self).tree.layers@.len())) && (
                        qi.data matches QueryData::Leaf { data } ==> (d0 + 1 == old(
                            self,
                        ).tree.layers@.len() && *data == old(self).tree.leaves@[j].data))))
                },
                None => true,
            },
    {
        if self.ret_root {
            self.ret_root = false;
            let root = self.tree.layers[0][0];
            return Some(QueryItem { aabb: root.aabb, data: QueryData::Node { depth: 0 } });
        }
        while self.indices.len() > 0
            invariant
                self.wf(),
                !self.ret_root,
                !old(self).ret_root,
                self.tree == old(self).tree,
                self.aabb == old(self).aabb,
                self.indices@.len() <= old(self).indices@.len(),
                self.indices@ == old(self).indices@.subrange(0, self.indices@.len() as int),
                forall|d: int, j: int|
                    #![trigger frame_entry_box(*old(self).tree, d, j)]
                    self.indices@.len() <= d < old(self).indices@.len() && old(
                        self,
                    ).indices@[d].0 <= j < old(self).indices@[d].1 ==> !frame_entry_box(
                        *old(self).tree,
                        d,
                        j,
                    ).spec_overlaps(old(self).aabb),
            decreases self.indices@.len(),
        {
            let li = self.indices.len() - 1;
            let frame = self.indices[li];
            let cur = frame.0;
            let end = frame.1;
            let popped = self.indices.pop();
            let ghost d0 = self.indices@.len() as int;
            proof {
                assert(self.indices@ =~= old(self).indices@.subrange(0, d0));
                assert((cur, end) == old(self).indices@[d0]);
            }
            if self.indices.len() + 1 == self.tree.layers.len() {
                // deepest frame: scan leaves
                match scan_leaf_frame(self.tree, &self.aabb, cur, end) {
                    Some(j) => {
                        let leaf = &self.tree.leaves[j];
                        self.indices.push((j + 1, end));
                        proof {
                            assert(frame_target_len(*self.tree, d0)
                                == self.tree.leaves@.len());
                            reveal(frame_entry_box);
                            assert(frame_entry_box(*old(self).tree, d0, j as int) == leaf.aabb);
                            assert(self.indices@ =~= old(self).indices@.subrange(0, d0).push(
                                (((j + 1) as usize), old(self).indices@[d0].1),
                            ));
                            assert(advanced(*old(self), *self, leaf.aabb, d0, j as int));
                        }
                        return Some(
                            QueryItem {
                                aabb: leaf.aabb,
                                data: QueryData::Leaf { data: &leaf.data },
                            },
                        );
                    },
                    None => {
                        proof {
                            assert forall|d: int, j: int|
                                #![trigger frame_entry_box(*old(self).tree, d, j)]
                                d0 <= d < old(self).indices@.len() && old(self).indices@[d].0 <= j
                                    < old(self).indices@[d].1 implies !frame_entry_box(
                                *old(self).tree,
                                d,
                                j,
                            ).spec_overlaps(old(self).aabb) by {
                                if d == d0 {
                                    reveal(frame_entry_box);
                                    assert(frame_entry_box(*old(self).tree, d0, j) == old(
                                        self,
                                    ).tree.leaves@[j].aabb);
                                }
                            }
                        }
                    },
                }
            } else {
                // scan nodes of the layer below this frame
                let layer_idx = self.indices.len() + 1;
                match scan_node_frame(self.tree, &self.aabb, layer_idx, cur, end) {
                    Some(j) => {
                        let node = self.tree.layers[layer_idx][j];
                        let ghost layer = self.tree.layers@[layer_idx as int]@;
                        proof {
                            if layer_idx + 1 < self.tree.layers@.len() {
                                assert(links_ok(
                                    layer,
                                    self.tree.layers@[layer_idx + 1]@.len() as nat,
                                ));
                                lemma_links_mono(
                                    layer,
                                    self.tree.layers@[layer_idx + 1]@.len() as nat,
                                    j as int,
                                    layer.len() - 1,
                                );
                            } else {
                                assert(links_ok(layer, self.tree.leaves@.len() as nat));
                                lemma_links_mono(
                                    layer,
                                    self.tree.leaves@.len() as nat,
                                    j as int,
                                    layer.len() - 1,
                                );
                            }
                        }
                        self.indices.push((j + 1, end));
                        self.indices.push((node.start, node.end));
                        proof {
                            reveal(frame_entry_box);
                            assert(frame_entry_box(*old(self).tree, d0, j as int) == node.aabb);
                            assert(self.indices@ =~= old(self).indices@.subrange(0, d0).push(
                                (((j + 1) as usize), old(self).indices@[d0].1),
                            ).push(
                                (
                                    old(self).tree.layers@[d0 + 1]@[j as int].start,
                                    old(self).tree.layers@[d0 + 1]@[j as int].end,
                                ),
                            ));
                            assert(advanced(*old(self), *self, node.aabb, d0, j as int));
                        }
                        return Some(
                            QueryItem { aabb: node.aabb, data: QueryData::Node { depth: layer_idx } },
                        );
                    },
                    None => {
                        proof {
                            assert forall|d: int, j: int|
                                #![trigger frame_entry_box(*old(self).tree, d, j)]
                                d0 <= d < old(self).indices@.len() && old(self).indices@[d].0 <= j
                                    < old(self).indices@[d].1 implies !frame_entry_box(
                                *old(self).tree,
                                d,
                                j,
                            ).spec_overlaps(old(self).aabb) by {
                                if d == d0 {
                                    reveal(frame_entry_box);
                                    assert(frame_entry_box(*old(self).tree, d0, j) == old(
                                        self,
                                    ).tree.layers@[layer_idx as int]@[j].aabb);
                                }
                            }
                        }
                    },
                }
            }
        }
        None
    }
}

/// Scan `tree.leaves[start..end]` for the first leaf overlapping the
/// query box.
fn scan_leaf_frame<T>(tree: &RTree<T>, q: &AABB, start: usize, end: usize) -> (r: Option<usize>)
    requires
        start <= end <= tree.leaves@.len(),
    ensures
        match r {
            Some(j) => {
                &&& start <= j < end
                &&& tree.leaves@[j as int].aabb.spec_overlaps(*q)
                &&& forall|k: int|
                    start <= k < j ==> !(#[trigger] tree.leaves@[k]).aabb.spec_overlaps(*q)
            },
            None => forall|k: int|
                start <= k < end ==> !(#[trigger] tree.leaves@[k]).aabb.spec_overlaps(*q),
        },
{
    let mut cur = start;
    while cur < end
        invariant
            start <= cur <= end <= tree.leaves@.len(),
            forall|k: int| start <= k < cur ==> !(#[trigger] tree.leaves@[k]).aabb.spec_overlaps(
                *q,
            ),
        decreases end - cur,
    {
        if tree.leaves[cur].aabb.overlaps(q) {
            return Some(cur);
        }
        cur = cur + 1;
    }
    None
}

/// Scan `tree.layers[layer_idx][start..end]` for the first node
/// overlapping the query box.
fn scan_node_frame<T>(
    tree: &RTree<T>,
    q: &AABB,
    layer_idx: usize,
    start: usize,
    end: usize,
) -> (r: Option<usize>)
    requires
        layer_idx < tree.layers@.len(),
        start <= end <= tree.layers@[layer_idx as int]@.len(),
    ensures
        match r {
            Some(j) => {
                &&& start <= j < end
                &&& tree.layers@[layer_idx as int]@[j as int].aabb.spec_overlaps(*q)
                &&& forall|k: int|
                    start <= k < j ==> !(#[trigger] tree.layers@[layer_idx as int]@[k]).aabb.spec_overlaps(
                        *q,
                    )
            },
            None => forall|k: int|
                start <= k < end ==> !(#[trigger] tree.layers@[layer_idx as int]@[k]).aabb.spec_overlaps(
                    *q,
                ),
        },
{
    let mut cur = start;
    while cur < end
        invariant
            layer_idx < tree.layers@.len(),
            start <= cur <= end <= tree.layers@[layer_idx as int]@.len(),
            forall|k: int|
                start <= k < cur ==> !(#[trigger] tree.layers@[layer_idx as int]@[k]).aabb.spec_overlaps(
                    *q,
                ),
        decreases end - cur,
    {
        if tree.layers[layer_idx][cur].aabb.overlaps(q) {
            return Some(cur);
        }
        cur = cur + 1;
    }
    None
}

/// A full enumeration of every node box (layer by layer, root first) and
/// then every leaf box, each annotated with its depth. Pull pairs with
/// [`AABBS::next`].
pub struct AABBS<'a, T> {
    pub tree: &'a RTree<T>,
    pub level: usize,
    pub index: usize,
}

/// What a dump cursor at `(level, index)` yields next, and the cursor
/// position after it.
pub open spec fn dump_step<T>(t: RTree<T>, level: int, index: int) -> (Option<(AABB, usize)>, int, int)
    decreases t.layers@.len() + 1 - level,
{
    if 0 <= level < t.layers@.len() {
        if index < t.layers@[level]@.len() {
            (Some((t.layers@[level]@[index].aabb, level as usize)), level, index + 1)
        } else {
            dump_step(t, level + 1, 0)
        }
    } else if 0 <= level == t.layers@.len() && index < t.leaves@.len() {
        (Some((t.leaves@[index].aabb, level as usize)), level, index + 1)
    } else {
        (None, level, index)
    }
}

impl<'a, T> AABBS<'a, T> {
    /// A dump cursor at the root.
    pub fn new(tree: &'a RTree<T>) -> (r: AABBS<'a, T>)
        requires
            tree.wf(),
        ensures
            r.tree == tree,
            r.level == 0,
            r.index == 0,
    {
        AABBS { tree, level: 0, index: 0 }
    }

    /// The next depth-annotated box of the dump, node layers first, then
    /// the leaves; `None` once everything has been produced.
    pub fn next(&mut self) -> (r: Option<(AABB, usize)>)
        requires
            old(self).tree.wf(),
            old(self).level <= old(self).tree.layers@.len(),
        ensures
            final(self).tree == old(self).tree,
            final(self).level <= final(self).tree.layers@.len(),
            (r, final(self).level as int, final(self).index as int) == dump_step(
                *old(self).tree,
                old(self).level as int,
                old(self).index as int,
            ),
        decreases old(self).tree.layers@.len() - old(self).level,
    {
        if self.level < self.tree.layers.len() {
            let layer_len = self.tree.layers[self.level].len();
            if self.index < layer_len {
                let b = self.tree.layers[self.level][self.index].aabb;
                let r = Some((b, self.level));
                self.index = self.index + 1;
                r
            } else {
                self.level = self.level + 1;
                self.index = 0;
                self.next()
            }
        } else if self.index < self.tree.leaves.len() {
            let b = self.tree.leaves[self.index].aabb;
            let r = Some((b, self.level));
            self.index = self.index + 1;
            r
        } else {
            None
        }
    }
}

impl<T> RTree<T> {
    /// A lazy overlap query: see [`Query`].
    pub fn query(&self, aabb: AABB) -> (r: Query<T>)
        requires
            self.wf(),
        ensures
            r.wf(),
            r.tree == self,
            r.aabb == aabb,
            r.ret_root,
            r.indices@ =~= seq![(self.layers@[0]@[0].start, self.layers@[0]@[0].end)],
    {
        Query::new(self, aabb)
    }

    /// A full depth-annotated dump of every node and leaf box: see
    /// [`AABBS`].
    pub fn aabbs(&self) -> (r: AABBS<T>)
        requires
            self.wf(),
        ensures
            r.tree == self,
            r.level == 0,
            r.index == 0,
    {
        AABBS::new(self)
    }
}



} // verus!
