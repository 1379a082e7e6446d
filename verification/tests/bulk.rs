use rtrees::aabb::AABB;
use rtrees::aabb::Leaf;
use rtrees::omt::calculate_splits;
use rtrees::omt::QueryData;
use rtrees::omt::RTree;

fn unit_cube(x: i64, y: i64, z: i64) -> AABB {
    AABB { min_x: x, min_y: y, min_z: z, max_x: x + 1, max_y: y + 1, max_z: z + 1 }
}

/// A tiny deterministic generator for reproducible box sets.
struct Lcg(u64);

impl Lcg {
    fn next(&mut self) -> u64 {
        self.0 = self.0.wrapping_mul(6364136223846793005).wrapping_add(1442695040888963407);
        self.0 >> 33
    }

    fn coord(&mut self, span: u64) -> i64 {
        (self.next() % span) as i64 - (span as i64) / 2
    }

    fn aabb(&mut self) -> AABB {
        let x = self.coord(200);
        let y = self.coord(200);
        let z = self.coord(200);
        let dx = (self.next() % 10) as i64;
        let dy = (self.next() % 10) as i64;
        let dz = (self.next() % 10) as i64;
        AABB { min_x: x, min_y: y, min_z: z, max_x: x + dx, max_y: y + dy, max_z: z + dz }
    }
}

#[test]
fn seven_cubes_build_a_two_layer_tree_and_all_are_found() {
    // Seven unit cubes at (2i, 0, 0): one root plus one split layer.
    let leaves: Vec<Leaf<usize>> =
        (0..7).map(|i| Leaf::new(unit_cube(i as i64 * 2, 0, 0), i)).collect();
    let tree = RTree::new(leaves);
    assert_eq!(tree.height(), 2);
    // The split layer holds two nodes of sizes {4, 3}.
    assert_eq!(tree.layers.len(), 2);
    assert_eq!(tree.layers[1].len(), 2);
    let mut sizes: Vec<usize> =
        tree.layers[1].iter().map(|n| n.end - n.start).collect();
    sizes.sort_unstable();
    assert_eq!(sizes, vec![3, 4]);
    // Querying the whole region returns each of the 7 leaves exactly once.
    let bounds = AABB { min_x: -1, min_y: -1, min_z: -1, max_x: 20, max_y: 2, max_z: 2 };
    let mut query = tree.query(bounds);
    let mut found: Vec<usize> = Vec::new();
    while let Some(item) = query.next() {
        if let QueryData::Leaf { data } = item.data {
            found.push(*data);
        }
    }
    found.sort_unstable();
    assert_eq!(found, vec![0, 1, 2, 3, 4, 5, 6]);
}

#[test]
fn height_follows_the_base_six_ceiling_formula() {
    let heights = [
        (0usize, 1usize),
        (1, 1),
        (6, 1),
        (7, 2),
        (36, 2),
        (37, 3),
        (100, 3),
        (216, 3),
        (217, 4),
    ];
    for &(n, h) in &heights {
        let leaves: Vec<Leaf<usize>> =
            (0..n).map(|i| Leaf::new(unit_cube(i as i64 * 3, 0, 0), i)).collect();
        let tree = RTree::new(leaves);
        assert_eq!(tree.height(), h, "height for {} leaves", n);
    }
}

#[test]
fn splits_partition_seven_items_into_two_groups() {
    // Two target nodes over seven items: the finest cut is {4, 3} with
    // the larger group first, and each coarser list refines it.
    let splits = calculate_splits(2, 7);
    assert_eq!(splits.len(), 3);
    assert_eq!(splits[0], vec![7]);
    assert_eq!(splits[1], vec![4, 3]);
    assert_eq!(splits[2], vec![4, 3]);
}

#[test]
fn splits_always_sum_to_the_item_count() {
    for nc in 1..=6usize {
        for m in nc..40 {
            let splits = calculate_splits(nc, m);
            assert_eq!(splits.len(), 3);
            for list in &splits {
                assert!(!list.is_empty());
                assert_eq!(list.iter().sum::<usize>(), m);
                assert!(list.iter().all(|&s| s >= 1));
            }
            assert_eq!(splits[2].len(), nc);
        }
    }
}

#[test]
fn layer_ranges_partition_without_gaps() {
    let mut rng = Lcg(5);
    let leaves: Vec<Leaf<usize>> = (0..100).map(|i| Leaf::new(rng.aabb(), i)).collect();
    let tree = RTree::new(leaves);
    // Each layer's ranges start at 0, are consecutive, and end at the
    // next layer's length (the leaf count for the last layer).
    for (l, layer) in tree.layers.iter().enumerate() {
        let next_len = if l + 1 < tree.layers.len() {
            tree.layers[l + 1].len()
        } else {
            tree.leaves().len()
        };
        assert_eq!(layer[0].start, 0);
        for w in layer.windows(2) {
            assert_eq!(w[0].end, w[1].start);
            assert!(w[0].start <= w[0].end);
        }
        assert_eq!(layer[layer.len() - 1].end, next_len);
    }
    // Every node's box is exactly the merge of its children's boxes.
    for (l, layer) in tree.layers.iter().enumerate() {
        for node in layer {
            let children: Vec<AABB> = if l + 1 < tree.layers.len() {
                tree.layers[l + 1][node.start..node.end].iter().map(|n| n.aabb).collect()
            } else {
                tree.leaves()[node.start..node.end].iter().map(|lf| lf.aabb).collect()
            };
            assert_eq!(node.aabb, AABB::merge(&children));
        }
    }
}

#[test]
fn lazy_query_agrees_with_brute_force() {
    let mut rng = Lcg(11);
    let leaves: Vec<Leaf<usize>> = (0..150).map(|i| Leaf::new(rng.aabb(), i)).collect();
    let stored: Vec<AABB> = leaves.iter().map(|l| l.aabb).collect();
    let tree = RTree::new(leaves);
    for _ in 0..20 {
        let q = rng.aabb();
        let mut query = tree.query(q);
        let mut got: Vec<usize> = Vec::new();
        while let Some(item) = query.next() {
            match item.data {
                QueryData::Leaf { data } => {
                    // soundness: a yielded leaf truly overlaps
                    assert!(item.aabb.overlaps(&q));
                    got.push(*data);
                }
                QueryData::Node { depth } => {
                    assert!(depth < tree.height());
                }
            }
        }
        got.sort_unstable();
        let mut expected: Vec<usize> =
            (0..stored.len()).filter(|&i| stored[i].overlaps(&q)).collect();
        expected.sort_unstable();
        assert_eq!(got, expected);
    }
}

#[test]
fn query_yields_root_first() {
    let leaves: Vec<Leaf<usize>> = (0..9).map(|i| Leaf::new(unit_cube(i as i64, 0, 0), i)).collect();
    let tree = RTree::new(leaves);
    // Even a query that misses everything still yields the root.
    let far = AABB { min_x: 900, min_y: 900, min_z: 900, max_x: 901, max_y: 901, max_z: 901 };
    let mut query = tree.query(far);
    let first = query.next().expect("the root is always yielded");
    assert!(first.is_node());
    assert!(!first.is_leaf());
    assert!(query.next().is_none());
}

#[test]
fn empty_and_single_leaf_trees_are_valid() {
    let empty: RTree<u8> = RTree::new(Vec::new());
    assert_eq!(empty.height(), 1);
    let mut q = empty.query(unit_cube(0, 0, 0));
    let root = q.next().expect("root item");
    assert!(root.is_node());
    assert!(q.next().is_none());

    let single = RTree::new(vec![Leaf::new(unit_cube(3, 3, 3), 'x')]);
    assert_eq!(single.height(), 1);
    let mut q = single.query(unit_cube(3, 3, 3));
    assert!(q.next().expect("root").is_node());
    let leaf = q.next().expect("the one leaf overlaps");
    assert!(leaf.is_leaf());
    assert!(q.next().is_none());
}

#[test]
fn aabbs_enumerates_every_box_with_depths() {
    let leaves: Vec<Leaf<usize>> =
        (0..7).map(|i| Leaf::new(unit_cube(i as i64 * 2, 0, 0), i)).collect();
    let tree = RTree::new(leaves);
    let mut iter = tree.aabbs();
    let mut items: Vec<(AABB, usize)> = Vec::new();
    while let Some(p) = iter.next() {
        items.push(p);
    }
    // 1 root + 2 split nodes + 7 leaves
    assert_eq!(items.len(), 10);
    assert_eq!(items[0].1, 0);
    assert_eq!(items[1].1, 1);
    assert_eq!(items[2].1, 1);
    assert!(items[3..].iter().all(|&(_, d)| d == 2));
}
