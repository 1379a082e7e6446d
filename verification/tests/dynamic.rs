use rtrees::aabb::AABB;
use rtrees::rtree::Entry;
use rtrees::rtree::Node;
use rtrees::rtree::RTree;
use rtrees::rtree::NODE_MAX_CHILDREN;

fn unit_cube(x: i64, y: i64, z: i64) -> AABB {
    AABB { min_x: x, min_y: y, min_z: z, max_x: x + 1, max_y: y + 1, max_z: z + 1 }
}

/// A tiny deterministic generator for reproducible box sets.
struct Lcg(u64);

impl Lcg {
    fn next(&mut self) -> u64 {
        self.0 = self.0.wrapping_mul(6364136223846793005).wrapping_add(1442695040888963407);
        self.0 >> 33
    }

    fn coord(&mut self, span: u64) -> i64 {
        (self.next() % span) as i64 - (span as i64) / 2
    }

    fn aabb(&mut self) -> AABB {
        let x = self.coord(200);
        let y = self.coord(200);
        let z = self.coord(200);
        let dx = (self.next() % 10) as i64;
        let dy = (self.next() % 10) as i64;
        let dz = (self.next() % 10) as i64;
        AABB { min_x: x, min_y: y, min_z: z, max_x: x + dx, max_y: y + dy, max_z: z + dz }
    }
}

#[test]
fn empty_tree_has_height_one_and_finds_nothing() {
    let tree: RTree<u32> = RTree::new();
    assert_eq!(tree.height(), 1);
    let probe = AABB { min_x: -1000, min_y: -1000, min_z: -1000, max_x: 1000, max_y: 1000, max_z: 1000 };
    assert!(tree.search(&probe).is_empty());
}

#[test]
fn root_overflow_raises_height_by_one_without_losing_coverage() {
    let mut tree: RTree<usize> = RTree::new();
    // Fill the root's leaf list to capacity: the height stays 1.
    for i in 0..NODE_MAX_CHILDREN {
        tree.insert(unit_cube(i as i64 * 2, 0, 0), i);
        assert_eq!(tree.height(), 1);
    }
    // One more leaf overflows the root: the height grows by exactly 1.
    tree.insert(unit_cube(NODE_MAX_CHILDREN as i64 * 2, 0, 0), NODE_MAX_CHILDREN);
    assert_eq!(tree.height(), 2);
    // Coverage is kept: the root box still covers every inserted cube,
    // and the two top-level children stay within the root box.
    let dump = tree.aabbs();
    let root_box = dump[0].1;
    for i in 0..=NODE_MAX_CHILDREN {
        let c = unit_cube(i as i64 * 2, 0, 0);
        assert!(root_box.min_x <= c.min_x && c.max_x <= root_box.max_x);
        assert!(root_box.min_y <= c.min_y && c.max_y <= root_box.max_y);
        assert!(root_box.min_z <= c.min_z && c.max_z <= root_box.max_z);
    }
    for (depth, b) in &dump {
        if *depth == 1 {
            assert!(root_box.volume() >= b.volume());
        }
    }
}

fn check_fanout<T>(node: &Node<T>) {
    match &node.entry {
        Entry::Nodes(ns) => {
            assert!(1 <= ns.len() && ns.len() <= NODE_MAX_CHILDREN);
            for n in ns {
                check_fanout(n);
            }
        }
        Entry::Leaves(ls) => {
            assert!(1 <= ls.len() && ls.len() <= NODE_MAX_CHILDREN);
        }
    }
}

fn check_tight_boxes<T>(node: &Node<T>) {
    let children: Vec<AABB> = match &node.entry {
        Entry::Nodes(ns) => ns.iter().map(|n| n.aabb).collect(),
        Entry::Leaves(ls) => ls.iter().map(|l| l.aabb).collect(),
    };
    assert_eq!(node.aabb, AABB::merge(&children));
    if let Entry::Nodes(ns) = &node.entry {
        for n in ns {
            check_tight_boxes(n);
        }
    }
}

#[test]
fn every_node_stays_within_fanout_and_exactly_bounds_its_children() {
    let mut rng = Lcg(7);
    let mut tree: RTree<usize> = RTree::new();
    for i in 0..300 {
        tree.insert(rng.aabb(), i);
        let root = tree.root.as_ref().expect("tree is nonempty");
        check_fanout(root);
        check_tight_boxes(root);
    }
}

#[test]
fn search_agrees_with_brute_force() {
    let mut rng = Lcg(99);
    let mut tree: RTree<usize> = RTree::new();
    let mut stored: Vec<AABB> = Vec::new();
    for i in 0..250 {
        let b = rng.aabb();
        stored.push(b);
        tree.insert(b, i);
    }
    for _ in 0..20 {
        let q = rng.aabb();
        let mut got: Vec<usize> = tree.search(&q).into_iter().copied().collect();
        got.sort_unstable();
        let mut expected: Vec<usize> =
            (0..stored.len()).filter(|&i| stored[i].overlaps(&q)).collect();
        expected.sort_unstable();
        assert_eq!(got, expected);
    }
}

#[test]
fn search_returns_only_overlapping_payloads() {
    let mut tree: RTree<char> = RTree::new();
    let a = AABB { min_x: 0, min_y: 0, min_z: 0, max_x: 1, max_y: 1, max_z: 1 };
    let b = AABB { min_x: 5, min_y: 5, min_z: 5, max_x: 6, max_y: 6, max_z: 6 };
    tree.insert(a, 'a');
    tree.insert(b, 'b');
    // A query box exactly at `a` returns only what is stored at `a`.
    let hits = tree.search(&a);
    assert_eq!(hits.len(), 1);
    assert_eq!(*hits[0], 'a');
}

#[test]
fn clear_resets_the_tree() {
    let mut tree: RTree<u8> = RTree::new();
    for i in 0..20 {
        tree.insert(unit_cube(i, i, i), i as u8);
    }
    tree.clear();
    assert_eq!(tree.height(), 1);
    let probe = AABB { min_x: -100, min_y: -100, min_z: -100, max_x: 100, max_y: 100, max_z: 100 };
    assert!(tree.search(&probe).is_empty());
    assert!(tree.aabbs().is_empty());
}

#[test]
fn aabbs_dump_lists_root_first_with_depths() {
    let mut tree: RTree<u8> = RTree::new();
    tree.insert(unit_cube(0, 0, 0), 1);
    tree.insert(unit_cube(4, 0, 0), 2);
    let dump = tree.aabbs();
    // one root node at depth 0, two leaf boxes at depth 1
    assert_eq!(dump.len(), 3);
    assert_eq!(dump[0].0, 0);
    assert_eq!(dump[0].1, AABB { min_x: 0, min_y: 0, min_z: 0, max_x: 5, max_y: 1, max_z: 1 });
    assert_eq!(dump[1].0, 1);
    assert_eq!(dump[2].0, 1);
}
