use voxels::octree::Octree;
use voxels::packed::LEAF_BIT;

#[test]
fn empty_octree_returns_none() {
    let tree = Octree::new(4);
    assert_eq!(tree.get(0, 0, 0), None);
    assert_eq!(tree.get(7, 7, 7), None);
    assert_eq!(tree.get(15, 15, 15), None);
}

#[test]
fn single_voxel() {
    let mut tree = Octree::new(4);
    tree.set(3, 5, 7, 42);
    assert_eq!(tree.get(3, 5, 7), Some(42));
    assert_eq!(tree.get(0, 0, 0), None);
}

#[test]
fn multiple_voxels() {
    let mut tree = Octree::new(4);
    tree.set(0, 0, 0, 1);
    tree.set(15, 15, 15, 2);
    tree.set(8, 4, 2, 3);

    assert_eq!(tree.get(0, 0, 0), Some(1));
    assert_eq!(tree.get(15, 15, 15), Some(2));
    assert_eq!(tree.get(8, 4, 2), Some(3));
    assert_eq!(tree.get(1, 1, 1), None);
}

#[test]
fn overwrite_voxel() {
    let mut tree = Octree::new(4);
    tree.set(5, 5, 5, 10);
    assert_eq!(tree.get(5, 5, 5), Some(10));
    tree.set(5, 5, 5, 20);
    assert_eq!(tree.get(5, 5, 5), Some(20));
}

#[test]
fn remove_voxel_with_zero() {
    let mut tree = Octree::new(4);
    tree.set(3, 3, 3, 5);
    assert_eq!(tree.get(3, 3, 3), Some(5));
    tree.set(3, 3, 3, 0);
    assert_eq!(tree.get(3, 3, 3), None);
}

#[test]
fn flatten_empty() {
    let tree = Octree::new(4);
    let data = tree.flatten();
    assert!(data.is_empty());
}

#[test]
fn flatten_single_leaf() {
    let mut tree = Octree::new(1); // 2x2x2 world
    for x in 0..2 {
        for y in 0..2 {
            for z in 0..2 {
                tree.set(x, y, z, 7);
            }
        }
    }
    let data = tree.flatten();
    assert_eq!(data.len(), 1);
    assert_eq!(data[0], LEAF_BIT | 7);
}

#[test]
fn flatten_and_structure() {
    let mut tree = Octree::new(1); // 2x2x2
    tree.set(0, 0, 0, 1);
    let data = tree.flatten();
    assert!(!data.is_empty());
    // Root should be internal (bit 31 clear)
    assert_eq!(data[0] & LEAF_BIT, 0);
}

#[test]
fn memory_efficiency() {
    let mut tree = Octree::new(10); // 1024^3 world
    tree.set(500, 500, 500, 1);
    let data = tree.flatten();
    // depth=10: ~10 internal nodes, each with 1 child = ~20 entries
    assert!(
        data.len() < 100,
        "flatten produced {} entries for 1 voxel in 1024^3 world",
        data.len()
    );
}

#[test]
fn sizes() {
    for depth in 1..=20u32 {
        let tree = Octree::new(depth);
        assert_eq!(tree.depth(), depth);
        assert_eq!(tree.size(), 1 << depth);
    }
}

#[test]
fn flatten_words() {
    let mut tree = Octree::new(2);
    tree.set(0, 0, 0, 9);
    tree.set(3, 3, 3, 5);
    // Root with children 0 and 7, each a node with one leaf
    assert_eq!(
        tree.flatten(),
        vec![
            (0x81 << 23) | 1,
            (0x01 << 23) | 3,
            (0x80 << 23) | 4,
            LEAF_BIT | 9,
            LEAF_BIT | 5,
        ]
    );
}

#[test]
fn filling_a_cube_collapses_it_and_emptying_a_voxel_splits_it() {
    let mut tree = Octree::new(3);
    for x in 0..8 {
        for y in 0..8 {
            for z in 0..8 {
                tree.set(x, y, z, 6);
            }
        }
    }
    assert_eq!(tree.flatten(), vec![LEAF_BIT | 6]);
    tree.set(4, 0, 7, 0);
    assert_eq!(tree.get(4, 0, 7), None);
    assert_eq!(tree.get(4, 0, 6), Some(6));
    // Three nodes on the way down, eight words each, less the one voxel
    assert_eq!(tree.flatten().len(), 1 + 8 + 8 + 7);
}

#[test]
fn contents_determine_shape() {
    let mut filled_up = Octree::new(3);
    filled_up.set(1, 2, 3, 4);
    filled_up.set(5, 6, 7, 8);
    let mut emptied = Octree::new(3);
    for x in 0..8 {
        for y in 0..8 {
            for z in 0..8 {
                emptied.set(x, y, z, 4);
            }
        }
    }
    for x in 0..8 {
        for y in 0..8 {
            for z in 0..8 {
                if (x, y, z) != (1, 2, 3) {
                    emptied.set(x, y, z, 0);
                }
            }
        }
    }
    emptied.set(5, 6, 7, 8);
    assert_eq!(filled_up.flatten(), emptied.flatten());
}
