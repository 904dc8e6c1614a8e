use rand::{rngs, Rng, SeedableRng};
use xdvdfs::avl::AvlTree;

#[test]
fn avl_insert_ascending_builds_balanced_tree() {
    let mut tree: AvlTree<u64> = AvlTree::new();
    for v in 1..=7u64 {
        assert!(tree.insert(v));
    }
    // Elements keep insertion order in the backing vector.
    assert_eq!(tree.backing_vec(), &vec![1, 2, 3, 4, 5, 6, 7]);
    // Rotations leave a perfect tree rooted at 4.
    assert_eq!(tree.root_idx(), Some(3));
    assert_eq!(tree.preorder_indices(), vec![3, 1, 0, 2, 5, 4, 6]);
}

#[test]
fn avl_insert_rejects_duplicates() {
    let mut tree: AvlTree<u64> = AvlTree::new();
    assert!(tree.insert(10));
    assert!(tree.insert(5));
    assert!(!tree.insert(10));
    assert_eq!(tree.len(), 2);
    assert!(tree.contains(&5));
    assert!(!tree.contains(&7));
}

#[test]
fn avl_left_right_rotation() {
    let mut tree: AvlTree<i32> = AvlTree::new();
    assert!(tree.insert(30));
    assert!(tree.insert(10));
    assert!(tree.insert(20));
    // 20 becomes the root, with 10 on the left and 30 on the right.
    assert_eq!(tree.preorder_indices(), vec![2, 1, 0]);
    let root = tree.node(2);
    assert_eq!(root.left_idx(), Some(1));
    assert_eq!(root.right_idx(), Some(0));
}

#[test]
fn avl_right_left_rotation() {
    let mut tree: AvlTree<i32> = AvlTree::new();
    assert!(tree.insert(10));
    assert!(tree.insert(30));
    assert!(tree.insert(20));
    assert_eq!(tree.preorder_indices(), vec![2, 0, 1]);
}

#[test]
fn avl_many_inserts_stay_shallow() {
    let mut tree: AvlTree<i32> = AvlTree::new();
    let mut x: i64 = 12345;
    let mut inserted = 0;
    for _ in 0..1000 {
        x = (x * 1103515245 + 12345) % 2147483648;
        if tree.insert((x % 100000) as i32) {
            inserted += 1;
        }
    }
    assert_eq!(tree.len(), inserted);
    let root = tree.root_idx().unwrap();
    // An AVL tree of n nodes is at most 1.45 log2(n + 2) high.
    assert!(tree.node(root).height <= 15);
}

/// Checks the links of the tree from its root: each node's height is one
/// more than its taller child's, the heights of its children differ by at
/// most one, and the keys are ordered. Returns the height of the subtree.
fn validate_subtree(tree: &AvlTree<i32>, idx: usize) -> usize {
    let node = tree.node(idx);
    let data = tree.backing_vec();
    let left = match node.left_idx() {
        Some(l) => {
            assert!(data[l] < data[idx]);
            validate_subtree(tree, l)
        }
        None => 0,
    };
    let right = match node.right_idx() {
        Some(r) => {
            assert!(data[r] > data[idx]);
            validate_subtree(tree, r)
        }
        None => 0,
    };
    assert!(left <= right + 1 && right <= left + 1);
    assert_eq!(node.height, 1 + left.max(right));
    node.height
}

fn validate_tree(tree: &AvlTree<i32>) {
    validate_subtree(tree, tree.root_idx().unwrap());
    let mut order = tree.preorder_indices();
    order.sort();
    assert_eq!(order, (0..tree.len()).collect::<Vec<_>>());
}

#[test]
fn test_insert_invariants() {
    let mut rng = rngs::StdRng::seed_from_u64(0x5842_4f58_5842_4f58);
    let mut test_set: Vec<i32> = Vec::new();
    test_set.resize_with(1000, || rng.gen());

    let mut tree = AvlTree::new();

    for i in test_set {
        tree.insert(i);
        validate_tree(&tree);
    }
}
