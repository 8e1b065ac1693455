use rsmt2d::{new_default_tree, DefaultTree, Tree};

#[test]
fn test_empty_tree_root() {
    let tree = new_default_tree();
    let root = tree.root();

    // Empty tree should have a consistent root
    let expected = DefaultTree::hash_data(&[]);
    assert_eq!(root, expected);
}

#[test]
fn test_single_leaf_root() {
    let mut tree = new_default_tree();
    let data = b"hello world";
    tree.push(data);

    let root = tree.root();
    let expected = DefaultTree::hash_data(data);
    assert_eq!(root, expected);
}

#[test]
fn test_multiple_leaves_root() {
    let mut tree = new_default_tree();
    tree.push(b"data1");
    tree.push(b"data2");
    tree.push(b"data3");

    let root = tree.root();
    assert!(!root.is_empty());

    // Root should be 32 bytes (SHA256)
    assert_eq!(root.len(), 32);
}

#[test]
fn test_deterministic_roots() {
    let mut tree1 = new_default_tree();
    tree1.push(b"data1");
    tree1.push(b"data2");
    tree1.push(b"data3");

    let mut tree2 = new_default_tree();
    tree2.push(b"data1");
    tree2.push(b"data2");
    tree2.push(b"data3");

    assert_eq!(tree1.root(), tree2.root());
}

#[test]
fn test_tree_operations() {
    let mut tree = new_default_tree();
    assert!(tree.is_empty());
    assert_eq!(tree.len(), 0);

    tree.push(b"test");
    assert!(!tree.is_empty());
    assert_eq!(tree.len(), 1);

    tree.push(b"another");
    assert_eq!(tree.len(), 2);

    let root_before_reset = tree.root();
    tree.reset();
    assert!(tree.is_empty());
    assert_eq!(tree.len(), 0);

    // Root should be different after reset
    let root_after_reset = tree.root();
    assert_ne!(root_before_reset, root_after_reset);
}

#[test]
fn test_power_of_two_vs_odd_leaves() {
    // Test with power of 2 number of leaves
    let mut tree_even = new_default_tree();
    tree_even.push(b"1");
    tree_even.push(b"2");
    tree_even.push(b"3");
    tree_even.push(b"4");
    let root_even = tree_even.root();

    // Test with odd number of leaves
    let mut tree_odd = new_default_tree();
    tree_odd.push(b"1");
    tree_odd.push(b"2");
    tree_odd.push(b"3");
    let root_odd = tree_odd.root();

    // Roots should be different
    assert_ne!(root_even, root_odd);

    // Both should be valid SHA256 hashes
    assert_eq!(root_even.len(), 32);
    assert_eq!(root_odd.len(), 32);
}

#[test]
fn test_tree_consistency_with_duplicates() {
    let mut tree1 = new_default_tree();
    tree1.push(b"data");
    let root1 = tree1.root();

    let mut tree2 = new_default_tree();
    tree2.push(b"data");
    tree2.push(b"data"); // Duplicate to test odd-node handling
    let root2 = tree2.root();

    // Should be different due to different tree structure
    assert_ne!(root1, root2);
}

#[test]
fn test_large_tree() {
    let mut tree = new_default_tree();

    // Add many leaves
    for i in 0u32..1000 {
        tree.push(&i.to_be_bytes());
    }

    let root = tree.root();
    assert_eq!(root.len(), 32);
    assert_eq!(tree.len(), 1000);

    // Should be deterministic
    let root2 = tree.root();
    assert_eq!(root, root2);
}

struct MockTree {
    data: Vec<Vec<u8>>,
}

impl MockTree {
    fn new() -> Self {
        Self { data: Vec::new() }
    }
}

impl Tree for MockTree {
    fn push(&mut self, data: &[u8]) {
        self.data.push(data.to_vec());
    }

    fn root(&self) -> Vec<u8> {
        // Simple mock: just concatenate all data
        let mut all_data = Vec::new();
        for chunk in &self.data {
            all_data.extend_from_slice(chunk);
        }
        all_data
    }

    fn reset(&mut self) {
        self.data.clear();
    }

    fn len(&self) -> usize {
        self.data.len()
    }
}

#[test]
fn test_tree_trait() {
    let mut tree = MockTree::new();
    assert!(tree.is_empty());

    tree.push(&[1, 2, 3]);
    tree.push(&[4, 5, 6]);
    assert_eq!(tree.len(), 2);
    assert!(!tree.is_empty());

    let root1 = tree.root();
    let root2 = tree.root();
    assert_eq!(root1, root2); // deterministic

    tree.reset();
    assert!(tree.is_empty());
}

/// The SHA-256 digest of the empty string.
const EMPTY_DIGEST: [u8; 32] = [
    0xe3, 0xb0, 0xc4, 0x42, 0x98, 0xfc, 0x1c, 0x14, 0x9a, 0xfb, 0xf4, 0xc8, 0x99, 0x6f, 0xb9, 0x24, 0x27, 0xae, 0x41,
    0xe4, 0x64, 0x9b, 0x93, 0x4c, 0xa4, 0x95, 0x99, 0x1b, 0x78, 0x52, 0xb8, 0x55,
];

#[test]
fn empty_root_is_digest_of_nothing() {
    assert_eq!(new_default_tree().root(), EMPTY_DIGEST.to_vec());
    assert_eq!(DefaultTree::hash_data(&[]), EMPTY_DIGEST.to_vec());
}

#[test]
fn two_leaves_root_is_hash_of_leaf_hashes() {
    let mut tree = new_default_tree();
    tree.push(b"a");
    tree.push(b"b");
    let mut joined = DefaultTree::hash_data(b"a");
    joined.extend(DefaultTree::hash_data(b"b"));
    assert_eq!(tree.root(), DefaultTree::hash_data(&joined));
}

#[test]
fn odd_leaf_is_paired_with_itself() {
    let mut tree = new_default_tree();
    tree.push(b"a");
    tree.push(b"b");
    tree.push(b"c");
    let ha = DefaultTree::hash_data(b"a");
    let hb = DefaultTree::hash_data(b"b");
    let hc = DefaultTree::hash_data(b"c");
    let mut ab = ha.clone();
    ab.extend(hb);
    let mut cc = hc.clone();
    cc.extend(hc.clone());
    let mut top = DefaultTree::hash_data(&ab);
    top.extend(DefaultTree::hash_data(&cc));
    assert_eq!(tree.root(), DefaultTree::hash_data(&top));
}

#[test]
fn reset_then_same_leaves_gives_same_root() {
    let mut tree = DefaultTree::default();
    tree.push(b"x");
    tree.push(b"y");
    let first = tree.root();
    tree.reset();
    tree.push(b"x");
    tree.push(b"y");
    assert_eq!(tree.root(), first);
}
