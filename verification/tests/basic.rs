use std::cmp::Ordering;
use tsim::ResolvedChild;
use tsim::TSIMTree;
use tsim::TSIMTreeNode;
use tsim::TSIMTreeNodeChild;

const TREE_RADIX: usize = 16;

#[test]
fn test_comparison_behavior() {
    assert_eq!(b"abc".as_slice().cmp(b"abc".as_slice()), Ordering::Equal);
    assert_eq!(b"ab".as_slice().cmp(b"abc".as_slice()), Ordering::Less);
    assert_eq!(b"abc".as_slice().cmp(b"ab".as_slice()), Ordering::Greater);
}

#[test]
fn test_pretty_printing() {
    let mut tree = TSIMTree::new();
    tree.put(b"key1", b"val1".to_vec());

    let rendered = format!("{:?}", tree);
    assert!(!rendered.is_empty());
}

#[test]
fn test_node_resolving() {
    println!("Initializing Node");
    let mut node = TSIMTreeNode::empty();

    let first_key = 1 as u8;
    let last_key = TREE_RADIX as u8 + 1;

    assert_eq!((first_key..last_key).len(), TREE_RADIX);

    println!("Initializing Segments");

    for (segment, key) in (0..TREE_RADIX).zip(first_key..last_key) {
        let buf = vec![key];
        node.insert_child(segment, buf.as_slice(), TSIMTreeNodeChild::Value(vec![segment as u8]));
    }

    println!("Retrieving Children");

    assert!(matches!(node.children[0], Some(TSIMTreeNodeChild::Value(_))));
    assert!(matches!(node.children[TREE_RADIX - 1], Some(TSIMTreeNodeChild::Value(_))));
    println!("All children are Some");

    let v = vec![];
    let empty_slice: &[u8] = v.as_slice();

    // Since the keys are stored with +1 offset, if we search for 0, there is
    // none; if we search for 1 we get the first element, at idx 0.
    assert_eq!(node.resolve_child(vec![first_key - 1].as_slice()), ResolvedChild::Smallest);

    assert_eq!(
        node.resolve_child(vec![first_key].as_slice()),
        ResolvedChild::ExactMatch(0, empty_slice)
    );
    // looking for the last key and beyond, we return the last child
    assert_eq!(
        node.resolve_child(vec![last_key - 1].as_slice()),
        ResolvedChild::ExactMatch(TREE_RADIX - 1, empty_slice)
    );
    assert_eq!(
        node.resolve_child(vec![last_key].as_slice()),
        ResolvedChild::InDomainOf(TREE_RADIX - 1)
    );
}

#[test]
fn test_basic_insert_and_get() {
    let mut tree = TSIMTree::new();
    tree.put(b"key1", b"val1".to_vec());
    tree.put(b"key2", b"val2".to_vec());

    assert_eq!(tree.get(b"key1"), Some(b"val1".to_vec()));
    assert_eq!(tree.get(b"key2"), Some(b"val2".to_vec()));
}

#[test]
fn test_overwrite_value() {
    let mut tree = TSIMTree::new();
    tree.put(b"key", b"first".to_vec());
    tree.put(b"key", b"second".to_vec());

    assert_eq!(tree.get(b"key"), Some(b"second".to_vec()));
}

#[test]
fn test_missing_key() {
    let mut tree = TSIMTree::new();
    tree.put(b"key", b"value".to_vec());

    assert_eq!(tree.get(b"other"), None);
}

#[test]
fn test_multiple_sizes() {
    let mut tree = TSIMTree::new();
    tree.put(b"k", b"1".to_vec());
    tree.put(b"key", b"v".to_vec());
    tree.put(b"", b"empty".to_vec());
    tree.put(b"a", b"A".to_vec());

    assert_eq!(tree.get(b""), Some(b"empty".to_vec()));
    assert_eq!(tree.get(b"k"), Some(b"1".to_vec()));
    assert_eq!(tree.get(b"a"), Some(b"A".to_vec()));
    assert_eq!(tree.get(b"key"), Some(b"v".to_vec()));
}

#[test]
fn test_key_byte_equality() {
    let mut tree = TSIMTree::new();

    // Two keys with same content but different Vec allocations
    let k1: Vec<u8> = b"identical".to_vec();
    let k2: Vec<u8> = b"identical".to_vec();
    let v: Vec<u8> = b"value".to_vec();

    tree.put(&k1, v.clone());
    assert_eq!(tree.get(&k2), Some(v));
}

#[test]
fn test_keys_with_null_bytes() {
    let mut tree = TSIMTree::new();
    tree.put(&b"key\0with\0nulls"[..], b"value".to_vec());
    assert_eq!(tree.get(&b"key\0with\0nulls"[..]), Some(b"value".to_vec()));
}
