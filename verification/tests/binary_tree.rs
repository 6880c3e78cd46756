use pace26io::binary_tree::{
    BinTreeBuilder, DepthFirstSearch, IndexedBinTreeBuilder, Label, NodeIdx, TopDownCursor,
    TreeBuilder,
};
use pace26io::newick::BinaryTreeParser;

#[test]
fn dfs() {
    let tree = BinTreeBuilder::default()
        .parse_newick_from_str("((3,1),2);", NodeIdx::new(0))
        .unwrap();
    let mut trav = tree.dfs();

    assert!(trav.next().unwrap().is_inner());
    assert!(trav.next().unwrap().is_inner());
    assert_eq!(trav.next().unwrap().leaf_label(), Some(Label(3)));
    assert_eq!(trav.next().unwrap().leaf_label(), Some(Label(1)));
    assert_eq!(trav.next().unwrap().leaf_label(), Some(Label(2)));
    assert!(trav.next().is_none());
    assert!(trav.next().is_none());
}

#[test]
fn builder_cursor_basics() {
    let mut builder = BinTreeBuilder::default();
    let l1 = builder.new_leaf(Label(3141));
    let l2 = builder.new_leaf(Label(1234));
    let root = builder.new_inner(NodeIdx::new(0), l1, l2);

    assert!(root.top_down().is_inner());
    assert!(!root.top_down().is_leaf());
    assert!(root.top_down().children().is_some());
    assert_eq!(
        root.top_down().left_child().unwrap().leaf_label(),
        Some(Label(3141))
    );
    assert_eq!(
        root.top_down().right_child().unwrap().leaf_label(),
        Some(Label(1234))
    );
    assert!(root.top_down().leaf_label().is_none());
}

#[test]
fn node_idx_basics() {
    assert_eq!(NodeIdx::new(7).incremented(), NodeIdx::new(8));
    assert_eq!(NodeIdx::from(Label(42)), NodeIdx::new(42));
    assert_eq!(NodeIdx::default(), NodeIdx::new(0));
}

#[test]
fn trees_clone_equal() {
    let tree = BinTreeBuilder::default()
        .parse_newick_from_str("((3,1),2);", NodeIdx::new(0))
        .unwrap();
    assert_eq!(tree.clone(), tree);

    let itree = IndexedBinTreeBuilder::default()
        .parse_newick_from_str("(1,2);", NodeIdx::new(4))
        .unwrap();
    assert_eq!(itree.clone(), itree);
}
