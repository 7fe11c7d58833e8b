use spatial_trees::fixed::{ONE, UNKNOWN_SIZE};
use spatial_trees::oct_tree::{OctTree, OctTreeNode, TreeEvent};
use spatial_trees::NodeKey;

fn only_the_root(node: &OctTreeNode) -> bool {
    node.depth() == 0
}

#[test]
fn one_pass_splits_the_root_into_eight() {
    let mut tree = OctTree::new(1, 100, [0, 0, 0]).unwrap();
    let root = tree.root_items()[0];
    let events = tree.insert_and_update_neighbors(only_the_root);
    assert_eq!(events.len(), 1);
    match &events[0] {
        TreeEvent::Grown { parent, children } => {
            assert_eq!(*parent, root);
            assert_eq!(children.len(), 8);
        }
        other => panic!("unexpected event {:?}", other),
    }
    let leaves = tree.iter_leaf_nodes();
    assert_eq!(leaves.len(), 8);
    for (_, node) in leaves {
        assert_eq!(node.size(), 50 * ONE);
        let sizes = node.neighbor_sizes();
        for axis in 0..3 {
            let low = sizes[2 * axis];
            let high = sizes[2 * axis + 1];
            if node.pos()[axis] < 0 {
                assert_eq!((low, high), (UNKNOWN_SIZE, 50 * ONE));
            } else {
                assert_eq!((low, high), (50 * ONE, UNKNOWN_SIZE));
            }
        }
    }
    let volume: i128 = tree.iter_leaf_nodes().iter().map(|(_, n)| (n.size() / ONE).pow(3)).sum();
    assert_eq!(volume, 100 * 100 * 100);
}

#[test]
fn a_pass_that_wants_nothing_makes_the_root_a_leaf_again() {
    let mut tree = OctTree::new(1, 100, [0, 0, 0]).unwrap();
    let root = tree.root_items()[0];
    let grown = tree.insert_and_update_neighbors(only_the_root);
    let mut children: Vec<NodeKey> = match &grown[0] {
        TreeEvent::Grown { children, .. } => children.clone(),
        other => panic!("unexpected event {:?}", other),
    };
    let events = tree.insert_and_update_neighbors(|_: &OctTreeNode| false);
    assert_eq!(events.len(), 1);
    match &events[0] {
        TreeEvent::Shrunk { retained, removed } => {
            assert_eq!(*retained, root);
            let mut removed = removed.clone();
            removed.sort();
            children.sort();
            assert_eq!(removed, children);
        }
        other => panic!("unexpected event {:?}", other),
    }
    for key in children {
        assert!(tree.get_node(key).is_none());
    }
    let node = tree.get_node(root).unwrap();
    assert!(!node.has_children());
    assert_eq!(node.neighbor_sizes(), &vec![UNKNOWN_SIZE; 6]);
    assert_eq!(tree.iter_leaf_nodes().len(), 1);
}

#[test]
fn a_deep_subtree_is_removed_whole() {
    let mut tree = OctTree::new(1, 8, [0, 0, 0]).unwrap();
    tree.insert(|_: &OctTreeNode| true);
    assert_eq!(tree.iter_leaf_nodes().len(), 512);
    let events = tree.insert(|_: &OctTreeNode| false);
    assert_eq!(events.len(), 1);
    match &events[0] {
        TreeEvent::Shrunk { removed, .. } => assert_eq!(removed.len(), 8 + 64 + 512),
        other => panic!("unexpected event {:?}", other),
    }
    assert_eq!(tree.iter_leaf_nodes().len(), 1);
}

#[test]
fn neighbors_of_an_octant_are_its_three_siblings() {
    let mut tree = OctTree::new(1, 8, [0, 0, 0]).unwrap();
    let root = tree.root_items()[0];
    tree.insert(only_the_root);
    let children = tree.get_node(root).unwrap().children().unwrap().clone();
    assert_eq!(tree.get_neighbors(children[0], [1, 0, 0]), vec![children[1]]);
    assert_eq!(tree.get_neighbors(children[0], [0, 1, 0]), vec![children[2]]);
    assert_eq!(tree.get_neighbors(children[0], [0, 0, 1]), vec![children[4]]);
    assert!(tree.get_neighbors(children[0], [-1, 0, 0]).is_empty());
    assert_eq!(tree.get_neighbors(children[7], [0, 0, -1]), vec![children[3]]);
    assert!(tree.get_neighbors(root, [1, 0, 0]).is_empty());
}

#[test]
fn smaller_neighbors_across_a_face_are_all_found() {
    let mut tree = OctTree::new(1, 8, [0, 0, 0]).unwrap();
    let root = tree.root_items()[0];
    tree.insert(|node: &OctTreeNode| {
        node.depth() == 0 || (node.depth() == 1 && node.pos()[0] > 0 && node.pos()[1] < 0 && node.pos()[2] < 0)
    });
    let children = tree.get_node(root).unwrap().children().unwrap().clone();
    let small = tree.get_node(children[1]).unwrap().children().unwrap().clone();
    let mut found = tree.get_neighbors(children[0], [1, 0, 0]);
    let mut expected = vec![small[0], small[2], small[4], small[6]];
    found.sort();
    expected.sort();
    assert_eq!(found, expected);
    for key in &expected {
        assert_eq!(tree.get_neighbors(*key, [-1, 0, 0]), vec![children[0]]);
    }
    assert_eq!(tree.get_neighbors(small[1], [1, 0, 0]), Vec::<NodeKey>::new());
    assert_eq!(tree.get_neighbors(small[1], [0, 1, 0]), vec![small[3]]);
    assert_eq!(tree.get_neighbors(small[3], [0, 1, 0]), vec![children[3]]);
}
