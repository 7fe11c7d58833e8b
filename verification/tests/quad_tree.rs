use spatial_trees::fixed::{ONE, UNKNOWN_SIZE};
use spatial_trees::quad_tree::{QuadTree, QuadTreeNode, TreeError, TreeEvent};
use spatial_trees::NodeKey;

fn in_units(value: i128) -> f64 {
    value as f64 / ONE as f64
}

fn near_two_two(node: &QuadTreeNode) -> bool {
    let dx = in_units(node.pos()[0]) - 2.0;
    let dy = in_units(node.pos()[1]) - 2.0;
    (dx * dx + dy * dy).sqrt() < 3.0 * in_units(node.size())
}

fn settle(tree: &mut QuadTree) -> usize {
    let mut passes = 0;
    loop {
        let events = tree.insert_and_update_neighbors(near_two_two);
        passes += 1;
        if events.is_empty() {
            return passes;
        }
        assert!(passes < 64);
    }
}

fn leaf_area(tree: &QuadTree) -> f64 {
    tree.iter_leaf_nodes().iter().map(|(_, node)| in_units(node.size()) * in_units(node.size())).sum()
}

#[test]
fn new_rejects_a_smallest_size_of_zero() {
    assert_eq!(QuadTree::new(0, 10, [0, 0]).err(), Some(TreeError::MinSizeNotPositive));
    assert_eq!(QuadTree::new(0, 0, [0, 0]).err(), Some(TreeError::MinSizeNotPositive));
}

#[test]
fn new_rejects_a_root_below_the_smallest_size() {
    assert_eq!(QuadTree::new(5, 4, [0, 0]).err(), Some(TreeError::RootBelowMinSize));
    assert!(QuadTree::new(5, 5, [0, 0]).is_ok());
}

#[test]
fn new_tree_is_a_single_leaf() {
    let tree = QuadTree::new(1, 10, [3, -4]).unwrap();
    let roots = tree.root_items();
    assert_eq!(roots.len(), 1);
    let leaves = tree.iter_leaf_nodes();
    assert_eq!(leaves.len(), 1);
    assert_eq!(leaves[0].0, roots[0]);
    let root = tree.get_node(roots[0]).unwrap();
    assert_eq!(root.size(), 10 * ONE);
    assert_eq!(root.pos(), &vec![3 * ONE, -4 * ONE]);
    assert_eq!(root.neighbor_sizes(), &vec![UNKNOWN_SIZE; 4]);
    assert_eq!(root.depth(), 0);
    assert!(root.get_parent().is_none());
    assert!(!root.has_children());
    assert_eq!(tree.min_size(), ONE);
    assert_eq!(tree.root_size(), 10 * ONE);
    assert!(!tree.starved());
}

#[test]
fn first_pass_reports_one_grown_event() {
    let mut tree = QuadTree::new(1, 10, [0, 0]).unwrap();
    let root = tree.root_items()[0];
    let events = tree.insert_and_update_neighbors(near_two_two);
    assert_eq!(events.len(), 1);
    match &events[0] {
        TreeEvent::Grown { parent, children } => {
            assert_eq!(*parent, root);
            assert!(children.len() > 4);
            for child in children {
                assert!(!tree.get_node(*child).unwrap().has_children());
            }
            let mut leaves: Vec<NodeKey> =
                tree.iter_leaf_nodes().iter().map(|(key, _)| *key).collect();
            let mut listed = children.clone();
            leaves.sort();
            listed.sort();
            assert_eq!(leaves, listed);
        }
        other => panic!("unexpected event {:?}", other),
    }
}

#[test]
fn refinement_around_a_point_settles() {
    let mut tree = QuadTree::new(1, 10, [0, 0]).unwrap();
    assert_eq!(settle(&mut tree), 2);
    let leaves = tree.iter_leaf_nodes();
    let nearest = leaves
        .iter()
        .min_by(|a, b| {
            let da = (in_units(a.1.pos()[0]) - 2.0).hypot(in_units(a.1.pos()[1]) - 2.0);
            let db = (in_units(b.1.pos()[0]) - 2.0).hypot(in_units(b.1.pos()[1]) - 2.0);
            da.partial_cmp(&db).unwrap()
        })
        .unwrap();
    assert_eq!(in_units(nearest.1.size()), 0.625);
    assert_eq!(nearest.1.depth(), 4);
    let sizes: Vec<f64> = nearest.1.neighbor_sizes().iter().map(|s| in_units(*s)).collect();
    assert_eq!(sizes, vec![0.625, 0.625, 0.625, 0.625]);
    assert_eq!(leaf_area(&tree), 100.0);
}

#[test]
fn no_leaf_above_the_floor_is_left_where_the_predicate_holds() {
    let mut tree = QuadTree::new(1, 10, [0, 0]).unwrap();
    settle(&mut tree);
    for (_, node) in tree.iter_leaf_nodes() {
        assert!(!near_two_two(node) || node.size() <= tree.min_size());
        assert!(2 * node.size() > tree.min_size());
    }
}

#[test]
fn second_pass_with_the_same_predicate_reports_nothing() {
    let mut tree = QuadTree::new(1, 16, [0, 0]).unwrap();
    let first = tree.insert_and_update_neighbors(near_two_two);
    assert!(!first.is_empty());
    let leaves_before: Vec<NodeKey> = tree.iter_leaf_nodes().iter().map(|(k, _)| *k).collect();
    let second = tree.insert_and_update_neighbors(near_two_two);
    assert!(second.is_empty());
    let leaves_after: Vec<NodeKey> = tree.iter_leaf_nodes().iter().map(|(k, _)| *k).collect();
    assert_eq!(leaves_before.len(), leaves_after.len());
}

#[test]
fn leaves_never_fall_below_the_smallest_size_of_an_aligned_tree() {
    let mut tree = QuadTree::new(2, 64, [0, 0]).unwrap();
    tree.insert_and_update_neighbors(|_: &QuadTreeNode| true);
    let leaves = tree.iter_leaf_nodes();
    assert_eq!(leaves.len(), 32 * 32);
    for (_, node) in leaves {
        assert_eq!(node.size(), 2 * ONE);
    }
    assert_eq!(leaf_area(&tree), 64.0 * 64.0);
}

#[test]
fn growing_root_and_child_in_one_pass_gives_one_event() {
    let mut tree = QuadTree::new(1, 8, [0, 0]).unwrap();
    let root = tree.root_items()[0];
    let events = tree.insert(|node: &QuadTreeNode| {
        node.depth() == 0 || (node.depth() == 1 && node.pos()[0] > 0 && node.pos()[1] > 0)
    });
    assert_eq!(events.len(), 1);
    match &events[0] {
        TreeEvent::Grown { parent, children } => {
            assert_eq!(*parent, root);
            assert_eq!(children.len(), 4 + 3);
            let small = children
                .iter()
                .filter(|key| tree.get_node(**key).unwrap().size() == 2 * ONE)
                .count();
            let large = children
                .iter()
                .filter(|key| tree.get_node(**key).unwrap().size() == 4 * ONE)
                .count();
            assert_eq!((small, large), (4, 3));
        }
        other => panic!("unexpected event {:?}", other),
    }
    assert_eq!(tree.iter_leaf_nodes().len(), 7);
}

#[test]
fn children_follow_the_child_ordering() {
    let mut tree = QuadTree::new(1, 8, [10, 20]).unwrap();
    let root = tree.root_items()[0];
    tree.insert(|node: &QuadTreeNode| node.depth() == 0);
    let node = tree.get_node(root).unwrap();
    let children = node.children().unwrap().clone();
    assert_eq!(children.len(), 4);
    let expected = [[8, 18], [12, 18], [8, 22], [12, 22]];
    for (i, key) in children.iter().enumerate() {
        let child = tree.get_node(*key).unwrap();
        assert_eq!(child.size(), 4 * ONE);
        assert_eq!(child.pos(), &vec![expected[i][0] * ONE, expected[i][1] * ONE]);
        assert_eq!(child.get_parent(), Some(root));
        assert_eq!(child.depth(), 1);
        assert_eq!(node.get_child_index(*key), Some(i));
    }
}

#[test]
fn shrinking_and_growing_again_gives_the_same_leaves() {
    let mut tree = QuadTree::new(1, 16, [0, 0]).unwrap();
    tree.insert_and_update_neighbors(near_two_two);
    let mut before: Vec<(i128, Vec<i128>)> = tree
        .iter_leaf_nodes()
        .iter()
        .map(|(_, node)| (node.size(), node.pos().clone()))
        .collect();
    let shrunk = tree.insert_and_update_neighbors(|_: &QuadTreeNode| false);
    assert_eq!(shrunk.len(), 1);
    assert_eq!(tree.iter_leaf_nodes().len(), 1);
    tree.insert_and_update_neighbors(near_two_two);
    let mut after: Vec<(i128, Vec<i128>)> = tree
        .iter_leaf_nodes()
        .iter()
        .map(|(_, node)| (node.size(), node.pos().clone()))
        .collect();
    before.sort();
    after.sort();
    assert_eq!(before, after);
}

#[test]
fn climbs_from_two_nodes_side_by_side_mirror_each_other() {
    let mut tree = QuadTree::new(1, 16, [0, 0]).unwrap();
    tree.insert(|node: &QuadTreeNode| node.depth() < 3);
    let leaves: Vec<(NodeKey, Vec<i128>)> =
        tree.iter_leaf_nodes().iter().map(|(key, node)| (*key, node.pos().clone())).collect();
    let mut pairs = 0;
    for (left, left_pos) in &leaves {
        for (right, right_pos) in &leaves {
            if right_pos[0] != left_pos[0] + 2 * ONE || right_pos[1] != left_pos[1] {
                continue;
            }
            let (top, steps, rest) = tree.climb(*left, [1, 0]);
            let (other_top, other_steps, other_rest) = tree.climb(*right, [-1, 0]);
            assert_eq!(top, other_top);
            assert_eq!(rest, [0, 0]);
            assert_eq!(other_rest, [0, 0]);
            assert_eq!(steps.len(), other_steps.len());
            for (step, other) in steps.iter().zip(other_steps.iter()) {
                assert_eq!(step[0], -other[0]);
                assert_eq!(step[1], other[1]);
            }
            assert_eq!(tree.get_neighbors(*left, [1, 0]), vec![*right]);
            assert_eq!(tree.get_neighbors(*right, [-1, 0]), vec![*left]);
            pairs += 1;
        }
    }
    assert_eq!(pairs, 7 * 8);
}

#[test]
fn a_root_at_the_smallest_size_is_never_split() {
    let mut tree = QuadTree::new(4, 4, [0, 0]).unwrap();
    let events = tree.insert_and_update_neighbors(|_: &QuadTreeNode| true);
    assert!(events.is_empty());
    assert_eq!(tree.iter_leaf_nodes().len(), 1);
    assert!(!tree.starved());
}

#[test]
fn events_tell_of_the_tree_after_the_pass() {
    let mut tree = QuadTree::new(1, 32, [0, 0]).unwrap();
    tree.insert_and_update_neighbors(|node: &QuadTreeNode| node.depth() < 2);
    // The second pass splits some leaves further and joins others.
    let events = tree.insert_and_update_neighbors(|node: &QuadTreeNode| {
        node.depth() == 0 || (node.pos()[0] > 0 && node.depth() < 3)
    });
    let mut grown = 0;
    let mut shrunk = 0;
    for event in &events {
        match event {
            TreeEvent::Grown { parent, children } => {
                grown += 1;
                let parent = tree.get_node(*parent).unwrap();
                assert!(parent.has_children());
                for child in children {
                    let child = tree.get_node(*child).unwrap();
                    assert!(!child.has_children());
                    assert!(child.size() < parent.size());
                    for axis in 0..2 {
                        assert!(parent.pos()[axis] - parent.size() / 2 <= child.pos()[axis] - child.size() / 2);
                        assert!(child.pos()[axis] + child.size() / 2 <= parent.pos()[axis] + parent.size() / 2);
                    }
                }
            }
            TreeEvent::Shrunk { retained, removed } => {
                shrunk += 1;
                assert!(!tree.get_node(*retained).unwrap().has_children());
                assert_eq!(removed.len(), 4);
                for key in removed {
                    assert!(tree.get_node(*key).is_none());
                }
            }
            other => panic!("unexpected event {:?}", other),
        }
    }
    assert_eq!((grown, shrunk), (8, 2));
    assert_eq!(tree.iter_leaf_nodes().len(), 2 + 2 * 4 * 4);
}
