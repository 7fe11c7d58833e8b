use ahash::AHashMap;
use spatial_trees::fixed::{to_fixed, ONE, UNKNOWN_SIZE};
use spatial_trees::node_traits::ChildBehaviour;
use spatial_trees::quad_tree::{NeighborSizeEvent, QuadTree, QuadTreeNode, TreeEvent};
use spatial_trees::refine::{capacity_leaves_room, ROOM_LIMIT};
use spatial_trees::tree_node::TreeNode;
use spatial_trees::tree_traits::NodeStorage;
use spatial_trees::visited::visited_or_insert;
use spatial_trees::NodeKey;

fn split_root_and_first_child() -> (QuadTree, Vec<NodeKey>, Vec<NodeKey>) {
    let mut tree = QuadTree::new(1, 8, [0, 0]).unwrap();
    let root = tree.root_items()[0];
    tree.insert(|node: &QuadTreeNode| {
        node.depth() == 0 || (node.depth() == 1 && node.pos()[0] < 0 && node.pos()[1] < 0)
    });
    let children = tree.get_node(root).unwrap().children().unwrap().clone();
    let small = tree.get_node(children[0]).unwrap().children().unwrap().clone();
    (tree, children, small)
}

#[test]
fn to_fixed_scales_by_one() {
    assert_eq!(to_fixed(0), 0);
    assert_eq!(to_fixed(1), ONE);
    assert_eq!(to_fixed(-3), -3 * ONE);
    assert_eq!(ONE, 1i128 << 40);
    assert_eq!(UNKNOWN_SIZE, -ONE);
}

#[test]
fn update_neighbor_size_follows_the_rule() {
    let (mut tree, children, small) = split_root_and_first_child();
    let held = |tree: &QuadTree, key: NodeKey, face: usize| {
        tree.get_node(key).unwrap().neighbor_sizes()[face]
    };
    // A smaller node takes the size of the larger neighbour.
    assert_eq!(
        tree.update_neighbor_size(small[1], 4 * ONE, [1, 0]),
        NeighborSizeEvent::ChangedSize
    );
    assert_eq!(held(&tree, small[1], 1), 4 * ONE);
    // A slot that holds the size already stays.
    assert_eq!(tree.update_neighbor_size(small[1], 4 * ONE, [1, 0]), NeighborSizeEvent::Unchanged);
    assert_eq!(held(&tree, small[1], 1), 4 * ONE);
    // A larger node takes its own size.
    assert_eq!(
        tree.update_neighbor_size(children[1], 2 * ONE, [-1, 0]),
        NeighborSizeEvent::ChangedSize
    );
    assert_eq!(held(&tree, children[1], 0), 4 * ONE);
    assert_eq!(tree.update_neighbor_size(children[1], 2 * ONE, [-1, 0]), NeighborSizeEvent::Unchanged);
    // A direction that names no face changes nothing.
    assert_eq!(tree.update_neighbor_size(children[1], 2 * ONE, [0, 0]), NeighborSizeEvent::Unchanged);
    assert_eq!(held(&tree, children[1], 0), 4 * ONE);
    // The other slots are untouched.
    assert_eq!(held(&tree, children[1], 1), UNKNOWN_SIZE);
    assert_eq!(held(&tree, children[1], 2), UNKNOWN_SIZE);
    assert_eq!(held(&tree, children[1], 3), UNKNOWN_SIZE);
}

#[test]
fn update_neighbor_sizes_marks_the_nodes_it_touches() {
    let (mut tree, children, small) = split_root_and_first_child();
    let mut visited: AHashMap<NodeKey, NeighborSizeEvent> = AHashMap::new();
    tree.update_neighbor_sizes(children[1], &mut visited);
    assert_eq!(visited.get(&children[1]), Some(&NeighborSizeEvent::New));
    assert_eq!(visited.get(&small[1]), Some(&NeighborSizeEvent::ChangedSize));
    assert_eq!(visited.get(&small[3]), Some(&NeighborSizeEvent::ChangedSize));
    assert_eq!(visited.get(&children[3]), Some(&NeighborSizeEvent::ChangedSize));
    assert_eq!(visited.get(&small[0]), None);
    assert_eq!(visited.len(), 4);
    let node = tree.get_node(children[1]).unwrap();
    assert_eq!(node.neighbor_sizes(), &vec![4 * ONE, UNKNOWN_SIZE, UNKNOWN_SIZE, 4 * ONE]);
    assert_eq!(tree.get_node(small[1]).unwrap().neighbor_sizes()[1], 4 * ONE);
    assert_eq!(tree.get_node(small[3]).unwrap().neighbor_sizes()[1], 4 * ONE);
    assert_eq!(tree.get_node(children[3]).unwrap().neighbor_sizes()[2], 4 * ONE);
    // A second time nothing changes, and marks that are there stay.
    tree.update_neighbor_sizes(children[1], &mut visited);
    assert_eq!(visited.len(), 4);
    assert_eq!(visited.get(&small[1]), Some(&NeighborSizeEvent::ChangedSize));
}

#[test]
fn a_small_node_records_the_size_of_its_larger_neighbour() {
    let (mut tree, children, small) = split_root_and_first_child();
    let mut visited: AHashMap<NodeKey, NeighborSizeEvent> = AHashMap::new();
    tree.update_neighbor_sizes(small[3], &mut visited);
    let node = tree.get_node(small[3]).unwrap();
    assert_eq!(node.neighbor_sizes(), &vec![2 * ONE, 4 * ONE, 2 * ONE, 4 * ONE]);
    assert_eq!(tree.get_node(children[1]).unwrap().neighbor_sizes()[0], 4 * ONE);
    assert_eq!(tree.get_node(children[2]).unwrap().neighbor_sizes()[2], 4 * ONE);
    assert_eq!(tree.get_node(small[2]).unwrap().neighbor_sizes()[1], 2 * ONE);
}

#[test]
fn visited_or_insert_keeps_an_earlier_mark() {
    let (tree, children, _) = split_root_and_first_child();
    let mut visited: AHashMap<NodeKey, NeighborSizeEvent> = AHashMap::new();
    visited_or_insert(&mut visited, children[0], NeighborSizeEvent::New);
    visited_or_insert(&mut visited, children[0], NeighborSizeEvent::ChangedSize);
    visited_or_insert(&mut visited, children[1], NeighborSizeEvent::ChangedSize);
    assert_eq!(visited.get(&children[0]), Some(&NeighborSizeEvent::New));
    assert_eq!(visited.get(&children[1]), Some(&NeighborSizeEvent::ChangedSize));
    assert_eq!(visited.len(), 2);
    assert_eq!(tree.iter_leaf_nodes().len(), 7);
}

#[test]
fn update_neighbors_from_events_passes_over_keys_without_a_node() {
    let mut tree = QuadTree::new(1, 8, [0, 0]).unwrap();
    let root = tree.root_items()[0];
    tree.insert(|node: &QuadTreeNode| node.depth() == 0);
    let gone = tree.get_node(root).unwrap().children().unwrap().clone();
    tree.insert(|_: &QuadTreeNode| false);
    assert!(tree.get_node(gone[0]).is_none());
    tree.insert(|node: &QuadTreeNode| node.depth() == 0);
    let children = tree.get_node(root).unwrap().children().unwrap().clone();
    let mut events = vec![
        TreeEvent::Grown { parent: root, children: vec![gone[0], children[0]] },
        TreeEvent::NeighborSizesChanged(children[3]),
        TreeEvent::Shrunk { retained: gone[1], removed: vec![] },
        TreeEvent::Shrunk { retained: children[3], removed: vec![] },
    ];
    tree.update_neighbors_from_events(&mut events);
    assert_eq!(events.len(), 4);
    let sizes = |key: NodeKey| tree.get_node(key).unwrap().neighbor_sizes().clone();
    assert_eq!(sizes(children[0]), vec![UNKNOWN_SIZE, 4 * ONE, UNKNOWN_SIZE, 4 * ONE]);
    assert_eq!(sizes(children[3]), vec![4 * ONE, UNKNOWN_SIZE, 4 * ONE, UNKNOWN_SIZE]);
    assert_eq!(sizes(children[1]), vec![4 * ONE, UNKNOWN_SIZE, UNKNOWN_SIZE, 4 * ONE]);
    assert_eq!(sizes(children[2]), vec![UNKNOWN_SIZE, 4 * ONE, 4 * ONE, UNKNOWN_SIZE]);
}

#[test]
fn nodes_can_be_put_in_and_taken_out() {
    let mut tree = QuadTree::new(1, 8, [0, 0]).unwrap();
    let root = tree.root_items()[0];
    assert!(tree.has_room());
    let key = tree.insert_node(TreeNode::from_bounds(3 * ONE, vec![ONE, 2 * ONE]));
    assert_ne!(key, root);
    assert_eq!(tree.get_node(key).unwrap().size(), 3 * ONE);
    assert_eq!(tree.get_node_unchecked(key).pos(), &vec![ONE, 2 * ONE]);
    tree.get_mut_node(key).unwrap().set_parent(root);
    assert_eq!(tree.get_node(key).unwrap().get_parent(), Some(root));
    tree.get_mut_node_unchecked(key).set_neighbor_size(2, 5 * ONE);
    assert_eq!(tree.get_node(key).unwrap().neighbor_sizes()[2], 5 * ONE);
    assert_eq!(tree.iter_leaf_nodes().len(), 2);
    let taken = tree.remove_node(key).unwrap();
    assert_eq!(taken.size(), 3 * ONE);
    assert!(tree.get_node(key).is_none());
    assert!(tree.get_mut_node(key).is_none());
    assert!(tree.remove_node(key).is_none());
    let again = NodeStorage::insert_node(&mut tree, TreeNode::from_bounds(ONE, vec![0, 0]));
    assert!(NodeStorage::get_node(&tree, again).is_some());
    assert!(NodeStorage::remove_node(&mut tree, again).is_some());
    assert_eq!(tree.iter_leaf_nodes().len(), 1);
}

#[test]
fn node_keeps_what_it_is_given() {
    let mut node = TreeNode::from_bounds(4 * ONE, vec![ONE, -ONE]);
    assert_eq!(node.size(), 4 * ONE);
    assert_eq!(node.neighbor_sizes(), &vec![UNKNOWN_SIZE; 4]);
    assert!(node.contains_point(&vec![2 * ONE, 0]));
    assert!(!node.contains_point(&vec![3 * ONE, 0]));
    assert!(!node.contains_point(&vec![-ONE, 0]));
    assert!(node.contains_point(&vec![-ONE + 1, -3 * ONE + 1]));
    assert_eq!(node.bounds(), (vec![-ONE, -3 * ONE], vec![3 * ONE, ONE]));
    let inner = TreeNode::from_bounds(2 * ONE, vec![ONE, -ONE]);
    assert!(node.contains(&inner));
    assert!(!inner.contains(&node));
    assert!(!node.contains(&node));
    assert!(!node.has_children());
    assert_eq!(node.take_children(), Vec::<NodeKey>::new());
    assert_eq!(ChildBehaviour::<2>::get_child(&node, [1, 1]), None);
    assert_eq!(ChildBehaviour::<2>::get_child_index(&node, NodeKey::default()), None);
}

#[test]
fn a_branch_finds_its_children_by_octant() {
    let (tree, children, small) = split_root_and_first_child();
    let root = tree.root_items()[0];
    let node = tree.get_node(root).unwrap();
    assert_eq!(node.get_child::<2>([-1, -1]), Some(children[0]));
    assert_eq!(node.get_child::<2>([1, -1]), Some(children[1]));
    assert_eq!(node.get_child::<2>([-1, 1]), Some(children[2]));
    assert_eq!(node.get_child::<2>([1, 1]), Some(children[3]));
    assert_eq!(node.child_position_from_key::<2>(children[2]), Some([-1, 1]));
    assert_eq!(node.child_position_from_key::<2>(small[0]), None);
    assert_eq!(node.get_child_index(children[3]), Some(3));
    assert_eq!(node.get_child_index(small[3]), None);
}

#[test]
fn search_steps_can_be_followed_one_by_one() {
    let (tree, children, small) = split_root_and_first_child();
    let root = tree.root_items()[0];
    assert_eq!(tree.find_shared_parent(small[1], [1, 0]), Some((root, vec![[-1, -1], [1, -1]])));
    assert_eq!(tree.find_shared_parent(small[0], [1, 0]), Some((children[0], vec![[1, -1]])));
    assert_eq!(tree.find_shared_parent(small[0], [-1, 0]), None);
    assert_eq!(tree.climb(small[0], [-1, 0]), (root, vec![[1, -1], [1, -1]], [-1, 0]));
    assert_eq!(tree.neighbour_descent(root, vec![[-1, -1], [1, -1]]), children[1]);
    assert_eq!(tree.neighbour_descent(root, vec![[1, 1], [-1, -1]]), small[3]);
    assert_eq!(tree.bordering_neighbours(children[0], [-1, 0]), vec![small[3], small[1]]);
    assert_eq!(tree.bordering_neighbours(root, [0, -1]), vec![children[3], children[2]]);
    assert_eq!(tree.get_neighbors(children[1], [-1, 0]), vec![small[3], small[1]]);
    assert_eq!(tree.get_neighbors(small[1], [1, 0]), vec![children[1]]);
    assert_eq!(tree.gather_neighbors(small[3]), vec![
        vec![small[2]],
        vec![children[1]],
        vec![small[1]],
        vec![children[2]],
    ]);
    assert_eq!(tree.back_direction(small[1], children[1], 1), [-1, 0]);
    assert_eq!(tree.leaves_of(&vec![root, children[0], small[0], children[1]]), vec![
        small[0],
        children[1],
    ]);
}

#[test]
fn a_node_is_put_in_while_there_is_room() {
    let mut tree = QuadTree::new(1, 8, [0, 0]).unwrap();
    let key = tree.try_insert_node(TreeNode::from_bounds(ONE, vec![0, 0])).unwrap();
    assert_eq!(tree.get_node(key).unwrap().size(), ONE);
    assert_eq!(tree.iter_leaf_nodes().len(), 2);
}

#[test]
fn room_ends_where_the_capacity_reaches_the_limit() {
    assert_eq!(ROOM_LIMIT, 0xFFFF_FF00);
    assert!(capacity_leaves_room(0));
    assert!(capacity_leaves_room(ROOM_LIMIT - 1));
    assert!(!capacity_leaves_room(ROOM_LIMIT));
    assert!(!capacity_leaves_room(usize::MAX));
}

#[test]
fn a_node_is_put_in_exactly_where_room_is_said_to_be() {
    let mut tree = QuadTree::new(1, 8, [0, 0]).unwrap();
    assert_eq!(tree.insert_node_with_room(TreeNode::from_bounds(ONE, vec![0, 0]), false), None);
    assert_eq!(tree.iter_leaf_nodes().len(), 1);
    let key = tree.insert_node_with_room(TreeNode::from_bounds(2 * ONE, vec![ONE, 0]), true).unwrap();
    assert_eq!(tree.get_node(key).unwrap().size(), 2 * ONE);
    assert_eq!(tree.iter_leaf_nodes().len(), 2);
}

#[test]
fn a_key_that_was_taken_out_names_no_node_that_comes_later() {
    let mut tree = QuadTree::new(1, 8, [0, 0]).unwrap();
    let key = tree.insert_node(TreeNode::from_bounds(3 * ONE, vec![ONE, 2 * ONE]));
    assert!(tree.remove_node(key).is_some());
    let next = tree.insert_node(TreeNode::from_bounds(2 * ONE, vec![0, 0]));
    assert_ne!(next, key);
    assert!(tree.get_node(key).is_none());
    assert!(tree.get_mut_node(key).is_none());
    assert_eq!(tree.get_node(next).unwrap().size(), 2 * ONE);
}
