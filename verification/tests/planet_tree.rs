use spatial_trees::fixed::ONE;
use spatial_trees::planet_tree::{Direction, PlanetTree, PlanetTreeNode, TreeError, TreeEvent};
use spatial_trees::planet_tree_impl::map_from_dir_to_dir;
use spatial_trees::NodeKey;

#[test]
fn a_new_planet_has_six_roots() {
    let tree = PlanetTree::new(1, 100, [0, 0, 0]).unwrap();
    let roots = tree.root_items();
    assert_eq!(roots.len(), 6);
    assert_eq!(tree.iter_leaf_nodes().len(), 6);
    let faces = [
        (Direction::XNeg, [-50, 0, 0], [0, 0]),
        (Direction::XPos, [50, 0, 0], [0, 0]),
        (Direction::YNeg, [0, -50, 0], [0, 0]),
        (Direction::YPos, [0, 50, 0], [0, 0]),
        (Direction::ZNeg, [0, 0, -50], [0, 0]),
        (Direction::ZPos, [0, 0, 50], [0, 0]),
    ];
    for (i, (face, world, local)) in faces.iter().enumerate() {
        let node = tree.get_node(roots[i]).unwrap();
        assert_eq!(node.direction(), *face);
        assert_eq!(node.size(), 100 * ONE);
        assert_eq!(node.world_position(), [world[0] * ONE, world[1] * ONE, world[2] * ONE]);
        assert_eq!(node.pos(), &vec![local[0] * ONE, local[1] * ONE]);
    }
}

#[test]
fn a_planet_off_the_origin_keeps_local_coordinates() {
    let tree = PlanetTree::new(1, 10, [1, 2, 3]).unwrap();
    let roots = tree.root_items();
    let x_pos = tree.get_node(roots[1]).unwrap();
    assert_eq!(x_pos.world_position(), [6 * ONE, 2 * ONE, 3 * ONE]);
    assert_eq!(x_pos.pos(), &vec![2 * ONE, 3 * ONE]);
    let y_neg = tree.get_node(roots[2]).unwrap();
    assert_eq!(y_neg.world_position(), [ONE, -3 * ONE, 3 * ONE]);
    assert_eq!(y_neg.pos(), &vec![ONE, 3 * ONE]);
}

#[test]
fn a_planet_needs_a_smallest_size_and_a_root_not_below_it() {
    assert_eq!(PlanetTree::new(0, 10, [0, 0, 0]).err(), Some(TreeError::MinSizeNotPositive));
    assert_eq!(PlanetTree::new(11, 10, [0, 0, 0]).err(), Some(TreeError::RootBelowMinSize));
}

#[test]
fn growing_one_face_reaches_the_next_face_across_the_edge() {
    let mut tree = PlanetTree::new(1, 100, [0, 0, 0]).unwrap();
    let roots = tree.root_items();
    let events = tree.insert_and_update_neighbors(|node: &PlanetTreeNode| {
        node.direction() == Direction::YPos && node.depth() == 0
    });
    assert_eq!(events.len(), 1);
    let children = match &events[0] {
        TreeEvent::Grown { parent, children } => {
            assert_eq!(*parent, roots[3]);
            assert_eq!(children.len(), 4);
            children.clone()
        }
        other => panic!("unexpected event {:?}", other),
    };
    for key in &children {
        let node = tree.get_node(*key).unwrap();
        assert_eq!(node.direction(), Direction::YPos);
        assert_eq!(node.size(), 50 * ONE);
        assert_eq!(node.world_position()[1], 50 * ONE);
        assert_eq!(node.world_position()[0], node.pos()[0]);
        assert_eq!(node.world_position()[2], node.pos()[1]);
    }
    assert_eq!(tree.get_neighbors(children[1], [1, 0]), vec![roots[1]]);
    assert_eq!(tree.get_neighbors(children[3], [1, 0]), vec![roots[1]]);
    assert_eq!(tree.get_neighbors(children[0], [1, 0]), vec![children[1]]);
    assert_eq!(tree.get_neighbors(children[0], [-1, 0]), vec![roots[0]]);
    assert_eq!(tree.get_neighbors(children[0], [0, -1]), vec![roots[4]]);
    assert_eq!(tree.get_neighbors(children[2], [0, 1]), vec![roots[5]]);
    assert_eq!(tree.iter_leaf_nodes().len(), 5 + 4);
}

#[test]
fn every_leaf_of_a_planet_lies_on_a_face() {
    let mut tree = PlanetTree::new(1, 16, [0, 0, 0]).unwrap();
    tree.insert_and_update_neighbors(|node: &PlanetTreeNode| node.depth() < 2);
    let leaves = tree.iter_leaf_nodes();
    assert_eq!(leaves.len(), 6 * 16);
    for (_, node) in leaves {
        assert_ne!(node.direction(), Direction::NoDirection);
    }
    assert_eq!(tree.root_items().len(), 6);
}

#[test]
fn neighbors_across_a_turned_edge_look_back() {
    let mut tree = PlanetTree::new(1, 16, [0, 0, 0]).unwrap();
    tree.insert_and_update_neighbors(|node: &PlanetTreeNode| {
        node.depth() < 2 && matches!(node.direction(), Direction::ZPos | Direction::XPos)
    });
    let leaves: Vec<(NodeKey, Direction, Vec<i128>, i128)> = tree
        .iter_leaf_nodes()
        .iter()
        .map(|(key, node)| (*key, node.direction(), node.pos().clone(), node.size()))
        .collect();
    let mut pairs = 0;
    for (key, face, pos, size) in &leaves {
        if *face != Direction::ZPos || pos[0] + size / 2 != 8 * ONE {
            continue;
        }
        let across = tree.get_neighbors(*key, [1, 0]);
        assert_eq!(across.len(), 1);
        for other in across {
            let node = tree.get_node(other).unwrap();
            assert_eq!(node.direction(), Direction::XPos);
            let back = map_from_dir_to_dir(Direction::ZPos, Direction::XPos, [-1, 0]);
            assert_eq!(tree.get_neighbors(other, back), vec![*key]);
            pairs += 1;
        }
    }
    assert_eq!(pairs, 4);
}

#[test]
fn the_face_of_a_node_can_be_set() {
    let mut node = PlanetTreeNode::new(2 * ONE, vec![0, 0], [ONE, 0, 0], Direction::XPos);
    assert_eq!(node.direction(), Direction::XPos);
    assert_eq!(node.world_position(), [ONE, 0, 0]);
    node.set_direction(Direction::ZNeg);
    assert_eq!(node.direction(), Direction::ZNeg);
    assert_eq!(node.size(), 2 * ONE);
}

#[test]
fn a_planet_is_a_tree_of_the_plane_with_six_roots() {
    let mut planet = PlanetTree::new(1, 8, [0, 0, 0]).unwrap();
    let roots = planet.root_items();
    assert_eq!(planet.tree().root_items(), roots);
    let events = planet.tree_mut().insert(|node: &PlanetTreeNode| {
        node.depth() == 0 && node.direction() == Direction::XNeg
    });
    assert_eq!(events.len(), 1);
    assert_eq!(planet.iter_leaf_nodes().len(), 5 + 4);
    let events = planet.insert(|_: &PlanetTreeNode| false);
    assert_eq!(events.len(), 1);
    assert_eq!(planet.get_node(roots[0]).unwrap().direction(), Direction::XNeg);
    assert_eq!(planet.iter_leaf_nodes().len(), 6);
}

fn back_direction(tree: &PlanetTree, from: NodeKey, to: NodeKey, direction: [i32; 2]) -> [i32; 2] {
    let from_face = tree.get_node(from).unwrap().direction();
    let to_face = tree.get_node(to).unwrap().direction();
    map_from_dir_to_dir(from_face, to_face, [-direction[0], -direction[1]])
}

#[test]
fn an_unsplit_face_finds_the_leaves_along_the_edge_of_a_split_face() {
    let mut tree = PlanetTree::new(1, 100, [0, 0, 0]).unwrap();
    let roots = tree.root_items();
    tree.insert(|node: &PlanetTreeNode| node.direction() == Direction::ZPos && node.depth() == 0);
    let children = tree.get_node(roots[5]).unwrap().children().unwrap().clone();
    // The edge between X+ and Z+ lies at the high x side of Z+.
    let mut found = tree.get_neighbors(roots[1], [0, 1]);
    let mut expected = vec![children[1], children[3]];
    found.sort();
    expected.sort();
    assert_eq!(found, expected);
    for key in expected {
        assert_eq!(tree.get_neighbors(key, [1, 0]), vec![roots[1]]);
    }
    assert_eq!(tree.get_neighbors(children[0], [-1, 0]), vec![roots[0]]);
    // The edge between Y+ and Z+ lies at the high y side of Z+.
    let mut found = tree.get_neighbors(roots[3], [0, 1]);
    let mut expected = vec![children[2], children[3]];
    found.sort();
    expected.sort();
    assert_eq!(found, expected);
}

#[test]
fn a_face_split_twice_shows_its_edge_leaves_to_the_face_next_to_it() {
    let mut tree = PlanetTree::new(1, 16, [0, 0, 0]).unwrap();
    let roots = tree.root_items();
    tree.insert_and_update_neighbors(|node: &PlanetTreeNode| {
        node.direction() == Direction::ZPos && node.depth() < 2
    });
    let mut edge: Vec<NodeKey> = tree
        .iter_leaf_nodes()
        .iter()
        .filter(|(_, node)| node.direction() == Direction::ZPos && node.pos()[0] == 6 * ONE)
        .map(|(key, _)| *key)
        .collect();
    assert_eq!(edge.len(), 4);
    for key in &edge {
        assert_eq!(tree.get_neighbors(*key, [1, 0]), vec![roots[1]]);
        assert_eq!(tree.get_node(*key).unwrap().neighbor_sizes()[1], 16 * ONE);
    }
    let mut found = tree.get_neighbors(roots[1], [0, 1]);
    found.sort();
    edge.sort();
    assert_eq!(found, edge);
}

#[test]
fn a_mirrored_edge_is_entered_from_the_side_of_the_edge() {
    let mut tree = PlanetTree::new(1, 16, [0, 0, 0]).unwrap();
    let roots = tree.root_items();
    tree.insert(|node: &PlanetTreeNode| node.direction() == Direction::YPos && node.depth() == 0);
    let children = tree.get_node(roots[3]).unwrap().children().unwrap().clone();
    // The edge between X+ and Y+ lies at the high x side of Y+.
    let mut found = tree.get_neighbors(roots[1], [1, 0]);
    let mut expected = vec![children[1], children[3]];
    found.sort();
    expected.sort();
    assert_eq!(found, expected);
    // The edge between X- and Y+ lies at the low x side of Y+.
    let mut found = tree.get_neighbors(roots[0], [1, 0]);
    let mut expected = vec![children[0], children[2]];
    found.sort();
    expected.sort();
    assert_eq!(found, expected);
}

#[test]
fn every_leaf_of_an_uneven_planet_is_found_back_by_its_neighbors() {
    let mut tree = PlanetTree::new(1, 64, [0, 0, 0]).unwrap();
    tree.insert_and_update_neighbors(|node: &PlanetTreeNode| {
        let world = node.world_position();
        let near = (world[0] - 32 * ONE).abs() + (world[1] - 20 * ONE).abs() + (world[2] - 28 * ONE).abs();
        near < 3 * node.size() && node.depth() < 4
    });
    let leaves: Vec<NodeKey> = tree.iter_leaf_nodes().iter().map(|(key, _)| *key).collect();
    assert!(leaves.len() > 40);
    let mut crossings = 0;
    for leaf in &leaves {
        let own = tree.get_node(*leaf).unwrap();
        for (face, direction) in [[-1, 0], [1, 0], [0, -1], [0, 1]].iter().enumerate() {
            let found = tree.get_neighbors(*leaf, *direction);
            assert!(!found.is_empty());
            let mut coarsest = own.size();
            for other in &found {
                let node = tree.get_node(*other).unwrap();
                assert!(!node.has_children());
                if node.direction() != own.direction() {
                    crossings += 1;
                }
                coarsest = coarsest.max(node.size());
                let back = back_direction(&tree, *leaf, *other, *direction);
                assert!(tree.get_neighbors(*other, back).contains(leaf));
            }
            let mut once = found.clone();
            once.sort();
            once.dedup();
            assert_eq!(once.len(), found.len());
            assert_eq!(own.neighbor_sizes()[face], coarsest);
        }
    }
    assert!(crossings > 20);
}

#[test]
fn a_leaf_of_a_face_is_split_on_its_face() {
    let mut tree = PlanetTree::new(1, 8, [2, 0, -2]).unwrap();
    let roots = tree.root_items();
    assert!(tree.has_room());
    let children = tree.create_children(roots[4]);
    assert_eq!(children.len(), 4);
    let parent = tree.get_node(roots[4]).unwrap();
    assert_eq!(parent.children(), Some(&children));
    assert_eq!(parent.world_position(), [2 * ONE, 0, -6 * ONE]);
    let signs = [[-1, -1], [1, -1], [-1, 1], [1, 1]];
    for (i, key) in children.iter().enumerate() {
        let child = tree.get_node(*key).unwrap();
        assert_eq!(child.get_parent(), Some(roots[4]));
        assert_eq!(child.direction(), Direction::ZNeg);
        assert_eq!(child.depth(), 1);
        assert_eq!(child.size(), 4 * ONE);
        assert!(!child.has_children());
        assert_eq!(child.neighbor_sizes(), &vec![-ONE; 4]);
        let local = [(2 + 2 * signs[i][0]) * ONE, 2 * signs[i][1] * ONE];
        assert_eq!(child.pos(), &vec![local[0], local[1]]);
        assert_eq!(child.world_position(), [local[0], local[1], -6 * ONE]);
    }
    assert_eq!(tree.iter_leaf_nodes().len(), 9);
}

#[test]
fn sizes_across_an_edge_are_kept_on_both_sides() {
    let mut tree = PlanetTree::new(1, 16, [0, 0, 0]).unwrap();
    let roots = tree.root_items();
    tree.insert_and_update_neighbors(|node: &PlanetTreeNode| {
        node.direction() == Direction::ZPos && node.depth() < 2
    });
    // The face of a root that looks at Z+ sees leaves smaller than the root;
    // its other faces have not been looked at.
    for face in 0..4 {
        let root = tree.get_node(roots[face]).unwrap();
        assert_eq!(root.neighbor_sizes(), &vec![-ONE, -ONE, -ONE, 16 * ONE]);
    }
    assert_eq!(tree.get_node(roots[4]).unwrap().neighbor_sizes(), &vec![-ONE; 4]);
    // The leaves of Z+ along the edges see the roots of the faces next to them.
    for (key, node) in tree.iter_leaf_nodes() {
        if node.direction() != Direction::ZPos {
            continue;
        }
        assert_eq!(node.size(), 4 * ONE);
        let at_edge = [
            node.pos()[0] == -6 * ONE,
            node.pos()[0] == 6 * ONE,
            node.pos()[1] == -6 * ONE,
            node.pos()[1] == 6 * ONE,
        ];
        let faces = [Direction::XNeg, Direction::XPos, Direction::YNeg, Direction::YPos];
        let directions = [[-1, 0], [1, 0], [0, -1], [0, 1]];
        for face in 0..4 {
            let found = tree.get_neighbors(key, directions[face]);
            if at_edge[face] {
                assert_eq!(found, vec![roots[faces[face].index()]]);
                assert_eq!(node.neighbor_sizes()[face], 16 * ONE);
            } else {
                assert_eq!(found.len(), 1);
                assert_eq!(tree.get_node(found[0]).unwrap().direction(), Direction::ZPos);
                assert_eq!(node.neighbor_sizes()[face], 4 * ONE);
            }
        }
    }
}

fn axis_and_side(face: Direction) -> (usize, i128) {
    (face.index() / 2, if face.index() % 2 == 1 { 1 } else { -1 })
}

fn lies_across_the_edge(node: &PlanetTreeNode, other: &PlanetTreeNode) -> bool {
    let (a, side_a) = axis_and_side(node.direction());
    let (b, side_b) = axis_and_side(other.direction());
    if a == b {
        return false;
    }
    let edge = 3 - a - b;
    let n = node.world_position();
    let m = other.world_position();
    m[a] + side_a * (other.size() / 2) == n[a]
        && n[b] + side_b * (node.size() / 2) == m[b]
        && n[edge] - node.size() / 2 < m[edge] + other.size() / 2
        && m[edge] - other.size() / 2 < n[edge] + node.size() / 2
}

#[test]
fn across_every_edge_of_the_cube_the_leaves_along_the_edge_are_found() {
    let faces = [
        Direction::XNeg,
        Direction::XPos,
        Direction::YNeg,
        Direction::YPos,
        Direction::ZNeg,
        Direction::ZPos,
    ];
    let mut crossings = 0;
    for split in faces {
        let mut tree = PlanetTree::new(1, 32, [3, -5, 7]).unwrap();
        tree.insert(|node: &PlanetTreeNode| node.direction() == split && node.depth() < 2);
        let leaves = tree.iter_leaf_nodes();
        assert_eq!(leaves.len(), 5 + 16);
        for (key, node) in &leaves {
            for direction in [[-1, 0], [1, 0], [0, -1], [0, 1]] {
                let found = tree.get_neighbors(*key, direction);
                let first = tree.get_node(found[0]).unwrap();
                if first.direction() == node.direction() {
                    continue;
                }
                crossings += 1;
                let mut expected: Vec<NodeKey> = leaves
                    .iter()
                    .filter(|(_, other)| {
                        other.direction() == first.direction() && lies_across_the_edge(node, other)
                    })
                    .map(|(other, _)| *other)
                    .collect();
                let mut found = found;
                found.sort();
                expected.sort();
                assert_eq!(found, expected);
                assert_eq!(found.len(), if node.direction() == split || first.direction() != split { 1 } else { 4 });
            }
        }
    }
    assert_eq!(crossings, 6 * (4 * 4 + 5 * 4));
}

#[test]
fn the_leaves_along_a_turned_edge_are_those_that_touch_it() {
    // One unit is a tenth: a cube of edge 10 around the origin, split on Z+
    // while a node is at least 5 long.
    let mut tree = PlanetTree::new(1, 100, [0, 0, 0]).unwrap();
    tree.insert(|node: &PlanetTreeNode| {
        node.direction() == Direction::ZPos && node.size() >= 50 * ONE
    });
    let x_pos = tree.root_items()[1];
    let high = 37 * ONE + ONE / 2;
    let mut edge: Vec<NodeKey> = tree
        .iter_leaf_nodes()
        .iter()
        .filter(|(_, node)| node.direction() == Direction::ZPos && node.pos()[0] == high)
        .map(|(key, _)| *key)
        .collect();
    assert_eq!(edge.len(), 4);
    for key in &edge {
        assert_eq!(tree.get_node(*key).unwrap().size(), 25 * ONE);
        assert_eq!(tree.get_neighbors(*key, [1, 0]), vec![x_pos]);
    }
    let mut found = tree.get_neighbors(x_pos, [0, 1]);
    for key in &found {
        let back = back_direction(&tree, x_pos, *key, [0, 1]);
        assert_eq!(back, [1, 0]);
    }
    found.sort();
    edge.sort();
    assert_eq!(found, edge);
}
