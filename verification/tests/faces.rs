use spatial_trees::planet_tree_impl::{
    map_from_dir_and_local_pos, map_from_dir_and_world_pos, map_from_dir_to_dir,
    map_neighbor_index, map_to_neighbor, mirror, simple_rotate, transform_from_dir_to_dir,
    Direction, NeighborTransform,
};

const FACES: [Direction; 6] = [
    Direction::XNeg,
    Direction::XPos,
    Direction::YNeg,
    Direction::YPos,
    Direction::ZNeg,
    Direction::ZPos,
];

#[test]
fn direction_from_index() {
    for (i, face) in FACES.iter().enumerate() {
        assert_eq!(Direction::from(i), *face);
        assert_eq!(face.index(), i);
    }
    assert_eq!(Direction::from(6usize), Direction::NoDirection);
    assert_eq!(Direction::from(17usize), Direction::NoDirection);
}

#[test]
fn direction_from_vector() {
    assert_eq!(Direction::from([1, 0, 0]), Direction::XPos);
    assert_eq!(Direction::from([-1, 0, 0]), Direction::XNeg);
    assert_eq!(Direction::from([0, 1, 0]), Direction::YPos);
    assert_eq!(Direction::from([0, -1, 0]), Direction::YNeg);
    assert_eq!(Direction::from([0, 0, 1]), Direction::ZPos);
    assert_eq!(Direction::from([0, 0, -1]), Direction::ZNeg);
    assert_eq!(Direction::from([1, 1, 0]), Direction::NoDirection);
    assert_eq!(Direction::from([0, 0, 0]), Direction::NoDirection);
    for face in FACES {
        assert_eq!(Direction::from(face.unit_vector()), face);
    }
    assert_eq!(Direction::NoDirection.unit_vector(), [0, 0, 0]);
}

#[test]
fn simple_rotate_turns_by_a_quarter() {
    assert_eq!(simple_rotate(true, [1, 0]), [0, -1]);
    assert_eq!(simple_rotate(true, [0, 1]), [1, 0]);
    assert_eq!(simple_rotate(false, [1, 0]), [0, 1]);
    assert_eq!(simple_rotate(false, [0, 1]), [-1, 0]);
    assert_eq!(simple_rotate(false, simple_rotate(true, [3, -7])), [3, -7]);
}

#[test]
fn mirror_flips_one_component() {
    assert_eq!(mirror(0, [1, -1]), [-1, -1]);
    assert_eq!(mirror(1, [1, -1]), [1, 1]);
}

#[test]
fn map_to_neighbor_names_the_face_across_each_edge() {
    assert_eq!(
        map_to_neighbor(Direction::YPos, [1, 0]),
        (Direction::XPos, NeighborTransform::Mirror { axis: 0 })
    );
    assert_eq!(
        map_to_neighbor(Direction::XPos, [0, 1]),
        (Direction::ZPos, NeighborTransform::Rotate { clockwise: false })
    );
    assert_eq!(
        map_to_neighbor(Direction::XPos, [0, -1]),
        (Direction::ZNeg, NeighborTransform::RotateMirror { clockwise: true, axis: 1 })
    );
    assert_eq!(
        map_to_neighbor(Direction::ZNeg, [-1, 0]),
        (Direction::XNeg, NeighborTransform::Rotate { clockwise: true })
    );
    assert_eq!(
        map_to_neighbor(Direction::XPos, [-1, 0]),
        (Direction::YNeg, NeighborTransform::Identity)
    );
    assert_eq!(
        map_to_neighbor(Direction::ZPos, [0, 0]),
        (Direction::NoDirection, NeighborTransform::Identity)
    );
    assert_eq!(
        map_to_neighbor(Direction::NoDirection, [1, 0]),
        (Direction::NoDirection, NeighborTransform::Identity)
    );
}

#[test]
fn transform_between_opposite_faces() {
    assert_eq!(
        transform_from_dir_to_dir(Direction::XPos, Direction::XNeg),
        NeighborTransform::Mirror { axis: 0 }
    );
    assert_eq!(
        transform_from_dir_to_dir(Direction::YNeg, Direction::YPos),
        NeighborTransform::Mirror { axis: 1 }
    );
    assert_eq!(
        transform_from_dir_to_dir(Direction::ZPos, Direction::ZPos),
        NeighborTransform::Identity
    );
}

#[test]
fn map_from_dir_to_dir_round_trip() {
    for from in FACES {
        for to in FACES {
            for v in [[1, 0], [-1, 0], [0, 1], [0, -1], [1, -1], [5, 9]] {
                assert_eq!(map_from_dir_to_dir(to, from, map_from_dir_to_dir(from, to, v)), v);
            }
        }
    }
}

#[test]
fn map_from_dir_to_dir_applies_the_transform() {
    assert_eq!(map_from_dir_to_dir(Direction::XPos, Direction::ZPos, [1, 0]), [0, 1]);
    assert_eq!(map_from_dir_to_dir(Direction::XPos, Direction::ZNeg, [1, 0]), [0, 1]);
    assert_eq!(map_from_dir_to_dir(Direction::ZPos, Direction::XPos, [0, 1]), [1, 0]);
    assert_eq!(map_from_dir_to_dir(Direction::YPos, Direction::XPos, [1, 0]), [-1, 0]);
    assert_eq!(map_from_dir_to_dir(Direction::YPos, Direction::YPos, [1, 0]), [1, 0]);
}

#[test]
fn map_neighbor_index_moves_a_face_index() {
    assert_eq!(map_neighbor_index(Direction::YPos, Direction::XPos, 1), 0);
    assert_eq!(map_neighbor_index(Direction::YPos, Direction::XPos, 0), 1);
    assert_eq!(map_neighbor_index(Direction::XPos, Direction::ZPos, 1), 3);
    assert_eq!(map_neighbor_index(Direction::XPos, Direction::ZPos, 3), 0);
    assert_eq!(map_neighbor_index(Direction::ZPos, Direction::ZPos, 2), 2);
}

#[test]
fn local_and_world_positions() {
    assert_eq!(map_from_dir_and_world_pos(Direction::XPos, [1, 2, 3]), [2, 3]);
    assert_eq!(map_from_dir_and_world_pos(Direction::YNeg, [1, 2, 3]), [1, 3]);
    assert_eq!(map_from_dir_and_world_pos(Direction::ZPos, [1, 2, 3]), [1, 2]);
    assert_eq!(map_from_dir_and_world_pos(Direction::NoDirection, [1, 2, 3]), [0, 0]);
    assert_eq!(map_from_dir_and_local_pos(Direction::XNeg, [8, 9], [1, 2, 3]), [1, 8, 9]);
    assert_eq!(map_from_dir_and_local_pos(Direction::YPos, [8, 9], [1, 2, 3]), [8, 2, 9]);
    assert_eq!(map_from_dir_and_local_pos(Direction::ZNeg, [8, 9], [1, 2, 3]), [8, 9, 3]);
    assert_eq!(map_from_dir_and_local_pos(Direction::NoDirection, [8, 9], [1, 2, 3]), [1, 2, 3]);
}

#[test]
fn mirror_and_rotate_leave_the_other_component_as_it_is() {
    assert_eq!(mirror(0, [5, i32::MIN]), [-5, i32::MIN]);
    assert_eq!(mirror(1, [i32::MIN, 5]), [i32::MIN, -5]);
    assert_eq!(mirror(0, mirror(0, [i32::MAX, i32::MIN])), [i32::MAX, i32::MIN]);
    assert_eq!(simple_rotate(true, [3, i32::MIN]), [i32::MIN, -3]);
    assert_eq!(simple_rotate(false, [i32::MIN, 3]), [-3, i32::MIN]);
}

#[test]
fn a_change_of_coordinates_asks_only_for_the_signs_it_turns() {
    assert_eq!(
        map_from_dir_to_dir(Direction::XPos, Direction::YNeg, [i32::MIN, i32::MIN]),
        [i32::MIN, i32::MIN]
    );
    assert_eq!(map_from_dir_to_dir(Direction::XPos, Direction::YPos, [5, i32::MIN]), [-5, i32::MIN]);
    assert_eq!(map_from_dir_to_dir(Direction::ZPos, Direction::XPos, [3, i32::MIN]), [i32::MIN, -3]);
    assert_eq!(map_from_dir_to_dir(Direction::XPos, Direction::ZNeg, [3, 4]), [4, 3]);
}
