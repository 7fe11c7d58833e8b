use spatial_trees::node_traits::{
    all_neighbor_directions, child_position, child_positions_in_direction,
    neighbor_dir_from_index, neighbor_index,
};

#[test]
fn child_position_follows_the_bits_of_the_index() {
    assert_eq!(child_position::<2>(0), [-1, -1]);
    assert_eq!(child_position::<2>(1), [1, -1]);
    assert_eq!(child_position::<2>(2), [-1, 1]);
    assert_eq!(child_position::<2>(3), [1, 1]);
    assert_eq!(child_position::<3>(0), [-1, -1, -1]);
    assert_eq!(child_position::<3>(4), [-1, -1, 1]);
    assert_eq!(child_position::<3>(5), [1, -1, 1]);
    assert_eq!(child_position::<3>(7), [1, 1, 1]);
}

#[test]
fn neighbor_index_numbers_the_faces() {
    assert_eq!(neighbor_index::<2>([-1, 0]), Some(0));
    assert_eq!(neighbor_index::<2>([1, 0]), Some(1));
    assert_eq!(neighbor_index::<2>([0, -1]), Some(2));
    assert_eq!(neighbor_index::<2>([0, 1]), Some(3));
    assert_eq!(neighbor_index::<3>([0, 0, -1]), Some(4));
    assert_eq!(neighbor_index::<3>([0, 0, 1]), Some(5));
    assert_eq!(neighbor_index::<3>([0, 0, 0]), None);
    assert_eq!(neighbor_index::<2>([2, 0]), None);
}

#[test]
fn neighbor_index_adds_the_weights_of_a_diagonal() {
    assert_eq!(neighbor_index::<2>([1, 1]), Some(5));
    assert_eq!(neighbor_index::<2>([-1, 1]), Some(4));
}

#[test]
fn neighbor_dir_from_index_inverts_neighbor_index() {
    for i in 0..4 {
        assert_eq!(neighbor_index::<2>(neighbor_dir_from_index::<2>(i)), Some(i));
    }
    for i in 0..6 {
        assert_eq!(neighbor_index::<3>(neighbor_dir_from_index::<3>(i)), Some(i));
    }
    assert_eq!(neighbor_dir_from_index::<2>(4), [0, 0]);
}

#[test]
fn all_neighbor_directions_lists_every_face_once() {
    assert_eq!(all_neighbor_directions::<2>(), vec![[-1, 0], [1, 0], [0, -1], [0, 1]]);
    assert_eq!(
        all_neighbor_directions::<3>(),
        vec![[-1, 0, 0], [1, 0, 0], [0, -1, 0], [0, 1, 0], [0, 0, -1], [0, 0, 1]]
    );
}

#[test]
fn child_positions_in_direction_lists_one_side() {
    assert_eq!(child_positions_in_direction::<2>([1, 0]), vec![[1, -1], [1, 1]]);
    assert_eq!(child_positions_in_direction::<2>([0, -1]), vec![[-1, -1], [1, -1]]);
    assert_eq!(
        child_positions_in_direction::<3>([0, 1, 0]),
        vec![[-1, 1, -1], [1, 1, -1], [-1, 1, 1], [1, 1, 1]]
    );
    assert_eq!(
        child_positions_in_direction::<3>([0, 0, -1]),
        vec![[-1, -1, -1], [1, -1, -1], [-1, 1, -1], [1, 1, -1]]
    );
}
