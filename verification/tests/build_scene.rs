use softbody::build_scene::count_neighbours;
use softbody::build_scene::get_boundary_nodes;
use softbody::build_scene::FULL_NEIGHBOURHOOD;
use softbody::scene::ConnectionMap;

#[test]
fn counts_the_bonds_at_each_node() {
    let mut connections: ConnectionMap<f32> = ConnectionMap::new();
    connections.insert(0, 1, 0.1);
    connections.insert(1, 2, 0.1);
    connections.insert(3, 1, 0.1);
    connections.insert(0, 3, 0.1);
    assert_eq!(count_neighbours(&connections, 5), vec![2, 3, 1, 2, 0]);
}

#[test]
fn counts_of_no_bonds_are_zero() {
    let connections: ConnectionMap<f32> = ConnectionMap::new();
    assert_eq!(count_neighbours(&connections, 3), vec![0, 0, 0]);
    assert!(count_neighbours(&connections, 0).is_empty());
}

#[test]
fn surface_nodes_have_fewer_than_four_neighbours() {
    assert_eq!(FULL_NEIGHBOURHOOD, 4);
    let counts = vec![2, 3, 4, 8, 0, 4, 3];
    assert_eq!(get_boundary_nodes(&counts, 0), vec![0, 1, 4, 6]);
}

#[test]
fn surface_nodes_are_shifted_by_the_offset_of_their_body() {
    let counts = vec![4, 2, 5, 3];
    assert_eq!(get_boundary_nodes(&counts, 64), vec![65, 67]);
    assert!(get_boundary_nodes(&Vec::new(), 64).is_empty());
}

#[test]
fn a_three_by_three_lattice_has_one_interior_node() {
    // node 3 * y + x, bonded to its right and upper neighbour
    let mut connections: ConnectionMap<f32> = ConnectionMap::new();
    for y in 0..3usize {
        for x in 0..3usize {
            if x + 1 < 3 {
                connections.insert(3 * y + x, 3 * y + x + 1, 0.1);
            }
            if y + 1 < 3 {
                connections.insert(3 * y + x, 3 * (y + 1) + x, 0.1);
            }
        }
    }
    let counts = count_neighbours(&connections, 9);
    assert_eq!(counts, vec![2, 3, 2, 3, 4, 3, 2, 3, 2]);
    assert_eq!(get_boundary_nodes(&counts, 0), vec![0, 1, 2, 3, 5, 6, 7, 8]);
}
